use yaaocr::aoc_proxy::{
    classify_response, input_url, puzzle_url, render_puzzle, submission_answer,
    submit_error_message, submit_url, PuzzlePart, SessionTokenError, SubmitError, SubmitOutcome,
};
use yaaocr::runner::{
    elapsed_line, format_seconds, header_line, parse_expected, part_line, run_entries, total_line,
    verification_str, InputOutcome, ReportOutcome,
};
use yaaocr::filtered_solutions;

#[test]
fn verification_suffixes() {
    assert_eq!(verification_str("42".to_string(), Some("42".to_string())), " \u{2713}");
    assert_eq!(verification_str("42".to_string(), Some("41".to_string())), " \u{2717} (41)");
    assert_eq!(verification_str("42".to_string(), None), "");
}

#[test]
fn expected_file_lines() {
    assert_eq!(parse_expected("42\n43\n"), (Some("42".to_string()), Some("43".to_string())));
    assert_eq!(parse_expected("42"), (Some("42".to_string()), None));
    assert_eq!(parse_expected("42\n"), (Some("42".to_string()), None));
    assert_eq!(parse_expected(""), (None, None));
    assert_eq!(parse_expected("a\r\nb\r\n"), (Some("a".to_string()), Some("b".to_string())));
}

#[test]
fn runner_skips_missing_inputs() {
    let entries = filtered_solutions(Some(2015), None);
    assert_eq!(entries.len(), 10);
    let mut inputs = Vec::new();
    let mut expected = Vec::new();
    for i in 0..entries.len() {
        if i == 0 {
            inputs.push(InputOutcome::Loaded("(()".to_string()));
        } else if i == 1 {
            inputs.push(InputOutcome::ReadFailed("permission denied".to_string()));
        } else {
            inputs.push(InputOutcome::Missing);
        }
        expected.push(None);
    }
    let (reports, _total) = run_entries(&entries, inputs, expected, false);
    assert_eq!(reports.len(), 10);
    match &reports[0].outcome {
        ReportOutcome::Solved(s) => {
            assert_eq!(s.part1, "1");
            assert_eq!(s.part2, "unreachable-never-triggered");
            assert!(s.expected1.is_none());
            assert!(s.expected2.is_none());
        }
        _ => panic!("first entry should have been solved"),
    }
    match &reports[1].outcome {
        ReportOutcome::ReadError(m) => assert_eq!(m, "permission denied"),
        _ => panic!("second entry should have failed to read"),
    }
    for r in reports.iter().skip(2) {
        assert!(matches!(r.outcome, ReportOutcome::MissingInput));
    }
}

#[test]
fn runner_verifies_answers() {
    let entries = filtered_solutions(Some(2015), Some(1));
    let inputs = vec![InputOutcome::Loaded("(()".to_string())];
    let expected = vec![Some("1\n2\n".to_string())];
    let (reports, _total) = run_entries(&entries, inputs, expected, true);
    match &reports[0].outcome {
        ReportOutcome::Solved(s) => {
            assert_eq!(s.expected1.as_deref(), Some("1"));
            assert_eq!(s.expected2.as_deref(), Some("2"));
            assert_eq!(verification_str(s.part1.clone(), s.expected1.clone()), " \u{2713}");
        }
        _ => panic!("entry should have been solved"),
    }
}

#[test]
fn elapsed_formatting() {
    assert_eq!(format_seconds(1_234_567_890), "1.234s");
    assert_eq!(format_seconds(12_000_000), "0.012s");
    assert_eq!(format_seconds(0), "0.000s");
    assert_eq!(format_seconds(999_999_999), "0.999s");
    assert_eq!(format_seconds(2_000_000_000), "2.000s");
}

#[test]
fn urls() {
    assert_eq!(input_url(2015, 3), "https://adventofcode.com/2015/day/3/input");
    assert_eq!(puzzle_url(2015, 3), "https://adventofcode.com/2015/day/3");
    assert_eq!(submit_url(2025, 12), "https://adventofcode.com/2025/day/12/answer");
}

#[test]
fn session_token_message() {
    assert_eq!(
        SessionTokenError.message(),
        "Failed to find environment variable: 'AOC_SESSION_TOKEN'"
    );
}

#[test]
fn classify_correct() {
    let r = classify_response("<p>That's the right answer! You are one gold star closer.</p>");
    assert!(matches!(r, SubmitOutcome::Correct));
}

#[test]
fn classify_incorrect() {
    let r = classify_response("That's not the right answer; your answer is too low.");
    assert!(matches!(r, SubmitOutcome::IncorrectTooLow));
    let r = classify_response("That's not the right answer; your answer is too high.");
    assert!(matches!(r, SubmitOutcome::IncorrectTooHigh));
    let r = classify_response("That's not the right answer.");
    assert!(matches!(r, SubmitOutcome::Incorrect));
}

#[test]
fn classify_rate_limited() {
    let r = classify_response("You gave an answer too recently. You have 30s left to wait.");
    match r {
        SubmitOutcome::RateLimited(Some(hint)) => {
            assert_eq!(hint, "You have 30s left to wait.");
        }
        _ => panic!("should be rate limited with a hint"),
    }
    let r = classify_response("You gave an answer too recently.");
    assert!(matches!(r, SubmitOutcome::RateLimited(None)));
}

#[test]
fn classify_wrong_level_and_unknown() {
    let r = classify_response("You don't seem to be solving the right level.");
    assert!(matches!(r, SubmitOutcome::WrongLevel));
    let r = classify_response("<html>an utterly unexpected page</html>");
    assert!(matches!(r, SubmitOutcome::Unrecognized));
}

#[test]
fn submission_picks_the_answer() {
    let input = InputOutcome::Loaded("(()".to_string());
    let r = submission_answer(2015, 1, &input, PuzzlePart::Part1);
    assert_eq!(r.unwrap(), "1");
}

#[test]
fn submission_errors() {
    let input = InputOutcome::Loaded("(()".to_string());
    assert!(matches!(
        submission_answer(2014, 1, &input, PuzzlePart::Part1),
        Err(SubmitError::NoSolution)
    ));
    assert!(matches!(
        submission_answer(2015, 1, &InputOutcome::Missing, PuzzlePart::Part1),
        Err(SubmitError::MissingInput)
    ));
    match submission_answer(
        2015,
        1,
        &InputOutcome::ReadFailed("broken pipe".to_string()),
        PuzzlePart::Part2,
    ) {
        Err(SubmitError::ReadFailed(m)) => assert_eq!(m, "broken pipe"),
        _ => panic!("should report the read failure"),
    }
}

#[test]
fn submission_error_messages() {
    assert_eq!(
        submit_error_message(&SubmitError::NoSolution, 2015, 1),
        "No solution found for 2015 Day 01"
    );
    assert_eq!(
        submit_error_message(&SubmitError::MultipleSolutions, 2015, 1),
        "Multiple solutions found for 2015 Day 01"
    );
    assert_eq!(
        submit_error_message(&SubmitError::MissingInput, 2015, 3),
        "Missing input! Download using `yaaocr download 2015 3 input`"
    );
    assert_eq!(
        submit_error_message(&SubmitError::ReadFailed("oops".to_string()), 2015, 3),
        "Failed to read input: oops"
    );
}

#[test]
fn puzzle_rendering_converts_articles() {
    let page = "<html><body>\
        <article class=\"day-desc\"><h2>Part One</h2><p>first</p></article>\
        <article class=\"day-desc\"><h2>Part Two</h2><p>second</p></article>\
        <article><p>not a description</p></article>\
        </body></html>";
    let md = render_puzzle(page);
    assert!(md.contains("Part One"));
    assert!(md.contains("Part Two"));
    assert!(!md.contains("not a description"));
    assert!(!md.contains("<h2>"));
    assert!(md.contains("\n\n"));
}

#[test]
fn report_lines() {
    assert_eq!(header_line(2015, 1), "2015 Day 01");
    assert_eq!(header_line(2025, 12), "2025 Day 12");
    assert_eq!(part_line(1, &"42".to_string(), &" \u{2713}".to_string()), "  Part 1: 42 \u{2713}");
    assert_eq!(part_line(2, &"7".to_string(), &"".to_string()), "  Part 2: 7");
    assert_eq!(elapsed_line(1_234_567_890), "Elapsed: 1.234s");
    assert_eq!(total_line(42_000_000), "Total elapsed time: 0.042s");
}
