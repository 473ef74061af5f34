use yaaocr::{
    all_solutions, check_year_day, expected_path, filtered_solutions, input_path, puzzle_path,
    run_solver, SolverId,
};

#[test]
fn validator_classic_range() {
    for year in 2015..2025 {
        for day in 1..=25 {
            assert!(check_year_day(year, day));
        }
        assert!(!check_year_day(year, 0));
        assert!(!check_year_day(year, 26));
    }
}

#[test]
fn validator_later_years() {
    assert!(check_year_day(2025, 1));
    assert!(check_year_day(2025, 12));
    assert!(!check_year_day(2025, 13));
    assert!(check_year_day(2030, 12));
    assert!(!check_year_day(2030, 25));
}

#[test]
fn validator_before_2015() {
    assert!(!check_year_day(2014, 1));
    assert!(!check_year_day(0, 10));
    assert!(!check_year_day(1999, 25));
}

#[test]
fn paths_are_stable_and_distinct() {
    assert_eq!(input_path(2015, 1), "input/2015/day01.txt");
    assert_eq!(input_path(2015, 1), input_path(2015, 1));
    assert_eq!(expected_path(2015, 1), "puzzle/2015/expected/day01.txt");
    assert_eq!(puzzle_path(2015, 1), "puzzle/2015/day01.md");
    assert_eq!(input_path(2025, 12), "input/2025/day12.txt");
    assert_ne!(input_path(2015, 1), input_path(2015, 2));
    assert_ne!(input_path(2015, 11), input_path(2016, 11));
    assert_ne!(expected_path(2015, 3), expected_path(2016, 3));
    assert_ne!(puzzle_path(2015, 3), puzzle_path(2015, 4));
}

#[test]
fn registry_is_ordered_and_unique() {
    let all = all_solutions();
    assert_eq!(all.len(), 10);
    for (i, s) in all.iter().enumerate() {
        assert_eq!(s.year, 2015);
        assert_eq!(s.day as usize, i + 1);
    }
}

#[test]
fn filter_without_criteria_keeps_all() {
    let all = all_solutions();
    let kept = filtered_solutions(None, None);
    assert_eq!(kept, all);
}

#[test]
fn filter_by_year_and_day() {
    let by_year = filtered_solutions(Some(2015), None);
    assert_eq!(by_year.len(), 10);
    let by_day = filtered_solutions(None, Some(3));
    assert_eq!(by_day.len(), 1);
    assert_eq!(by_day[0].day, 3);
    let one = filtered_solutions(Some(2015), Some(7));
    assert_eq!(one.len(), 1);
    assert_eq!(one[0].solver, SolverId::Y2015Day07);
    let none = filtered_solutions(Some(2016), None);
    assert_eq!(none.len(), 0);
    let none2 = filtered_solutions(Some(2015), Some(11));
    assert_eq!(none2.len(), 0);
}

#[test]
fn end_to_end_first_day() {
    let matched = filtered_solutions(Some(2015), Some(1));
    assert_eq!(matched.len(), 1);
    let (part1, part2) = run_solver(matched[0].solver, "(()");
    assert_eq!(part1, "1");
    assert_eq!(part2, "unreachable-never-triggered");
}

#[test]
fn end_to_end_first_day_negative_floor() {
    let matched = filtered_solutions(Some(2015), Some(1));
    let (part1, part2) = run_solver(matched[0].solver, "())");
    assert_eq!(part1, "-1");
    assert_eq!(part2, "3");
}
