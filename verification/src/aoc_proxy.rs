//! The logic around the remote puzzle service: the endpoint addresses,
//! picking the answer to submit, classifying the service's HTML reply,
//! and rendering a fetched puzzle statement. The network itself stays
//! with the caller.

use vstd::prelude::*;

verus! {

use vstd::string::StringSliceAdditionalSpecFns;
use vstd::string::StringExecFns;
use vstd::string::StrSliceExecFns;
use crate::util::text::dec_chars;
use crate::{spec_filtered, spec_registry};

/// The session credential was not found in the environment.
#[derive(Clone, Copy, Debug, PartialEq, Eq, Structural)]
pub struct SessionTokenError;

impl SessionTokenError {
    /// The message the error prints.
    pub fn message(&self) -> (s: String)
        ensures
            s@ == "Failed to find environment variable: 'AOC_SESSION_TOKEN'"@,
    {
        let mut s = String::new();
        s.append("Failed to find environment variable: 'AOC_SESSION_TOKEN'");
        proof {
            assert(s@ =~= "Failed to find environment variable: 'AOC_SESSION_TOKEN'"@);
        }
        s
    }
}

/// What a download should fetch.
#[derive(Clone, Copy, Debug, PartialEq, Eq, Structural)]
pub enum DownloadTarget {
    Input,
    Puzzle,
    Both,
}

/// Which half of a puzzle an answer is for.
#[derive(Clone, Copy, Debug, PartialEq, Eq, Structural)]
pub enum PuzzlePart {
    Part1,
    Part2,
}

pub open spec fn spec_input_url(year: u32, day: u32) -> Seq<char> {
    "https://adventofcode.com/"@ + dec_chars(year as nat) + "/day/"@ + dec_chars(day as nat)
        + "/input"@
}

pub open spec fn spec_puzzle_url(year: u32, day: u32) -> Seq<char> {
    "https://adventofcode.com/"@ + dec_chars(year as nat) + "/day/"@ + dec_chars(day as nat)
}

pub open spec fn spec_submit_url(year: u32, day: u32) -> Seq<char> {
    "https://adventofcode.com/"@ + dec_chars(year as nat) + "/day/"@ + dec_chars(day as nat)
        + "/answer"@
}

/// Where a puzzle's raw input is fetched from.
pub fn input_url(year: u32, day: u32) -> (s: String)
    ensures
        s@ == spec_input_url(year, day),
{
    let mut s = puzzle_url(year, day);
    s.append("/input");
    proof {
        assert(s@ =~= spec_input_url(year, day));
    }
    s
}

/// Where a puzzle's statement is fetched from.
pub fn puzzle_url(year: u32, day: u32) -> (s: String)
    ensures
        s@ == spec_puzzle_url(year, day),
{
    let mut s = String::new();
    s.append("https://adventofcode.com/");
    let y = crate::util::text::u64_to_dec(year as u64);
    s.append(y.as_str());
    s.append("/day/");
    let d = crate::util::text::u64_to_dec(day as u64);
    s.append(d.as_str());
    proof {
        assert(s@ =~= spec_puzzle_url(year, day));
    }
    s
}

/// Where an answer is posted to.
pub fn submit_url(year: u32, day: u32) -> (s: String)
    ensures
        s@ == spec_submit_url(year, day),
{
    let mut s = puzzle_url(year, day);
    s.append("/answer");
    proof {
        assert(s@ =~= spec_submit_url(year, day));
    }
    s
}

/// `needle` occurs in `hay` starting at character `i`.
pub open spec fn chars_at(hay: Seq<char>, needle: Seq<char>, i: int) -> bool {
    &&& 0 <= i
    &&& i + needle.len() <= hay.len()
    &&& hay.subrange(i, i + needle.len()) == needle
}

pub open spec fn chars_contain(hay: Seq<char>, needle: Seq<char>) -> bool {
    exists|i: int| chars_at(hay, needle, i)
}

/// Does `pat` occur in `s` starting at character `at`?
fn str_match_at(s: &str, at: usize, pat: &str) -> (r: bool)
    ensures
        r == chars_at(s@, pat@, at as int),
{
    let n = s.unicode_len();
    let m = pat.unicode_len();
    if m > n || at > n - m {
        return false;
    }
    let mut j: usize = 0;
    while j < m
        invariant
            j <= m,
            m == pat@.len(),
            n == s@.len(),
            at + m <= n,
            forall|q: int| 0 <= q < j ==> s@[at + q] == pat@[q],
        decreases m - j,
    {
        if s.get_char(at + j) != pat.get_char(j) {
            proof {
                assert(s@.subrange(at as int, at + m)[j as int] == s@[at + j]);
            }
            return false;
        }
        j = j + 1;
    }
    proof {
        assert(s@.subrange(at as int, at + m) =~= pat@);
    }
    true
}

/// Substring search over characters.
pub fn str_contains(s: &str, pat: &str) -> (r: bool)
    ensures
        r == chars_contain(s@, pat@),
{
    let n = s.unicode_len();
    let m = pat.unicode_len();
    if m > n {
        return false;
    }
    let bound = n - m;
    let mut i: usize = 0;
    loop
        invariant
            i <= bound,
            bound == s@.len() - pat@.len(),
            forall|q: int| 0 <= q < i ==> !chars_at(s@, pat@, q),
        ensures
            forall|q: int| 0 <= q <= bound ==> !chars_at(s@, pat@, q),
        decreases bound - i,
    {
        if str_match_at(s, i, pat) {
            return true;
        }
        if i == bound {
            break;
        }
        i = i + 1;
    }
    false
}

pub open spec fn is_digit_char(c: char) -> bool {
    '0' <= c <= '9'
}

/// The rate-limit reply names a wait: the fixed prefix, at least one
/// digit, then the fixed suffix.
pub open spec fn wait_match_at(s: Seq<char>, i: int, d: nat) -> bool {
    &&& d >= 1
    &&& chars_at(s, "You have "@, i)
    &&& (forall|q: int| i + 9 <= q < i + 9 + d ==> is_digit_char(#[trigger] s[q]))
    &&& chars_at(s, "s left to wait."@, i + 9 + d)
}

pub open spec fn has_wait_match(s: Seq<char>) -> bool {
    exists|i: int, d: nat| wait_match_at(s, i, d)
}

/// Find the wait-time sentence in a rate-limit reply, if there is one.
fn find_wait_hint(s: &str) -> (r: Option<String>)
    ensures
        (r matches Some(h) ==> exists|i: int, d: nat|
            #[trigger] wait_match_at(s@, i, d) && h@ == s@.subrange(i, i + 9 + d + 15)),
        (r is None ==> !has_wait_match(s@)),
{
    let n = s.unicode_len();
    proof {
        reveal_strlit("You have ");
        reveal_strlit("s left to wait.");
    }
    let mut i: usize = 0;
    while i < n
        invariant
            i <= n,
            n == s@.len(),
            "You have "@.len() == 9,
            "s left to wait."@.len() == 15,
            forall|q: int, d: nat| 0 <= q < i ==> !#[trigger] wait_match_at(s@, q, d),
        decreases n - i,
    {
        if str_match_at(s, i, "You have ") {
            // the digit run after the prefix
            let mut e: usize = i + 9;
            while e < n && '0' <= s.get_char(e) && s.get_char(e) <= '9'
                invariant
                    i + 9 <= e <= n,
                    n == s@.len(),
                    forall|q: int| i + 9 <= q < e ==> is_digit_char(#[trigger] s@[q]),
                decreases n - e,
            {
                e = e + 1;
            }
            if e > i + 9 && str_match_at(s, e, "s left to wait.") {
                let h = s.substring_char(i, e + 15);
                proof {
                    assert(wait_match_at(s@, i as int, (e - i - 9) as nat));
                }
                return Some(h.to_owned());
            }
            proof {
                assert forall|d: nat| !#[trigger] wait_match_at(s@, i as int, d) by {
                    reveal_strlit("s left to wait.");
                    if wait_match_at(s@, i as int, d) {
                        assert("s left to wait."@[0] == 's');
                        if i + 9 + d < e {
                            assert(is_digit_char(s@[i + 9 + d]));
                            assert(s@.subrange(i + 9 + d, i + 9 + d + 15)[0] == s@[i + 9 + d]);
                            assert(s@[i + 9 + d] == 's');
                            assert(!is_digit_char('s'));
                            assert(false);
                        } else if i + 9 + d == e {
                            assert(e > i + 9 || d == 0);
                        } else {
                            assert(e < i + 9 + d);
                            if e < n {
                                assert(is_digit_char(s@[e as int]));
                                assert(!('0' <= s@[e as int] <= '9'));
                                assert(false);
                            } else {
                                assert(i + 9 + d + 15 <= n);
                                assert(false);
                            }
                        }
                    }
                }
            }
        } else {
            proof {
                assert forall|d: nat| !#[trigger] wait_match_at(s@, i as int, d) by {}
            }
        }
        i = i + 1;
    }
    proof {
        assert forall|q: int, d: nat| !#[trigger] wait_match_at(s@, q, d) by {
            if wait_match_at(s@, q, d) {
                assert(0 <= q < n);
            }
        }
    }
    None
}

/// How the service judged a submission, read from its reply.
#[derive(Debug)]
pub enum SubmitOutcome {
    Correct,
    IncorrectTooLow,
    IncorrectTooHigh,
    Incorrect,
    RateLimited(Option<String>),
    WrongLevel,
    Unrecognized,
}

pub open spec fn says_correct(md: Seq<char>) -> bool {
    chars_contain(md, "That's the right answer"@)
}

pub open spec fn says_wrong(md: Seq<char>) -> bool {
    chars_contain(md, "That's not the right answer"@)
}

pub open spec fn says_low(md: Seq<char>) -> bool {
    chars_contain(md, "too low"@)
}

pub open spec fn says_high(md: Seq<char>) -> bool {
    chars_contain(md, "too high"@)
}

pub open spec fn says_recent(md: Seq<char>) -> bool {
    chars_contain(md, "You gave an answer too recently"@)
}

pub open spec fn says_wrong_level(md: Seq<char>) -> bool {
    chars_contain(md, "You don't seem to be solving the right level"@)
}

/// Sort the reply text into one of the outcome classes, in the same
/// order of precedence the service's phrasing implies.
pub fn classify_response(md: &str) -> (r: SubmitOutcome)
    ensures
        (r is Correct <==> says_correct(md@)),
        (r is IncorrectTooLow <==> !says_correct(md@) && says_wrong(md@) && says_low(md@)),
        (r is IncorrectTooHigh <==> !says_correct(md@) && says_wrong(md@) && !says_low(md@)
            && says_high(md@)),
        (r is Incorrect <==> !says_correct(md@) && says_wrong(md@) && !says_low(md@) && !says_high(
            md@,
        )),
        (r is RateLimited <==> !says_correct(md@) && !says_wrong(md@) && says_recent(md@)),
        (r matches SubmitOutcome::RateLimited(h) ==> {
            &&& (h matches Some(v) ==> exists|i: int, d: nat|
                #[trigger] wait_match_at(md@, i, d) && v@ == md@.subrange(i, i + 9 + d + 15))
            &&& (h is None ==> !has_wait_match(md@))
        }),
        (r is WrongLevel <==> !says_correct(md@) && !says_wrong(md@) && !says_recent(md@)
            && says_wrong_level(md@)),
        (r is Unrecognized <==> !says_correct(md@) && !says_wrong(md@) && !says_recent(md@)
            && !says_wrong_level(md@)),
{
    if str_contains(md, "That's the right answer") {
        SubmitOutcome::Correct
    } else if str_contains(md, "That's not the right answer") {
        if str_contains(md, "too low") {
            SubmitOutcome::IncorrectTooLow
        } else if str_contains(md, "too high") {
            SubmitOutcome::IncorrectTooHigh
        } else {
            SubmitOutcome::Incorrect
        }
    } else if str_contains(md, "You gave an answer too recently") {
        SubmitOutcome::RateLimited(find_wait_hint(md))
    } else if str_contains(md, "You don't seem to be solving the right level") {
        SubmitOutcome::WrongLevel
    } else {
        SubmitOutcome::Unrecognized
    }
}

/// Why no answer could be computed for a submission.
#[derive(Debug)]
pub enum SubmitError {
    NoSolution,
    MultipleSolutions,
    MissingInput,
    ReadFailed(String),
}

/// Pick the answer to submit: exactly one registry entry must match the
/// pair, its input must have been read, and the requested part of its
/// answers is taken.
pub fn submission_answer(
    year: u32,
    day: u32,
    input: &crate::runner::InputOutcome,
    part: PuzzlePart,
) -> (r: Result<String, SubmitError>)
    ensures
        ({
            let matched = spec_filtered(spec_registry(), Some(year), Some(day));
            &&& (matched.len() == 0 <==> (r matches Err(SubmitError::NoSolution)))
            &&& (matched.len() > 1 <==> (r matches Err(SubmitError::MultipleSolutions)))
            &&& (matched.len() == 1 ==> (match input {
                crate::runner::InputOutcome::Missing => r matches Err(SubmitError::MissingInput),
                crate::runner::InputOutcome::ReadFailed(e) => (r matches Err(
                    SubmitError::ReadFailed(m),
                ) && m@ == e@),
                crate::runner::InputOutcome::Loaded(text) => (r matches Ok(answer) && exists|
                    a1: Seq<char>,
                    a2: Seq<char>,
                |
                    {
                        &&& #[trigger] crate::answers_ok(
                            matched[0].solver,
                            vstd::utf8::encode_utf8(text@),
                            a1,
                            a2,
                        )
                        &&& answer@ == (match part {
                            PuzzlePart::Part1 => a1,
                            PuzzlePart::Part2 => a2,
                        })
                    }),
            }))
        }),
{
    let matched = crate::filtered_solutions(Some(year), Some(day));
    if matched.len() == 0 {
        return Err(SubmitError::NoSolution);
    }
    if matched.len() > 1 {
        return Err(SubmitError::MultipleSolutions);
    }
    match input {
        crate::runner::InputOutcome::Missing => Err(SubmitError::MissingInput),
        crate::runner::InputOutcome::ReadFailed(e) => {
            let mut m = String::new();
            m.append(e.as_str());
            proof {
                assert(m@ =~= e@);
            }
            Err(SubmitError::ReadFailed(m))
        },
        crate::runner::InputOutcome::Loaded(text) => {
            let (a1, a2) = crate::run_solver(matched[0].solver, text.as_str());
            match part {
                PuzzlePart::Part1 => Ok(a1),
                PuzzlePart::Part2 => Ok(a2),
            }
        },
    }
}

/// The message for a submission that could not be prepared.
pub fn submit_error_message(e: &SubmitError, year: u32, day: u32) -> (s: String)
    ensures
        ({
            &&& (e is NoSolution ==> s@ == "No solution found for "@ + dec_chars(year as nat)
                + " Day "@ + crate::util::text::dec_chars_pad2(day as nat))
            &&& (e is MultipleSolutions ==> s@ == "Multiple solutions found for "@ + dec_chars(
                year as nat,
            ) + " Day "@ + crate::util::text::dec_chars_pad2(day as nat))
            &&& (e is MissingInput ==> s@ == "Missing input! Download using `yaaocr download "@
                + dec_chars(year as nat) + " "@ + dec_chars(day as nat) + " input`"@)
            &&& (e matches SubmitError::ReadFailed(err) ==> s@ == "Failed to read input: "@
                + err@)
        }),
{
    match e {
        SubmitError::NoSolution => {
            let mut s = String::new();
            s.append("No solution found for ");
            let y = crate::util::text::u64_to_dec(year as u64);
            s.append(y.as_str());
            s.append(" Day ");
            let d = crate::util::text::u64_to_dec_pad2(day as u64);
            s.append(d.as_str());
            proof {
                assert(s@ =~= "No solution found for "@ + dec_chars(year as nat) + " Day "@
                    + crate::util::text::dec_chars_pad2(day as nat));
            }
            s
        },
        SubmitError::MultipleSolutions => {
            let mut s = String::new();
            s.append("Multiple solutions found for ");
            let y = crate::util::text::u64_to_dec(year as u64);
            s.append(y.as_str());
            s.append(" Day ");
            let d = crate::util::text::u64_to_dec_pad2(day as u64);
            s.append(d.as_str());
            proof {
                assert(s@ =~= "Multiple solutions found for "@ + dec_chars(year as nat) + " Day "@
                    + crate::util::text::dec_chars_pad2(day as nat));
            }
            s
        },
        SubmitError::MissingInput => {
            let mut s = String::new();
            s.append("Missing input! Download using `yaaocr download ");
            let y = crate::util::text::u64_to_dec(year as u64);
            s.append(y.as_str());
            s.append(" ");
            let d = crate::util::text::u64_to_dec(day as u64);
            s.append(d.as_str());
            s.append(" input`");
            proof {
                assert(s@ =~= "Missing input! Download using `yaaocr download "@ + dec_chars(
                    year as nat,
                ) + " "@ + dec_chars(day as nat) + " input`"@);
            }
            s
        },
        SubmitError::ReadFailed(err) => {
            let mut s = String::new();
            s.append("Failed to read input: ");
            s.append(err.as_str());
            proof {
                assert(s@ =~= "Failed to read input: "@ + err@);
            }
            s
        },
    }
}

/// What `htmd::convert` returns for a piece of HTML — the Markdown text,
/// or nothing on a conversion error. Both the text and whether the
/// conversion succeeds are pure functions of the input, too involved to
/// write out.
pub uninterp spec fn markdown_of(html: Seq<char>) -> Option<Seq<char>>;

/// Relies on `htmd::convert`: turning HTML into Markdown text, with
/// success and text alike a pure function of the input.
#[verifier::external_body]
fn html_to_markdown(html: &str) -> (r: Option<String>)
    ensures
        (r is Some <==> markdown_of(html@) is Some),
        (r matches Some(m) ==> markdown_of(html@) == Some(m@)),
{
    htmd::convert(html).ok()
}

/// The `article.day-desc` elements of a parsed HTML document, outermost
/// first, each rendered back to HTML: a pure function of the text.
pub uninterp spec fn articles_of(doc: Seq<char>) -> Seq<Seq<char>>;

/// Relies on `scraper::Html::parse_document`, `scraper::Selector::parse`
/// and `scraper::Html::select`: parsing is deterministic and selection
/// follows document order; the fixed selector is valid, so its parse
/// cannot fail.
#[verifier::external_body]
fn select_day_desc(doc: &str) -> (r: Vec<String>)
    ensures
        r@.len() == articles_of(doc@).len(),
        forall|i: int| 0 <= i < r@.len() ==> #[trigger] r@[i]@ == articles_of(doc@)[i],
{
    let html = scraper::Html::parse_document(doc);
    let selector = scraper::Selector::parse("article.day-desc").unwrap();
    html.select(&selector).map(|a| a.html()).collect()
}

/// The statement file's text: the converted pieces in order, separated
/// by blank lines once the text is nonempty; pieces that failed to
/// convert are dropped.
pub open spec fn join_md(parts: Seq<Option<Seq<char>>>, k: int) -> Seq<char>
    decreases k,
{
    if k <= 0 {
        Seq::empty()
    } else {
        let acc = join_md(parts, k - 1);
        match parts[k - 1] {
            None => acc,
            Some(md) => if acc.len() == 0 {
                acc + md
            } else {
                acc + "\n\n"@ + md
            },
        }
    }
}

/// The pieces as their spec-level views.
pub open spec fn piece_views(parts: Seq<Option<String>>) -> Seq<Option<Seq<char>>> {
    Seq::new(
        parts.len(),
        |i: int|
            match parts[i] {
                Some(p) => Some(p@),
                None => None,
            },
    )
}

/// Join converted pieces into the statement text.
pub fn join_markdown(parts: Vec<Option<String>>) -> (r: String)
    ensures
        r@ == join_md(piece_views(parts@), parts@.len() as int),
{
    let ghost gp = piece_views(parts@);
    let n = parts.len();
    let mut acc = String::new();
    let mut i: usize = 0;
    while i < n
        invariant
            i <= n,
            n == parts@.len() == gp.len(),
            forall|q: int|
                0 <= q < gp.len() ==> gp[q] == (match parts@[q] {
                    Some(p) => Some(p@),
                    None => None::<Seq<char>>,
                }),
            acc@ == join_md(gp, i as int),
        decreases n - i,
    {
        match &parts[i] {
            Some(md) => {
                if acc.unicode_len() == 0 {
                    acc.append(md.as_str());
                } else {
                    acc.append("\n\n");
                    acc.append(md.as_str());
                }
            },
            None => {},
        }
        i = i + 1;
    }
    acc
}

/// What the rendered statement must be: every `article.day-desc`
/// element converted to Markdown, the pieces joined in order.
pub open spec fn spec_rendered_puzzle(page: Seq<char>) -> Seq<char> {
    let arts = articles_of(page);
    join_md(Seq::new(arts.len(), |i: int| markdown_of(arts[i])), arts.len() as int)
}

/// Render a fetched puzzle page: pick out the statement articles,
/// convert each to Markdown, and join them.
pub fn render_puzzle(page: &str) -> (r: String)
    ensures
        r@ == spec_rendered_puzzle(page@),
{
    let ghost arts = articles_of(page@);
    let articles = select_day_desc(page);
    let n = articles.len();
    let mut parts: Vec<Option<String>> = Vec::new();
    let mut i: usize = 0;
    while i < n
        invariant
            arts == articles_of(page@),
            i <= n,
            n == articles@.len() == arts.len(),
            forall|q: int| 0 <= q < n ==> #[trigger] articles@[q]@ == arts[q],
            parts@.len() == i,
            forall|q: int|
                0 <= q < i ==> (match #[trigger] parts@[q] {
                    Some(m) => Some(m@),
                    None => None,
                }) == markdown_of(arts[q]),
        decreases n - i,
    {
        parts.push(html_to_markdown(articles[i].as_str()));
        i = i + 1;
    }
    proof {
        assert(piece_views(parts@) =~= Seq::new(arts.len(), |i: int| markdown_of(arts[i])));
    }
    join_markdown(parts)
}

} // verus!
