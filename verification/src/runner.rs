//! The runner's reporting core: given each entry's pre-loaded input and
//! recorded answers, run the solvers, time them, compare, and build the
//! report that the caller prints. Per-entry failures never stop the run.

use vstd::prelude::*;
use std::time::Instant;

verus! {

use vstd::string::StringSliceAdditionalSpecFns;
use vstd::string::StringExecFns;
use vstd::utf8::encode_utf8;
use crate::{Solution, answers_ok};

/// How loading one entry's input went; loading happens before any timer
/// starts.
pub enum InputOutcome {
    Missing,
    ReadFailed(String),
    Loaded(String),
}

/// What the runner reports for one entry.
pub struct SolvedReport {
    pub part1: String,
    pub part2: String,
    pub expected1: Option<String>,
    pub expected2: Option<String>,
    pub elapsed_nanos: u64,
}

pub enum ReportOutcome {
    MissingInput,
    ReadError(String),
    Solved(SolvedReport),
}

pub struct EntryReport {
    pub year: u32,
    pub day: u32,
    pub outcome: ReportOutcome,
}

#[verifier::external_type_specification]
#[verifier::external_body]
pub struct ExInstant(Instant);

/// Relies on `std::time::Instant::now`: an opaque reading of the
/// monotonic clock. Nothing is promised of it.
#[verifier::external_body]
fn clock_now() -> (r: Instant) {
    Instant::now()
}

/// Relies on `std::time::Instant::elapsed`: the nanoseconds since the
/// reading was taken, clamped into a `u64`. Nothing is promised of the
/// value, which depends on the clock.
#[verifier::external_body]
fn clock_elapsed_nanos(t: &Instant) -> (r: u64) {
    let n = t.elapsed().as_nanos();
    if n > u64::MAX as u128 {
        u64::MAX
    } else {
        n as u64
    }
}

/// Index of the first newline, or the length if there is none.
pub open spec fn nl_pos(s: Seq<char>) -> nat
    decreases s.len(),
{
    if s.len() == 0 || s[0] == '\n' {
        0
    } else {
        1 + nl_pos(s.skip(1))
    }
}

pub proof fn lemma_nl_pos_bound(s: Seq<char>)
    ensures
        nl_pos(s) <= s.len(),
    decreases s.len(),
{
    if s.len() > 0 && s[0] != '\n' {
        lemma_nl_pos_bound(s.skip(1));
    }
}

pub proof fn lemma_nl_pos_char(s: Seq<char>, m: nat)
    requires
        m <= s.len(),
        forall|q: int| 0 <= q < m ==> #[trigger] s[q] != '\n',
        m == s.len() || s[m as int] == '\n',
    ensures
        nl_pos(s) == m,
    decreases s.len(),
{
    if s.len() > 0 && s[0] != '\n' {
        let t = s.skip(1);
        assert(forall|q: int| 0 <= q < m - 1 ==> #[trigger] t[q] == s[q + 1]);
        lemma_nl_pos_char(t, (m - 1) as nat);
    }
}

pub open spec fn strip_cr(l: Seq<char>) -> Seq<char> {
    if l.len() > 0 && l.last() == '\r' {
        l.drop_last()
    } else {
        l
    }
}

/// The first line of a recorded-answer file, if the file has any text.
pub open spec fn spec_line1(s: Seq<char>) -> Option<Seq<char>> {
    if s.len() == 0 {
        None
    } else {
        Some(strip_cr(s.take(nl_pos(s) as int)))
    }
}

/// What follows the first newline.
pub open spec fn spec_rest(s: Seq<char>) -> Seq<char> {
    if nl_pos(s) < s.len() {
        s.skip(nl_pos(s) + 1int)
    } else {
        Seq::empty()
    }
}

/// The second line, if present.
pub open spec fn spec_line2(s: Seq<char>) -> Option<Seq<char>> {
    spec_line1(spec_rest(s))
}

/// Extract one line of `content` as a fresh string, starting at
/// character `from`, together with the index just past its newline.
fn take_line(content: &str, from: usize) -> (r: (String, usize))
    requires
        from <= content@.len(),
    ensures
        r.0@ == strip_cr(content@.skip(from as int).take(nl_pos(content@.skip(from as int)) as int)),
        r.1 == from + nl_pos(content@.skip(from as int)) + if from + nl_pos(
            content@.skip(from as int),
        ) < content@.len() {
            1int
        } else {
            0int
        },
        from <= r.1 <= content@.len(),
{
    let ghost t = content@.skip(from as int);
    let n = content.unicode_len();
    let mut e: usize = from;
    while e < n && content.get_char(e) != '\n'
        invariant
            from <= e <= n,
            n == content@.len(),
            forall|q: int| from <= q < e ==> #[trigger] content@[q] != '\n',
        decreases n - e,
    {
        e = e + 1;
    }
    proof {
        assert(forall|q: int| 0 <= q < e - from ==> #[trigger] t[q] == content@[q + from]);
        if e < n {
            assert(t[e - from] == content@[e as int]);
        }
        lemma_nl_pos_char(t, (e - from) as nat);
    }
    let line_end: usize = if e > from && content.get_char(e - 1) == '\r' {
        e - 1
    } else {
        e
    };
    let line = content.substring_char(from, line_end);
    proof {
        assert(t.take((e - from) as int) =~= content@.subrange(from as int, e as int));
        assert(strip_cr(t.take((e - from) as int)) =~= content@.subrange(
            from as int,
            line_end as int,
        ));
    }
    let next = if e < n {
        e + 1
    } else {
        e
    };
    (line.to_owned(), next)
}

/// The first two recorded answers in an expected-answer file: line one
/// and line two, either possibly absent.
pub fn parse_expected(content: &str) -> (r: (Option<String>, Option<String>))
    ensures
        (r.0 matches Some(l) ==> spec_line1(content@) matches Some(v) && l@ == v),
        (r.0 is None <==> spec_line1(content@) is None),
        (r.1 matches Some(l) ==> spec_line2(content@) matches Some(v) && l@ == v),
        (r.1 is None <==> spec_line2(content@) is None),
{
    let n = content.unicode_len();
    if n == 0 {
        return (None, None);
    }
    proof {
        assert(content@.skip(0) =~= content@);
    }
    let (l1, next) = take_line(content, 0);
    let ghost rest = spec_rest(content@);
    proof {
        lemma_nl_pos_bound(content@);
        if nl_pos(content@) < content@.len() {
            assert(content@.skip(next as int) =~= rest);
        } else {
            assert(next == n);
            assert(content@.skip(next as int) =~= rest);
        }
    }
    if next == n {
        proof {
            assert(rest =~= Seq::<char>::empty());
        }
        return (Some(l1), None);
    }
    let (l2, _) = take_line(content, next);
    (Some(l1), Some(l2))
}

/// The verification suffix for one answer: empty without an expectation,
/// a check mark on a match, the expected value on a mismatch.
pub open spec fn spec_verification(actual: Seq<char>, expected: Option<Seq<char>>) -> Seq<char> {
    match expected {
        None => Seq::empty(),
        Some(e) => if e == actual {
            " ✓"@
        } else {
            " ✗ ("@ + e + ")"@
        },
    }
}

/// Render the verification suffix for one answer.
pub fn verification_str(actual: String, expected: Option<String>) -> (r: String)
    ensures
        r@ == spec_verification(actual@, match expected {
            Some(e) => Some(e@),
            None => None,
        }),
{
    match expected {
        Some(e) => {
            if actual == e {
                let mut s = String::new();
                s.append(" ✓");
                proof {
                    assert(s@ =~= " ✓"@);
                }
                s
            } else {
                let mut s = String::new();
                s.append(" ✗ (");
                s.append(e.as_str());
                s.append(")");
                proof {
                    assert(s@ =~= " ✗ ("@ + e@ + ")"@);
                }
                s
            }
        },
        None => String::new(),
    }
}

/// Does a report describe the given entry, input outcome, and recorded
/// answers?
pub open spec fn report_matches(
    entry: Solution,
    input: InputOutcome,
    expected: Option<String>,
    verify: bool,
    rep: EntryReport,
) -> bool {
    &&& rep.year == entry.year
    &&& rep.day == entry.day
    &&& match input {
        InputOutcome::Missing => rep.outcome is MissingInput,
        InputOutcome::ReadFailed(e) => rep.outcome matches ReportOutcome::ReadError(m) && m@ == e@,
        InputOutcome::Loaded(text) => rep.outcome matches ReportOutcome::Solved(s) && {
            &&& answers_ok(entry.solver, encode_utf8(text@), s.part1@, s.part2@)
            &&& ({
                let exp = if verify {
                    match expected {
                        Some(c) => (spec_line1(c@), spec_line2(c@)),
                        None => (None, None),
                    }
                } else {
                    (None, None)
                };
                &&& (s.expected1 matches Some(l) ==> exp.0 matches Some(v) && l@ == v)
                &&& (s.expected1 is None <==> exp.0 is None)
                &&& (s.expected2 matches Some(l) ==> exp.1 matches Some(v) && l@ == v)
                &&& (s.expected2 is None <==> exp.1 is None)
            })
        },
    }
}

proof fn lemma_total_elapsed_prefix(a: Seq<EntryReport>, b: Seq<EntryReport>, k: int)
    requires
        0 <= k <= a.len(),
        k <= b.len(),
        forall|q: int| 0 <= q < k ==> a[q] == b[q],
    ensures
        total_elapsed(a, k) == total_elapsed(b, k),
    decreases k,
{
    if k > 0 {
        lemma_total_elapsed_prefix(a, b, k - 1);
    }
}

pub open spec fn sat_add64(a: u64, b: u64) -> u64 {
    if a + b > u64::MAX {
        u64::MAX
    } else {
        (a + b) as u64
    }
}

/// The total of the elapsed times reported so far.
pub open spec fn total_elapsed(reports: Seq<EntryReport>, k: int) -> u64
    decreases k,
{
    if k <= 0 {
        0
    } else {
        sat_add64(total_elapsed(reports, k - 1), match reports[k - 1].outcome {
            ReportOutcome::Solved(s) => s.elapsed_nanos,
            _ => 0,
        })
    }
}

/// Run every selected entry in order: solve and time the entries whose
/// input is there, report the others as missing or unreadable, and never
/// let one entry's failure stop the rest.
pub fn run_entries(
    entries: &Vec<Solution>,
    inputs: Vec<InputOutcome>,
    expected: Vec<Option<String>>,
    verify: bool,
) -> (r: (Vec<EntryReport>, u64))
    requires
        inputs@.len() == entries@.len(),
        expected@.len() == entries@.len(),
    ensures
        r.0@.len() == entries@.len(),
        forall|i: int|
            0 <= i < entries@.len() ==> report_matches(
                entries@[i],
                inputs@[i],
                expected@[i],
                verify,
                #[trigger] r.0@[i],
            ),
        r.1 == total_elapsed(r.0@, entries@.len() as int),
{
    let n = entries.len();
    let mut reports: Vec<EntryReport> = Vec::new();
    let mut total: u64 = 0;
    let mut inputs = inputs;
    let mut expected = expected;
    let ghost inputs0 = inputs@;
    let ghost expected0 = expected@;
    proof {
        assert(inputs0.skip(0) =~= inputs0);
        assert(expected0.skip(0) =~= expected0);
    }
    let mut i: usize = 0;
    while i < n
        invariant
            i <= n,
            n == entries@.len() == inputs0.len() == expected0.len(),
            inputs@ == inputs0.skip(i as int),
            expected@ == expected0.skip(i as int),
            reports@.len() == i,
            forall|q: int|
                0 <= q < i ==> report_matches(
                    entries@[q],
                    inputs0[q],
                    expected0[q],
                    verify,
                    #[trigger] reports@[q],
                ),
            total == total_elapsed(reports@, i as int),
        decreases n - i,
    {
        let entry = entries[i];
        let input = inputs.remove(0);
        let exp = expected.remove(0);
        proof {
            assert(input == inputs0[i as int]);
            assert(exp == expected0[i as int]);
            assert(inputs@ =~= inputs0.skip(i + 1));
            assert(expected@ =~= expected0.skip(i + 1));
        }
        let outcome = match input {
            InputOutcome::Missing => ReportOutcome::MissingInput,
            InputOutcome::ReadFailed(e) => ReportOutcome::ReadError(e),
            InputOutcome::Loaded(text) => {
                let started = clock_now();
                let (part1, part2) = crate::run_solver(entry.solver, text.as_str());
                let elapsed = clock_elapsed_nanos(&started);
                let (expected1, expected2) = if verify {
                    match exp {
                        Some(content) => parse_expected(content.as_str()),
                        None => (None, None),
                    }
                } else {
                    (None, None)
                };
                if elapsed > u64::MAX - total {
                    total = u64::MAX;
                } else {
                    total = total + elapsed;
                }
                ReportOutcome::Solved(
                    SolvedReport { part1, part2, expected1, expected2, elapsed_nanos: elapsed },
                )
            },
        };
        let ghost reports_before = reports@;
        reports.push(EntryReport { year: entry.year, day: entry.day, outcome });
        proof {
            lemma_total_elapsed_prefix(reports_before, reports@, i as int);
            assert(report_matches(
                entries@[i as int],
                inputs0[i as int],
                expected0[i as int],
                verify,
                reports@[i as int],
            ));
        }
        i = i + 1;
    }
    (reports, total)
}

/// Three-digit milliseconds, zero-padded.
pub open spec fn dec_chars_pad3(m: nat) -> Seq<char> {
    if m < 10 {
        seq!['0', '0'] + crate::util::text::dec_chars(m)
    } else if m < 100 {
        seq!['0'] + crate::util::text::dec_chars(m)
    } else {
        crate::util::text::dec_chars(m)
    }
}

/// An elapsed time in seconds with millisecond precision.
pub open spec fn spec_seconds(nanos: u64) -> Seq<char> {
    crate::util::text::dec_chars(nanos as nat / 1000000000) + "."@ + dec_chars_pad3(
        (nanos as nat % 1000000000) / 1000000,
    ) + "s"@
}

/// Render an elapsed time as seconds with three decimal digits.
pub fn format_seconds(nanos: u64) -> (s: String)
    ensures
        s@ == spec_seconds(nanos),
{
    let secs = nanos / 1000000000;
    let millis = (nanos % 1000000000) / 1000000;
    let mut s = crate::util::text::u64_to_dec(secs);
    s.append(".");
    proof {
        reveal_strlit(".");
        reveal_strlit("0");
        reveal_strlit("00");
        reveal_strlit("s");
    }
    if millis < 10 {
        s.append("00");
    } else if millis < 100 {
        s.append("0");
    }
    let md = crate::util::text::u64_to_dec(millis);
    s.append(md.as_str());
    s.append("s");
    proof {
        if millis < 10 {
            assert("00"@ =~= seq!['0', '0']);
        } else if millis < 100 {
            assert("0"@ =~= seq!['0']);
        }
        assert(s@ =~= spec_seconds(nanos));
    }
    s
}

/// The heading printed above one entry's report.
pub open spec fn spec_header_line(year: u32, day: u32) -> Seq<char> {
    crate::util::text::dec_chars(year as nat) + " Day "@ + crate::util::text::dec_chars_pad2(
        day as nat,
    )
}

/// Render one entry's heading, the day zero-padded to two digits.
pub fn header_line(year: u32, day: u32) -> (s: String)
    ensures
        s@ == spec_header_line(year, day),
{
    let mut s = crate::util::text::u64_to_dec(year as u64);
    s.append(" Day ");
    let d = crate::util::text::u64_to_dec_pad2(day as u64);
    s.append(d.as_str());
    proof {
        assert(s@ =~= spec_header_line(year, day));
    }
    s
}

/// The report line for one part: the answer, then the verification
/// suffix when there is one.
pub open spec fn spec_part_line(part: u32, answer: Seq<char>, suffix: Seq<char>) -> Seq<char> {
    "  Part "@ + crate::util::text::dec_chars(part as nat) + ": "@ + answer + suffix
}

/// Render the report line for one part.
pub fn part_line(part: u32, answer: &String, suffix: &String) -> (s: String)
    ensures
        s@ == spec_part_line(part, answer@, suffix@),
{
    let mut s = String::new();
    s.append("  Part ");
    let p = crate::util::text::u64_to_dec(part as u64);
    s.append(p.as_str());
    s.append(": ");
    s.append(answer.as_str());
    s.append(suffix.as_str());
    proof {
        assert(s@ =~= spec_part_line(part, answer@, suffix@));
    }
    s
}

/// Render the elapsed-time line for one entry.
pub fn elapsed_line(nanos: u64) -> (s: String)
    ensures
        s@ == "Elapsed: "@ + spec_seconds(nanos),
{
    let mut s = String::new();
    s.append("Elapsed: ");
    let t = format_seconds(nanos);
    s.append(t.as_str());
    proof {
        assert(s@ =~= "Elapsed: "@ + spec_seconds(nanos));
    }
    s
}

/// Render the final line with the accumulated total.
pub fn total_line(nanos: u64) -> (s: String)
    ensures
        s@ == "Total elapsed time: "@ + spec_seconds(nanos),
{
    let mut s = String::new();
    s.append("Total elapsed time: ");
    let t = format_seconds(nanos);
    s.append(t.as_str());
    proof {
        assert(s@ =~= "Total elapsed time: "@ + spec_seconds(nanos));
    }
    s
}

/// The run completes the whole selection: an entry is reported missing
/// exactly when its input was missing, and carries answers exactly when
/// its input was there to read.
pub proof fn lemma_runner_resilience(
    entries: Seq<Solution>,
    inputs: Seq<InputOutcome>,
    expected: Seq<Option<String>>,
    verify: bool,
    reports: Seq<EntryReport>,
)
    requires
        inputs.len() == entries.len(),
        expected.len() == entries.len(),
        reports.len() == entries.len(),
        forall|i: int|
            0 <= i < entries.len() ==> report_matches(
                entries[i],
                inputs[i],
                expected[i],
                verify,
                #[trigger] reports[i],
            ),
    ensures
        forall|i: int|
            0 <= i < entries.len() ==> ((#[trigger] inputs[i]) is Missing <==> reports[i].outcome
                is MissingInput),
        forall|i: int|
            0 <= i < entries.len() ==> ((#[trigger] inputs[i]) is Loaded <==> reports[i].outcome
                is Solved),
{
}

} // verus!
