//! A runner for daily programming puzzles: a registry of per-day solutions,
//! a filter over it, canonical file locations for inputs and recorded
//! answers, and the reporting logic around running a solution.

use vstd::prelude::*;

pub mod aoc_proxy;
pub mod runner;
pub mod util;
pub mod y2015;

verus! {

use crate::util::text::dec_chars;
use vstd::string::StringSliceAdditionalSpecFns;

/// A `(year, day)` pair names a puzzle the runner knows how to handle:
/// twenty-five days for the years 2015 through 2024, twelve days from
/// 2025 onward.
pub fn check_year_day(year: u32, day: u32) -> (r: bool)
    ensures
        r == valid_year_day(year, day),
{
    (2015 <= year && year < 2025 && 1 <= day && day <= 25)
        || (2025 <= year && 1 <= day && day <= 12)
}

pub open spec fn valid_year_day(year: u32, day: u32) -> bool {
    (2015 <= year < 2025 && 1 <= day <= 25) || (year >= 2025 && 1 <= day <= 12)
}

/// The three canonical file locations for a puzzle, relative to the
/// working directory.
pub open spec fn spec_input_path(year: u32, day: u32) -> Seq<char> {
    "input/"@ + dec_chars(year as nat) + "/day"@ + crate::util::text::dec_chars_pad2(day as nat)
        + ".txt"@
}

pub open spec fn spec_expected_path(year: u32, day: u32) -> Seq<char> {
    "puzzle/"@ + dec_chars(year as nat) + "/expected/day"@
        + crate::util::text::dec_chars_pad2(day as nat) + ".txt"@
}

pub open spec fn spec_puzzle_path(year: u32, day: u32) -> Seq<char> {
    "puzzle/"@ + dec_chars(year as nat) + "/day"@ + crate::util::text::dec_chars_pad2(day as nat)
        + ".md"@
}

/// Where the raw input for a puzzle is cached.
pub fn input_path(year: u32, day: u32) -> (s: String)
    ensures
        s@ == spec_input_path(year, day),
{
    let mut s = String::new();
    s.append("input/");
    let y = crate::util::text::u64_to_dec(year as u64);
    s.append(y.as_str());
    s.append("/day");
    let d = crate::util::text::u64_to_dec_pad2(day as u64);
    s.append(d.as_str());
    s.append(".txt");
    proof {
        assert(s@ =~= spec_input_path(year, day));
    }
    s
}

/// Where the recorded expected answers for a puzzle live.
pub fn expected_path(year: u32, day: u32) -> (s: String)
    ensures
        s@ == spec_expected_path(year, day),
{
    let mut s = String::new();
    s.append("puzzle/");
    let y = crate::util::text::u64_to_dec(year as u64);
    s.append(y.as_str());
    s.append("/expected/day");
    let d = crate::util::text::u64_to_dec_pad2(day as u64);
    s.append(d.as_str());
    s.append(".txt");
    proof {
        assert(s@ =~= spec_expected_path(year, day));
    }
    s
}

/// Where the rendered puzzle statement is cached.
pub fn puzzle_path(year: u32, day: u32) -> (s: String)
    ensures
        s@ == spec_puzzle_path(year, day),
{
    let mut s = String::new();
    s.append("puzzle/");
    let y = crate::util::text::u64_to_dec(year as u64);
    s.append(y.as_str());
    s.append("/day");
    let d = crate::util::text::u64_to_dec_pad2(day as u64);
    s.append(d.as_str());
    s.append(".md");
    proof {
        assert(s@ =~= spec_puzzle_path(year, day));
    }
    s
}

/// Names one of the built-in per-day solvers.
#[derive(Clone, Copy, Debug, PartialEq, Eq, Structural)]
pub enum SolverId {
    Y2015Day01,
    Y2015Day02,
    Y2015Day03,
    Y2015Day04,
    Y2015Day05,
    Y2015Day06,
    Y2015Day07,
    Y2015Day08,
    Y2015Day09,
    Y2015Day10,
}

/// A registered binding of a `(year, day)` identity to a solver that maps
/// the raw puzzle input to a pair of textual answers.
#[derive(Clone, Copy, Debug, PartialEq, Eq, Structural)]
pub struct Solution {
    pub year: u32,
    pub day: u32,
    pub solver: SolverId,
}

/// The registry: a fixed, ordered table, ascending by year then day, with
/// each `(year, day)` pair appearing once.
pub open spec fn spec_registry() -> Seq<Solution> {
    seq![
        (Solution { year: 2015, day: 1, solver: SolverId::Y2015Day01 }),
        (Solution { year: 2015, day: 2, solver: SolverId::Y2015Day02 }),
        (Solution { year: 2015, day: 3, solver: SolverId::Y2015Day03 }),
        (Solution { year: 2015, day: 4, solver: SolverId::Y2015Day04 }),
        (Solution { year: 2015, day: 5, solver: SolverId::Y2015Day05 }),
        (Solution { year: 2015, day: 6, solver: SolverId::Y2015Day06 }),
        (Solution { year: 2015, day: 7, solver: SolverId::Y2015Day07 }),
        (Solution { year: 2015, day: 8, solver: SolverId::Y2015Day08 }),
        (Solution { year: 2015, day: 9, solver: SolverId::Y2015Day09 }),
        (Solution { year: 2015, day: 10, solver: SolverId::Y2015Day10 }),
    ]
}

/// Every registry entry built at once, in registration order.
pub fn all_solutions() -> (v: Vec<Solution>)
    ensures
        v@ == spec_registry(),
{
    let mut v: Vec<Solution> = Vec::new();
    v.push(Solution { year: 2015, day: 1, solver: SolverId::Y2015Day01 });
    v.push(Solution { year: 2015, day: 2, solver: SolverId::Y2015Day02 });
    v.push(Solution { year: 2015, day: 3, solver: SolverId::Y2015Day03 });
    v.push(Solution { year: 2015, day: 4, solver: SolverId::Y2015Day04 });
    v.push(Solution { year: 2015, day: 5, solver: SolverId::Y2015Day05 });
    v.push(Solution { year: 2015, day: 6, solver: SolverId::Y2015Day06 });
    v.push(Solution { year: 2015, day: 7, solver: SolverId::Y2015Day07 });
    v.push(Solution { year: 2015, day: 8, solver: SolverId::Y2015Day08 });
    v.push(Solution { year: 2015, day: 9, solver: SolverId::Y2015Day09 });
    v.push(Solution { year: 2015, day: 10, solver: SolverId::Y2015Day10 });
    proof {
        assert(v@ =~= spec_registry());
    }
    v
}

/// Does an entry pass the optional year and day criteria? A criterion that
/// is absent matches every entry.
pub open spec fn solution_matches(s: Solution, year: Option<u32>, day: Option<u32>) -> bool {
    &&& (year matches Some(y) ==> s.year == y)
    &&& (day matches Some(d) ==> s.day == d)
}

/// Valid identifiers fall exactly into the documented ranges: every day in
/// [1, 25] of a year in [2015, 2025); only days in [1, 12] of a later year;
/// nothing before 2015.
pub proof fn lemma_valid_year_day_ranges(year: u32, day: u32)
    ensures
        2015 <= year < 2025 ==> (valid_year_day(year, day) <==> 1 <= day <= 25),
        year >= 2025 ==> (valid_year_day(year, day) <==> 1 <= day <= 12),
        year < 2015 ==> !valid_year_day(year, day),
{
}

/// Within the registry, `(year, day)` pairs are unique.
pub proof fn lemma_registry_unique()
    ensures
        forall|i: int, j: int|
            0 <= i < j < spec_registry().len() ==> !(#[trigger] spec_registry()[i].year
                == #[trigger] spec_registry()[j].year && spec_registry()[i].day
                == spec_registry()[j].day),
{
}

/// A path shaped `prefix + year-digits + mid + two-digit-day + suffix`
/// determines the year and day: the non-digit head of `mid` delimits the
/// year digits.
proof fn lemma_path_shape_injective(
    p: Seq<char>,
    m: Seq<char>,
    sfx: Seq<char>,
    y1: u32,
    d1: u32,
    y2: u32,
    d2: u32,
)
    requires
        m.len() > 0,
        !crate::util::text::is_dec_digit_char(m[0]),
    ensures
        p + dec_chars(y1 as nat) + m + crate::util::text::dec_chars_pad2(d1 as nat) + sfx == p
            + dec_chars(y2 as nat) + m + crate::util::text::dec_chars_pad2(d2 as nat) + sfx ==> (y1
            == y2 && d1 == d2),
{
    let a1 = dec_chars(y1 as nat);
    let a2 = dec_chars(y2 as nat);
    let b1 = crate::util::text::dec_chars_pad2(d1 as nat);
    let b2 = crate::util::text::dec_chars_pad2(d2 as nat);
    let s1 = p + a1 + m + b1 + sfx;
    let s2 = p + a2 + m + b2 + sfx;
    if s1 == s2 {
        crate::util::text::lemma_dec_chars_digits(y1 as nat);
        crate::util::text::lemma_dec_chars_digits(y2 as nat);
        assert(s1.len() == s2.len());
        if a1.len() < a2.len() {
            let k = p.len() + a1.len();
            assert(s1[k as int] == m[0]);
            assert(s2[k as int] == a2[a1.len() as int]);
            assert(crate::util::text::is_dec_digit_char(a2[a1.len() as int]));
            assert(false);
        }
        if a2.len() < a1.len() {
            let k = p.len() + a2.len();
            assert(s2[k as int] == m[0]);
            assert(s1[k as int] == a1[a2.len() as int]);
            assert(crate::util::text::is_dec_digit_char(a1[a2.len() as int]));
            assert(false);
        }
        assert(a1.len() == a2.len());
        assert forall|i: int| 0 <= i < a1.len() implies a1[i] == a2[i] by {
            assert(s1[p.len() + i] == a1[i]);
            assert(s2[p.len() + i] == a2[i]);
        }
        assert(a1 =~= a2);
        crate::util::text::lemma_dec_chars_injective(y1 as nat, y2 as nat);
        assert(b1.len() == b2.len());
        let base = p.len() + a1.len() + m.len();
        assert forall|i: int| 0 <= i < b1.len() implies b1[i] == b2[i] by {
            assert(s1[base + i] == b1[i]);
            assert(s2[base + i] == b2[i]);
        }
        assert(b1 =~= b2);
        crate::util::text::lemma_dec_chars_pad2_injective(d1 as nat, d2 as nat);
    }
}

/// The three path functions are pure maps from spec-level sequences, so
/// equal pairs always give equal paths; and distinct pairs never
/// collide, for any of the three.
pub proof fn lemma_paths_injective(y1: u32, d1: u32, y2: u32, d2: u32)
    ensures
        spec_input_path(y1, d1) == spec_input_path(y2, d2) ==> (y1 == y2 && d1 == d2),
        spec_expected_path(y1, d1) == spec_expected_path(y2, d2) ==> (y1 == y2 && d1 == d2),
        spec_puzzle_path(y1, d1) == spec_puzzle_path(y2, d2) ==> (y1 == y2 && d1 == d2),
{
    reveal_strlit("/day");
    reveal_strlit("/expected/day");
    reveal_strlit("input/");
    reveal_strlit("puzzle/");
    reveal_strlit(".txt");
    reveal_strlit(".md");
    assert(("/day"@)[0] == '/' && !crate::util::text::is_dec_digit_char('/'));
    assert(("/expected/day"@)[0] == '/');
    lemma_path_shape_injective("input/"@, "/day"@, ".txt"@, y1, d1, y2, d2);
    lemma_path_shape_injective("puzzle/"@, "/expected/day"@, ".txt"@, y1, d1, y2, d2);
    lemma_path_shape_injective("puzzle/"@, "/day"@, ".md"@, y1, d1, y2, d2);
    assert(spec_input_path(y1, d1) == "input/"@ + dec_chars(y1 as nat) + "/day"@
        + crate::util::text::dec_chars_pad2(d1 as nat) + ".txt"@);
    assert(spec_input_path(y2, d2) == "input/"@ + dec_chars(y2 as nat) + "/day"@
        + crate::util::text::dec_chars_pad2(d2 as nat) + ".txt"@);
    assert(spec_expected_path(y1, d1) == "puzzle/"@ + dec_chars(y1 as nat) + "/expected/day"@
        + crate::util::text::dec_chars_pad2(d1 as nat) + ".txt"@);
    assert(spec_expected_path(y2, d2) == "puzzle/"@ + dec_chars(y2 as nat) + "/expected/day"@
        + crate::util::text::dec_chars_pad2(d2 as nat) + ".txt"@);
    assert(spec_puzzle_path(y1, d1) == "puzzle/"@ + dec_chars(y1 as nat) + "/day"@
        + crate::util::text::dec_chars_pad2(d1 as nat) + ".md"@);
    assert(spec_puzzle_path(y2, d2) == "puzzle/"@ + dec_chars(y2 as nat) + "/day"@
        + crate::util::text::dec_chars_pad2(d2 as nat) + ".md"@);
}

/// The sub-sequence of `r` whose entries pass the criteria, in order.
pub open spec fn spec_filtered(r: Seq<Solution>, year: Option<u32>, day: Option<u32>) -> Seq<
    Solution,
>
    decreases r.len(),
{
    if r.len() == 0 {
        r
    } else {
        let rest = spec_filtered(r.drop_last(), year, day);
        if solution_matches(r.last(), year, day) {
            rest.push(r.last())
        } else {
            rest
        }
    }
}

/// The registry entries passing the optional year and day criteria, in
/// registration order.
pub fn filtered_solutions(year: Option<u32>, day: Option<u32>) -> (v: Vec<Solution>)
    ensures
        v@ == spec_filtered(spec_registry(), year, day),
{
    let all = all_solutions();
    let mut v: Vec<Solution> = Vec::new();
    let mut i: usize = 0;
    while i < all.len()
        invariant
            i <= all@.len(),
            all@ == spec_registry(),
            v@ == spec_filtered(all@.take(i as int), year, day),
        decreases all@.len() - i,
    {
        let s = all[i];
        let year_ok = match year {
            Some(y) => s.year == y,
            None => true,
        };
        let day_ok = match day {
            Some(d) => s.day == d,
            None => true,
        };
        proof {
            assert(all@.take(i + 1).drop_last() =~= all@.take(i as int));
            assert(all@.take(i + 1).last() == s);
        }
        if year_ok && day_ok {
            v.push(s);
        }
        proof {
            assert(v@ =~= spec_filtered(all@.take(i + 1), year, day));
        }
        i = i + 1;
    }
    proof {
        assert(all@.take(all@.len() as int) =~= all@);
    }
    v
}

/// Filtering keeps exactly the matching entries: every kept entry passes
/// the criteria, and every entry of `r` that passes them is kept.
pub proof fn lemma_filtered_exact(r: Seq<Solution>, year: Option<u32>, day: Option<u32>)
    ensures
        forall|i: int|
            0 <= i < spec_filtered(r, year, day).len() ==> solution_matches(
                #[trigger] spec_filtered(r, year, day)[i],
                year,
                day,
            ),
        forall|i: int|
            0 <= i < r.len() && solution_matches(#[trigger] r[i], year, day) ==> spec_filtered(
                r,
                year,
                day,
            ).contains(r[i]),
    decreases r.len(),
{
    if r.len() > 0 {
        lemma_filtered_exact(r.drop_last(), year, day);
        let rest = spec_filtered(r.drop_last(), year, day);
        let whole = spec_filtered(r, year, day);
        assert forall|i: int|
            0 <= i < r.len() && solution_matches(#[trigger] r[i], year, day) implies whole.contains(
            r[i],
        ) by {
            if i == r.len() - 1 {
                assert(whole[whole.len() - 1] == r[i]);
            } else {
                assert(r.drop_last()[i] == r[i]);
                assert(rest.contains(r[i]));
                let j = choose|j: int| 0 <= j < rest.len() && rest[j] == r[i];
                assert(whole[j] == r[i]);
            }
        }
    }
}

/// With no criteria given, filtering keeps the whole registry unchanged.
pub proof fn lemma_filtered_no_criteria(r: Seq<Solution>)
    ensures
        spec_filtered(r, None, None) == r,
    decreases r.len(),
{
    if r.len() > 0 {
        lemma_filtered_no_criteria(r.drop_last());
        assert(spec_filtered(r, None, None) =~= r);
    } else {
        assert(spec_filtered(r, None, None) =~= r);
    }
}


/// Rendered when a solver has no answer for the given input; real
/// puzzle inputs never trigger it.
pub open spec fn no_answer_text() -> Seq<char> {
    "unreachable-never-triggered"@
}

fn no_answer() -> (s: String)
    ensures
        s@ == no_answer_text(),
{
    let mut s = String::new();
    s.append("unreachable-never-triggered");
    proof {
        assert(s@ =~= no_answer_text());
    }
    s
}

pub open spec fn render_nat(v: Option<nat>) -> Seq<char> {
    match v {
        Some(n) => dec_chars(n),
        None => no_answer_text(),
    }
}

pub open spec fn render_int(v: Option<int>) -> Seq<char> {
    match v {
        Some(n) => crate::util::text::dec_chars_signed(n),
        None => no_answer_text(),
    }
}

fn render_opt_u64(v: Option<u64>) -> (s: String)
    ensures
        s@ == render_nat(match v {
            Some(n) => Some(n as nat),
            None => None,
        }),
{
    match v {
        Some(n) => crate::util::text::u64_to_dec(n),
        None => no_answer(),
    }
}

fn render_opt_usize(v: Option<usize>) -> (s: String)
    ensures
        s@ == render_nat(match v {
            Some(n) => Some(n as nat),
            None => None,
        }),
{
    match v {
        Some(n) => crate::util::text::u64_to_dec(n as u64),
        None => no_answer(),
    }
}

/// What the two rendered answers must be — or, for the digest search,
/// may be — for each solver on the given raw input.
pub open spec fn answers_ok(id: SolverId, sb: Seq<u8>, a1: Seq<char>, a2: Seq<char>) -> bool {
    match id {
        SolverId::Y2015Day01 => {
            &&& a1 == (match crate::y2015::day01::spec_part1(sb) {
                Some(v) => crate::util::text::dec_chars_signed(v as int),
                None => no_answer_text(),
            })
            &&& a2 == render_int(crate::y2015::day01::spec_part2(sb))
        },
        SolverId::Y2015Day02 => {
            let toks = crate::util::parse::unsigned_tokens(sb);
            if forall|i: int| 0 <= i < toks.len() ==> #[trigger] toks[i] <= u32::MAX {
                exists|boxes: Seq<[u32; 3]>|
                    {
                        &&& boxes.len() == toks.len() / 3
                        &&& (forall|i: int|
                            0 <= i < boxes.len() ==> #[trigger] boxes[i]@ =~= seq![
                                toks[3 * i] as u32,
                                toks[3 * i + 1] as u32,
                                toks[3 * i + 2] as u32,
                            ])
                        &&& ({
                            let paper = crate::y2015::day02::paper_total(
                                boxes,
                                boxes.len() as int,
                            );
                            let ribbon = crate::y2015::day02::ribbon_total(
                                boxes,
                                boxes.len() as int,
                            );
                            &&& a1 == (if paper <= u32::MAX {
                                dec_chars(paper)
                            } else {
                                no_answer_text()
                            })
                            &&& a2 == (if ribbon <= u32::MAX {
                                dec_chars(ribbon)
                            } else {
                                no_answer_text()
                            })
                        })
                    }
            } else {
                a1 == no_answer_text() && a2 == no_answer_text()
            }
        },
        SolverId::Y2015Day03 => {
            &&& a1 == render_nat(crate::y2015::day03::spec_part1(sb))
            &&& a2 == render_nat(crate::y2015::day03::spec_part2(sb))
        },
        SolverId::Y2015Day04 => exists|r: (u64, u64)|
            {
                &&& #[trigger] crate::y2015::day04::is_search_result(
                    crate::util::bytes::spec_trim(sb),
                    u64::MAX as nat,
                    r,
                )
                &&& a1 == dec_chars(r.0 as nat)
                &&& a2 == dec_chars(r.1 as nat)
            },
        SolverId::Y2015Day05 => {
            let ls = crate::util::bytes::spec_lines(sb);
            &&& exists|lv: Seq<Vec<u8>>|
                {
                    &&& lv.len() == ls.len()
                    &&& (forall|i: int| 0 <= i < lv.len() ==> #[trigger] lv[i]@ == ls[i])
                    &&& a1 == dec_chars(crate::y2015::day05::count_nice1(lv, lv.len() as int))
                    &&& a2 == dec_chars(crate::y2015::day05::count_nice2(lv, lv.len() as int))
                }
        },
        SolverId::Y2015Day06 => {
            if crate::y2015::day06::all_lines_wf(sb) {
                let ls = crate::util::bytes::spec_lines(sb);
                exists|ins: Seq<(crate::y2015::day06::Instruction, [u32; 4])>|
                    {
                        &&& ins.len() == ls.len()
                        &&& (forall|i: int|
                            0 <= i < ins.len() ==> (#[trigger] ins[i]).0
                                == crate::y2015::day06::instr_of(ls[i]) && ins[i].1@ =~= seq![
                                crate::util::parse::unsigned_tokens(ls[i])[0] as u32,
                                crate::util::parse::unsigned_tokens(ls[i])[1] as u32,
                                crate::util::parse::unsigned_tokens(ls[i])[2] as u32,
                                crate::util::parse::unsigned_tokens(ls[i])[3] as u32,
                            ])
                        &&& a1 == dec_chars(crate::y2015::day06::total1(ins, 1000))
                        &&& a2 == (if ins.len() <= 0x10000000000 {
                            dec_chars(crate::y2015::day06::total2(ins, 1000))
                        } else {
                            no_answer_text()
                        })
                    }
            } else {
                a1 == no_answer_text() && a2 == no_answer_text()
            }
        },
        SolverId::Y2015Day07 => {
            if crate::y2015::day07::all_wires_wf(sb) {
                let ws = crate::y2015::day07::spec_wires(sb);
                let a = crate::y2015::day07::spec_opt_id(
                    crate::y2015::day07::spec_targets(sb),
                    crate::y2015::day07::a_word(),
                );
                let b = crate::y2015::day07::spec_opt_id(
                    crate::y2015::day07::spec_targets(sb),
                    crate::y2015::day07::b_word(),
                );
                if ws.len() < usize::MAX {
                    &&& a1 == render_nat(match crate::y2015::day07::circuit_val(ws, a) {
                        Some(v) => Some(v as nat),
                        None => None,
                    })
                    &&& a2 == render_nat(match crate::y2015::day07::spec_part2(ws, a, b) {
                        Some(v) => Some(v as nat),
                        None => None,
                    })
                } else {
                    a1 == no_answer_text() && a2 == no_answer_text()
                }
            } else {
                a1 == no_answer_text() && a2 == no_answer_text()
            }
        },
        SolverId::Y2015Day08 => {
            let ls = crate::util::bytes::spec_lines(sb);
            &&& exists|lv: Seq<Vec<u8>>|
                {
                    &&& lv.len() == ls.len()
                    &&& (forall|i: int| 0 <= i < lv.len() ==> #[trigger] lv[i]@ == ls[i])
                    &&& a1 == (if crate::y2015::day08::all_quoted(lv)
                        && crate::y2015::day08::sum_code(lv, lv.len() as int) <= usize::MAX {
                        dec_chars(
                            (crate::y2015::day08::sum_code(lv, lv.len() as int)
                                - crate::y2015::day08::sum_mem(lv, lv.len() as int)) as nat,
                        )
                    } else {
                        no_answer_text()
                    })
                    &&& a2 == (if crate::y2015::day08::all_long_enough(lv)
                        && crate::y2015::day08::sum_enc(lv, lv.len() as int) <= usize::MAX {
                        dec_chars(
                            (crate::y2015::day08::sum_enc(lv, lv.len() as int)
                                - crate::y2015::day08::sum_code(lv, lv.len() as int)) as nat,
                        )
                    } else {
                        no_answer_text()
                    })
                }
        },
        SolverId::Y2015Day09 => {
            if crate::y2015::day09::all_lines_wf(sb) && crate::y2015::day09::spec_names(sb).len()
                <= 24 {
                let m = crate::y2015::day09::spec_matrix(sb);
                &&& a1 == render_nat(crate::y2015::day09::best_over_starts(
                    m,
                    true,
                    m.len() as int,
                ))
                &&& a2 == render_nat(crate::y2015::day09::best_over_starts(
                    m,
                    false,
                    m.len() as int,
                ))
            } else {
                a1 == no_answer_text() && a2 == no_answer_text()
            }
        },
        SolverId::Y2015Day10 => {
            let t = crate::util::bytes::spec_trim(sb);
            &&& a1 == dec_chars(crate::y2015::day10::say_iter(t, 40).len())
            &&& a2 == dec_chars(crate::y2015::day10::say_iter(t, 50).len())
        },
    }
}

/// Run one solver on the raw input text and render both answers.
pub fn run_solver(id: SolverId, input: &str) -> (r: (String, String))
    ensures
        answers_ok(id, input.spec_bytes(), r.0@, r.1@),
{
    match id {
        SolverId::Y2015Day01 => {
            let parsed = crate::y2015::day01::parse(input);
            let p1 = match crate::y2015::day01::part1(parsed) {
                Some(v) => crate::util::text::i64_to_dec(v as i64),
                None => no_answer(),
            };
            let p2 = match crate::y2015::day01::part2(parsed) {
                Some(v) => crate::util::text::u64_to_dec(v as u64),
                None => no_answer(),
            };
            (p1, p2)
        },
        SolverId::Y2015Day02 => {
            match crate::y2015::day02::parse(input) {
                Some(boxes) => {
                    let p1 = render_opt_u64(
                        match crate::y2015::day02::part1(boxes.as_slice()) {
                            Some(v) => Some(v as u64),
                            None => None,
                        },
                    );
                    let p2 = render_opt_u64(
                        match crate::y2015::day02::part2(boxes.as_slice()) {
                            Some(v) => Some(v as u64),
                            None => None,
                        },
                    );
                    (p1, p2)
                },
                None => (no_answer(), no_answer()),
            }
        },
        SolverId::Y2015Day03 => {
            let moves = crate::y2015::day03::parse(input);
            let p1 = render_opt_usize(crate::y2015::day03::part1(moves));
            let p2 = render_opt_usize(crate::y2015::day03::part2(moves));
            (p1, p2)
        },
        SolverId::Y2015Day04 => {
            let found = crate::y2015::day04::parse(input);
            let p1 = crate::util::text::u64_to_dec(crate::y2015::day04::part1(&found));
            let p2 = crate::util::text::u64_to_dec(crate::y2015::day04::part2(&found));
            (p1, p2)
        },
        SolverId::Y2015Day05 => {
            let lines = crate::y2015::day05::parse(input);
            let c1 = crate::y2015::day05::part1(&lines);
            let c2 = crate::y2015::day05::part2(&lines);
            (
                crate::util::text::u64_to_dec(c1 as u64),
                crate::util::text::u64_to_dec(c2 as u64),
            )
        },
        SolverId::Y2015Day06 => {
            match crate::y2015::day06::parse(input) {
                Some(ins) => {
                    let p1 = crate::util::text::u64_to_dec(crate::y2015::day06::part1(&ins));
                    let p2 = if (ins.len() as u64) <= 0x10000000000u64 {
                        crate::util::text::u64_to_dec(crate::y2015::day06::part2(&ins))
                    } else {
                        no_answer()
                    };
                    (p1, p2)
                },
                None => (no_answer(), no_answer()),
            }
        },
        SolverId::Y2015Day07 => {
            match crate::y2015::day07::parse(input) {
                Some(c) => {
                    if c.wires.len() == usize::MAX {
                        // a circuit of that size cannot be resolved here
                        return (no_answer(), no_answer());
                    }
                    let p1 = match crate::y2015::day07::part1(&c) {
                        Some(v) => crate::util::text::u64_to_dec(v as u64),
                        None => no_answer(),
                    };
                    let p2 = match crate::y2015::day07::part2(&c) {
                        Some(v) => crate::util::text::u64_to_dec(v as u64),
                        None => no_answer(),
                    };
                    (p1, p2)
                },
                None => (no_answer(), no_answer()),
            }
        },
        SolverId::Y2015Day08 => {
            let lines = crate::y2015::day08::parse(input);
            let p1 = render_opt_usize(crate::y2015::day08::part1(&lines));
            let p2 = render_opt_usize(crate::y2015::day08::part2(&lines));
            (p1, p2)
        },
        SolverId::Y2015Day09 => {
            match crate::y2015::day09::parse(input) {
                Some(m) => {
                    proof {
                        assert(crate::y2015::day09::deep(m@) =~= crate::y2015::day09::spec_matrix(
                            input.spec_bytes(),
                        ));
                    }
                    let p1 = render_opt_u64(crate::y2015::day09::part1(&m));
                    let p2 = render_opt_u64(crate::y2015::day09::part2(&m));
                    (p1, p2)
                },
                None => (no_answer(), no_answer()),
            }
        },
        SolverId::Y2015Day10 => {
            let (l40, l50) = crate::y2015::day10::parse(input);
            (
                crate::util::text::u64_to_dec(l40 as u64),
                crate::util::text::u64_to_dec(l50 as u64),
            )
        },
    }
}

} // verus!
