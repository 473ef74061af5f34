//! Day 7: a circuit of wires carrying 16-bit signals through gates,
//! evaluated on demand.

use vstd::prelude::*;

verus! {

use vstd::string::StringSliceAdditionalSpecFns;
use crate::util::bytes::{spec_lines, spec_words, split_lines, split_words, slice_eq};
use crate::util::text::{dec_val, is_digit_byte};
use crate::y2015::day09::{add_name, first_index, lemma_first_index};

/// A gate feeding a wire; operands refer to other wires by index.
#[derive(Clone, Copy, Debug, PartialEq, Eq, Structural)]
pub enum Gate {
    And(usize, usize),
    AndConst(u16, usize),
    Or(usize, usize),
    LShift(usize, u16),
    RShift(usize, u16),
    Not(usize),
    Jumper(usize),
}

/// What drives a wire: a constant signal or a gate.
#[derive(Clone, Copy, Debug, PartialEq, Eq, Structural)]
pub enum Wire {
    Signal(u16),
    Gate(Gate),
}

/// The signal on wire `id`, resolved by structural recursion with a fuel
/// bound: a circuit needing deeper resolution than the fuel allows — in
/// particular a cyclic one — yields nothing.
pub open spec fn eval(ws: Seq<Wire>, id: int, fuel: nat) -> Option<u16>
    decreases fuel,
{
    if fuel == 0 || id < 0 || id >= ws.len() {
        None
    } else {
        match ws[id] {
            Wire::Signal(v) => Some(v),
            Wire::Gate(g) => match g {
                Gate::And(a, b) => match (
                    eval(ws, a as int, (fuel - 1) as nat),
                    eval(ws, b as int, (fuel - 1) as nat),
                ) {
                    (Some(x), Some(y)) => Some(x & y),
                    _ => None,
                },
                Gate::AndConst(c, b) => match eval(ws, b as int, (fuel - 1) as nat) {
                    Some(y) => Some(c & y),
                    None => None,
                },
                Gate::Or(a, b) => match (
                    eval(ws, a as int, (fuel - 1) as nat),
                    eval(ws, b as int, (fuel - 1) as nat),
                ) {
                    (Some(x), Some(y)) => Some(x | y),
                    _ => None,
                },
                Gate::LShift(a, n) => if n < 16 {
                    match eval(ws, a as int, (fuel - 1) as nat) {
                        Some(x) => Some(x << n),
                        None => None,
                    }
                } else {
                    None
                },
                Gate::RShift(a, n) => if n < 16 {
                    match eval(ws, a as int, (fuel - 1) as nat) {
                        Some(x) => Some(x >> n),
                        None => None,
                    }
                } else {
                    None
                },
                Gate::Not(b) => match eval(ws, b as int, (fuel - 1) as nat) {
                    Some(y) => Some(!y),
                    None => None,
                },
                Gate::Jumper(b) => eval(ws, b as int, (fuel - 1) as nat),
            },
        }
    }
}

/// Resolve the signal on wire `id` within the given fuel.
pub fn solve(wires: &Vec<Wire>, id: usize, fuel: usize) -> (r: Option<u16>)
    ensures
        r == eval(wires@, id as int, fuel as nat),
    decreases fuel,
{
    if fuel == 0 || id >= wires.len() {
        return None;
    }
    match wires[id] {
        Wire::Signal(v) => Some(v),
        Wire::Gate(g) => match g {
            Gate::And(a, b) => match (solve(wires, a, fuel - 1), solve(wires, b, fuel - 1)) {
                (Some(x), Some(y)) => Some(x & y),
                _ => None,
            },
            Gate::AndConst(c, b) => match solve(wires, b, fuel - 1) {
                Some(y) => Some(c & y),
                None => None,
            },
            Gate::Or(a, b) => match (solve(wires, a, fuel - 1), solve(wires, b, fuel - 1)) {
                (Some(x), Some(y)) => Some(x | y),
                _ => None,
            },
            Gate::LShift(a, n) => if n < 16 {
                match solve(wires, a, fuel - 1) {
                    Some(x) => Some(x << n),
                    None => None,
                }
            } else {
                None
            },
            Gate::RShift(a, n) => if n < 16 {
                match solve(wires, a, fuel - 1) {
                    Some(x) => Some(x >> n),
                    None => None,
                }
            } else {
                None
            },
            Gate::Not(b) => match solve(wires, b, fuel - 1) {
                Some(y) => Some(!y),
                None => None,
            },
            Gate::Jumper(b) => solve(wires, b, fuel - 1),
        },
    }
}

pub open spec fn arrow_word() -> Seq<u8> {
    "->"@.map_values(|c: char| c as u8)
}

pub open spec fn and_word() -> Seq<u8> {
    "AND"@.map_values(|c: char| c as u8)
}

pub open spec fn or_word() -> Seq<u8> {
    "OR"@.map_values(|c: char| c as u8)
}

pub open spec fn lshift_word() -> Seq<u8> {
    "LSHIFT"@.map_values(|c: char| c as u8)
}

pub open spec fn rshift_word() -> Seq<u8> {
    "RSHIFT"@.map_values(|c: char| c as u8)
}

pub open spec fn not_word() -> Seq<u8> {
    "NOT"@.map_values(|c: char| c as u8)
}

pub open spec fn all_digits(w: Seq<u8>) -> bool {
    w.len() > 0 && forall|i: int| 0 <= i < w.len() ==> is_digit_byte(#[trigger] w[i])
}

/// The wire a reference names, or one past the end for an unknown name,
/// which never resolves.
pub open spec fn ref_id(names: Seq<Seq<u8>>, w: Seq<u8>) -> usize {
    if names.contains(w) {
        first_index(names, w) as usize
    } else {
        names.len() as usize
    }
}

/// The wire a line defines, by its shape; nothing for a malformed line.
pub open spec fn wire_of(l: Seq<u8>, names: Seq<Seq<u8>>) -> Option<Wire> {
    let ws = spec_words(l);
    if ws.len() == 3 && ws[1] == arrow_word() {
        if all_digits(ws[0]) {
            if dec_val(ws[0]) <= 0xffff {
                Some(Wire::Signal(dec_val(ws[0]) as u16))
            } else {
                None
            }
        } else {
            Some(Wire::Gate(Gate::Jumper(ref_id(names, ws[0]))))
        }
    } else if ws.len() == 4 && ws[0] == not_word() && ws[2] == arrow_word() {
        Some(Wire::Gate(Gate::Not(ref_id(names, ws[1]))))
    } else if ws.len() == 5 && ws[3] == arrow_word() {
        if ws[1] == and_word() {
            if all_digits(ws[0]) {
                if dec_val(ws[0]) <= 0xffff {
                    Some(Wire::Gate(Gate::AndConst(dec_val(ws[0]) as u16, ref_id(names, ws[2]))))
                } else {
                    None
                }
            } else {
                Some(Wire::Gate(Gate::And(ref_id(names, ws[0]), ref_id(names, ws[2]))))
            }
        } else if ws[1] == or_word() {
            Some(Wire::Gate(Gate::Or(ref_id(names, ws[0]), ref_id(names, ws[2]))))
        } else if ws[1] == lshift_word() {
            if all_digits(ws[2]) && dec_val(ws[2]) <= 0xffff {
                Some(Wire::Gate(Gate::LShift(ref_id(names, ws[0]), dec_val(ws[2]) as u16)))
            } else {
                None
            }
        } else if ws[1] == rshift_word() {
            if all_digits(ws[2]) && dec_val(ws[2]) <= 0xffff {
                Some(Wire::Gate(Gate::RShift(ref_id(names, ws[0]), dec_val(ws[2]) as u16)))
            } else {
                None
            }
        } else {
            None
        }
    } else {
        None
    }
}

/// The wire a line drives: its last word.
pub open spec fn target_of(l: Seq<u8>) -> Seq<u8> {
    spec_words(l).last()
}

/// The distinct target names, in order of first definition.
pub open spec fn collect_targets(ls: Seq<Seq<u8>>, k: int) -> Seq<Seq<u8>>
    decreases k,
{
    if k <= 0 {
        Seq::empty()
    } else {
        add_name(collect_targets(ls, k - 1), target_of(ls[k - 1]))
    }
}

/// The wires after the first `k` lines; a redefined wire keeps its slot,
/// with the later definition winning.
pub open spec fn fill_wires(ls: Seq<Seq<u8>>, k: int, names: Seq<Seq<u8>>) -> Seq<Wire>
    decreases k,
{
    if k <= 0 {
        Seq::new(names.len(), |i: int| Wire::Signal(0))
    } else {
        let prev = fill_wires(ls, k - 1, names);
        match wire_of(ls[k - 1], names) {
            Some(w) => prev.update(first_index(names, target_of(ls[k - 1])), w),
            None => prev,
        }
    }
}

/// A parsed circuit: the wires, and where `a` and `b` are, if present.
pub struct Circuit {
    pub wires: Vec<Wire>,
    pub a: Option<usize>,
    pub b: Option<usize>,
}

pub open spec fn a_word() -> Seq<u8> {
    "a"@.map_values(|c: char| c as u8)
}

pub open spec fn b_word() -> Seq<u8> {
    "b"@.map_values(|c: char| c as u8)
}

pub open spec fn spec_targets(s: Seq<u8>) -> Seq<Seq<u8>> {
    collect_targets(spec_lines(s), spec_lines(s).len() as int)
}

pub open spec fn spec_wires(s: Seq<u8>) -> Seq<Wire> {
    fill_wires(spec_lines(s), spec_lines(s).len() as int, spec_targets(s))
}

pub open spec fn spec_opt_id(names: Seq<Seq<u8>>, w: Seq<u8>) -> Option<usize> {
    if names.contains(w) {
        Some(first_index(names, w) as usize)
    } else {
        None
    }
}

/// The signal a circuit puts on an optionally-present wire, resolving as
/// deep as the number of wires allows.
pub open spec fn circuit_val(ws: Seq<Wire>, id: Option<usize>) -> Option<u16> {
    match id {
        None => None,
        Some(i) => eval(ws, i as int, (ws.len() + 1) as nat),
    }
}


pub open spec fn all_wires_wf(s: Seq<u8>) -> bool {
    forall|i: int|
        0 <= i < spec_lines(s).len() ==> wire_of(#[trigger] spec_lines(s)[i], spec_targets(s))
            is Some
}

/// The collected targets hold the target of every line collected so far.
proof fn lemma_collect_targets_contains(ls: Seq<Seq<u8>>, k: int, cap: int)
    requires
        0 <= k < cap,
    ensures
        collect_targets(ls, cap).contains(target_of(ls[k])),
    decreases cap,
{
    let prev = collect_targets(ls, cap - 1);
    if k == cap - 1 {
        crate::y2015::day09::lemma_add_name_has(prev, target_of(ls[cap - 1]));
    } else {
        lemma_collect_targets_contains(ls, k, cap - 1);
        crate::y2015::day09::lemma_add_name_keeps(
            prev,
            target_of(ls[cap - 1]),
            target_of(ls[k]),
        );
    }
}

/// Is the whole word made of digits?
fn word_all_digits(w: &[u8]) -> (r: bool)
    ensures
        r == all_digits(w@),
{
    let n = w.len();
    if n == 0 {
        return false;
    }
    let mut i: usize = 0;
    while i < n
        invariant
            i <= n,
            n == w@.len(),
            forall|q: int| 0 <= q < i ==> is_digit_byte(#[trigger] w@[q]),
        decreases n - i,
    {
        if w[i] < 48 || w[i] > 57 {
            return false;
        }
        i = i + 1;
    }
    true
}

/// The value of an all-digit word, clamped into `u64`.
fn word_value(w: &[u8]) -> (r: u64)
    requires
        all_digits(w@),
    ensures
        r == crate::util::parse::sat64(dec_val(w@)),
{
    let r = crate::util::parse::try_unsigned(w, 0);
    proof {
        let t = w@.skip(0);
        assert(t =~= w@);
        crate::util::parse::lemma_digit_run_len_char(w@, w@.len() as nat);
        assert(w@.take(w@.len() as int) =~= w@);
        assert(crate::util::parse::unsigned_tokens(w@)[0] == dec_val(w@));
    }
    match r {
        Some((v, _)) => v,
        None => {
            proof {
                assert(false);
            }
            0
        },
    }
}

/// Look a reference up; an unknown name gets the dangling index.
fn resolve_ref(names: &Vec<Vec<u8>>, w: &[u8], Ghost(gnames): Ghost<Seq<Seq<u8>>>) -> (r: usize)
    requires
        names@.len() == gnames.len(),
        forall|i: int| 0 <= i < names@.len() ==> #[trigger] names@[i]@ == gnames[i],
    ensures
        r == ref_id(gnames, w@),
{
    match crate::y2015::day09::find_name(names, w, Ghost(gnames)) {
        Some(i) => {
            proof {
                lemma_first_index(gnames, w@);
                if !gnames.contains(w@) {
                    assert(false);
                }
            }
            i
        },
        None => names.len(),
    }
}

/// The wire one well-shaped line defines; nothing for a malformed line.
fn line_wire(line: &[u8], names: &Vec<Vec<u8>>, Ghost(gnames): Ghost<Seq<Seq<u8>>>) -> (r: Option<
    Wire,
>)
    requires
        names@.len() == gnames.len(),
        forall|i: int| 0 <= i < names@.len() ==> #[trigger] names@[i]@ == gnames[i],
    ensures
        r == wire_of(line@, gnames),
{
    let words = split_words(line);
    let ghost gw = spec_words(line@);
    proof {
        broadcast use vstd::string::is_ascii_spec_bytes;

        reveal_strlit("->");
        reveal_strlit("AND");
        reveal_strlit("OR");
        reveal_strlit("LSHIFT");
        reveal_strlit("RSHIFT");
        reveal_strlit("NOT");
        assert(vstd::string::is_ascii("->"));
        assert(vstd::string::is_ascii("AND"));
        assert(vstd::string::is_ascii("OR"));
        assert(vstd::string::is_ascii("LSHIFT"));
        assert(vstd::string::is_ascii("RSHIFT"));
        assert(vstd::string::is_ascii("NOT"));
        assert("->".spec_bytes() =~= arrow_word());
        assert("AND".spec_bytes() =~= and_word());
        assert("OR".spec_bytes() =~= or_word());
        assert("LSHIFT".spec_bytes() =~= lshift_word());
        assert("RSHIFT".spec_bytes() =~= rshift_word());
        assert("NOT".spec_bytes() =~= not_word());
    }
    if words.len() == 3 && slice_eq(words[1].as_slice(), "->".as_bytes()) {
        if word_all_digits(words[0].as_slice()) {
            let v = word_value(words[0].as_slice());
            if v <= 0xffff {
                Some(Wire::Signal(v as u16))
            } else {
                None
            }
        } else {
            Some(Wire::Gate(Gate::Jumper(resolve_ref(names, words[0].as_slice(), Ghost(gnames)))))
        }
    } else if words.len() == 4 && slice_eq(words[0].as_slice(), "NOT".as_bytes()) && slice_eq(
        words[2].as_slice(),
        "->".as_bytes(),
    ) {
        Some(Wire::Gate(Gate::Not(resolve_ref(names, words[1].as_slice(), Ghost(gnames)))))
    } else if words.len() == 5 && slice_eq(words[3].as_slice(), "->".as_bytes()) {
        if slice_eq(words[1].as_slice(), "AND".as_bytes()) {
            if word_all_digits(words[0].as_slice()) {
                let v = word_value(words[0].as_slice());
                if v <= 0xffff {
                    Some(
                        Wire::Gate(
                            Gate::AndConst(
                                v as u16,
                                resolve_ref(names, words[2].as_slice(), Ghost(gnames)),
                            ),
                        ),
                    )
                } else {
                    None
                }
            } else {
                Some(
                    Wire::Gate(
                        Gate::And(
                            resolve_ref(names, words[0].as_slice(), Ghost(gnames)),
                            resolve_ref(names, words[2].as_slice(), Ghost(gnames)),
                        ),
                    ),
                )
            }
        } else if slice_eq(words[1].as_slice(), "OR".as_bytes()) {
            Some(
                Wire::Gate(
                    Gate::Or(
                        resolve_ref(names, words[0].as_slice(), Ghost(gnames)),
                        resolve_ref(names, words[2].as_slice(), Ghost(gnames)),
                    ),
                ),
            )
        } else if slice_eq(words[1].as_slice(), "LSHIFT".as_bytes()) {
            if word_all_digits(words[2].as_slice()) {
                let v = word_value(words[2].as_slice());
                if v <= 0xffff {
                    Some(
                        Wire::Gate(
                            Gate::LShift(
                                resolve_ref(names, words[0].as_slice(), Ghost(gnames)),
                                v as u16,
                            ),
                        ),
                    )
                } else {
                    None
                }
            } else {
                None
            }
        } else if slice_eq(words[1].as_slice(), "RSHIFT".as_bytes()) {
            if word_all_digits(words[2].as_slice()) {
                let v = word_value(words[2].as_slice());
                if v <= 0xffff {
                    Some(
                        Wire::Gate(
                            Gate::RShift(
                                resolve_ref(names, words[0].as_slice(), Ghost(gnames)),
                                v as u16,
                            ),
                        ),
                    )
                } else {
                    None
                }
            } else {
                None
            }
        } else {
            None
        }
    } else {
        None
    }
}

/// The circuit read from the input. Nothing if a line is malformed.
pub fn parse(input: &str) -> (r: Option<Circuit>)
    ensures
        ({
            let sb = input.spec_bytes();
            &&& (r matches Some(c) ==> {
                &&& all_wires_wf(sb)
                &&& c.wires@ == spec_wires(sb)
                &&& c.a == spec_opt_id(spec_targets(sb), a_word())
                &&& c.b == spec_opt_id(spec_targets(sb), b_word())
            })
            &&& (r matches None ==> !all_wires_wf(sb))
        }),
{
    let bytes = input.as_bytes();
    let lines = split_lines(bytes);
    let ghost dls = spec_lines(input.spec_bytes());
    let ghost gnames = spec_targets(input.spec_bytes());
    let n = lines.len();
    // first pass: collect the target names
    let mut names: Vec<Vec<u8>> = Vec::new();
    let mut i: usize = 0;
    while i < n
        invariant
            i <= n,
            n == lines@.len() == dls.len(),
            dls == spec_lines(input.spec_bytes()),
            forall|q: int| 0 <= q < n ==> #[trigger] lines@[q]@ == dls[q],
            names@.len() == collect_targets(dls, i as int).len(),
            forall|q: int|
                0 <= q < names@.len() ==> #[trigger] names@[q]@ == collect_targets(dls, i as int)[q],
        decreases n - i,
    {
        let line = &lines[i];
        let words = split_words(line.as_slice());
        if words.len() == 0 {
            // a line with no words is malformed, whatever the names are
            proof {
                assert(wire_of(dls[i as int], gnames) is None);
                assert(!all_wires_wf(input.spec_bytes()));
            }
            return None;
        }
        let last = words.len() - 1;
        let ghost before = collect_targets(dls, i as int);
        let found = crate::y2015::day09::find_name(&names, words[last].as_slice(), Ghost(before));
        if found.is_none() {
            let w = crate::util::bytes::subvec(words[last].as_slice(), 0, words[last].len());
            proof {
                assert(w@ =~= target_of(dls[i as int]));
            }
            names.push(w);
        }
        proof {
            let after = add_name(before, target_of(dls[i as int]));
            assert(words@[last as int]@ == target_of(dls[i as int]));
            lemma_first_index(before, target_of(dls[i as int]));
            if before.contains(target_of(dls[i as int])) {
                assert(names@.len() == after.len());
            } else {
                assert(names@[names@.len() - 1]@ == after[after.len() - 1]);
            }
            assert(forall|q: int| 0 <= q < names@.len() ==> #[trigger] names@[q]@ == after[q]);
            assert(after == collect_targets(dls, i + 1));
        }
        i = i + 1;
    }
    proof {
        assert(collect_targets(dls, n as int) == gnames);
    }
    // second pass: build each wire
    let nn = names.len();
    let mut wires: Vec<Wire> = Vec::new();
    let mut y: usize = 0;
    while y < nn
        invariant
            y <= nn,
            wires@ =~= Seq::new(y as nat, |i: int| Wire::Signal(0)),
        decreases nn - y,
    {
        wires.push(Wire::Signal(0));
        proof {
            assert(wires@ =~= Seq::new((y + 1) as nat, |i: int| Wire::Signal(0)));
        }
        y = y + 1;
    }
    let mut k: usize = 0;
    while k < n
        invariant
            k <= n,
            n == lines@.len() == dls.len(),
            nn == names@.len() == gnames.len(),
            dls == spec_lines(input.spec_bytes()),
            gnames == spec_targets(input.spec_bytes()),
            forall|q: int| 0 <= q < n ==> #[trigger] lines@[q]@ == dls[q],
            forall|q: int| 0 <= q < nn ==> #[trigger] names@[q]@ == gnames[q],
            forall|q: int| 0 <= q < k ==> wire_of(#[trigger] dls[q], gnames) is Some,
            wires@.len() == nn,
            wires@ == fill_wires(dls, k as int, gnames),
        decreases n - k,
    {
        let line = &lines[k];
        match line_wire(line.as_slice(), &names, Ghost(gnames)) {
            Some(w) => {
                let words = split_words(line.as_slice());
                proof {
                    assert(wire_of(dls[k as int], gnames) is Some);
                    assert(spec_words(dls[k as int]).len() >= 3);
                }
                let last = words.len() - 1;
                match crate::y2015::day09::find_name(
                    &names,
                    words[last].as_slice(),
                    Ghost(gnames),
                ) {
                    Some(ti) => {
                        proof {
                            assert(words@[last as int]@ == target_of(dls[k as int]));
                        }
                        wires.set(ti, w);
                    },
                    None => {
                        proof {
                            lemma_collect_targets_contains(dls, k as int, n as int);
                            assert(words@[last as int]@ == target_of(dls[k as int]));
                            assert(false);
                        }
                    },
                }
            },
            None => {
                proof {
                    assert(!all_wires_wf(input.spec_bytes()));
                }
                return None;
            },
        }
        k = k + 1;
    }
    let a = match crate::y2015::day09::find_name(&names, "a".as_bytes(), Ghost(gnames)) {
        Some(idx) => Some(idx),
        None => None,
    };
    let b = match crate::y2015::day09::find_name(&names, "b".as_bytes(), Ghost(gnames)) {
        Some(idx) => Some(idx),
        None => None,
    };
    proof {
        broadcast use vstd::string::is_ascii_spec_bytes;

        reveal_strlit("a");
        reveal_strlit("b");
        assert(vstd::string::is_ascii("a"));
        assert(vstd::string::is_ascii("b"));
        assert("a".spec_bytes() =~= a_word());
        assert("b".spec_bytes() =~= b_word());
        lemma_first_index(gnames, a_word());
        lemma_first_index(gnames, b_word());
        assert(all_wires_wf(input.spec_bytes()));
    }
    Some(Circuit { wires, a, b })
}

/// The signal on wire `a`.
pub fn part1(input: &Circuit) -> (r: Option<u16>)
    requires
        input.wires@.len() < usize::MAX,
    ensures
        r == circuit_val(input.wires@, input.a),
{
    match input.a {
        Some(id) => solve(&input.wires, id, input.wires.len() + 1),
        None => None,
    }
}

/// What part 2 computes: wire `b` is overridden with the signal first
/// found on `a`, and `a` is resolved again.
pub open spec fn spec_part2(ws: Seq<Wire>, a: Option<usize>, b: Option<usize>) -> Option<u16> {
    match (a, b) {
        (Some(ai), Some(bi)) => if bi < ws.len() {
            match circuit_val(ws, Some(ai)) {
                Some(prev) => circuit_val(ws.update(bi as int, Wire::Signal(prev)), Some(ai)),
                None => None,
            }
        } else {
            None
        },
        _ => None,
    }
}

/// The signal on `a` once `b` is overridden with `a`'s first signal.
pub fn part2(input: &Circuit) -> (r: Option<u16>)
    requires
        input.wires@.len() < usize::MAX,
    ensures
        r == spec_part2(input.wires@, input.a, input.b),
{
    let (ai, bi) = match (input.a, input.b) {
        (Some(ai), Some(bi)) => (ai, bi),
        _ => {
            return None;
        },
    };
    if bi >= input.wires.len() {
        return None;
    }
    let prev = match solve(&input.wires, ai, input.wires.len() + 1) {
        Some(v) => v,
        None => {
            return None;
        },
    };
    let mut wires2 = vstd::slice::slice_to_vec(input.wires.as_slice());
    wires2.set(bi, Wire::Signal(prev));
    solve(&wires2, ai, wires2.len() + 1)
}

} // verus!
