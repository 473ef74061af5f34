//! Day 3: houses visited on an infinite grid while following a string of
//! arrow moves, alone or alternating with a partner.

use vstd::prelude::*;

verus! {

use vstd::string::StringSliceAdditionalSpecFns;
use vstd::hash_set::HashSetWithView;

pub open spec fn is_move(b: u8) -> bool {
    b == 94 || b == 118 || b == 60 || b == 62
}

pub open spec fn all_moves(s: Seq<u8>) -> bool {
    forall|i: int| 0 <= i < s.len() ==> is_move(#[trigger] s[i])
}

/// One step from `pos` in the direction named by `b`.
pub open spec fn spec_move(pos: (int, int), b: u8) -> (int, int) {
    if b == 94 {
        (pos.0, pos.1 + 1)
    } else if b == 118 {
        (pos.0, pos.1 - 1)
    } else if b == 60 {
        (pos.0 - 1, pos.1)
    } else {
        (pos.0 + 1, pos.1)
    }
}

/// Where a single walker stands after the first `k` moves.
pub open spec fn pos_after(s: Seq<u8>, k: int) -> (int, int)
    decreases k,
{
    if k <= 0 {
        (0, 0)
    } else {
        spec_move(pos_after(s, k - 1), s[k - 1])
    }
}

/// The set of positions a single walker has stood on after `k` moves.
pub open spec fn visited_single(s: Seq<u8>, k: int) -> Set<(int, int)>
    decreases k,
{
    if k <= 0 {
        Set::empty().insert((0, 0))
    } else {
        visited_single(s, k - 1).insert(pos_after(s, k))
    }
}

/// Where the walker taking the moves of parity `par` stands after the
/// first `k` moves are dealt out alternately.
pub open spec fn pos_after_alt(s: Seq<u8>, par: int, k: int) -> (int, int)
    decreases k,
{
    if k <= 0 {
        (0, 0)
    } else if (k - 1) % 2 == par {
        spec_move(pos_after_alt(s, par, k - 1), s[k - 1])
    } else {
        pos_after_alt(s, par, k - 1)
    }
}

/// The positions either of the two alternating walkers has stood on.
pub open spec fn visited_pair(s: Seq<u8>, k: int) -> Set<(int, int)>
    decreases k,
{
    if k <= 0 {
        Set::empty().insert((0, 0))
    } else if (k - 1) % 2 == 0 {
        visited_pair(s, k - 1).insert(pos_after_alt(s, 0, k))
    } else {
        visited_pair(s, k - 1).insert(pos_after_alt(s, 1, k))
    }
}

pub open spec fn day03_ok(s: Seq<u8>) -> bool {
    all_moves(s) && s.len() <= 0x7fffffff
}

pub open spec fn spec_part1(s: Seq<u8>) -> Option<nat> {
    if day03_ok(s) {
        Some(visited_single(s, s.len() as int).len())
    } else {
        None
    }
}

pub open spec fn spec_part2(s: Seq<u8>) -> Option<nat> {
    if day03_ok(s) {
        Some(visited_pair(s, s.len() as int).len())
    } else {
        None
    }
}

/// The input is already the move string.
pub fn parse<'a>(input: &'a str) -> (r: &'a str)
    ensures
        r == input,
{
    input
}

/// A grid position packed into one word.
pub open spec fn spec_encode(p: (int, int)) -> int {
    (p.0 + 0x80000000) * 0x100000000 + (p.1 + 0x80000000)
}

pub open spec fn in_grid(p: (int, int)) -> bool {
    -0x80000000 <= p.0 < 0x80000000 && -0x80000000 <= p.1 < 0x80000000
}

proof fn lemma_encode_injective(p: (int, int), q: (int, int))
    requires
        in_grid(p),
        in_grid(q),
        spec_encode(p) == spec_encode(q),
    ensures
        p == q,
{
    let a = p.0 + 0x80000000;
    let b = p.1 + 0x80000000;
    let c = q.0 + 0x80000000;
    let d = q.1 + 0x80000000;
    assert(a == c && b == d) by (nonlinear_arith)
        requires
            0 <= a < 0x100000000 && 0 <= b < 0x100000000 && 0 <= c < 0x100000000 && 0 <= d
                < 0x100000000 && a * 0x100000000 + b == c * 0x100000000 + d,
    ;
}

fn encode(x: i64, y: i64) -> (e: u64)
    requires
        in_grid((x as int, y as int)),
    ensures
        e == spec_encode((x as int, y as int)),
{
    ((x + 0x80000000) as u64) * 0x100000000 + ((y + 0x80000000) as u64)
}

/// One step from `pos` in the direction named by `dir`.
pub fn do_move(pos: (i64, i64), dir: u8) -> (r: (i64, i64))
    requires
        is_move(dir),
        -0x7fffffffffff < pos.0 < 0x7fffffffffff,
        -0x7fffffffffff < pos.1 < 0x7fffffffffff,
    ensures
        (r.0 as int, r.1 as int) == spec_move((pos.0 as int, pos.1 as int), dir),
{
    if dir == 94 {
        (pos.0, pos.1 + 1)
    } else if dir == 118 {
        (pos.0, pos.1 - 1)
    } else if dir == 60 {
        (pos.0 - 1, pos.1)
    } else {
        (pos.0 + 1, pos.1)
    }
}

/// How many distinct houses a single walker visits.
pub fn part1(input: &str) -> (r: Option<usize>)
    ensures
        (r matches Some(c) ==> spec_part1(input.spec_bytes()) == Some(c as nat)),
        (r matches None ==> spec_part1(input.spec_bytes()) is None),
{
    let bytes = input.as_bytes();
    let n = bytes.len();
    if n > 0x7fffffff {
        return None;
    }
    broadcast use vstd::std_specs::hash::axiom_u64_obeys_hash_table_key_model;

    let mut seen: HashSetWithView<u64> = HashSetWithView::new();
    let mut x: i64 = 0;
    let mut y: i64 = 0;
    seen.insert(encode(0, 0));
    let mut i: usize = 0;
    while i < n
        invariant
            bytes@ == input.spec_bytes(),
            i <= n,
            n == bytes@.len() <= 0x7fffffff,
            forall|q: int| 0 <= q < i ==> is_move(#[trigger] bytes@[q]),
            (x as int, y as int) == pos_after(bytes@, i as int),
            -(i as int) <= x <= i as int,
            -(i as int) <= y <= i as int,
            seen@.finite(),
            seen@.len() == visited_single(bytes@, i as int).len(),
            visited_single(bytes@, i as int).finite(),
            forall|p: (int, int)|
                in_grid(p) ==> (visited_single(bytes@, i as int).contains(p)
                    <==> seen@.contains(#[trigger] spec_encode(p) as u64)),
        decreases n - i,
    {
        let b = bytes[i];
        if !(b == 94 || b == 118 || b == 60 || b == 62) {
            proof {
                assert(!all_moves(bytes@));
            }
            return None;
        }
        let next = do_move((x, y), b);
        x = next.0;
        y = next.1;
        let ghost prev = visited_single(bytes@, i as int);
        let ghost np = (x as int, y as int);
        let ghost before = seen@;
        seen.insert(encode(x, y));
        proof {
            assert(visited_single(bytes@, i + 1) == prev.insert(np));
            if prev.contains(np) {
                assert(before.contains(spec_encode(np) as u64));
                assert(seen@ =~= before);
                assert(prev.insert(np) =~= prev);
            } else {
                assert(!before.contains(spec_encode(np) as u64)) by {
                    if before.contains(spec_encode(np) as u64) {
                        assert(prev.contains(np));
                    }
                }
                assert(seen@.len() == before.len() + 1);
                assert(prev.insert(np).len() == prev.len() + 1);
            }
            assert forall|p: (int, int)| in_grid(p) implies (prev.insert(np).contains(p)
                <==> seen@.contains(#[trigger] spec_encode(p) as u64)) by {
                if p != np {
                    if spec_encode(p) == spec_encode(np) {
                        lemma_encode_injective(p, np);
                    }
                }
            }
        }
        i = i + 1;
    }
    proof {
        assert(all_moves(bytes@));
    }
    Some(seen.len())
}

/// How many distinct houses two alternating walkers visit between them.
pub fn part2(input: &str) -> (r: Option<usize>)
    ensures
        (r matches Some(c) ==> spec_part2(input.spec_bytes()) == Some(c as nat)),
        (r matches None ==> spec_part2(input.spec_bytes()) is None),
{
    let bytes = input.as_bytes();
    let n = bytes.len();
    if n > 0x7fffffff {
        return None;
    }
    broadcast use vstd::std_specs::hash::axiom_u64_obeys_hash_table_key_model;

    let mut seen: HashSetWithView<u64> = HashSetWithView::new();
    let mut sx: i64 = 0;
    let mut sy: i64 = 0;
    let mut rx: i64 = 0;
    let mut ry: i64 = 0;
    seen.insert(encode(0, 0));
    let mut i: usize = 0;
    while i < n
        invariant
            bytes@ == input.spec_bytes(),
            i <= n,
            n == bytes@.len() <= 0x7fffffff,
            forall|q: int| 0 <= q < i ==> is_move(#[trigger] bytes@[q]),
            (sx as int, sy as int) == pos_after_alt(bytes@, 0, i as int),
            (rx as int, ry as int) == pos_after_alt(bytes@, 1, i as int),
            -(i as int) <= sx <= i as int,
            -(i as int) <= sy <= i as int,
            -(i as int) <= rx <= i as int,
            -(i as int) <= ry <= i as int,
            seen@.finite(),
            seen@.len() == visited_pair(bytes@, i as int).len(),
            visited_pair(bytes@, i as int).finite(),
            forall|p: (int, int)|
                in_grid(p) ==> (visited_pair(bytes@, i as int).contains(p) <==> seen@.contains(
                    #[trigger] spec_encode(p) as u64,
                )),
        decreases n - i,
    {
        let b = bytes[i];
        if !(b == 94 || b == 118 || b == 60 || b == 62) {
            proof {
                assert(!all_moves(bytes@));
            }
            return None;
        }
        let ghost prev = visited_pair(bytes@, i as int);
        let ghost before = seen@;
        let ghost np: (int, int);
        if i % 2 == 0 {
            let next = do_move((sx, sy), b);
            sx = next.0;
            sy = next.1;
            proof {
                np = (sx as int, sy as int);
            }
            seen.insert(encode(sx, sy));
        } else {
            let next = do_move((rx, ry), b);
            rx = next.0;
            ry = next.1;
            proof {
                np = (rx as int, ry as int);
            }
            seen.insert(encode(rx, ry));
        }
        proof {
            assert(visited_pair(bytes@, i + 1) == prev.insert(np));
            if prev.contains(np) {
                assert(before.contains(spec_encode(np) as u64));
                assert(seen@ =~= before);
                assert(prev.insert(np) =~= prev);
            } else {
                assert(!before.contains(spec_encode(np) as u64)) by {
                    if before.contains(spec_encode(np) as u64) {
                        assert(prev.contains(np));
                    }
                }
                assert(seen@.len() == before.len() + 1);
                assert(prev.insert(np).len() == prev.len() + 1);
            }
            assert forall|p: (int, int)| in_grid(p) implies (prev.insert(np).contains(p)
                <==> seen@.contains(#[trigger] spec_encode(p) as u64)) by {
                if p != np {
                    if spec_encode(p) == spec_encode(np) {
                        lemma_encode_injective(p, np);
                    }
                }
            }
        }
        i = i + 1;
    }
    proof {
        assert(all_moves(bytes@));
    }
    Some(seen.len())
}

} // verus!
