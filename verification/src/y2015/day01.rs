//! Day 1: counting floors from a string of parentheses. An opening
//! parenthesis goes up one floor, a closing one goes down one.

use vstd::prelude::*;

verus! {

use vstd::string::StringSliceAdditionalSpecFns;

pub open spec fn is_paren(b: u8) -> bool {
    b == 40 || b == 41
}

pub open spec fn all_parens(s: Seq<u8>) -> bool {
    forall|i: int| 0 <= i < s.len() ==> is_paren(#[trigger] s[i])
}

/// The floor reached after the first `k` moves.
pub open spec fn floor_after(s: Seq<u8>, k: int) -> int
    decreases k,
{
    if k <= 0 {
        0
    } else {
        floor_after(s, k - 1) + (if s[k - 1] == 40 {
            1int
        } else {
            -1int
        })
    }
}

pub open spec fn spec_part1(s: Seq<u8>) -> Option<i32> {
    if all_parens(s) && s.len() <= i32::MAX {
        Some(floor_after(s, s.len() as int) as i32)
    } else {
        None
    }
}

/// The move sequence read one move at a time: the first position whose
/// floor is below zero, or nothing if no prefix ever goes below zero or
/// an unexpected byte is hit first.
pub open spec fn part2_scan(s: Seq<u8>, k: int, floor: int) -> Option<int>
    decreases s.len() - k,
{
    if k < 0 || k >= s.len() {
        None
    } else if !is_paren(s[k]) {
        None
    } else {
        let f = floor + (if s[k] == 40 {
            1int
        } else {
            -1int
        });
        if f < 0 {
            Some(k + 1)
        } else {
            part2_scan(s, k + 1, f)
        }
    }
}

pub open spec fn spec_part2(s: Seq<u8>) -> Option<int> {
    part2_scan(s, 0, 0)
}

/// The input is already the move string.
pub fn parse<'a>(input: &'a str) -> (r: &'a str)
    ensures
        r == input,
{
    input
}

/// The floor reached after all moves; nothing on an unexpected byte or
/// an input too long to count in an `i32`.
pub fn part1(input: &str) -> (r: Option<i32>)
    ensures
        r == spec_part1(input.spec_bytes()),
{
    let bytes = input.as_bytes();
    proof {
        assert(bytes@ == input.spec_bytes());
    }
    let n = bytes.len();
    if n > 2147483647 {
        proof {
            assert(spec_part1(bytes@) is None);
        }
        return None;
    }
    let mut floor: i32 = 0;
    let mut i: usize = 0;
    while i < n
        invariant
            bytes@ == input.spec_bytes(),
            i <= n,
            n == bytes@.len() <= i32::MAX,
            forall|q: int| 0 <= q < i ==> is_paren(#[trigger] bytes@[q]),
            floor == floor_after(bytes@, i as int),
            -(i as int) <= floor <= i as int,
        decreases n - i,
    {
        let b = bytes[i];
        if b == 40 {
            floor = floor + 1;
        } else if b == 41 {
            floor = floor - 1;
        } else {
            proof {
                assert(!all_parens(bytes@));
            }
            return None;
        }
        i = i + 1;
    }
    proof {
        assert(all_parens(bytes@));
    }
    Some(floor)
}

/// The 1-indexed position of the move that first takes the floor below
/// zero; nothing if that never happens.
pub fn part2(input: &str) -> (r: Option<usize>)
    ensures
        (r matches Some(p) ==> spec_part2(input.spec_bytes()) == Some(p as int)),
        (r matches None ==> spec_part2(input.spec_bytes()) is None),
{
    let bytes = input.as_bytes();
    proof {
        assert(bytes@ == input.spec_bytes());
    }
    let n = bytes.len();
    let mut floor: i128 = 0;
    let mut i: usize = 0;
    while i < n
        invariant
            bytes@ == input.spec_bytes(),
            i <= n,
            n == bytes@.len(),
            -(i as int) <= floor <= i as int,
            floor == floor_after(bytes@, i as int),
            floor >= 0,
            spec_part2(bytes@) == part2_scan(bytes@, i as int, floor as int),
        decreases n - i,
    {
        let b = bytes[i];
        if b != 40 && b != 41 {
            proof {
                assert(part2_scan(bytes@, i as int, floor as int) is None);
            }
            return None;
        }
        let f: i128 = if b == 40 {
            floor + 1
        } else {
            floor - 1
        };
        proof {
            assert(part2_scan(bytes@, i as int, floor as int) == (if f < 0 {
                Some(i + 1 as int)
            } else {
                part2_scan(bytes@, i + 1, f as int)
            }));
        }
        if f < 0 {
            return Some(i + 1);
        }
        floor = f;
        i = i + 1;
    }
    proof {
        assert(part2_scan(bytes@, n as int, floor as int) is None);
    }
    None
}

} // verus!
