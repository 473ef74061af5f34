//! Day 2: wrapping paper and ribbon for a list of box dimensions, three
//! numbers to a box.

use vstd::prelude::*;

verus! {

use vstd::string::StringSliceAdditionalSpecFns;
use crate::util::parse::{extract_unsigned, sat64, unsigned_tokens};

pub open spec fn spec_min(a: nat, b: nat) -> nat {
    if a <= b {
        a
    } else {
        b
    }
}

/// Paper for one box: the surface area plus the area of the smallest side.
pub open spec fn paper_term(b: [u32; 3]) -> nat {
    let l = b@[0] as nat;
    let w = b@[1] as nat;
    let h = b@[2] as nat;
    2 * (l * w) + 2 * (w * h) + 2 * (h * l) + spec_min(l * w, spec_min(w * h, h * l))
}

/// Ribbon for one box: the smallest perimeter plus the volume.
pub open spec fn ribbon_term(b: [u32; 3]) -> nat {
    let l = b@[0] as nat;
    let w = b@[1] as nat;
    let h = b@[2] as nat;
    2 * spec_min(l + w, spec_min(w + h, h + l)) + l * (w * h)
}

pub open spec fn paper_total(s: Seq<[u32; 3]>, k: int) -> nat
    decreases k,
{
    if k <= 0 {
        0
    } else {
        paper_total(s, k - 1) + paper_term(s[k - 1])
    }
}

pub open spec fn ribbon_total(s: Seq<[u32; 3]>, k: int) -> nat
    decreases k,
{
    if k <= 0 {
        0
    } else {
        ribbon_total(s, k - 1) + ribbon_term(s[k - 1])
    }
}

proof fn lemma_paper_total_monotone(s: Seq<[u32; 3]>, k: int)
    requires
        0 <= k <= s.len(),
    ensures
        paper_total(s, k) <= paper_total(s, s.len() as int),
    decreases s.len() - k,
{
    if k < s.len() {
        lemma_paper_total_monotone(s, k + 1);
    }
}

proof fn lemma_ribbon_total_monotone(s: Seq<[u32; 3]>, k: int)
    requires
        0 <= k <= s.len(),
    ensures
        ribbon_total(s, k) <= ribbon_total(s, s.len() as int),
    decreases s.len() - k,
{
    if k < s.len() {
        lemma_ribbon_total_monotone(s, k + 1);
    }
}

/// The numbers in the input, three to a box, any trailing partial box
/// dropped. Nothing if a number does not fit a `u32`.
pub fn parse(input: &str) -> (r: Option<Vec<[u32; 3]>>)
    ensures
        ({
            let toks = unsigned_tokens(input.spec_bytes());
            &&& (r matches Some(v) ==> {
                &&& (forall|i: int| 0 <= i < toks.len() ==> #[trigger] toks[i] <= u32::MAX)
                &&& v@.len() == toks.len() / 3
                &&& (forall|i: int|
                    0 <= i < v@.len() ==> #[trigger] v@[i]@ =~= seq![
                        toks[3 * i] as u32,
                        toks[3 * i + 1] as u32,
                        toks[3 * i + 2] as u32,
                    ])
            })
            &&& (r matches None ==> exists|i: int|
                0 <= i < toks.len() && #[trigger] toks[i] > u32::MAX)
        }),
{
    let bytes = input.as_bytes();
    let t = extract_unsigned(bytes);
    let ghost toks = unsigned_tokens(bytes@);
    let n = t.len();
    let mut i: usize = 0;
    while i < n
        invariant
            toks == unsigned_tokens(input.spec_bytes()),
            i <= n,
            n == t@.len() == toks.len(),
            forall|q: int| 0 <= q < n ==> t@[q] == sat64(#[trigger] toks[q]),
            forall|q: int| 0 <= q < i ==> #[trigger] toks[q] <= u32::MAX,
        decreases n - i,
    {
        if t[i] > 0xffff_ffff {
            proof {
                assert(toks[i as int] > u32::MAX);
                assert(exists|q: int| 0 <= q < toks.len() && #[trigger] toks[q] > u32::MAX);
            }
            return None;
        }
        proof {
            assert(sat64(toks[i as int]) <= u32::MAX);
            assert(toks[i as int] <= u32::MAX);
        }
        i = i + 1;
    }
    let m = n / 3;
    let mut v: Vec<[u32; 3]> = Vec::new();
    let mut j: usize = 0;
    while j < m
        invariant
            j <= m,
            m == toks.len() / 3,
            n == t@.len() == toks.len(),
            forall|q: int| 0 <= q < n ==> t@[q] == sat64(#[trigger] toks[q]),
            forall|q: int| 0 <= q < n ==> #[trigger] toks[q] <= u32::MAX,
            v@.len() == j,
            forall|q: int|
                0 <= q < j ==> #[trigger] v@[q]@ =~= seq![
                    toks[3 * q] as u32,
                    toks[3 * q + 1] as u32,
                    toks[3 * q + 2] as u32,
                ],
        decreases m - j,
    {
        proof {
            assert(3 * j + 2 < n);
            assert(toks[3 * j] <= u32::MAX && t@[3 * j] == sat64(toks[3 * j]));
            assert(toks[3 * j + 1] <= u32::MAX && t@[3 * j + 1] == sat64(toks[3 * j + 1]));
            assert(toks[3 * j + 2] <= u32::MAX && t@[3 * j + 2] == sat64(toks[3 * j + 2]));
        }
        let a = t[3 * j] as u32;
        let b = t[3 * j + 1] as u32;
        let c = t[3 * j + 2] as u32;
        v.push([a, b, c]);
        j = j + 1;
    }
    Some(v)
}

/// Total paper over all boxes, if it fits a `u32`.
pub fn part1(input: &[[u32; 3]]) -> (r: Option<u32>)
    ensures
        ({
            let total = paper_total(input@, input@.len() as int);
            if total <= u32::MAX {
                r == Some(total as u32)
            } else {
                r is None
            }
        }),
{
    let n = input.len();
    let mut acc: u64 = 0;
    let mut i: usize = 0;
    while i < n
        invariant
            i <= n,
            n == input@.len(),
            acc == paper_total(input@, i as int),
            acc <= u32::MAX,
        decreases n - i,
    {
        let b = input[i];
        let l = b[0] as u128;
        let w = b[1] as u128;
        let h = b[2] as u128;
        proof {
            assert(l * w < 0x10000000000000000u128 && w * h < 0x10000000000000000u128 && h * l
                < 0x10000000000000000u128) by (nonlinear_arith)
                requires
                    l < 0x100000000 && w < 0x100000000 && h < 0x100000000,
            ;
        }
        let lw = l * w;
        let wh = w * h;
        let hl = h * l;
        let small = if lw <= wh && lw <= hl {
            lw
        } else if wh <= hl {
            wh
        } else {
            hl
        };
        let term: u128 = 2 * lw + 2 * wh + 2 * hl + small;
        proof {
            assert(input@[i as int]@ =~= seq![b@[0], b@[1], b@[2]]);
            assert(term == paper_term(input@[i as int]));
        }
        if term > (0xffff_ffffu64 - acc) as u128 {
            proof {
                lemma_paper_total_monotone(input@, i + 1);
            }
            return None;
        }
        acc = acc + (term as u64);
        i = i + 1;
    }
    Some(acc as u32)
}

/// Total ribbon over all boxes, if it fits a `u32`.
pub fn part2(input: &[[u32; 3]]) -> (r: Option<u32>)
    ensures
        ({
            let total = ribbon_total(input@, input@.len() as int);
            if total <= u32::MAX {
                r == Some(total as u32)
            } else {
                r is None
            }
        }),
{
    let n = input.len();
    let mut acc: u64 = 0;
    let mut i: usize = 0;
    while i < n
        invariant
            i <= n,
            n == input@.len(),
            acc == ribbon_total(input@, i as int),
            acc <= u32::MAX,
        decreases n - i,
    {
        let b = input[i];
        let l = b[0] as u128;
        let w = b[1] as u128;
        let h = b[2] as u128;
        proof {
            assert(w * h < 0x10000000000000000u128 && l * (w * h)
                < 0x1000000000000000000000000u128) by (nonlinear_arith)
                requires
                    l < 0x100000000 && w < 0x100000000 && h < 0x100000000,
            ;
        }
        let vol128: u128 = l * (w * h);
        let lw = l + w;
        let wh = w + h;
        let hl = h + l;
        let small = if lw <= wh && lw <= hl {
            lw
        } else if wh <= hl {
            wh
        } else {
            hl
        };
        let term128: u128 = 2 * small + vol128;
        proof {
            assert(input@[i as int]@ =~= seq![b@[0], b@[1], b@[2]]);
            assert(term128 == ribbon_term(input@[i as int]));
        }
        if term128 > (0xffff_ffffu64 - acc) as u128 {
            proof {
                lemma_ribbon_total_monotone(input@, i + 1);
            }
            return None;
        }
        acc = acc + (term128 as u64);
        i = i + 1;
    }
    Some(acc as u32)
}

} // verus!
