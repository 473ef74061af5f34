//! Day 5: deciding which strings are nice, under two different sets of
//! rules, and counting the nice ones.

use vstd::prelude::*;

verus! {

use vstd::string::StringSliceAdditionalSpecFns;
use crate::util::bytes::{spec_lines, split_lines};

pub open spec fn is_vowel(b: u8) -> bool {
    b == 97 || b == 101 || b == 105 || b == 111 || b == 117
}

pub open spec fn vowel_count(s: Seq<u8>, k: int) -> nat
    decreases k,
{
    if k <= 0 {
        0
    } else {
        vowel_count(s, k - 1) + (if is_vowel(s[k - 1]) {
            1nat
        } else {
            0nat
        })
    }
}

pub open spec fn has_double(s: Seq<u8>) -> bool {
    exists|i: int| 0 <= i < s.len() - 1 && #[trigger] s[i] == s[i + 1]
}

pub open spec fn bad_pair(a: u8, b: u8) -> bool {
    (a == 97 && b == 98) || (a == 99 && b == 100) || (a == 112 && b == 113) || (a == 120 && b
        == 121)
}

pub open spec fn has_bad(s: Seq<u8>) -> bool {
    exists|i: int| 0 <= i < s.len() - 1 && bad_pair(#[trigger] s[i], s[i + 1])
}

/// The first set of rules: three vowels, a doubled letter, none of the
/// four forbidden pairs.
pub open spec fn spec_nice1(s: Seq<u8>) -> bool {
    vowel_count(s, s.len() as int) >= 3 && has_double(s) && !has_bad(s)
}

/// Two equal letter pairs that do not overlap.
pub open spec fn has_pair_twice(s: Seq<u8>) -> bool {
    exists|a: int, b: int|
        0 <= a && a + 2 <= b && b + 2 <= s.len() && #[trigger] s[a] == #[trigger] s[b] && s[a
            + 1] == s[b + 1]
}

/// A letter repeated with exactly one letter between.
pub open spec fn has_sandwich(s: Seq<u8>) -> bool {
    exists|i: int| 0 <= i && i + 2 < s.len() && #[trigger] s[i] == s[i + 2]
}

/// The second set of rules.
pub open spec fn spec_nice2(s: Seq<u8>) -> bool {
    has_pair_twice(s) && has_sandwich(s)
}

pub open spec fn count_nice1(ls: Seq<Vec<u8>>, k: int) -> nat
    decreases k,
{
    if k <= 0 {
        0
    } else {
        count_nice1(ls, k - 1) + (if spec_nice1(ls[k - 1]@) {
            1nat
        } else {
            0nat
        })
    }
}

pub open spec fn count_nice2(ls: Seq<Vec<u8>>, k: int) -> nat
    decreases k,
{
    if k <= 0 {
        0
    } else {
        count_nice2(ls, k - 1) + (if spec_nice2(ls[k - 1]@) {
            1nat
        } else {
            0nat
        })
    }
}

/// The input split into lines.
pub fn parse(input: &str) -> (r: Vec<Vec<u8>>)
    ensures
        r@.len() == spec_lines(input.spec_bytes()).len(),
        forall|i: int|
            0 <= i < r@.len() ==> r@[i]@ == #[trigger] spec_lines(input.spec_bytes())[i],
{
    split_lines(input.as_bytes())
}

/// Is the line nice under the first set of rules?
pub fn is_nice_p1(line: &[u8]) -> (r: bool)
    ensures
        r == spec_nice1(line@),
{
    let n = line.len();
    let mut vowels: u64 = 0;
    let mut double = false;
    let mut bad = false;
    let mut i: usize = 0;
    while i < n
        invariant
            i <= n,
            n == line@.len(),
            vowels == vowel_count(line@, i as int),
            vowels <= i,
            double == exists|q: int| 0 <= q < i - 1 && #[trigger] line@[q] == line@[q + 1],
            bad == exists|q: int| 0 <= q < i - 1 && bad_pair(#[trigger] line@[q], line@[q + 1]),
        decreases n - i,
    {
        let b = line[i];
        if b == 97 || b == 101 || b == 105 || b == 111 || b == 117 {
            vowels = vowels + 1;
        }
        if i > 0 {
            let a = line[i - 1];
            if a == b {
                double = true;
            }
            if (a == 97 && b == 98) || (a == 99 && b == 100) || (a == 112 && b == 113) || (a == 120
                && b == 121) {
                bad = true;
            }
        }
        i = i + 1;
    }
    vowels >= 3 && double && !bad
}

fn has_repeated_pair(line: &[u8]) -> (r: bool)
    ensures
        r == has_pair_twice(line@),
{
    let n = line.len();
    if n < 4 {
        return false;
    }
    let mut a: usize = 0;
    while a + 3 < n
        invariant
            n == line@.len(),
            a + 3 <= n,
            forall|x: int, y: int|
                0 <= x < a && x + 2 <= y && y + 2 <= n ==> !(#[trigger] line@[x]
                    == #[trigger] line@[y] && line@[x + 1] == line@[y + 1]),
        decreases n - a,
    {
        let mut b: usize = a + 2;
        while b + 1 < n
            invariant
                n == line@.len(),
                a + 3 < n,
                a + 2 <= b,
                b + 1 <= n,
                forall|y: int|
                    a + 2 <= y < b && y + 2 <= n ==> !(line@[a as int] == #[trigger] line@[y]
                        && line@[a + 1] == line@[y + 1]),
            decreases n - b,
        {
            if line[a] == line[b] && line[a + 1] == line[b + 1] {
                return true;
            }
            b = b + 1;
        }
        a = a + 1;
    }
    false
}

fn has_sandwich_exec(line: &[u8]) -> (r: bool)
    ensures
        r == has_sandwich(line@),
{
    let n = line.len();
    if n < 3 {
        return false;
    }
    let mut i: usize = 0;
    while i + 2 < n
        invariant
            n == line@.len(),
            i + 2 <= n,
            forall|q: int| 0 <= q < i && q + 2 < n ==> line@[q] != #[trigger] line@[q + 2],
        decreases n - i,
    {
        if line[i] == line[i + 2] {
            return true;
        }
        i = i + 1;
    }
    false
}

/// Is the line nice under the second set of rules?
pub fn is_nice_p2(line: &[u8]) -> (r: bool)
    ensures
        r == spec_nice2(line@),
{
    let pairs = has_repeated_pair(line);
    let sandwich = has_sandwich_exec(line);
    pairs && sandwich
}

/// How many lines are nice under the first set of rules.
pub fn part1(input: &Vec<Vec<u8>>) -> (r: usize)
    ensures
        r == count_nice1(input@, input@.len() as int),
{
    let n = input.len();
    let mut count: usize = 0;
    let mut i: usize = 0;
    while i < n
        invariant
            i <= n,
            n == input@.len(),
            count == count_nice1(input@, i as int),
            count <= i,
        decreases n - i,
    {
        if is_nice_p1(input[i].as_slice()) {
            count = count + 1;
        }
        i = i + 1;
    }
    count
}

/// How many lines are nice under the second set of rules.
pub fn part2(input: &Vec<Vec<u8>>) -> (r: usize)
    ensures
        r == count_nice2(input@, input@.len() as int),
{
    let n = input.len();
    let mut count: usize = 0;
    let mut i: usize = 0;
    while i < n
        invariant
            i <= n,
            n == input@.len(),
            count == count_nice2(input@, i as int),
            count <= i,
        decreases n - i,
    {
        if is_nice_p2(input[i].as_slice()) {
            count = count + 1;
        }
        i = i + 1;
    }
    count
}

} // verus!
