//! Day 10: the look-and-say game, played forty and then fifty times.

use vstd::prelude::*;

verus! {

use vstd::string::StringSliceAdditionalSpecFns;
use crate::util::text::dec_bytes;
use crate::util::bytes::spec_trim;

/// Length of the run of equal bytes starting at `i`.
pub open spec fn run_len(s: Seq<u8>, i: int) -> nat
    decreases s.len() - i,
{
    if 0 <= i < s.len() {
        if i + 1 < s.len() && s[i + 1] == s[i] {
            1 + run_len(s, i + 1)
        } else {
            1
        }
    } else {
        0
    }
}

pub proof fn lemma_run_len_bounds(s: Seq<u8>, i: int)
    requires
        0 <= i < s.len(),
    ensures
        1 <= run_len(s, i) <= s.len() - i,
    decreases s.len() - i,
{
    if i + 1 < s.len() && s[i + 1] == s[i] {
        lemma_run_len_bounds(s, i + 1);
    }
}

/// A run is exactly the stretch of bytes equal to its first byte.
pub proof fn lemma_run_len_char(s: Seq<u8>, i: int, j: int)
    requires
        0 <= i < j <= s.len(),
        forall|q: int| i < q < j ==> #[trigger] s[q] == s[i],
        j == s.len() || s[j as int] != s[i],
    ensures
        run_len(s, i) == j - i,
    decreases j - i,
{
    if i + 1 < j {
        lemma_run_len_char(s, i + 1, j);
    } else {
        if j < s.len() {
            assert(s[j] != s[i]);
        }
    }
}

/// Reading off a sequence: each run becomes its length in decimal
/// followed by the repeated byte.
pub open spec fn say_from(s: Seq<u8>, i: int) -> Seq<u8>
    decreases s.len() - i,
    via say_from_decreases
{
    if 0 <= i < s.len() {
        let k = run_len(s, i);
        dec_bytes(k) + seq![s[i]] + say_from(s, i + k)
    } else {
        Seq::empty()
    }
}

#[via_fn]
proof fn say_from_decreases(s: Seq<u8>, i: int) {
    if 0 <= i < s.len() {
        lemma_run_len_bounds(s, i);
    }
}

pub open spec fn spec_say(s: Seq<u8>) -> Seq<u8> {
    say_from(s, 0)
}

/// The sequence after `k` rounds of the game.
pub open spec fn say_iter(s: Seq<u8>, k: int) -> Seq<u8>
    decreases k,
{
    if k <= 0 {
        s
    } else {
        spec_say(say_iter(s, k - 1))
    }
}

/// One round of the game.
pub fn say(seq: &Vec<u8>) -> (r: Vec<u8>)
    ensures
        r@ == spec_say(seq@),
{
    let n = seq.len();
    let mut out: Vec<u8> = Vec::new();
    let mut i: usize = 0;
    while i < n
        invariant
            i <= n,
            n == seq@.len(),
            spec_say(seq@) =~= out@ + say_from(seq@, i as int),
        decreases n - i,
    {
        let b = seq[i];
        let mut j: usize = i + 1;
        while j < n && seq[j] == b
            invariant
                i < j <= n,
                n == seq@.len(),
                b == seq@[i as int],
                forall|q: int| i < q < j ==> #[trigger] seq@[q] == seq@[i as int],
            decreases n - j,
        {
            j = j + 1;
        }
        proof {
            lemma_run_len_char(seq@, i as int, j as int);
        }
        let count: u64 = (j - i) as u64;
        let mut digits = crate::util::text::u64_to_dec_bytes(count);
        out.append(&mut digits);
        out.push(b);
        proof {
            assert(spec_say(seq@) =~= out@ + say_from(seq@, j as int));
        }
        i = j;
    }
    proof {
        assert(say_from(seq@, n as int) =~= Seq::<u8>::empty());
        assert(spec_say(seq@) =~= out@);
    }
    out
}

/// The lengths after forty and after fifty rounds, starting from the
/// trimmed input.
pub fn parse(input: &str) -> (r: (usize, usize))
    ensures
        r.0 == say_iter(spec_trim(input.spec_bytes()), 40).len(),
        r.1 == say_iter(spec_trim(input.spec_bytes()), 50).len(),
{
    let bytes = input.as_bytes();
    let mut cur: Vec<u8> = crate::util::bytes::trim(bytes);
    let mut k: usize = 0;
    while k < 40
        invariant
            k <= 40,
            cur@ == say_iter(spec_trim(input.spec_bytes()), k as int),
        decreases 40 - k,
    {
        cur = say(&cur);
        k = k + 1;
    }
    let p1 = cur.len();
    while k < 50
        invariant
            40 <= k <= 50,
            cur@ == say_iter(spec_trim(input.spec_bytes()), k as int),
        decreases 50 - k,
    {
        cur = say(&cur);
        k = k + 1;
    }
    (p1, cur.len())
}

/// The length after forty rounds.
pub fn part1(input: &(usize, usize)) -> (r: usize)
    ensures
        r == input.0,
{
    input.0
}

/// The length after fifty rounds.
pub fn part2(input: &(usize, usize)) -> (r: usize)
    ensures
        r == input.1,
{
    input.1
}

} // verus!
