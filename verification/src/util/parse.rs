//! Extracting the numbers embedded in puzzle text: every maximal run of
//! ASCII digits is a token, everything else is separator.

use vstd::prelude::*;

verus! {

use crate::util::text::{dec_val, is_digit_byte};

/// Length of the leading run of digit bytes.
pub open spec fn digit_run_len(s: Seq<u8>) -> nat
    decreases s.len(),
{
    if s.len() == 0 || !is_digit_byte(s[0]) {
        0
    } else {
        1 + digit_run_len(s.skip(1))
    }
}

pub proof fn lemma_digit_run_len_bound(s: Seq<u8>)
    ensures
        digit_run_len(s) <= s.len(),
    decreases s.len(),
{
    if s.len() > 0 && is_digit_byte(s[0]) {
        lemma_digit_run_len_bound(s.skip(1));
    }
}

/// The leading digit run is exactly the digits up to the first non-digit.
pub proof fn lemma_digit_run_len_char(s: Seq<u8>, m: nat)
    requires
        m <= s.len(),
        forall|q: int| 0 <= q < m ==> is_digit_byte(#[trigger] s[q]),
        m == s.len() || !is_digit_byte(s[m as int]),
    ensures
        digit_run_len(s) == m,
    decreases s.len(),
{
    if s.len() > 0 && is_digit_byte(s[0]) {
        let t = s.skip(1);
        assert(forall|q: int| 0 <= q < m - 1 ==> #[trigger] t[q] == s[q + 1]);
        lemma_digit_run_len_char(t, (m - 1) as nat);
    }
}

/// The values of the digit-run tokens of `s`, in order of appearance.
pub open spec fn unsigned_tokens(s: Seq<u8>) -> Seq<nat>
    decreases s.len(),
    via unsigned_tokens_decreases
{
    if s.len() == 0 {
        Seq::empty()
    } else if !is_digit_byte(s[0]) {
        unsigned_tokens(s.skip(1))
    } else {
        let k = digit_run_len(s);
        seq![dec_val(s.take(k as int))] + unsigned_tokens(s.skip(k as int))
    }
}

#[via_fn]
proof fn unsigned_tokens_decreases(s: Seq<u8>) {
    lemma_digit_run_len_bound(s);
}

/// The values of the tokens of `s` read with an optional leading minus
/// sign: a minus starts a token whose value is the negation of the digit
/// run that follows it (an empty run counts as zero).
pub open spec fn signed_tokens(s: Seq<u8>) -> Seq<int>
    decreases s.len(),
    via signed_tokens_decreases
{
    if s.len() == 0 {
        Seq::empty()
    } else if s[0] == 45 {
        let k = digit_run_len(s.skip(1));
        seq![-(dec_val(s.skip(1).take(k as int)) as int)] + signed_tokens(s.skip(k + 1int))
    } else if is_digit_byte(s[0]) {
        let k = digit_run_len(s);
        seq![dec_val(s.take(k as int)) as int] + signed_tokens(s.skip(k as int))
    } else {
        signed_tokens(s.skip(1))
    }
}

#[via_fn]
proof fn signed_tokens_decreases(s: Seq<u8>) {
    lemma_digit_run_len_bound(s);
    if s.len() > 0 {
        lemma_digit_run_len_bound(s.skip(1));
    }
}

/// A token value clamped into `u64`.
pub open spec fn sat64(n: nat) -> u64 {
    if n > u64::MAX {
        u64::MAX
    } else {
        n as u64
    }
}

/// A token value clamped into `i64`.
pub open spec fn sat_i64(v: int) -> i64 {
    if v > i64::MAX {
        i64::MAX
    } else if v < i64::MIN {
        i64::MIN
    } else {
        v as i64
    }
}

/// Appending one more digit to a run only grows its value.
proof fn lemma_dec_val_step(s: Seq<u8>, p: int)
    requires
        0 <= p < s.len(),
        is_digit_byte(s[p]),
    ensures
        dec_val(s.take(p + 1)) == dec_val(s.take(p)) * 10 + (s[p] - 48),
{
    assert(s.take(p + 1).drop_last() =~= s.take(p));
    assert(s.take(p + 1).last() == s[p]);
}

/// Skipping one separator byte leaves the tokens unchanged.
proof fn lemma_tokens_skip_separator(s: Seq<u8>, i: int)
    requires
        0 <= i < s.len(),
        !is_digit_byte(s[i]),
        s[i] != 45,
    ensures
        unsigned_tokens(s.skip(i)) == unsigned_tokens(s.skip(i + 1)),
        signed_tokens(s.skip(i)) == signed_tokens(s.skip(i + 1)),
{
    assert(s.skip(i).skip(1) =~= s.skip(i + 1));
}

/// The first digit-run token at or after `pos`, its clamped value, and the
/// position just past it. `None` means no digit occurs at or after `pos`.
pub fn try_unsigned(bytes: &[u8], pos: usize) -> (r: Option<(u64, usize)>)
    requires
        pos <= bytes@.len(),
    ensures
        (r matches None ==> unsigned_tokens(bytes@.skip(pos as int)) == Seq::<nat>::empty()),
        (r matches Some((v, p)) ==> {
            let toks = unsigned_tokens(bytes@.skip(pos as int));
            &&& toks.len() >= 1
            &&& v == sat64(toks[0])
            &&& pos < p <= bytes@.len()
            &&& unsigned_tokens(bytes@.skip(p as int)) == toks.skip(1)
        }),
{
    let n = bytes.len();
    let mut i: usize = pos;
    while i < n && !(48 <= bytes[i] && bytes[i] <= 57)
        invariant
            pos <= i <= n,
            n == bytes@.len(),
            unsigned_tokens(bytes@.skip(pos as int)) == unsigned_tokens(bytes@.skip(i as int)),
        decreases n - i,
    {
        proof {
            assert(bytes@.skip(i as int)[0] == bytes@[i as int]);
            assert(bytes@.skip(i as int).skip(1) =~= bytes@.skip(i + 1));
        }
        i = i + 1;
    }
    if i == n {
        proof {
            assert(bytes@.skip(n as int) =~= Seq::<u8>::empty());
        }
        return None;
    }
    let ghost t = bytes@.skip(i as int);
    proof {
        assert(t[0] == bytes@[i as int]);
    }
    let start: usize = i;
    let mut v: u64 = 0;
    while i < n && 48 <= bytes[i] && bytes[i] <= 57
        invariant
            start <= i <= n,
            n == bytes@.len(),
            t == bytes@.skip(start as int),
            forall|q: int| 0 <= q < i - start ==> is_digit_byte(#[trigger] t[q]),
            v == sat64(dec_val(t.take(i - start))),
        decreases n - i,
    {
        let d: u64 = (bytes[i] - 48) as u64;
        proof {
            assert(t[i - start] == bytes@[i as int]);
            lemma_dec_val_step(t, i - start);
        }
        v = match v.checked_mul(10) {
            Some(m) => match m.checked_add(d) {
                Some(r) => r,
                None => u64::MAX,
            },
            None => u64::MAX,
        };
        i = i + 1;
    }
    proof {
        lemma_digit_run_len_char(t, (i - start) as nat);
        if i < n {
            assert(t[i - start] == bytes@[i as int]);
        }
        assert(t.skip(i - start) =~= bytes@.skip(i as int));
        assert(unsigned_tokens(t) == seq![dec_val(t.take(i - start))] + unsigned_tokens(
            bytes@.skip(i as int),
        ));
        assert(unsigned_tokens(t)[0] == dec_val(t.take(i - start)));
        assert(unsigned_tokens(t).skip(1) =~= unsigned_tokens(bytes@.skip(i as int)));
    }
    Some((v, i))
}

/// Every digit-run token of `bytes`, in order, each clamped into `u64`.
pub fn extract_unsigned(bytes: &[u8]) -> (v: Vec<u64>)
    ensures
        v@.len() == unsigned_tokens(bytes@).len(),
        forall|i: int|
            0 <= i < v@.len() ==> v@[i] == sat64(#[trigger] unsigned_tokens(bytes@)[i]),
{
    let mut v: Vec<u64> = Vec::new();
    let mut pos: usize = 0;
    let ghost all = unsigned_tokens(bytes@);
    proof {
        assert(bytes@.skip(0) =~= bytes@);
    }
    loop
        invariant
            pos <= bytes@.len(),
            v@.len() <= all.len(),
            unsigned_tokens(bytes@.skip(pos as int)) == all.skip(v@.len() as int),
            forall|i: int| 0 <= i < v@.len() ==> v@[i] == sat64(#[trigger] all[i]),
            all == unsigned_tokens(bytes@),
        ensures
            v@.len() == all.len(),
            forall|i: int| 0 <= i < v@.len() ==> v@[i] == sat64(#[trigger] all[i]),
        decreases bytes@.len() - pos,
    {
        match try_unsigned(bytes, pos) {
            Some((x, p)) => {
                proof {
                    assert(all.skip(v@.len() as int)[0] == all[v@.len() as int]);
                    assert(all.skip(v@.len() as int).skip(1) =~= all.skip(v@.len() + 1int));
                }
                v.push(x);
                pos = p;
            },
            None => {
                proof {
                    assert(all.skip(v@.len() as int) =~= Seq::<nat>::empty());
                }
                break;
            },
        }
    }
    v
}

/// The first signed token at or after `pos`: an optional minus sign
/// followed by a digit run, clamped into `i64`, with the position just
/// past the run.
pub fn try_signed(bytes: &[u8], pos: usize) -> (r: Option<(i64, usize)>)
    requires
        pos <= bytes@.len(),
    ensures
        (r matches None ==> signed_tokens(bytes@.skip(pos as int)) == Seq::<int>::empty()),
        (r matches Some((v, p)) ==> {
            let toks = signed_tokens(bytes@.skip(pos as int));
            &&& toks.len() >= 1
            &&& v == sat_i64(toks[0])
            &&& pos < p <= bytes@.len()
            &&& signed_tokens(bytes@.skip(p as int)) == toks.skip(1)
        }),
{
    let n = bytes.len();
    let mut i: usize = pos;
    while i < n && !(48 <= bytes[i] && bytes[i] <= 57) && bytes[i] != 45
        invariant
            pos <= i <= n,
            n == bytes@.len(),
            signed_tokens(bytes@.skip(pos as int)) == signed_tokens(bytes@.skip(i as int)),
        decreases n - i,
    {
        proof {
            lemma_tokens_skip_separator(bytes@, i as int);
        }
        i = i + 1;
    }
    if i == n {
        proof {
            assert(bytes@.skip(n as int) =~= Seq::<u8>::empty());
        }
        return None;
    }
    let negative = bytes[i] == 45;
    let ghost t0 = bytes@.skip(i as int);
    proof {
        assert(t0[0] == bytes@[i as int]);
    }
    if negative {
        i = i + 1;
    }
    let ghost t = bytes@.skip(i as int);
    let start: usize = i;
    let mut mag: u64 = 0;
    while i < n && 48 <= bytes[i] && bytes[i] <= 57
        invariant
            start <= i <= n,
            n == bytes@.len(),
            t == bytes@.skip(start as int),
            forall|q: int| 0 <= q < i - start ==> is_digit_byte(#[trigger] t[q]),
            mag == sat64(dec_val(t.take(i - start))),
        decreases n - i,
    {
        let d: u64 = (bytes[i] - 48) as u64;
        proof {
            assert(t[i - start] == bytes@[i as int]);
            lemma_dec_val_step(t, i - start);
        }
        mag = match mag.checked_mul(10) {
            Some(m) => match m.checked_add(d) {
                Some(r) => r,
                None => u64::MAX,
            },
            None => u64::MAX,
        };
        i = i + 1;
    }
    proof {
        lemma_digit_run_len_char(t, (i - start) as nat);
        if i < n {
            assert(t[i - start] == bytes@[i as int]);
        }
        if negative {
            assert(t0.skip(1) =~= t);
            assert(t0.skip((i - start) + 1) =~= bytes@.skip(i as int));
            assert(t0.skip(1).take(i - start) =~= t.take(i - start));
        } else {
            assert(t.skip(i - start) =~= bytes@.skip(i as int));
        }
    }
    let v: i64 = if negative {
        if mag > 9223372036854775808u64 {
            i64::MIN
        } else if mag == 9223372036854775808u64 {
            i64::MIN
        } else {
            -(mag as i64)
        }
    } else {
        if mag > i64::MAX as u64 {
            i64::MAX
        } else {
            mag as i64
        }
    };
    Some((v, i))
}


/// Streams the unsigned tokens of a byte string, in order.
pub struct ParseUnsigned<'a> {
    rest: &'a [u8],
}

impl<'a> ParseUnsigned<'a> {
    /// The tokens not yet handed out.
    pub closed spec fn tokens_left(&self) -> Seq<nat> {
        unsigned_tokens(self.rest@)
    }

    pub fn new(bytes: &'a [u8]) -> (r: ParseUnsigned<'a>)
        ensures
            r.tokens_left() == unsigned_tokens(bytes@),
    {
        ParseUnsigned { rest: bytes }
    }

    /// The next token, clamped into `u64`.
    pub fn next(&mut self) -> (r: Option<u64>)
        ensures
            (r is None ==> old(self).tokens_left() == Seq::<nat>::empty() && final(self).tokens_left() == old(self).tokens_left()),
            (r matches Some(v) ==> {
                &&& old(self).tokens_left().len() >= 1
                &&& v == sat64(old(self).tokens_left()[0])
                &&& final(self).tokens_left() == old(self).tokens_left().skip(1)
            }),
    {
        proof {
            assert(self.rest@.skip(0) =~= self.rest@);
        }
        match try_unsigned(self.rest, 0) {
            Some((v, p)) => {
                self.rest = vstd::slice::slice_subrange(self.rest, p, self.rest.len());
                Some(v)
            },
            None => None,
        }
    }
}

/// Streams the signed tokens of a byte string, in order.
pub struct ParseSigned<'a> {
    rest: &'a [u8],
}

impl<'a> ParseSigned<'a> {
    /// The tokens not yet handed out.
    pub closed spec fn tokens_left(&self) -> Seq<int> {
        signed_tokens(self.rest@)
    }

    pub fn new(bytes: &'a [u8]) -> (r: ParseSigned<'a>)
        ensures
            r.tokens_left() == signed_tokens(bytes@),
    {
        ParseSigned { rest: bytes }
    }

    /// The next token, clamped into `i64`.
    pub fn next(&mut self) -> (r: Option<i64>)
        ensures
            (r is None ==> old(self).tokens_left() == Seq::<int>::empty() && final(self).tokens_left() == old(self).tokens_left()),
            (r matches Some(v) ==> {
                &&& old(self).tokens_left().len() >= 1
                &&& v == sat_i64(old(self).tokens_left()[0])
                &&& final(self).tokens_left() == old(self).tokens_left().skip(1)
            }),
    {
        proof {
            assert(self.rest@.skip(0) =~= self.rest@);
        }
        match try_signed(self.rest, 0) {
            Some((v, p)) => {
                self.rest = vstd::slice::slice_subrange(self.rest, p, self.rest.len());
                Some(v)
            },
            None => None,
        }
    }
}

} // verus!
