//! Byte-sequence helpers shared by the parsers: equality, substring
//! search, line splitting with the usual newline conventions, and
//! whitespace trimming.

use vstd::prelude::*;

verus! {

/// Exact equality of two byte slices.
pub fn slice_eq(a: &[u8], b: &[u8]) -> (r: bool)
    ensures
        r == (a@ == b@),
{
    if a.len() != b.len() {
        proof {
            assert(a@ != b@);
        }
        return false;
    }
    let n = a.len();
    let mut i: usize = 0;
    while i < n
        invariant
            i <= n,
            n == a@.len() == b@.len(),
            forall|q: int| 0 <= q < i ==> a@[q] == b@[q],
        decreases n - i,
    {
        if a[i] != b[i] {
            return false;
        }
        i = i + 1;
    }
    proof {
        assert(a@ =~= b@);
    }
    true
}

/// `needle` occurs in `hay` starting at index `i`.
pub open spec fn contains_at(hay: Seq<u8>, needle: Seq<u8>, i: int) -> bool {
    &&& 0 <= i
    &&& i + needle.len() <= hay.len()
    &&& hay.subrange(i, i + needle.len()) == needle
}

/// `needle` occurs somewhere in `hay`.
pub open spec fn spec_contains(hay: Seq<u8>, needle: Seq<u8>) -> bool {
    exists|i: int| contains_at(hay, needle, i)
}

/// Does `pat` occur in `hay` starting at `at`?
pub fn match_at(hay: &[u8], at: usize, pat: &[u8]) -> (r: bool)
    ensures
        r == contains_at(hay@, pat@, at as int),
{
    if pat.len() > hay.len() || at > hay.len() - pat.len() {
        return false;
    }
    let m = pat.len();
    let n = hay.len();
    let mut j: usize = 0;
    while j < m
        invariant
            j <= m,
            m == pat@.len(),
            n == hay@.len(),
            at + m <= n,
            forall|q: int| 0 <= q < j ==> hay@[at + q] == pat@[q],
        decreases m - j,
    {
        if hay[at + j] != pat[j] {
            proof {
                assert(hay@.subrange(at as int, at + m)[j as int] == hay@[at + j]);
            }
            return false;
        }
        j = j + 1;
    }
    proof {
        assert(hay@.subrange(at as int, at + m) =~= pat@);
    }
    true
}

/// Substring search.
pub fn contains_bytes(hay: &[u8], needle: &[u8]) -> (r: bool)
    ensures
        r == spec_contains(hay@, needle@),
{
    if needle.len() > hay.len() {
        return false;
    }
    let bound = hay.len() - needle.len();
    let mut i: usize = 0;
    loop
        invariant
            i <= bound,
            bound == hay@.len() - needle@.len(),
            forall|q: int| 0 <= q < i ==> !contains_at(hay@, needle@, q),
        ensures
            forall|q: int| 0 <= q <= bound ==> !contains_at(hay@, needle@, q),
        decreases bound - i,
    {
        if match_at(hay, i, needle) {
            return true;
        }
        if i == bound {
            break;
        }
        i = i + 1;
    }
    false
}

/// A copy of `bytes[from..to]`.
pub fn subvec(bytes: &[u8], from: usize, to: usize) -> (v: Vec<u8>)
    requires
        from <= to <= bytes@.len(),
    ensures
        v@ == bytes@.subrange(from as int, to as int),
{
    let mut v: Vec<u8> = Vec::new();
    let mut i: usize = from;
    while i < to
        invariant
            from <= i <= to <= bytes@.len(),
            v@ =~= bytes@.subrange(from as int, i as int),
        decreases to - i,
    {
        v.push(bytes[i]);
        proof {
            assert(v@ =~= bytes@.subrange(from as int, i + 1));
        }
        i = i + 1;
    }
    v
}

/// A line with one trailing carriage return removed.
pub open spec fn strip_cr(l: Seq<u8>) -> Seq<u8> {
    if l.len() > 0 && l.last() == 13 {
        l.drop_last()
    } else {
        l
    }
}

/// Length of the leading line: the bytes before the first newline.
pub open spec fn line_len(s: Seq<u8>) -> nat
    decreases s.len(),
{
    if s.len() == 0 || s[0] == 10 {
        0
    } else {
        1 + line_len(s.skip(1))
    }
}

pub proof fn lemma_line_len_bound(s: Seq<u8>)
    ensures
        line_len(s) <= s.len(),
    decreases s.len(),
{
    if s.len() > 0 && s[0] != 10 {
        lemma_line_len_bound(s.skip(1));
    }
}

/// The leading line runs exactly up to the first newline.
pub proof fn lemma_line_len_char(s: Seq<u8>, m: nat)
    requires
        m <= s.len(),
        forall|q: int| 0 <= q < m ==> #[trigger] s[q] != 10,
        m == s.len() || s[m as int] == 10,
    ensures
        line_len(s) == m,
    decreases s.len(),
{
    if s.len() > 0 && s[0] != 10 {
        let t = s.skip(1);
        assert(forall|q: int| 0 <= q < m - 1 ==> #[trigger] t[q] == s[q + 1]);
        lemma_line_len_char(t, (m - 1) as nat);
    }
}

/// The lines of `s`: split at newlines, no line for a trailing newline,
/// one trailing carriage return stripped from each line.
pub open spec fn spec_lines(s: Seq<u8>) -> Seq<Seq<u8>>
    decreases s.len(),
    via spec_lines_decreases
{
    if s.len() == 0 {
        Seq::empty()
    } else {
        let k = line_len(s);
        if k == s.len() {
            seq![strip_cr(s)]
        } else {
            seq![strip_cr(s.take(k as int))] + spec_lines(s.skip(k + 1int))
        }
    }
}

#[via_fn]
proof fn spec_lines_decreases(s: Seq<u8>) {
    lemma_line_len_bound(s);
}

/// Split `bytes` into its lines.
pub fn split_lines(bytes: &[u8]) -> (v: Vec<Vec<u8>>)
    ensures
        v@.len() == spec_lines(bytes@).len(),
        forall|i: int| 0 <= i < v@.len() ==> v@[i]@ == #[trigger] spec_lines(bytes@)[i],
{
    let n = bytes.len();
    let mut v: Vec<Vec<u8>> = Vec::new();
    let mut pos: usize = 0;
    let ghost all = spec_lines(bytes@);
    proof {
        assert(bytes@.skip(0) =~= bytes@);
    }
    while pos < n
        invariant
            pos <= n,
            n == bytes@.len(),
            all == spec_lines(bytes@),
            v@.len() + spec_lines(bytes@.skip(pos as int)).len() == all.len(),
            forall|i: int| 0 <= i < v@.len() ==> v@[i]@ == #[trigger] all[i],
            forall|i: int|
                0 <= i < spec_lines(bytes@.skip(pos as int)).len() ==> #[trigger] spec_lines(
                    bytes@.skip(pos as int),
                )[i] == all[v@.len() + i],
        decreases n - pos,
    {
        let ghost t = bytes@.skip(pos as int);
        let mut e: usize = pos;
        while e < n && bytes[e] != 10
            invariant
                pos <= e <= n,
                n == bytes@.len(),
                forall|q: int| pos <= q < e ==> #[trigger] bytes@[q] != 10,
            decreases n - e,
        {
            e = e + 1;
        }
        proof {
            assert(forall|q: int| 0 <= q < e - pos ==> #[trigger] t[q] == bytes@[q + pos]);
            if e < n {
                assert(t[e - pos] == bytes@[e as int]);
            }
            lemma_line_len_char(t, (e - pos) as nat);
        }
        // strip one trailing carriage return
        let line_end: usize = if e > pos && bytes[e - 1] == 13 {
            e - 1
        } else {
            e
        };
        let line = subvec(bytes, pos, line_end);
        let ghost rem = spec_lines(t);
        let ghost k = v@.len() as int;
        proof {
            if e == n {
                assert(t.take((e - pos) as int) =~= t);
            }
            assert(t.take((e - pos) as int) =~= bytes@.subrange(pos as int, e as int));
            assert(strip_cr(t.take((e - pos) as int)) =~= bytes@.subrange(
                pos as int,
                line_end as int,
            ));
            if e < n {
                assert(t.skip((e - pos) + 1int) =~= bytes@.skip(e + 1));
                assert(rem == seq![strip_cr(t.take((e - pos) as int))] + spec_lines(
                    bytes@.skip(e + 1),
                ));
            } else {
                assert(rem =~= seq![strip_cr(t)]);
                assert(bytes@.skip(n as int) =~= Seq::<u8>::empty());
                assert(spec_lines(bytes@.skip(n as int)) =~= Seq::<Seq<u8>>::empty());
            }
            assert(rem[0] == line@);
        }
        v.push(line);
        if e == n {
            pos = n;
        } else {
            pos = e + 1;
        }
        proof {
            let rest = spec_lines(bytes@.skip(pos as int));
            assert(rem.len() == 1 + rest.len());
            assert forall|i: int| 0 <= i < rest.len() implies #[trigger] rest[i] == all[v@.len()
                + i] by {
                assert(rest[i] == rem[i + 1]);
                assert(rem[i + 1] == all[k + (i + 1)]);
            }
            assert forall|i: int| 0 <= i < v@.len() implies v@[i]@ == #[trigger] all[i] by {
                if i == k {
                    assert(v@[i]@ == rem[0]);
                    assert(rem[0] == all[k]);
                }
            }
        }
    }
    proof {
        assert(bytes@.skip(n as int) =~= Seq::<u8>::empty());
    }
    v
}

/// Length of the leading word: the bytes before the first whitespace.
pub open spec fn word_len(s: Seq<u8>) -> nat
    decreases s.len(),
{
    if s.len() == 0 || is_ws(s[0]) {
        0
    } else {
        1 + word_len(s.skip(1))
    }
}

pub proof fn lemma_word_len_bound(s: Seq<u8>)
    ensures
        word_len(s) <= s.len(),
    decreases s.len(),
{
    if s.len() > 0 && !is_ws(s[0]) {
        lemma_word_len_bound(s.skip(1));
    }
}

/// The leading word runs exactly up to the first whitespace.
pub proof fn lemma_word_len_char(s: Seq<u8>, m: nat)
    requires
        m <= s.len(),
        forall|q: int| 0 <= q < m ==> !is_ws(#[trigger] s[q]),
        m == s.len() || is_ws(s[m as int]),
    ensures
        word_len(s) == m,
    decreases s.len(),
{
    if s.len() > 0 && !is_ws(s[0]) {
        let t = s.skip(1);
        assert(forall|q: int| 0 <= q < m - 1 ==> #[trigger] t[q] == s[q + 1]);
        lemma_word_len_char(t, (m - 1) as nat);
    }
}

/// The whitespace-separated words of `s`, in order.
pub open spec fn spec_words(s: Seq<u8>) -> Seq<Seq<u8>>
    decreases s.len(),
    via spec_words_decreases
{
    if s.len() == 0 {
        Seq::empty()
    } else if is_ws(s[0]) {
        spec_words(s.skip(1))
    } else {
        let k = word_len(s);
        seq![s.take(k as int)] + spec_words(s.skip(k as int))
    }
}

#[via_fn]
proof fn spec_words_decreases(s: Seq<u8>) {
    lemma_word_len_bound(s);
}

/// Split `bytes` into its whitespace-separated words.
pub fn split_words(bytes: &[u8]) -> (v: Vec<Vec<u8>>)
    ensures
        v@.len() == spec_words(bytes@).len(),
        forall|i: int| 0 <= i < v@.len() ==> v@[i]@ == #[trigger] spec_words(bytes@)[i],
{
    let n = bytes.len();
    let mut v: Vec<Vec<u8>> = Vec::new();
    let ghost all = spec_words(bytes@);
    let mut pos: usize = 0;
    proof {
        assert(bytes@.skip(0) =~= bytes@);
    }
    loop
        invariant
            pos <= n,
            n == bytes@.len(),
            all == spec_words(bytes@),
            v@.len() + spec_words(bytes@.skip(pos as int)).len() == all.len(),
            forall|i: int| 0 <= i < v@.len() ==> v@[i]@ == #[trigger] all[i],
            forall|i: int|
                0 <= i < spec_words(bytes@.skip(pos as int)).len() ==> #[trigger] spec_words(
                    bytes@.skip(pos as int),
                )[i] == all[v@.len() + i],
        ensures
            v@.len() == all.len(),
            forall|i: int| 0 <= i < v@.len() ==> v@[i]@ == #[trigger] all[i],
        decreases n - pos,
    {
        let ghost pos0 = pos as int;
        while pos < n && (bytes[pos] == 9 || bytes[pos] == 10 || bytes[pos] == 13 || bytes[pos]
            == 32)
            invariant
                pos0 <= pos <= n,
                n == bytes@.len(),
                spec_words(bytes@.skip(pos as int)).len() + v@.len() == all.len(),
                forall|i: int|
                    0 <= i < spec_words(bytes@.skip(pos as int)).len() ==> #[trigger] spec_words(
                        bytes@.skip(pos as int),
                    )[i] == all[v@.len() + i],
            decreases n - pos,
        {
            proof {
                assert(bytes@.skip(pos as int)[0] == bytes@[pos as int]);
                assert(bytes@.skip(pos as int).skip(1) =~= bytes@.skip(pos + 1));
            }
            pos = pos + 1;
        }
        if pos == n {
            proof {
                assert(bytes@.skip(n as int) =~= Seq::<u8>::empty());
            }
            break;
        }
        let ghost t = bytes@.skip(pos as int);
        let start = pos;
        let mut e: usize = pos;
        while e < n && !(bytes[e] == 9 || bytes[e] == 10 || bytes[e] == 13 || bytes[e] == 32)
            invariant
                start <= e <= n,
                n == bytes@.len(),
                forall|q: int| start <= q < e ==> !is_ws(#[trigger] bytes@[q]),
            decreases n - e,
        {
            e = e + 1;
        }
        proof {
            assert(!is_ws(bytes@[start as int]));
            if e == start {
                assert(is_ws(bytes@[start as int]));
            }
            assert(e > start);
            assert(t[0] == bytes@[start as int]);
            assert(forall|q: int| 0 <= q < e - start ==> #[trigger] t[q] == bytes@[q + start]);
            if e < n {
                assert(t[e - start] == bytes@[e as int]);
            }
            lemma_word_len_char(t, (e - start) as nat);
            assert(t.take((e - start) as int) =~= bytes@.subrange(start as int, e as int));
            assert(t.skip((e - start) as int) =~= bytes@.skip(e as int));
            assert(spec_words(t) == seq![t.take((e - start) as int)] + spec_words(
                bytes@.skip(e as int),
            ));
        }
        let word = subvec(bytes, start, e);
        let ghost k = v@.len() as int;
        let ghost rem = spec_words(t);
        v.push(word);
        pos = e;
        proof {
            let rest = spec_words(bytes@.skip(pos as int));
            assert(rem.len() == 1 + rest.len());
            assert(rem[0] == word@);
            assert forall|i: int| 0 <= i < rest.len() implies #[trigger] rest[i] == all[v@.len()
                + i] by {
                assert(rest[i] == rem[i + 1]);
                assert(rem[i + 1] == all[k + (i + 1)]);
            }
            assert forall|i: int| 0 <= i < v@.len() implies v@[i]@ == #[trigger] all[i] by {
                if i == k {
                    assert(v@[i]@ == rem[0]);
                    assert(rem[0] == all[k]);
                }
            }
        }
    }
    v
}

pub open spec fn is_ws(b: u8) -> bool {
    b == 9 || b == 10 || b == 13 || b == 32
}

/// `s` with leading whitespace removed.
pub open spec fn trim_front(s: Seq<u8>) -> Seq<u8>
    decreases s.len(),
{
    if s.len() > 0 && is_ws(s[0]) {
        trim_front(s.skip(1))
    } else {
        s
    }
}

/// `s` with trailing whitespace removed.
pub open spec fn trim_back(s: Seq<u8>) -> Seq<u8>
    decreases s.len(),
{
    if s.len() > 0 && is_ws(s.last()) {
        trim_back(s.drop_last())
    } else {
        s
    }
}

/// `s` with whitespace removed from both ends.
pub open spec fn spec_trim(s: Seq<u8>) -> Seq<u8> {
    trim_back(trim_front(s))
}

proof fn lemma_trim_front_at(s: Seq<u8>, i: int)
    requires
        0 <= i <= s.len(),
        forall|q: int| 0 <= q < i ==> is_ws(#[trigger] s[q]),
        i == s.len() || !is_ws(s[i]),
    ensures
        trim_front(s) == s.skip(i),
    decreases s.len(),
{
    if s.len() > 0 && is_ws(s[0]) {
        let t = s.skip(1);
        assert(forall|q: int| 0 <= q < i - 1 ==> #[trigger] t[q] == s[q + 1]);
        lemma_trim_front_at(t, i - 1);
        assert(t.skip(i - 1) =~= s.skip(i));
    } else {
        assert(s.skip(0) =~= s);
    }
}

proof fn lemma_trim_back_at(s: Seq<u8>, j: int)
    requires
        0 <= j <= s.len(),
        forall|q: int| j <= q < s.len() ==> is_ws(#[trigger] s[q]),
        j == 0 || !is_ws(s[j - 1]),
    ensures
        trim_back(s) == s.take(j),
    decreases s.len(),
{
    if s.len() > 0 && is_ws(s.last()) {
        let t = s.drop_last();
        lemma_trim_back_at(t, j);
        assert(t.take(j) =~= s.take(j));
    } else {
        assert(s.take(s.len() as int) =~= s);
    }
}

/// A copy of `bytes` with whitespace removed from both ends.
pub fn trim(bytes: &[u8]) -> (v: Vec<u8>)
    ensures
        v@ == spec_trim(bytes@),
{
    let n = bytes.len();
    let mut a: usize = 0;
    while a < n && (bytes[a] == 9 || bytes[a] == 10 || bytes[a] == 13 || bytes[a] == 32)
        invariant
            a <= n,
            n == bytes@.len(),
            forall|q: int| 0 <= q < a ==> is_ws(#[trigger] bytes@[q]),
        decreases n - a,
    {
        a = a + 1;
    }
    let mut b: usize = n;
    while b > a && (bytes[b - 1] == 9 || bytes[b - 1] == 10 || bytes[b - 1] == 13 || bytes[b - 1]
        == 32)
        invariant
            a <= b <= n,
            n == bytes@.len(),
            forall|q: int| b <= q < n ==> is_ws(#[trigger] bytes@[q]),
        decreases b,
    {
        b = b - 1;
    }
    proof {
        lemma_trim_front_at(bytes@, a as int);
        let t = bytes@.skip(a as int);
        assert(forall|q: int| 0 <= q < t.len() ==> #[trigger] t[q] == bytes@[q + a]);
        lemma_trim_back_at(t, b - a);
        assert(t.take(b - a) =~= bytes@.subrange(a as int, b as int));
    }
    subvec(bytes, a, b)
}

} // verus!
