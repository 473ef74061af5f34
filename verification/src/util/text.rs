//! Decimal rendering of integers, with the character- and byte-level
//! sequences they produce pinned down by spec functions.

use vstd::prelude::*;

verus! {

/// The ASCII digit byte for a single digit value.
pub open spec fn digit_byte(d: nat) -> u8 {
    (48 + d) as u8
}

/// The digit character for a single digit value.
pub open spec fn digit_char(d: nat) -> char {
    ((48 + d) as u8) as char
}

/// Decimal digits of `n`, most significant first, as ASCII bytes.
pub open spec fn dec_bytes(n: nat) -> Seq<u8>
    decreases n,
{
    if n < 10 {
        seq![digit_byte(n)]
    } else {
        dec_bytes(n / 10) + seq![digit_byte(n % 10)]
    }
}

/// Decimal digits of `n`, most significant first, as characters.
pub open spec fn dec_chars(n: nat) -> Seq<char> {
    dec_bytes(n).map_values(|b: u8| b as char)
}

/// The numeric value of a sequence of ASCII digit bytes, most significant first.
pub open spec fn dec_val(s: Seq<u8>) -> nat
    decreases s.len(),
{
    if s.len() == 0 {
        0
    } else {
        (dec_val(s.drop_last()) * 10 + (s.last() - 48)) as nat
    }
}

pub open spec fn is_digit_byte(b: u8) -> bool {
    48 <= b <= 57
}

/// Every byte of a decimal rendering is an ASCII digit.
pub proof fn lemma_dec_bytes_digits(n: nat)
    ensures
        forall|i: int| 0 <= i < dec_bytes(n).len() ==> is_digit_byte(#[trigger] dec_bytes(n)[i]),
        dec_bytes(n).len() >= 1,
    decreases n,
{
    if n >= 10 {
        lemma_dec_bytes_digits(n / 10);
    }
}

/// Reading a decimal rendering back yields the value rendered, so the
/// rendering is injective.
pub proof fn lemma_dec_val_of_dec_bytes(n: nat)
    ensures
        dec_val(dec_bytes(n)) == n,
    decreases n,
{
    if n < 10 {
        let s = dec_bytes(n);
        assert(s =~= seq![digit_byte(n)]);
        assert(s.drop_last() =~= Seq::<u8>::empty());
        assert(dec_val(s.drop_last()) == 0);
        assert(s.last() == digit_byte(n));
        assert(dec_val(s) == n);
    } else {
        lemma_dec_val_of_dec_bytes(n / 10);
        let s = dec_bytes(n);
        assert(s.drop_last() =~= dec_bytes(n / 10));
        assert(s.last() == digit_byte(n % 10));
        assert(dec_val(s) == dec_val(dec_bytes(n / 10)) * 10 + (digit_byte(n % 10) - 48));
        assert(dec_val(s) == (n / 10) * 10 + n % 10);
    }
}

/// A positive number's rendering never starts with a zero digit.
pub proof fn lemma_dec_bytes_no_leading_zero(n: nat)
    ensures
        n > 0 ==> dec_bytes(n)[0] != 48,
    decreases n,
{
    if n >= 10 {
        lemma_dec_bytes_no_leading_zero(n / 10);
    }
}

/// Renderings of distinct values differ.
pub proof fn lemma_dec_bytes_injective(a: nat, b: nat)
    ensures
        dec_bytes(a) == dec_bytes(b) ==> a == b,
{
    if dec_bytes(a) == dec_bytes(b) {
        lemma_dec_val_of_dec_bytes(a);
        lemma_dec_val_of_dec_bytes(b);
    }
}

pub open spec fn is_dec_digit_char(c: char) -> bool {
    '0' <= c <= '9'
}

/// Every character of a decimal rendering is a digit, and digits are
/// recovered exactly from their characters.
pub proof fn lemma_dec_chars_digits(n: nat)
    ensures
        dec_chars(n).len() == dec_bytes(n).len() >= 1,
        forall|i: int|
            0 <= i < dec_chars(n).len() ==> is_dec_digit_char(#[trigger] dec_chars(n)[i]),
        forall|i: int|
            0 <= i < dec_chars(n).len() ==> #[trigger] dec_chars(n)[i] == dec_bytes(n)[i] as char,
{
    lemma_dec_bytes_digits(n);
    assert forall|i: int| 0 <= i < dec_chars(n).len() implies is_dec_digit_char(
        #[trigger] dec_chars(n)[i],
    ) by {
        assert(is_digit_byte(dec_bytes(n)[i]));
    }
}

/// Renderings of distinct values differ, as character sequences too.
pub proof fn lemma_dec_chars_injective(a: nat, b: nat)
    ensures
        dec_chars(a) == dec_chars(b) ==> a == b,
{
    if dec_chars(a) == dec_chars(b) {
        lemma_dec_chars_digits(a);
        lemma_dec_chars_digits(b);
        assert forall|i: int| 0 <= i < dec_bytes(a).len() implies #[trigger] dec_bytes(a)[i]
            == dec_bytes(b)[i] by {
            assert(dec_chars(a)[i] == dec_chars(b)[i]);
            assert((dec_bytes(a)[i] as char) as u32 == dec_bytes(a)[i] as u32);
            assert((dec_bytes(b)[i] as char) as u32 == dec_bytes(b)[i] as u32);
        }
        assert(dec_bytes(a) =~= dec_bytes(b));
        lemma_dec_bytes_injective(a, b);
    }
}

/// Two-digit renderings of distinct values differ.
pub proof fn lemma_dec_chars_pad2_injective(a: nat, b: nat)
    requires
        dec_chars_pad2(a).len() == dec_chars_pad2(b).len(),
    ensures
        dec_chars_pad2(a) == dec_chars_pad2(b) ==> a == b,
{
    if dec_chars_pad2(a) == dec_chars_pad2(b) {
        lemma_dec_chars_digits(a);
        lemma_dec_chars_digits(b);
        if a < 10 && b < 10 {
            assert(dec_chars_pad2(a)[1] == dec_chars(a)[0]);
            assert(dec_chars_pad2(b)[1] == dec_chars(b)[0]);
            assert(dec_chars(a) =~= dec_chars(b));
            lemma_dec_chars_injective(a, b);
        } else if a >= 10 && b >= 10 {
            assert(dec_chars_pad2(a) == dec_chars(a) && dec_chars_pad2(b) == dec_chars(b));
            lemma_dec_chars_injective(a, b);
        } else if a < 10 {
            lemma_dec_bytes_no_leading_zero(b);
            assert(dec_chars_pad2(a)[0] == '0');
            assert(dec_chars_pad2(b)[0] == dec_bytes(b)[0] as char);
            assert((dec_bytes(b)[0] as char) as u32 == dec_bytes(b)[0] as u32);
            assert('0' as u32 == 48);
            assert(false);
        } else {
            lemma_dec_bytes_no_leading_zero(a);
            assert(dec_chars_pad2(b)[0] == '0');
            assert(dec_chars_pad2(a)[0] == dec_bytes(a)[0] as char);
            assert((dec_bytes(a)[0] as char) as u32 == dec_bytes(a)[0] as u32);
            assert('0' as u32 == 48);
            assert(false);
        }
    }
}

/// One digit as a string slice.
pub fn digit_str(d: u64) -> (s: &'static str)
    requires
        d < 10,
    ensures
        s@ =~= seq![digit_char(d as nat)],
        s@.len() == 1,
{
    proof {
        reveal_strlit("0");
        reveal_strlit("1");
        reveal_strlit("2");
        reveal_strlit("3");
        reveal_strlit("4");
        reveal_strlit("5");
        reveal_strlit("6");
        reveal_strlit("7");
        reveal_strlit("8");
        reveal_strlit("9");
    }
    if d == 0 {
        "0"
    } else if d == 1 {
        "1"
    } else if d == 2 {
        "2"
    } else if d == 3 {
        "3"
    } else if d == 4 {
        "4"
    } else if d == 5 {
        "5"
    } else if d == 6 {
        "6"
    } else if d == 7 {
        "7"
    } else if d == 8 {
        "8"
    } else {
        "9"
    }
}

/// Decimal digits of `n`, left-padded with a zero to at least two places.
pub open spec fn dec_chars_pad2(n: nat) -> Seq<char> {
    if n < 10 {
        seq!['0'] + dec_chars(n)
    } else {
        dec_chars(n)
    }
}

/// Decimal rendering of a signed value: a minus sign for negatives.
pub open spec fn dec_chars_signed(n: int) -> Seq<char> {
    if n < 0 {
        seq!['-'] + dec_chars((-n) as nat)
    } else {
        dec_chars(n as nat)
    }
}

/// The digits of `v`, least significant first.
spec fn rev_digit_chars(v: Seq<u64>) -> Seq<char> {
    Seq::new(v.len(), |j: int| digit_char(v[v.len() - 1 - j] as nat))
}

/// Render `n` in decimal.
pub fn u64_to_dec(n: u64) -> (s: String)
    ensures
        s@ == dec_chars(n as nat),
{
    let mut m: u64 = n;
    let mut v: Vec<u64> = Vec::new();
    while m >= 10
        invariant
            dec_chars(n as nat) =~= dec_chars(m as nat) + rev_digit_chars(v@),
            forall|i: int| 0 <= i < v@.len() ==> #[trigger] v@[i] < 10,
        decreases m,
    {
        let d: u64 = m % 10;
        v.push(d);
        proof {
            assert(dec_bytes(m as nat) =~= dec_bytes((m / 10) as nat) + seq![digit_byte((m % 10) as nat)]);
            assert(dec_chars(m as nat) =~= dec_chars((m / 10) as nat) + seq![digit_char((m % 10) as nat)]);
            assert(rev_digit_chars(v@) =~= seq![digit_char(d as nat)] + rev_digit_chars(v@.drop_last()));
        }
        m = m / 10;
    }
    v.push(m);
    proof {
        assert(dec_chars(m as nat) =~= seq![digit_char(m as nat)]);
        assert(rev_digit_chars(v@) =~= seq![digit_char(m as nat)] + rev_digit_chars(v@.drop_last()));
        assert(dec_chars(n as nat) =~= rev_digit_chars(v@));
    }
    let mut s = String::new();
    let mut i: usize = v.len();
    while i > 0
        invariant
            i <= v@.len(),
            forall|k: int| 0 <= k < v@.len() ==> #[trigger] v@[k] < 10,
            s@ =~= rev_digit_chars(v@).take(v@.len() - i),
        decreases i,
    {
        i = i - 1;
        s.append(digit_str(v[i]));
        proof {
            assert(s@ =~= rev_digit_chars(v@).take(v@.len() - i));
        }
    }
    proof {
        assert(s@ =~= rev_digit_chars(v@));
    }
    s
}

/// The digits of `v`, least significant first, as bytes.
spec fn rev_digit_bytes(v: Seq<u64>) -> Seq<u8> {
    Seq::new(v.len(), |j: int| digit_byte(v[v.len() - 1 - j] as nat))
}

/// Render `n` in decimal as ASCII bytes.
pub fn u64_to_dec_bytes(n: u64) -> (r: Vec<u8>)
    ensures
        r@ == dec_bytes(n as nat),
{
    let mut m: u64 = n;
    let mut v: Vec<u64> = Vec::new();
    while m >= 10
        invariant
            dec_bytes(n as nat) =~= dec_bytes(m as nat) + rev_digit_bytes(v@),
            forall|i: int| 0 <= i < v@.len() ==> #[trigger] v@[i] < 10,
        decreases m,
    {
        let d: u64 = m % 10;
        v.push(d);
        proof {
            assert(dec_bytes(m as nat) =~= dec_bytes((m / 10) as nat) + seq![digit_byte(
                (m % 10) as nat,
            )]);
            assert(rev_digit_bytes(v@) =~= seq![digit_byte(d as nat)] + rev_digit_bytes(
                v@.drop_last(),
            ));
        }
        m = m / 10;
    }
    v.push(m);
    proof {
        assert(dec_bytes(m as nat) =~= seq![digit_byte(m as nat)]);
        assert(rev_digit_bytes(v@) =~= seq![digit_byte(m as nat)] + rev_digit_bytes(
            v@.drop_last(),
        ));
        assert(dec_bytes(n as nat) =~= rev_digit_bytes(v@));
    }
    let mut r: Vec<u8> = Vec::new();
    let mut i: usize = v.len();
    while i > 0
        invariant
            i <= v@.len(),
            forall|k: int| 0 <= k < v@.len() ==> #[trigger] v@[k] < 10,
            r@ =~= rev_digit_bytes(v@).take(v@.len() - i),
        decreases i,
    {
        i = i - 1;
        r.push((48 + v[i]) as u8);
        proof {
            assert(r@ =~= rev_digit_bytes(v@).take(v@.len() - i));
        }
    }
    proof {
        assert(r@ =~= rev_digit_bytes(v@));
    }
    r
}

/// Render `n` in decimal, padded to at least two digits.
pub fn u64_to_dec_pad2(n: u64) -> (s: String)
    ensures
        s@ == dec_chars_pad2(n as nat),
{
    if n < 10 {
        let mut s = String::new();
        proof {
            reveal_strlit("0");
        }
        s.append("0");
        let t = u64_to_dec(n);
        s.append(t.as_str());
        proof {
            assert(s@ =~= dec_chars_pad2(n as nat));
        }
        s
    } else {
        u64_to_dec(n)
    }
}

/// Render a signed value in decimal.
pub fn i64_to_dec(n: i64) -> (s: String)
    ensures
        s@ == dec_chars_signed(n as int),
{
    if n < 0 {
        let mag: u64 = if n == i64::MIN {
            9223372036854775808u64
        } else {
            (-n) as u64
        };
        let mut s = String::new();
        proof {
            reveal_strlit("-");
        }
        s.append("-");
        let t = u64_to_dec(mag);
        s.append(t.as_str());
        proof {
            assert(s@ =~= dec_chars_signed(n as int));
        }
        s
    } else {
        u64_to_dec(n as u64)
    }
}

} // verus!
