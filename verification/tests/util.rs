use yaaocr::util::bits::{BitOps, Bitset};
use yaaocr::util::bytes::{contains_bytes, slice_eq, split_lines, split_words, subvec, trim};
use yaaocr::util::parse::{extract_unsigned, try_signed, try_unsigned, ParseSigned, ParseUnsigned};
use yaaocr::util::text::{i64_to_dec, u64_to_dec, u64_to_dec_bytes, u64_to_dec_pad2};

#[test]
fn decimal_rendering() {
    assert_eq!(u64_to_dec(0), "0");
    assert_eq!(u64_to_dec(7), "7");
    assert_eq!(u64_to_dec(105), "105");
    assert_eq!(u64_to_dec(18446744073709551615), "18446744073709551615");
    assert_eq!(u64_to_dec_pad2(3), "03");
    assert_eq!(u64_to_dec_pad2(10), "10");
    assert_eq!(u64_to_dec_pad2(123), "123");
    assert_eq!(u64_to_dec_bytes(2015), b"2015".to_vec());
}

#[test]
fn signed_rendering() {
    assert_eq!(i64_to_dec(0), "0");
    assert_eq!(i64_to_dec(42), "42");
    assert_eq!(i64_to_dec(-42), "-42");
    assert_eq!(i64_to_dec(i64::MIN), "-9223372036854775808");
}

#[test]
fn unsigned_tokens_scanning() {
    assert_eq!(try_unsigned(b"ab12cd34", 0), Some((12, 4)));
    assert_eq!(try_unsigned(b"ab12cd34", 4), Some((34, 8)));
    assert_eq!(try_unsigned(b"abcd", 0), None);
    assert_eq!(extract_unsigned(b"2x3x4"), vec![2, 3, 4]);
    assert_eq!(extract_unsigned(b"no digits at all"), Vec::<u64>::new());
    // a run too large for u64 is clamped
    let (v, _) = try_unsigned(b"99999999999999999999999", 0).unwrap();
    assert_eq!(v, u64::MAX);
}

#[test]
fn signed_tokens_scanning() {
    assert_eq!(try_signed(b"a-12b", 0), Some((-12, 4)));
    assert_eq!(try_signed(b"5-6", 0), Some((5, 1)));
    assert_eq!(try_signed(b"5-6", 1), Some((-6, 3)));
    assert_eq!(try_signed(b"-abc", 0), Some((0, 1)));
    assert_eq!(try_signed(b"...", 0), None);
}

#[test]
fn line_splitting() {
    let ls = split_lines(b"a\nbc\n\nd");
    assert_eq!(ls, vec![b"a".to_vec(), b"bc".to_vec(), b"".to_vec(), b"d".to_vec()]);
    assert_eq!(split_lines(b""), Vec::<Vec<u8>>::new());
    assert_eq!(split_lines(b"x\n"), vec![b"x".to_vec()]);
    assert_eq!(split_lines(b"a\r\nb"), vec![b"a".to_vec(), b"b".to_vec()]);
}

#[test]
fn word_splitting() {
    let ws = split_words(b"  London to  Dublin = 464 ");
    assert_eq!(
        ws,
        vec![
            b"London".to_vec(),
            b"to".to_vec(),
            b"Dublin".to_vec(),
            b"=".to_vec(),
            b"464".to_vec()
        ]
    );
    assert_eq!(split_words(b"   "), Vec::<Vec<u8>>::new());
}

#[test]
fn trimming_and_slices() {
    assert_eq!(trim(b"  abc\n"), b"abc".to_vec());
    assert_eq!(trim(b"abc"), b"abc".to_vec());
    assert_eq!(trim(b" \t\r\n "), Vec::<u8>::new());
    assert!(slice_eq(b"abc", b"abc"));
    assert!(!slice_eq(b"abc", b"abd"));
    assert!(!slice_eq(b"abc", b"ab"));
    assert!(contains_bytes(b"hello world", b"o wo"));
    assert!(!contains_bytes(b"hello world", b"worlds"));
    assert!(contains_bytes(b"abc", b""));
    assert_eq!(subvec(b"abcdef", 2, 5), b"cde".to_vec());
}

#[test]
fn bit_iteration() {
    let mut b = Bitset::new(0b1011_0100);
    assert_eq!(b.next(), Some(2));
    assert_eq!(b.next(), Some(4));
    assert_eq!(b.next(), Some(5));
    assert_eq!(b.next(), Some(7));
    assert_eq!(b.next(), None);
    let mut c = 0u64.biterator();
    assert_eq!(c.next(), None);
    let mut d = (1u64 << 63).biterator();
    assert_eq!(d.next(), Some(63));
    assert_eq!(d.next(), None);
}

#[test]
fn token_streams() {
    let mut p = ParseUnsigned::new(b"2x3x4");
    assert_eq!(p.next(), Some(2));
    assert_eq!(p.next(), Some(3));
    assert_eq!(p.next(), Some(4));
    assert_eq!(p.next(), None);
    let mut q = ParseSigned::new(b"5,-6, 7");
    assert_eq!(q.next(), Some(5));
    assert_eq!(q.next(), Some(-6));
    assert_eq!(q.next(), Some(7));
    assert_eq!(q.next(), None);
}
