//! Day 4: brute-force search for the smallest counters whose digest,
//! appended to a secret key, starts with enough zero hex digits.

use vstd::prelude::*;
use md5::Digest;

verus! {

use vstd::string::StringSliceAdditionalSpecFns;
use crate::util::text::dec_bytes;
use crate::util::bytes::spec_trim;

/// The MD5 digest of a byte sequence. The digest depends on the bytes
/// alone, so it can be named without being written out.
pub uninterp spec fn md5_of(data: Seq<u8>) -> Seq<u8>;

/// Relies on `md5::Md5::digest` (the `md-5` crate): the digest is a pure
/// function of the input bytes and is sixteen bytes long.
#[verifier::external_body]
fn md5_digest(data: &[u8]) -> (r: Vec<u8>)
    ensures
        r@ == md5_of(data@),
        r@.len() == 16,
{
    md5::Md5::digest(data).to_vec()
}

/// The digest of the key with the counter's decimal digits appended.
pub open spec fn candidate_digest(key: Seq<u8>, i: nat) -> Seq<u8> {
    md5_of(key + dec_bytes(i))
}

/// Five leading zero hex digits.
pub open spec fn weak_at(key: Seq<u8>, i: nat) -> bool {
    let d = candidate_digest(key, i);
    d[0] == 0 && d[1] == 0 && d[2] < 16
}

/// Six leading zero hex digits.
pub open spec fn strong_at(key: Seq<u8>, i: nat) -> bool {
    let d = candidate_digest(key, i);
    d[0] == 0 && d[1] == 0 && d[2] == 0
}

/// Does the candidate counter meet the weak and the strong condition?
pub fn candidate_kind(key: &[u8], i: u64) -> (r: (bool, bool))
    ensures
        r.0 == weak_at(key@, i as nat),
        r.1 == strong_at(key@, i as nat),
{
    let mut data: Vec<u8> = crate::util::bytes::subvec(key, 0, key.len());
    let mut digits = crate::util::text::u64_to_dec_bytes(i);
    data.append(&mut digits);
    proof {
        assert(key@.subrange(0, key@.len() as int) =~= key@);
        assert(data@ == key@ + dec_bytes(i as nat));
    }
    let d = md5_digest(data.as_slice());
    let weak = d[0] == 0 && d[1] == 0 && d[2] < 16;
    let strong = d[0] == 0 && d[1] == 0 && d[2] == 0;
    (weak, strong)
}

/// Marks a counter that was not found.
pub open spec fn not_found() -> u64 {
    u64::MAX
}

/// What the search returns: the least weak and least strong counters in
/// `[1, limit)`, with `u64::MAX` standing for none; the scan may stop at
/// the least strong counter.
pub open spec fn is_search_result(key: Seq<u8>, limit: nat, r: (u64, u64)) -> bool {
    &&& (r.1 != not_found() ==> 1 <= r.1 < limit && strong_at(key, r.1 as nat) && forall|j: nat|
        1 <= j < r.1 ==> !#[trigger] strong_at(key, j))
    &&& (r.1 == not_found() ==> forall|j: nat| 1 <= j < limit ==> !#[trigger] strong_at(key, j))
    &&& (r.0 != not_found() ==> 1 <= r.0 < limit && weak_at(key, r.0 as nat) && forall|j: nat|
        1 <= j < r.0 ==> !#[trigger] weak_at(key, j))
    &&& (r.0 == not_found() ==> forall|j: nat| 1 <= j < limit ==> !#[trigger] weak_at(key, j))
    &&& (r.1 != not_found() ==> r.0 != not_found() && r.0 <= r.1)
}

/// Scan counters `1, 2, ...` below `limit` for the least weak and least
/// strong hits, stopping once the strong one is found.
pub fn search(key: &[u8], limit: u64) -> (r: (u64, u64))
    ensures
        is_search_result(key@, limit as nat, r),
{
    if limit <= 1 {
        return (u64::MAX, u64::MAX);
    }
    let mut p1: u64 = u64::MAX;
    let mut i: u64 = 1;
    while i < limit
        invariant
            1 <= i <= limit,
            limit >= 2,
            p1 != u64::MAX ==> 1 <= p1 < i && weak_at(key@, p1 as nat) && forall|j: nat|
                1 <= j < p1 ==> !#[trigger] weak_at(key@, j),
            p1 == u64::MAX ==> forall|j: nat| 1 <= j < i ==> !#[trigger] weak_at(key@, j),
            forall|j: nat| 1 <= j < i ==> !#[trigger] strong_at(key@, j),
        decreases limit - i,
    {
        let (weak, strong) = candidate_kind(key, i);
        if weak && p1 == u64::MAX {
            p1 = i;
        }
        if strong {
            proof {
                assert(weak_at(key@, i as nat));
            }
            return (p1, i);
        }
        i = i + 1;
    }
    proof {
        assert(i == limit);
        assert(forall|j: nat| 1 <= j < limit ==> !#[trigger] strong_at(key@, j));
        if p1 != u64::MAX {
            assert(1 <= p1 < limit && weak_at(key@, p1 as nat));
        }
    }
    (p1, u64::MAX)
}

/// When a weak and a strong candidate exist at all within the counter's
/// range, the full search returns exactly the least counter meeting each
/// condition — the global minima of the deterministic search space — and
/// the weak minimum never exceeds the strong one.
pub proof fn lemma_search_finds_minima(key: Seq<u8>, r: (u64, u64), w: nat, s: nat)
    requires
        is_search_result(key, u64::MAX as nat, r),
        1 <= w < u64::MAX,
        weak_at(key, w),
        1 <= s < u64::MAX,
        strong_at(key, s),
    ensures
        r.0 != not_found() && weak_at(key, r.0 as nat),
        forall|j: nat| 1 <= j < r.0 ==> !#[trigger] weak_at(key, j),
        r.0 <= w,
        r.1 != not_found() && strong_at(key, r.1 as nat),
        forall|j: nat| 1 <= j < r.1 ==> !#[trigger] strong_at(key, j),
        r.1 <= s,
        r.0 <= r.1,
{
    if r.1 == not_found() {
        assert(!strong_at(key, s));
    }
    if r.1 > s {
        assert(!strong_at(key, s));
    }
    if r.0 > w {
        assert(!weak_at(key, w));
    }
}

/// Any two outcomes of the same search coincide: the minima are unique,
/// however the counter space is scanned.
pub proof fn lemma_search_deterministic(key: Seq<u8>, limit: nat, r1: (u64, u64), r2: (u64, u64))
    requires
        is_search_result(key, limit, r1),
        is_search_result(key, limit, r2),
    ensures
        r1 == r2,
{
    if r1.1 != not_found() && r2.1 != not_found() {
        if r1.1 < r2.1 {
            assert(!strong_at(key, r1.1 as nat));
        } else if r2.1 < r1.1 {
            assert(!strong_at(key, r2.1 as nat));
        }
    } else if r1.1 != not_found() {
        assert(!strong_at(key, r1.1 as nat));
    } else if r2.1 != not_found() {
        assert(!strong_at(key, r2.1 as nat));
    }
    if r1.0 != not_found() && r2.0 != not_found() {
        if r1.0 < r2.0 {
            assert(!weak_at(key, r1.0 as nat));
        } else if r2.0 < r1.0 {
            assert(!weak_at(key, r2.0 as nat));
        }
    } else if r1.0 != not_found() {
        assert(!weak_at(key, r1.0 as nat));
    } else if r2.0 != not_found() {
        assert(!weak_at(key, r2.0 as nat));
    }
}

/// Search the whole counter space for the trimmed key.
pub fn parse(input: &str) -> (r: (u64, u64))
    ensures
        is_search_result(spec_trim(input.spec_bytes()), u64::MAX as nat, r),
{
    let key = crate::util::bytes::trim(input.as_bytes());
    search(key.as_slice(), u64::MAX)
}

/// The least counter meeting the weak condition.
pub fn part1(input: &(u64, u64)) -> (r: u64)
    ensures
        r == input.0,
{
    input.0
}

/// The least counter meeting the strong condition.
pub fn part2(input: &(u64, u64)) -> (r: u64)
    ensures
        r == input.1,
{
    input.1
}

} // verus!
