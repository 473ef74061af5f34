//! Day 8: string literals versus their in-memory form — how many
//! characters the escapes save, and how many re-escaping would add.

use vstd::prelude::*;

verus! {

use vstd::string::StringSliceAdditionalSpecFns;
use crate::util::bytes::{spec_lines, split_lines};

/// In-memory length of the literal body `s[i..end)`: escape pairs and
/// hex escapes decode to one character each; an unfinished escape at the
/// end decodes to nothing; an unknown escape is an error.
pub open spec fn mem_scan(s: Seq<u8>, i: int, end: int) -> Option<nat>
    decreases end - i,
{
    if i >= end {
        Some(0)
    } else if s[i] == 92 {
        if i + 1 >= end {
            Some(0)
        } else if s[i + 1] == 92 || s[i + 1] == 34 {
            match mem_scan(s, i + 2, end) {
                Some(m) => Some(m + 1),
                None => None,
            }
        } else if s[i + 1] == 120 {
            let j = if i + 4 <= end {
                i + 4
            } else {
                end
            };
            match mem_scan(s, j, end) {
                Some(m) => Some(m + 1),
                None => None,
            }
        } else {
            None
        }
    } else {
        match mem_scan(s, i + 1, end) {
            Some(m) => Some(m + 1),
            None => None,
        }
    }
}

/// In-memory length of a quoted literal line.
pub open spec fn spec_memory_len(s: Seq<u8>) -> Option<nat> {
    if s.len() >= 2 {
        mem_scan(s, 1, s.len() - 1)
    } else {
        None
    }
}

/// Length of the body `s[i..end)` once re-escaped.
pub open spec fn enc_scan(s: Seq<u8>, i: int, end: int) -> nat
    decreases end - i,
{
    if i >= end {
        0
    } else {
        (if s[i] == 92 || s[i] == 34 {
            2nat
        } else {
            1nat
        }) + enc_scan(s, i + 1, end)
    }
}

/// Length of a line once re-escaped: the body re-escaped, plus escaped
/// quotes and fresh outer quotes.
pub open spec fn spec_encoded_len(s: Seq<u8>) -> Option<nat> {
    if s.len() >= 2 {
        Some(6 + enc_scan(s, 1, s.len() - 1))
    } else {
        None
    }
}

proof fn lemma_mem_scan_bound(s: Seq<u8>, i: int, end: int)
    requires
        i <= end,
    ensures
        mem_scan(s, i, end) matches Some(m) ==> m <= end - i,
    decreases end - i,
{
    if i >= end {
    } else if s[i] == 92 {
        if i + 1 >= end {
        } else if s[i + 1] == 92 || s[i + 1] == 34 {
            lemma_mem_scan_bound(s, i + 2, end);
            assert(mem_scan(s, i, end) == (match mem_scan(s, i + 2, end) {
                Some(m) => Some((m + 1) as nat),
                None => None,
            }));
        } else if s[i + 1] == 120 {
            let j = if i + 4 <= end {
                i + 4
            } else {
                end
            };
            lemma_mem_scan_bound(s, j, end);
            assert(mem_scan(s, i, end) == (match mem_scan(s, j, end) {
                Some(m) => Some((m + 1) as nat),
                None => None,
            }));
        }
    } else {
        lemma_mem_scan_bound(s, i + 1, end);
        assert(mem_scan(s, i, end) == (match mem_scan(s, i + 1, end) {
            Some(m) => Some((m + 1) as nat),
            None => None,
        }));
    }
}

proof fn lemma_enc_scan_bounds(s: Seq<u8>, i: int, end: int)
    requires
        i <= end,
    ensures
        end - i <= enc_scan(s, i, end) <= 2 * (end - i),
    decreases end - i,
{
    if i < end {
        lemma_enc_scan_bounds(s, i + 1, end);
    }
}

/// The input split into lines.
pub fn parse(input: &str) -> (r: Vec<Vec<u8>>)
    ensures
        r@.len() == spec_lines(input.spec_bytes()).len(),
        forall|i: int|
            0 <= i < r@.len() ==> r@[i]@ == #[trigger] spec_lines(input.spec_bytes())[i],
{
    split_lines(input.as_bytes())
}

/// In-memory length of one quoted literal line.
pub fn memory_len(line: &[u8]) -> (r: Option<usize>)
    ensures
        (r matches Some(m) ==> spec_memory_len(line@) == Some(m as nat)),
        (r matches None ==> spec_memory_len(line@) is None),
{
    let n = line.len();
    if n < 2 {
        return None;
    }
    let end = n - 1;
    let mut count: usize = 0;
    let mut i: usize = 1;
    while i < end
        invariant
            1 <= i <= end,
            end == line@.len() - 1,
            n == line@.len(),
            count <= i,
            (mem_scan(line@, i as int, end as int) matches Some(x) ==> mem_scan(
                line@,
                1,
                end as int,
            ) == Some((count + x) as nat)),
            (mem_scan(line@, i as int, end as int) is None ==> mem_scan(line@, 1, end as int)
                is None),
        decreases end - i,
    {
        let b = line[i];
        if b == 92 {
            if i + 1 >= end {
                i = end;
                continue;
            }
            let c = line[i + 1];
            if c == 92 || c == 34 {
                count = count + 1;
                i = i + 2;
            } else if c == 120 {
                count = count + 1;
                if end - i >= 4 {
                    i = i + 4;
                } else {
                    i = end;
                }
            } else {
                return None;
            }
        } else {
            count = count + 1;
            i = i + 1;
        }
    }
    proof {
        lemma_mem_scan_bound(line@, 1, end as int);
    }
    Some(count)
}

/// Length of one line once re-escaped.
pub fn encoded_len(line: &[u8]) -> (r: Option<usize>)
    ensures
        (r matches Some(m) ==> spec_encoded_len(line@) == Some(m as nat)),
        (r matches None ==> (spec_encoded_len(line@) is None || (spec_encoded_len(line@)
            matches Some(v) && v > usize::MAX))),
{
    let n = line.len();
    if n < 2 {
        return None;
    }
    let end = n - 1;
    let mut count: u128 = 6;
    let mut i: usize = 1;
    while i < end
        invariant
            1 <= i <= end,
            end == line@.len() - 1,
            n == line@.len(),
            count == 6 + enc_scan(line@, 1, i as int),
            count <= 6 + 2 * i,
        decreases end - i,
    {
        proof {
            lemma_enc_scan_split(line@, 1, i as int);
        }
        let b = line[i];
        if b == 92 || b == 34 {
            count = count + 2;
        } else {
            count = count + 1;
        }
        i = i + 1;
    }
    proof {
        lemma_enc_scan_split(line@, 1, end as int);
    }
    if count > 0xffff_ffff_ffff_ffffu128 {
        return None;
    }
    if count > usize::MAX as u128 {
        return None;
    }
    Some(count as usize)
}

pub open spec fn all_quoted(ls: Seq<Vec<u8>>) -> bool {
    forall|i: int| 0 <= i < ls.len() ==> spec_memory_len(#[trigger] ls[i]@) is Some
}

pub open spec fn all_long_enough(ls: Seq<Vec<u8>>) -> bool {
    forall|i: int| 0 <= i < ls.len() ==> #[trigger] ls[i]@.len() >= 2
}

pub open spec fn sum_code(ls: Seq<Vec<u8>>, k: int) -> nat
    decreases k,
{
    if k <= 0 {
        0
    } else {
        sum_code(ls, k - 1) + ls[k - 1]@.len()
    }
}

pub open spec fn sum_mem(ls: Seq<Vec<u8>>, k: int) -> nat
    decreases k,
{
    if k <= 0 {
        0
    } else {
        sum_mem(ls, k - 1) + (match spec_memory_len(ls[k - 1]@) {
            Some(m) => m,
            None => 0,
        })
    }
}

pub open spec fn sum_enc(ls: Seq<Vec<u8>>, k: int) -> nat
    decreases k,
{
    if k <= 0 {
        0
    } else {
        sum_enc(ls, k - 1) + (match spec_encoded_len(ls[k - 1]@) {
            Some(m) => m,
            None => 0,
        })
    }
}

proof fn lemma_sum_code_monotone(ls: Seq<Vec<u8>>, k: int)
    requires
        0 <= k <= ls.len(),
    ensures
        sum_code(ls, k) <= sum_code(ls, ls.len() as int),
    decreases ls.len() - k,
{
    if k < ls.len() {
        lemma_sum_code_monotone(ls, k + 1);
    }
}

proof fn lemma_sum_enc_monotone(ls: Seq<Vec<u8>>, k: int)
    requires
        0 <= k <= ls.len(),
    ensures
        sum_enc(ls, k) <= sum_enc(ls, ls.len() as int),
    decreases ls.len() - k,
{
    if k < ls.len() {
        lemma_sum_enc_monotone(ls, k + 1);
    }
}

/// Total characters of code minus total characters in memory, over all
/// lines. Nothing if a line is malformed or the code total does not fit
/// a `usize`.
pub fn part1(input: &Vec<Vec<u8>>) -> (r: Option<usize>)
    ensures
        ({
            let n = input@.len() as int;
            &&& (r matches Some(d) ==> all_quoted(input@) && sum_code(input@, n) <= usize::MAX
                && d == sum_code(input@, n) - sum_mem(input@, n))
            &&& (r matches None ==> !all_quoted(input@) || sum_code(input@, n) > usize::MAX)
        }),
{
    let n = input.len();
    let mut code_acc: u128 = 0;
    let mut mem_acc: u128 = 0;
    let mut i: usize = 0;
    while i < n
        invariant
            i <= n,
            n == input@.len(),
            code_acc == sum_code(input@, i as int),
            mem_acc == sum_mem(input@, i as int),
            mem_acc <= code_acc,
            code_acc <= usize::MAX,
            forall|q: int| 0 <= q < i ==> spec_memory_len(#[trigger] input@[q]@) is Some,
        decreases n - i,
    {
        let line = &input[i];
        match memory_len(line.as_slice()) {
            Some(m) => {
                proof {
                    if line@.len() >= 2 {
                        lemma_mem_scan_bound(line@, 1, line@.len() - 1);
                    }
                }
                let code: u128 = line.len() as u128;
                let new_code: u128 = code_acc + code;
                if new_code > usize::MAX as u128 {
                    proof {
                        lemma_sum_code_monotone(input@, i + 1);
                    }
                    return None;
                }
                code_acc = new_code;
                mem_acc = mem_acc + (m as u128);
            },
            None => {
                proof {
                    assert(!all_quoted(input@));
                }
                return None;
            },
        }
        i = i + 1;
    }
    Some((code_acc - mem_acc) as usize)
}

/// Total characters once re-escaped minus total characters of code, over
/// all lines. Nothing if a line is shorter than its two quotes or the
/// re-escaped total does not fit a `usize`.
pub fn part2(input: &Vec<Vec<u8>>) -> (r: Option<usize>)
    ensures
        ({
            let n = input@.len() as int;
            &&& (r matches Some(d) ==> all_long_enough(input@) && sum_enc(input@, n)
                <= usize::MAX && d == sum_enc(input@, n) - sum_code(input@, n))
            &&& (r matches None ==> !all_long_enough(input@) || sum_enc(input@, n) > usize::MAX)
        }),
{
    let n = input.len();
    let mut code_acc: u128 = 0;
    let mut enc_acc: u128 = 0;
    let mut i: usize = 0;
    while i < n
        invariant
            i <= n,
            n == input@.len(),
            code_acc == sum_code(input@, i as int),
            enc_acc == sum_enc(input@, i as int),
            code_acc <= enc_acc,
            enc_acc <= usize::MAX,
            forall|q: int| 0 <= q < i ==> #[trigger] input@[q]@.len() >= 2,
        decreases n - i,
    {
        let line = &input[i];
        if line.len() < 2 {
            proof {
                assert(!all_long_enough(input@));
            }
            return None;
        }
        match encoded_len(line.as_slice()) {
            Some(m) => {
                proof {
                    lemma_enc_scan_bounds(line@, 1, line@.len() - 1);
                }
                let new_enc: u128 = enc_acc + (m as u128);
                if new_enc > usize::MAX as u128 {
                    proof {
                        lemma_sum_enc_monotone(input@, i + 1);
                    }
                    return None;
                }
                enc_acc = new_enc;
                code_acc = code_acc + (line.len() as u128);
            },
            None => {
                proof {
                    lemma_sum_enc_monotone(input@, i + 1);
                }
                return None;
            },
        }
        i = i + 1;
    }
    Some((enc_acc - code_acc) as usize)
}

/// Splitting a scan at its last element.
proof fn lemma_enc_scan_split(s: Seq<u8>, i: int, k: int)
    requires
        i <= k,
    ensures
        enc_scan(s, i, k + 1) == enc_scan(s, i, k) + (if s[k] == 92 || s[k] == 34 {
            2nat
        } else {
            1nat
        }),
    decreases k - i,
{
    if i < k {
        lemma_enc_scan_split(s, i + 1, k);
        assert(enc_scan(s, i, k + 1) == (if s[i] == 92 || s[i] == 34 {
            2nat
        } else {
            1nat
        }) + enc_scan(s, i + 1, k + 1));
    } else {
        assert(enc_scan(s, k + 1, k + 1) == 0);
        assert(enc_scan(s, k, k) == 0);
        assert(enc_scan(s, k, k + 1) == (if s[k] == 92 || s[k] == 34 {
            2nat
        } else {
            1nat
        }) + enc_scan(s, k + 1, k + 1));
    }
}

} // verus!
