//! Day 9: shortest and longest routes visiting every location once, from
//! a list of pairwise distances.

use vstd::prelude::*;

verus! {

use vstd::string::StringSliceAdditionalSpecFns;
use crate::util::bytes::{spec_lines, spec_words, split_lines, split_words, slice_eq};
use crate::util::parse::{try_unsigned, unsigned_tokens, sat64};

pub open spec fn to_word() -> Seq<u8> {
    "to"@.map_values(|c: char| c as u8)
}

pub open spec fn eq_word() -> Seq<u8> {
    "="@.map_values(|c: char| c as u8)
}

/// A line must read `<from> to <to> = <distance>`, with the distance a
/// number that fits a `u32`.
pub open spec fn line_wf(l: Seq<u8>) -> bool {
    let ws = spec_words(l);
    &&& ws.len() == 5
    &&& ws[1] == to_word()
    &&& ws[3] == eq_word()
    &&& unsigned_tokens(ws[4]).len() >= 1
    &&& unsigned_tokens(ws[4])[0] <= 0xffffffff
}

pub open spec fn line_from(l: Seq<u8>) -> Seq<u8> {
    spec_words(l)[0]
}

pub open spec fn line_to(l: Seq<u8>) -> Seq<u8> {
    spec_words(l)[2]
}

pub open spec fn line_dist(l: Seq<u8>) -> nat {
    unsigned_tokens(spec_words(l)[4])[0]
}

pub open spec fn add_name(names: Seq<Seq<u8>>, w: Seq<u8>) -> Seq<Seq<u8>> {
    if names.contains(w) {
        names
    } else {
        names.push(w)
    }
}

/// The distinct location names, in order of first appearance.
pub open spec fn collect_names(ls: Seq<Seq<u8>>, k: int) -> Seq<Seq<u8>>
    decreases k,
{
    if k <= 0 {
        Seq::empty()
    } else {
        add_name(add_name(collect_names(ls, k - 1), line_from(ls[k - 1])), line_to(ls[k - 1]))
    }
}

/// The index of the first occurrence of `w`, or -1.
pub open spec fn first_index(names: Seq<Seq<u8>>, w: Seq<u8>) -> int
    decreases names.len(),
{
    if names.len() == 0 {
        -1
    } else if names[0] == w {
        0
    } else {
        let r = first_index(names.skip(1), w);
        if r < 0 {
            -1
        } else {
            1 + r
        }
    }
}

pub proof fn lemma_first_index(names: Seq<Seq<u8>>, w: Seq<u8>)
    ensures
        names.contains(w) ==> 0 <= first_index(names, w) < names.len() && names[first_index(
            names,
            w,
        )] == w,
        !names.contains(w) ==> first_index(names, w) == -1,
    decreases names.len(),
{
    if names.len() > 0 && names[0] != w {
        lemma_first_index(names.skip(1), w);
        if names.skip(1).contains(w) {
            assert(names.contains(w)) by {
                let j = choose|j: int|
                    0 <= j < names.skip(1).len() && names.skip(1)[j] == w;
                assert(names[j + 1] == w);
            }
        }
        if names.contains(w) {
            let j = choose|j: int| 0 <= j < names.len() && names[j] == w;
            assert(names.skip(1)[j - 1] == w);
            assert(names.skip(1).contains(w));
        }
    }
}

/// An n-by-n matrix of zeros.
pub open spec fn zero_matrix(n: int) -> Seq<Seq<u64>> {
    Seq::new(n as nat, |i: int| Seq::new(n as nat, |j: int| 0u64))
}

/// The distance matrix after the first `k` lines, symmetric, later lines
/// overwriting earlier ones.
pub open spec fn fill(ls: Seq<Seq<u8>>, k: int, names: Seq<Seq<u8>>) -> Seq<Seq<u64>>
    decreases k,
{
    if k <= 0 {
        zero_matrix(names.len() as int)
    } else {
        let m = fill(ls, k - 1, names);
        let i = first_index(names, line_from(ls[k - 1]));
        let j = first_index(names, line_to(ls[k - 1]));
        let d = line_dist(ls[k - 1]) as u64;
        let m1 = m.update(i, m[i].update(j, d));
        m1.update(j, m1[j].update(i, d))
    }
}

pub open spec fn all_lines_wf(s: Seq<u8>) -> bool {
    forall|i: int| 0 <= i < spec_lines(s).len() ==> line_wf(#[trigger] spec_lines(s)[i])
}

pub open spec fn spec_names(s: Seq<u8>) -> Seq<Seq<u8>> {
    collect_names(spec_lines(s), spec_lines(s).len() as int)
}

pub open spec fn spec_matrix(s: Seq<u8>) -> Seq<Seq<u64>> {
    fill(spec_lines(s), spec_lines(s).len() as int, spec_names(s))
}

/// A usable distance matrix: square, small enough to search, entries
/// fitting a `u32`.
pub open spec fn wf_matrix(m: Seq<Seq<u64>>) -> bool {
    &&& m.len() <= 24
    &&& (forall|i: int| 0 <= i < m.len() ==> (#[trigger] m[i]).len() == m.len())
    &&& (forall|i: int, j: int|
        0 <= i < m.len() && 0 <= j < m.len() ==> #[trigger] m[i][j] <= 0xffffffff)
}


/// Adding names keeps everything already present.
pub proof fn lemma_add_name_keeps(names: Seq<Seq<u8>>, w: Seq<u8>, x: Seq<u8>)
    requires
        names.contains(x),
    ensures
        add_name(names, w).contains(x),
{
    if !names.contains(w) {
        let j = choose|j: int| 0 <= j < names.len() && names[j] == x;
        assert(names.push(w)[j] == x);
    }
}

pub proof fn lemma_add_name_has(names: Seq<Seq<u8>>, w: Seq<u8>)
    ensures
        add_name(names, w).contains(w),
{
    if !names.contains(w) {
        assert(names.push(w)[names.len() as int] == w);
    }
}

/// The collected names hold both ends of every line collected so far.
proof fn lemma_collect_names_contains(ls: Seq<Seq<u8>>, k: int, cap: int)
    requires
        0 <= k < cap,
    ensures
        collect_names(ls, cap).contains(line_from(ls[k])),
        collect_names(ls, cap).contains(line_to(ls[k])),
    decreases cap,
{
    let prev = collect_names(ls, cap - 1);
    let mid = add_name(prev, line_from(ls[cap - 1]));
    if k == cap - 1 {
        lemma_add_name_has(prev, line_from(ls[cap - 1]));
        lemma_add_name_keeps(mid, line_to(ls[cap - 1]), line_from(ls[cap - 1]));
        lemma_add_name_has(mid, line_to(ls[cap - 1]));
    } else {
        lemma_collect_names_contains(ls, k, cap - 1);
        lemma_add_name_keeps(prev, line_from(ls[cap - 1]), line_from(ls[k]));
        lemma_add_name_keeps(prev, line_from(ls[cap - 1]), line_to(ls[k]));
        lemma_add_name_keeps(mid, line_to(ls[cap - 1]), line_from(ls[k]));
        lemma_add_name_keeps(mid, line_to(ls[cap - 1]), line_to(ls[k]));
    }
}

/// A first occurrence seen directly pins the index down.
proof fn lemma_first_index_char(names: Seq<Seq<u8>>, w: Seq<u8>, idx: int)
    requires
        0 <= idx < names.len(),
        names[idx] == w,
        forall|j: int| 0 <= j < idx ==> #[trigger] names[j] != w,
    ensures
        first_index(names, w) == idx,
    decreases idx,
{
    if idx > 0 {
        let t = names.skip(1);
        assert(forall|j: int| 0 <= j < idx - 1 ==> #[trigger] t[j] == names[j + 1]);
        assert(t[idx - 1] == names[idx]);
        lemma_first_index_char(t, w, idx - 1);
    }
}

/// Filling from well-formed lines whose names are all collected yields a
/// usable matrix.
proof fn lemma_fill_wf(ls: Seq<Seq<u8>>, k: int, names: Seq<Seq<u8>>)
    requires
        0 <= k <= ls.len(),
        names.len() <= 24,
        forall|q: int| 0 <= q < k ==> line_wf(#[trigger] ls[q]),
        forall|q: int|
            0 <= q < k ==> names.contains(line_from(#[trigger] ls[q])) && names.contains(
                line_to(ls[q]),
            ),
    ensures
        fill(ls, k, names).len() == names.len(),
        wf_matrix(fill(ls, k, names)),
    decreases k,
{
    if k > 0 {
        lemma_fill_wf(ls, k - 1, names);
        lemma_first_index(names, line_from(ls[k - 1]));
        lemma_first_index(names, line_to(ls[k - 1]));
    }
}

/// Look a name up, by scanning for its first occurrence.
pub(crate) fn find_name(names: &Vec<Vec<u8>>, w: &[u8], Ghost(gnames): Ghost<Seq<Seq<u8>>>) -> (r: Option<
    usize,
>)
    requires
        names@.len() == gnames.len(),
        forall|i: int| 0 <= i < names@.len() ==> #[trigger] names@[i]@ == gnames[i],
    ensures
        (r matches Some(i) ==> i < gnames.len() && first_index(gnames, w@) == i as int),
        (r matches None ==> !gnames.contains(w@)),
{
    let n = names.len();
    let mut i: usize = 0;
    while i < n
        invariant
            i <= n,
            n == names@.len() == gnames.len(),
            forall|q: int| 0 <= q < n ==> #[trigger] names@[q]@ == gnames[q],
            forall|q: int| 0 <= q < i ==> #[trigger] gnames[q] != w@,
        decreases n - i,
    {
        if slice_eq(names[i].as_slice(), w) {
            proof {
                lemma_first_index_char(gnames, w@, i as int);
            }
            return Some(i);
        }
        i = i + 1;
    }
    proof {
        if gnames.contains(w@) {
            let j = choose|j: int| 0 <= j < gnames.len() && gnames[j] == w@;
        }
    }
    None
}

/// The distance matrix read from the input. Nothing if a line is not of
/// the form `<from> to <to> = <distance>` or there are more than
/// twenty-four locations.
pub fn parse(input: &str) -> (r: Option<Vec<Vec<u64>>>)
    ensures
        ({
            let sb = input.spec_bytes();
            &&& (r matches Some(v) ==> {
                &&& all_lines_wf(sb)
                &&& spec_names(sb).len() <= 24
                &&& v@.len() == spec_matrix(sb).len()
                &&& (forall|i: int| 0 <= i < v@.len() ==> #[trigger] v@[i]@ == spec_matrix(sb)[i])
                &&& wf_matrix(spec_matrix(sb))
            })
            &&& (r matches None ==> !all_lines_wf(sb) || spec_names(sb).len() > 24)
        }),
{
    let bytes = input.as_bytes();
    let lines = split_lines(bytes);
    let ghost dls = spec_lines(input.spec_bytes());
    let n = lines.len();
    // first pass: check every line and collect the names
    let mut names: Vec<Vec<u8>> = Vec::new();
    let ghost gnames_final = spec_names(input.spec_bytes());
    let mut i: usize = 0;
    while i < n
        invariant
            i <= n,
            n == lines@.len() == dls.len(),
            dls == spec_lines(input.spec_bytes()),
            forall|q: int| 0 <= q < n ==> #[trigger] lines@[q]@ == dls[q],
            forall|q: int| 0 <= q < i ==> line_wf(#[trigger] dls[q]),
            names@.len() == collect_names(dls, i as int).len(),
            forall|q: int|
                0 <= q < names@.len() ==> #[trigger] names@[q]@ == collect_names(dls, i as int)[q],
        decreases n - i,
    {
        let line = &lines[i];
        let words = split_words(line.as_slice());
        let ghost gw = spec_words(dls[i as int]);
        if words.len() != 5 {
            proof {
                assert(!line_wf(spec_lines(input.spec_bytes())[i as int]));
            }
            return None;
        }
        let to_ok = slice_eq(words[1].as_slice(), "to".as_bytes());
        let eq_ok = slice_eq(words[3].as_slice(), "=".as_bytes());
        proof {
            broadcast use vstd::string::is_ascii_spec_bytes;

            reveal_strlit("to");
            reveal_strlit("=");
            assert(vstd::string::is_ascii("to"));
            assert(vstd::string::is_ascii("="));
            assert("to".spec_bytes() =~= to_word());
            assert("=".spec_bytes() =~= eq_word());
        }
        if !to_ok || !eq_ok {
            proof {
                assert(!line_wf(spec_lines(input.spec_bytes())[i as int]));
            }
            return None;
        }
        let dist_ok = match try_unsigned(words[4].as_slice(), 0) {
            Some((d, _)) => d <= 0xffff_ffff,
            None => false,
        };
        proof {
            assert(words@[4]@.skip(0) =~= gw[4]);
        }
        if !dist_ok {
            proof {
                assert(!line_wf(spec_lines(input.spec_bytes())[i as int]));
            }
            return None;
        }
        proof {
            assert(line_wf(dls[i as int]));
        }
        // record the two names in order of first appearance
        let ghost before = collect_names(dls, i as int);
        let from_found = find_name(&names, words[0].as_slice(), Ghost(before));
        if from_found.is_none() {
            let w = crate::util::bytes::subvec(words[0].as_slice(), 0, words[0].len());
            proof {
                assert(w@ =~= line_from(dls[i as int]));
            }
            names.push(w);
        }
        let ghost mid = add_name(before, line_from(dls[i as int]));
        proof {
            assert(words@[0]@ == line_from(dls[i as int]));
            lemma_first_index(before, line_from(dls[i as int]));
            if before.contains(line_from(dls[i as int])) {
                assert(names@.len() == mid.len());
            } else {
                assert(names@[names@.len() - 1]@ == mid[mid.len() - 1]);
            }
            assert(forall|q: int|
                0 <= q < names@.len() ==> #[trigger] names@[q]@ == mid[q]);
        }
        let to_found = find_name(&names, words[2].as_slice(), Ghost(mid));
        if to_found.is_none() {
            let w = crate::util::bytes::subvec(words[2].as_slice(), 0, words[2].len());
            proof {
                assert(w@ =~= line_to(dls[i as int]));
            }
            names.push(w);
        }
        proof {
            let after = add_name(mid, line_to(dls[i as int]));
            assert(words@[2]@ == line_to(dls[i as int]));
            lemma_first_index(mid, line_to(dls[i as int]));
            if mid.contains(line_to(dls[i as int])) {
                assert(names@.len() == after.len());
            } else {
                assert(names@[names@.len() - 1]@ == after[after.len() - 1]);
            }
            assert(forall|q: int|
                0 <= q < names@.len() ==> #[trigger] names@[q]@ == after[q]);
            assert(after == collect_names(dls, i + 1));
        }
        i = i + 1;
    }
    proof {
        assert(all_lines_wf(input.spec_bytes()));
        assert(collect_names(dls, n as int) == gnames_final);
    }
    if names.len() > 24 {
        return None;
    }
    // second pass: fill the matrix
    let nn = names.len();
    let mut m: Vec<Vec<u64>> = Vec::new();
    let mut y: usize = 0;
    while y < nn
        invariant
            y <= nn,
            m@.len() == y,
            forall|q: int|
                0 <= q < y ==> #[trigger] m@[q]@ == Seq::new(nn as nat, |j: int| 0u64),
        decreases nn - y,
    {
        let mut row: Vec<u64> = Vec::new();
        let mut x: usize = 0;
        while x < nn
            invariant
                x <= nn,
                row@ =~= Seq::new(x as nat, |j: int| 0u64),
            decreases nn - x,
        {
            row.push(0);
            proof {
                assert(row@ =~= Seq::new((x + 1) as nat, |j: int| 0u64));
            }
            x = x + 1;
        }
        m.push(row);
        y = y + 1;
    }
    proof {
        assert(forall|q: int|
            0 <= q < nn ==> #[trigger] zero_matrix(nn as int)[q] =~= Seq::new(
                nn as nat,
                |j: int| 0u64,
            ));
        assert(forall|q: int| 0 <= q < nn ==> #[trigger] m@[q]@ == zero_matrix(nn as int)[q]);
    }
    let mut k: usize = 0;
    while k < n
        invariant
            k <= n,
            nn == names@.len() == gnames_final.len(),
            n == lines@.len() == dls.len(),
            dls == spec_lines(input.spec_bytes()),
            gnames_final == spec_names(input.spec_bytes()),
            nn <= 24,
            forall|q: int| 0 <= q < n ==> #[trigger] lines@[q]@ == dls[q],
            forall|q: int| 0 <= q < n ==> line_wf(#[trigger] dls[q]),
            forall|q: int| 0 <= q < nn ==> #[trigger] names@[q]@ == gnames_final[q],
            m@.len() == fill(dls, k as int, gnames_final).len(),
            m@.len() == nn,
            forall|q: int|
                0 <= q < m@.len() ==> #[trigger] m@[q]@ == fill(dls, k as int, gnames_final)[q],
        decreases n - k,
    {
        let line = &lines[k];
        let words = split_words(line.as_slice());
        proof {
            assert(line_wf(dls[k as int]));
            lemma_collect_names_contains(dls, k as int, n as int);
            lemma_first_index(gnames_final, line_from(dls[k as int]));
            lemma_first_index(gnames_final, line_to(dls[k as int]));
            assert forall|q: int| 0 <= q < k implies gnames_final.contains(
                line_from(#[trigger] dls[q]),
            ) && gnames_final.contains(line_to(dls[q])) by {
                lemma_collect_names_contains(dls, q, n as int);
            }
            lemma_fill_wf(dls, k as int, gnames_final);
        }
        let fi = match find_name(&names, words[0].as_slice(), Ghost(gnames_final)) {
            Some(idx) => idx,
            None => {
                proof {
                    assert(false);
                }
                0
            },
        };
        let ti = match find_name(&names, words[2].as_slice(), Ghost(gnames_final)) {
            Some(idx) => idx,
            None => {
                proof {
                    assert(false);
                }
                0
            },
        };
        let d64 = match try_unsigned(words[4].as_slice(), 0) {
            Some((d, _)) => d,
            None => {
                proof {
                    assert(words@[4]@.skip(0) =~= spec_words(dls[k as int])[4]);
                    assert(false);
                }
                0
            },
        };
        proof {
            assert(words@[4]@.skip(0) =~= spec_words(dls[k as int])[4]);
            assert(d64 == line_dist(dls[k as int]));
        }
        let ghost prev = fill(dls, k as int, gnames_final);
        let ghost gi = first_index(gnames_final, line_from(dls[k as int]));
        let ghost gj = first_index(gnames_final, line_to(dls[k as int]));
        let mut row_i = vstd::slice::slice_to_vec(m[fi].as_slice());
        row_i.set(ti, d64);
        m.set(fi, row_i);
        let mut row_j = vstd::slice::slice_to_vec(m[ti].as_slice());
        row_j.set(fi, d64);
        m.set(ti, row_j);
        proof {
            let d = line_dist(dls[k as int]) as u64;
            let m1 = prev.update(gi, prev[gi].update(gj, d));
            let next = m1.update(gj, m1[gj].update(gi, d));
            assert(next == fill(dls, k + 1, gnames_final));
            assert(forall|q: int| 0 <= q < m@.len() ==> #[trigger] m@[q]@ =~= next[q]);
        }
        k = k + 1;
    }
    proof {
        assert forall|q: int| 0 <= q < n implies gnames_final.contains(
            line_from(#[trigger] dls[q]),
        ) && gnames_final.contains(line_to(dls[q])) by {
            lemma_collect_names_contains(dls, q, n as int);
        }
        lemma_fill_wf(dls, n as int, gnames_final);
    }
    Some(m)
}


/// A vector of rows seen as a sequence of sequences.
pub open spec fn deep(m: Seq<Vec<u64>>) -> Seq<Seq<u64>> {
    Seq::new(m.len(), |i: int| m[i]@)
}

/// How many locations are still unvisited.
pub open spec fn count_free(vis: Seq<bool>) -> nat
    decreases vis.len(),
{
    if vis.len() == 0 {
        0
    } else {
        (if !vis.last() {
            1nat
        } else {
            0nat
        }) + count_free(vis.drop_last())
    }
}

proof fn lemma_count_free_update(vis: Seq<bool>, i: int)
    requires
        0 <= i < vis.len(),
        !vis[i],
    ensures
        count_free(vis.update(i, true)) == count_free(vis) - 1,
    decreases vis.len(),
{
    let upd = vis.update(i, true);
    if i == vis.len() - 1 {
        assert(upd.drop_last() =~= vis.drop_last());
    } else {
        assert(upd.drop_last() =~= vis.drop_last().update(i, true));
        assert(upd.last() == vis.last());
        lemma_count_free_update(vis.drop_last(), i);
    }
}

proof fn lemma_count_free_bound(vis: Seq<bool>)
    ensures
        count_free(vis) <= vis.len(),
    decreases vis.len(),
{
    if vis.len() > 0 {
        lemma_count_free_bound(vis.drop_last());
    }
}

/// The better of two optional route lengths.
pub open spec fn merge_opt(minimize: bool, a: Option<nat>, b: Option<nat>) -> Option<nat> {
    match (a, b) {
        (None, x) => x,
        (x, None) => x,
        (Some(x), Some(y)) => if minimize == (x <= y) {
            Some(x)
        } else {
            Some(y)
        },
    }
}

proof fn lemma_merge_assoc(minimize: bool, a: Option<nat>, b: Option<nat>, c: Option<nat>)
    ensures
        merge_opt(minimize, merge_opt(minimize, a, b), c) == merge_opt(
            minimize,
            a,
            merge_opt(minimize, b, c),
        ),
{
}

/// The optimal continuation length from `from`, over every still
/// unvisited next stop; nothing if every stop is already visited.
pub open spec fn opt_choice(
    dm: Seq<Seq<u64>>,
    minimize: bool,
    from: int,
    vis: Seq<bool>,
    to: int,
) -> Option<nat>
    decreases count_free(vis), 1int, dm.len() - to,
    when 0 <= from < vis.len() && vis.len() == dm.len() && 0 <= to && vis[from]
    via opt_choice_decreases
{
    if to >= dm.len() {
        None
    } else if to == from || vis[to] {
        opt_choice(dm, minimize, from, vis, to + 1)
    } else {
        let d = (dm[from][to] + best(dm, minimize, to, vis)) as nat;
        merge_opt(minimize, Some(d), opt_choice(dm, minimize, from, vis, to + 1))
    }
}

/// The optimal route length starting at `from` and visiting every other
/// unvisited location; zero once nothing is left.
pub open spec fn best(dm: Seq<Seq<u64>>, minimize: bool, from: int, vis: Seq<bool>) -> nat
    decreases count_free(vis), 0int, 0int,
    when 0 <= from < vis.len() && vis.len() == dm.len() && !vis[from]
    via best_decreases
{
    match opt_choice(dm, minimize, from, vis.update(from, true), 0) {
        None => 0,
        Some(v) => v,
    }
}

#[via_fn]
proof fn opt_choice_decreases(dm: Seq<Seq<u64>>, minimize: bool, from: int, vis: Seq<bool>, to: int) {
}

#[via_fn]
proof fn best_decreases(dm: Seq<Seq<u64>>, minimize: bool, from: int, vis: Seq<bool>) {
    if 0 <= from < vis.len() && !vis[from] {
        lemma_count_free_update(vis, from);
    }
}

/// Every route length is bounded by the number of edges times the
/// largest possible distance.
proof fn lemma_best_bound(dm: Seq<Seq<u64>>, minimize: bool, from: int, vis: Seq<bool>)
    requires
        wf_matrix(dm),
        0 <= from < vis.len(),
        vis.len() == dm.len(),
        !vis[from],
    ensures
        best(dm, minimize, from, vis) <= (count_free(vis) - 1) * 0xffffffff,
    decreases count_free(vis), 0int, 0int,
{
    lemma_count_free_update(vis, from);
    lemma_opt_bound(dm, minimize, from, vis.update(from, true), 0);
    if count_free(vis.update(from, true)) == 0 {
        assert((count_free(vis) - 1) * 0xffffffff == 0);
    }
}

proof fn lemma_opt_bound(dm: Seq<Seq<u64>>, minimize: bool, from: int, vis: Seq<bool>, to: int)
    requires
        wf_matrix(dm),
        0 <= from < vis.len(),
        vis.len() == dm.len(),
        vis[from],
        0 <= to,
    ensures
        opt_choice(dm, minimize, from, vis, to) matches Some(v) ==> v <= count_free(vis)
            * 0xffffffff,
    decreases count_free(vis), 1int, dm.len() - to,
{
    if to >= dm.len() {
    } else if to == from || vis[to] {
        lemma_opt_bound(dm, minimize, from, vis, to + 1);
    } else {
        lemma_opt_bound(dm, minimize, from, vis, to + 1);
        lemma_best_bound(dm, minimize, to, vis);
        lemma_count_free_bound(vis);
        assert(best(dm, minimize, to, vis) <= (count_free(vis) - 1) * 0xffffffff);
        assert(0xffffffff + (count_free(vis) - 1) * 0xffffffff == count_free(vis) * 0xffffffff)
            by (nonlinear_arith);
    }
}

/// The optimal route from `from` through every location not yet visited:
/// a depth-first search trying each unvisited next stop in turn. The
/// visited marks are restored on return.
pub fn opti_hamilton(minimize: bool, dm: &Vec<Vec<u64>>, from: usize, visited: &mut Vec<bool>) -> (r:
    u64)
    requires
        wf_matrix(deep(dm@)),
        old(visited)@.len() == dm@.len(),
        from < dm@.len(),
        !old(visited)@[from as int],
    ensures
        final(visited)@ == old(visited)@,
        r == best(deep(dm@), minimize, from as int, old(visited)@),
    decreases count_free(old(visited)@),
{
    let ghost dmv = deep(dm@);
    let ghost vis0 = visited@;
    let n = dm.len();
    proof {
        lemma_count_free_update(vis0, from as int);
    }
    visited.set(from, true);
    let ghost vis = visited@;
    let mut found = false;
    let mut opti: u64 = 0;
    let mut to: usize = 0;
    while to < n
        invariant
            n == dm@.len() == dmv.len() == vis.len(),
            dmv == deep(dm@),
            vis0 == old(visited)@,
            vis0.len() == n,
            wf_matrix(dmv),
            from < n,
            visited@ == vis,
            vis == vis0.update(from as int, true),
            vis[from as int],
            to <= n,
            count_free(vis) == count_free(vis0) - 1,
            !vis0[from as int],
            ({
                let acc = if found {
                    Some(opti as nat)
                } else {
                    None
                };
                merge_opt(minimize, acc, opt_choice(dmv, minimize, from as int, vis, to as int))
                    == opt_choice(dmv, minimize, from as int, vis, 0)
            }),
            found ==> opti <= count_free(vis) * 0xffffffff,
        decreases n - to,
    {
        if to != from && !visited[to] {
            let sub = opti_hamilton(minimize, dm, to, visited);
            proof {
                lemma_best_bound(dmv, minimize, to as int, vis);
                lemma_count_free_bound(vis);
                assert(dmv[from as int] == dm@[from as int]@);
                assert((count_free(vis) - 1) * 0xffffffff + 0xffffffff == count_free(vis)
                    * 0xffffffff) by (nonlinear_arith);
                assert(count_free(vis) * 0xffffffff <= 24 * 0xffffffff) by (nonlinear_arith)
                    requires
                        count_free(vis) <= 24,
                ;
            }
            let d = dm[from][to] + sub;
            let ghost dn = (dmv[from as int][to as int] + best(
                dmv,
                minimize,
                to as int,
                vis,
            )) as nat;
            let ghost acc_old = if found {
                Some(opti as nat)
            } else {
                None
            };
            if !found || (minimize == (d <= opti)) {
                opti = d;
            }
            found = true;
            proof {
                let acc_new = Some(opti as nat);
                assert(acc_new == merge_opt(minimize, acc_old, Some(dn)));
                assert(opt_choice(dmv, minimize, from as int, vis, to as int) == merge_opt(
                    minimize,
                    Some(dn),
                    opt_choice(dmv, minimize, from as int, vis, to + 1),
                ));
                lemma_merge_assoc(
                    minimize,
                    acc_old,
                    Some(dn),
                    opt_choice(dmv, minimize, from as int, vis, to + 1),
                );
            }
        }
        to = to + 1;
    }
    visited.set(from, false);
    proof {
        assert(visited@ =~= vis0);
        assert(opt_choice(dmv, minimize, from as int, vis, n as int) is None);
    }
    if found {
        opti
    } else {
        0
    }
}

/// The best route length over every starting location; nothing for an
/// empty matrix.
pub open spec fn best_over_starts(dm: Seq<Seq<u64>>, minimize: bool, k: int) -> Option<nat>
    decreases k,
{
    if k <= 0 {
        None
    } else {
        merge_opt(
            minimize,
            best_over_starts(dm, minimize, k - 1),
            Some(best(dm, minimize, k - 1, Seq::new(dm.len(), |i: int| false))),
        )
    }
}

fn run_starts(minimize: bool, input: &Vec<Vec<u64>>) -> (r: Option<u64>)
    requires
        wf_matrix(deep(input@)),
    ensures
        (r matches Some(v) ==> best_over_starts(deep(input@), minimize, input@.len() as int)
            == Some(v as nat)),
        (r matches None ==> input@.len() == 0),
{
    let ghost dmv = deep(input@);
    let n = input.len();
    let mut visited: Vec<bool> = Vec::new();
    let mut y: usize = 0;
    while y < n
        invariant
            y <= n,
            visited@ =~= Seq::new(y as nat, |i: int| false),
        decreases n - y,
    {
        visited.push(false);
        proof {
            assert(visited@ =~= Seq::new((y + 1) as nat, |i: int| false));
        }
        y = y + 1;
    }
    let mut found = false;
    let mut opti: u64 = 0;
    let mut start: usize = 0;
    while start < n
        invariant
            start <= n,
            n == input@.len() == dmv.len(),
            dmv == deep(input@),
            wf_matrix(dmv),
            visited@ =~= Seq::new(n as nat, |i: int| false),
            ({
                let acc = if found {
                    Some(opti as nat)
                } else {
                    None
                };
                acc == best_over_starts(dmv, minimize, start as int)
            }),
        decreases n - start,
    {
        let v = opti_hamilton(minimize, input, start, &mut visited);
        let ghost acc_old = if found {
            Some(opti as nat)
        } else {
            None
        };
        if !found || (minimize == (v <= opti)) {
            opti = v;
        }
        found = true;
        proof {
            assert(Some(opti as nat) == merge_opt(
                minimize,
                acc_old,
                Some(best(dmv, minimize, start as int, Seq::new(dmv.len(), |i: int| false))),
            ));
        }
        start = start + 1;
    }
    if found {
        Some(opti)
    } else {
        None
    }
}

/// The shortest route visiting every location exactly once.
pub fn part1(input: &Vec<Vec<u64>>) -> (r: Option<u64>)
    requires
        wf_matrix(deep(input@)),
    ensures
        (r matches Some(v) ==> best_over_starts(deep(input@), true, input@.len() as int)
            == Some(v as nat)),
        (r matches None ==> input@.len() == 0),
{
    run_starts(true, input)
}

/// The longest route visiting every location exactly once.
pub fn part2(input: &Vec<Vec<u64>>) -> (r: Option<u64>)
    requires
        wf_matrix(deep(input@)),
    ensures
        (r matches Some(v) ==> best_over_starts(deep(input@), false, input@.len() as int)
            == Some(v as nat)),
        (r matches None ==> input@.len() == 0),
{
    run_starts(false, input)
}

} // verus!
