//! Exact-match queries against a sampled suffix array.
use vstd::prelude::*;
use crate::minimizers::{Selector, covers, selects, minimizer, kmer};
use crate::order::{lex_lt, lex_le, lcp, lemma_lcp, lemma_lcp_unique, lemma_lex_trichotomy,
    lemma_lex_lt_transitive, longest_common_prefix_length, lex_less, is_prefix};
use crate::sa::{
    lemma_sorted_pairwise,
    SuffixArray, IndexError, suffix, usize_seq, tables_wf, window, emitted,
    n_windows, lemma_min_offset, lemma_emitted_contains, sampled,
};

verus! {

/// `q` occurs in `r` at `pos`.
pub open spec fn occurs_at(r: Seq<u8>, q: Seq<u8>, pos: int) -> bool {
    0 <= pos && pos + q.len() <= r.len() && r.subrange(pos, pos + q.len()) == q
}

/// The suffix `s` sorts before every suffix that starts with `p`; with
/// `upper`, also those that start with `p` sort before.
pub open spec fn below_pattern(s: Seq<u8>, p: Seq<u8>, upper: bool) -> bool {
    lex_lt(s, p) || (upper && is_prefix(p, s))
}

proof fn lemma_prefix_not_below(s: Seq<u8>, p: Seq<u8>)
    requires
        is_prefix(p, s),
    ensures
        !lex_lt(s, p),
{
    lemma_lcp_unique(s, p, p.len() as int);
}

proof fn lemma_below_monotone(x: Seq<u8>, y: Seq<u8>, p: Seq<u8>, upper: bool)
    requires
        lex_le(x, y),
        below_pattern(y, p, upper),
    ensures
        below_pattern(x, p, upper),
{
    lemma_lex_trichotomy(x, y);
    if x == y {
    } else if lex_lt(y, p) {
        lemma_lex_lt_transitive(x, y, p);
    } else {
        lemma_lcp(x, y);
        let l = lcp(x, y);
        assert(y.subrange(0, p.len() as int) == p);
        assert forall|j: int| 0 <= j < p.len() implies y[j] == p[j] by {
            assert(y.subrange(0, p.len() as int)[j] == y[j]);
        }
        if l >= p.len() {
            assert(x.subrange(0, p.len() as int) =~= p);
        } else {
            lemma_lcp_unique(x, p, l);
        }
    }
}

/// Whether `p` is a prefix of `s`.
fn prefix_of(p: &[u8], s: &[u8]) -> (r: bool)
    ensures
        r == is_prefix(p@, s@),
{
    let l = longest_common_prefix_length(p, s);
    proof {
        lemma_lcp(p@, s@);
        if l == p@.len() {
            assert(s@.subrange(0, p@.len() as int) =~= p@);
        }
        if is_prefix(p@, s@) {
            assert forall|j: int| 0 <= j < p@.len() implies p@[j] == s@[j] by {
                assert(s@.subrange(0, p@.len() as int)[j] == s@[j]);
            }
            lemma_lcp_unique(p@, s@, p@.len() as int);
        }
    }
    l == p.len()
}

/// The number of entries of the suffix array whose suffixes sort before
/// `query[offset..]`: before every suffix that starts with it, or, with
/// `upper`, also before those.
pub fn search(suffix_array: &SuffixArray, query: &[u8], upper: bool, offset: usize) -> (r: usize)
    requires
        suffix_array.wf(),
        offset <= query@.len(),
    ensures
        r <= suffix_array.array@.len(),
        forall|j: int| 0 <= j < r ==> below_pattern(
            #[trigger] suffix(suffix_array.sequence@, suffix_array.array@[j] as int),
            query@.subrange(offset as int, query@.len() as int), upper),
        forall|j: int| r <= j < suffix_array.array@.len() ==> !below_pattern(
            #[trigger] suffix(suffix_array.sequence@, suffix_array.array@[j] as int),
            query@.subrange(offset as int, query@.len() as int), upper),
{
    let ghost r = suffix_array.sequence@;
    let ghost ps = usize_seq(suffix_array.array@);
    let pattern = &query[offset..query.len()];
    let seq = suffix_array.sequence.as_slice();
    let mut lo: usize = 0;
    let mut hi: usize = suffix_array.array.len();
    while lo < hi
        invariant
            suffix_array.wf(),
            r == suffix_array.sequence@,
            seq@ == r,
            ps == usize_seq(suffix_array.array@),
            pattern@ == query@.subrange(offset as int, query@.len() as int),
            lo <= hi <= suffix_array.array@.len(),
            forall|j: int| 0 <= j < lo ==> below_pattern(
                #[trigger] suffix(r, suffix_array.array@[j] as int), pattern@, upper),
            forall|j: int| hi <= j < suffix_array.array@.len() ==> !below_pattern(
                #[trigger] suffix(r, suffix_array.array@[j] as int), pattern@, upper),
        decreases hi - lo,
    {
        let mid = lo + (hi - lo) / 2;
        let p = suffix_array.array[mid];
        let s = &seq[p..seq.len()];
        let below = lex_less(s, pattern) || (upper && prefix_of(pattern, s));
        proof {
            assert(ps[mid as int] == p);
        }
        if below {
            proof {
                assert forall|j: int| 0 <= j < mid + 1 implies below_pattern(
                    #[trigger] suffix(r, suffix_array.array@[j] as int), pattern@, upper) by {
                    if j < mid {
                        assert(ps[j] == suffix_array.array@[j]);
                        lemma_sorted_pairwise(r, ps, j, mid as int);
                        lemma_below_monotone(suffix(r, ps[j]), suffix(r, ps[mid as int]), pattern@, upper);
                    }
                }
            }
            lo = mid + 1;
        } else {
            proof {
                assert forall|j: int| mid <= j < suffix_array.array@.len() implies !below_pattern(
                    #[trigger] suffix(r, suffix_array.array@[j] as int), pattern@, upper) by {
                    if j > mid {
                        assert(ps[j] == suffix_array.array@[j]);
                        lemma_sorted_pairwise(r, ps, mid as int, j);
                        if below_pattern(suffix(r, ps[j]), pattern@, upper) {
                            lemma_below_monotone(suffix(r, ps[mid as int]), suffix(r, ps[j]), pattern@, upper);
                        }
                    }
                }
            }
            hi = mid;
        }
    }
    lo
}


/// The suffix array entry at `i` is preceded in the reference by `query[0..offset]`.
pub open spec fn left_context_matches(suffix_array: SuffixArray, query: Seq<u8>, offset: int, i: int) -> bool {
    let p = suffix_array.array@[i] as int;
    p >= offset && suffix_array.sequence@.subrange(p - offset, p) == query.subrange(0, offset)
}

/// The entries `start..end` of the suffix array, in order, that are preceded
/// in the reference by `query[0..offset]`.
pub fn verify(suffix_array: &SuffixArray, query: &[u8], start: usize, end: usize, offset: usize) -> (r: Vec<usize>)
    requires
        suffix_array.wf(),
        start <= end <= suffix_array.array@.len(),
        offset <= query@.len(),
    ensures
        forall|t: int| 0 <= t < r@.len() ==> start <= #[trigger] r@[t] < end
            && left_context_matches(*suffix_array, query@, offset as int, r@[t] as int),
        forall|a: int, b: int| 0 <= a < b < r@.len() ==> r@[a] < r@[b],
        forall|i: int| start <= i < end && left_context_matches(*suffix_array, query@, offset as int, i)
            ==> r@.contains(i as usize),
{
    let seq = suffix_array.sequence.as_slice();
    let left = &query[0..offset];
    let mut out: Vec<usize> = Vec::new();
    let mut i: usize = start;
    while i < end
        invariant
            suffix_array.wf(),
            seq@ == suffix_array.sequence@,
            left@ == query@.subrange(0, offset as int),
            start <= i <= end <= suffix_array.array@.len(),
            forall|t: int| 0 <= t < out@.len() ==> start <= #[trigger] out@[t] < i
                && left_context_matches(*suffix_array, query@, offset as int, out@[t] as int),
            forall|a: int, b: int| 0 <= a < b < out@.len() ==> out@[a] < out@[b],
            forall|j: int| start <= j < i && left_context_matches(*suffix_array, query@, offset as int, j)
                ==> out@.contains(j as usize),
        decreases end - i,
    {
        let p = suffix_array.array[i];
        proof {
            assert(p < seq@.len());
        }
        if p >= offset && crate::minimizers::bytes_equal(&seq[p - offset..p], left) {
            let ghost old_out = out@;
            out.push(i);
            proof {
                assert forall|j: int| start <= j < i + 1 && left_context_matches(*suffix_array, query@, offset as int, j)
                    implies out@.contains(j as usize) by {
                    if j == i {
                        assert(out@[old_out.len() as int] == j);
                    } else {
                        assert(old_out.contains(j as usize));
                        let t = choose|t: int| 0 <= t < old_out.len() && old_out[t] == j as usize;
                        assert(out@[t] == j);
                    }
                }
            }
        }
        i = i + 1;
    }
    out
}

/// Whether the table of `selector` ranks everything that the window `win` needs.
pub fn covers_window(selector: &Selector, win: &[u8], window_size: usize, minimizer_size: usize) -> (r: bool)
    requires
        tables_wf(*selector),
        1 <= minimizer_size <= window_size == win@.len(),
    ensures
        r == covers(*selector, win@, window_size as int, minimizer_size as int),
{
    let w = window_size;
    let k = minimizer_size;
    match selector {
        Selector::Lexicographic => true,
        Selector::Hash => true,
        Selector::Scheme(t) => {
            let mut i: usize = 0;
            while i <= w - k
                invariant
                    t.wf(),
                    *selector == Selector::Scheme(*t),
                    w == window_size,
                    k == minimizer_size,
                    1 <= k <= w == win@.len(),
                    i <= w - k + 1,
                    forall|j: int| 0 <= j < i ==> #[trigger] t.has(kmer(win@, j, k as int)),
                decreases w - k + 1 - i,
            {
                if t.lookup(&win[i..i + k]).is_none() {
                    assert(!t.has(kmer(win@, i as int, k as int)));
                    return false;
                }
                i = i + 1;
            }
            true
        },
        Selector::Char(t) => {
            let bits = crate::minimizers::bits_for_size(t.scheme.len());
            if bits > 0 && (k > 64 || bits > 64 || {
                assert(k * bits <= 64 * 64) by (nonlinear_arith)
                    requires k <= 64, bits <= 64;
                k * bits > 64
            }) {
                proof {
                    assert(k * bits > 64) by (nonlinear_arith)
                        requires bits > 0, k > 64 || bits > 64 || k * bits > 64, k >= 1;
                }
                return false;
            }
            proof {
                assert(k * bits <= 64) by (nonlinear_arith)
                    requires bits == 0 || k * bits <= 64;
            }
            let mut i: usize = 0;
            while i < w
                invariant
                    t.wf(),
                    *selector == Selector::Char(*t),
                    w == window_size,
                    k == minimizer_size,
                    k * t.bits() <= 64,
                    w == win@.len(),
                    i <= w,
                    forall|j: int| 0 <= j < i ==> #[trigger] t.has(win@[j]),
                decreases w - i,
            {
                if t.lookup(win[i]).is_none() {
                    assert(!t.has(win@[i as int]));
                    return false;
                }
                i = i + 1;
            }
            true
        },
    }
}


/// Positions where `q` occurs in the reference of `index`, found through the
/// minimizer of its first window.
pub fn query(index: &SuffixArray, q: &[u8]) -> (res: Result<Vec<usize>, IndexError>)
    requires
        index.wf(),
    ensures
        q@.len() < index.window_size <==> res matches Err(IndexError::QueryTooShort),
        q@.len() >= index.window_size ==> (!covers(index.selector, q@.subrange(0, index.window_size as int),
            index.window_size as int, index.minimizer_size as int)
            <==> res matches Err(IndexError::MissingOrderingTableEntry)),
        !(res matches Err(IndexError::InvalidParameters)),
        !(res matches Err(IndexError::MissingSentinel)),
        !(res matches Err(IndexError::KeyTooWide)),
        res matches Ok(v) ==> forall|t: int| 0 <= t < v@.len() ==> occurs_at(index.sequence@, q@, #[trigger] v@[t] as int),
        res matches Ok(v) ==> forall|pos: int| occurs_at(index.sequence@, q@, pos)
            && pos < n_windows(index.sequence@, index.window_size as int) ==> v@.contains(pos as usize),
{
    let w = index.window_size;
    let k = index.minimizer_size;
    if q.len() < w {
        return Err(IndexError::QueryTooShort);
    }
    let win = &q[0..w];
    if !covers_window(&index.selector, win, w, k) {
        return Err(IndexError::MissingOrderingTableEntry);
    }
    proof {
        assert(win@.subrange(0, w as int) =~= win@);
    }
    let o = minimizer(&index.selector, win, w, k);
    let lo = search(index, q, false, o);
    let hi = search(index, q, true, o);
    let ghost r = index.sequence@;
    let ghost pattern = q@.subrange(o as int, q@.len() as int);
    let hits = if lo <= hi {
        verify(index, q, lo, hi, o)
    } else {
        Vec::new()
    };
    proof {
        if lo > hi {
            // every entry at hi..lo would be both below and not below the pattern
            assert(!below_pattern(suffix(r, index.array@[hi as int] as int), pattern, true));
            assert(below_pattern(suffix(r, index.array@[hi as int] as int), pattern, false));
        }
    }
    let mut out: Vec<usize> = Vec::new();
    let mut t: usize = 0;
    while t < hits.len()
        invariant
            index.wf(),
            r == index.sequence@,
            w == index.window_size,
            lo <= hi <= index.array@.len(),
            o <= w - k,
            w <= q@.len(),
            forall|u: int| 0 <= u < hits@.len() ==> lo <= #[trigger] hits@[u] < hi
                && left_context_matches(*index, q@, o as int, hits@[u] as int),
            forall|j: int| lo <= j < hi ==> !lex_lt(#[trigger] suffix(r, index.array@[j] as int), pattern),
            forall|j: int| lo <= j < hi ==> below_pattern(#[trigger] suffix(r, index.array@[j] as int), pattern, true),
            pattern == q@.subrange(o as int, q@.len() as int),
            t <= hits@.len(),
            out@.len() == t,
            forall|u: int| 0 <= u < t ==> #[trigger] out@[u] == index.array@[hits@[u] as int] - o,
            forall|u: int| 0 <= u < t ==> occurs_at(r, q@, #[trigger] out@[u] as int),
        decreases hits@.len() - t,
    {
        let i = hits[t];
        let p = index.array[i];
        proof {
            assert(left_context_matches(*index, q@, o as int, i as int));
            assert(is_prefix(pattern, suffix(r, p as int)));
            lemma_candidate_occurs(*index, q@, o as int, i as int);
        }
        out.push(p - o);
        t = t + 1;
    }
    proof {
        assert forall|pos: int| occurs_at(r, q@, pos) && pos < n_windows(r, w as int) implies out@.contains(pos as usize) by {
            lemma_every_occurrence_reported(*index, q@, w as int, o as int, lo as int, hi as int, pos, hits@, out@);
            assert(out@.contains(pos as usize));
        }
    }
    Ok(out)
}


/// Recall of the search-and-verify pipeline: every occurrence of the query
/// whose first window is sampled is reported. Its minimizer position was sampled,
/// the search range holds it, and its left context passes verification.
pub proof fn lemma_every_occurrence_reported(index: SuffixArray, q: Seq<u8>, w: int, o: int, lo: int, hi: int, pos: int,
    hits: Seq<usize>, out: Seq<usize>)
    requires
        index.wf(),
        w == index.window_size,
        w <= q.len(),
        selects(index.selector, q.subrange(0, w), w, index.minimizer_size as int, o),
        0 <= lo <= hi <= index.array@.len(),
        hi <= usize::MAX,
        forall|j: int| 0 <= j < lo ==> below_pattern(
            #[trigger] suffix(index.sequence@, index.array@[j] as int), q.subrange(o, q.len() as int), false),
        forall|j: int| hi <= j < index.array@.len() ==> !below_pattern(
            #[trigger] suffix(index.sequence@, index.array@[j] as int), q.subrange(o, q.len() as int), true),
        forall|i: int| lo <= i < hi && left_context_matches(index, q, o, i) ==> hits.contains(i as usize),
        out.len() == hits.len(),
        forall|u: int| 0 <= u < out.len() ==> #[trigger] out[u] == index.array@[hits[u] as int] - o,
        occurs_at(index.sequence@, q, pos),
        pos < n_windows(index.sequence@, w),
    ensures
        out.contains(pos as usize),
{
    let r = index.sequence@;
    let k = index.minimizer_size as int;
    let sel = index.selector;
    let ql = q.len() as int;
    let pattern = q.subrange(o, ql);
    assert(window(r, pos, w) =~= q.subrange(0, w)) by {
        assert forall|x: int| 0 <= x < w implies window(r, pos, w)[x] == q.subrange(0, w)[x] by {
            assert(r.subrange(pos, pos + ql)[x] == q[x]);
        }
    }
    lemma_min_offset(sel, r, w, k, pos, o);
    lemma_emitted_contains(sel, r, w, k, pos, n_windows(r, w));
    let e = emitted(sel, r, w, k);
    let m = choose|m: int| 0 <= m < e.len() && e[m] == pos + o;
    let sm = sampled(sel, r, w, k);
    assert(0 <= pos + o < r.len());
    assert(sm[m] == (pos + o) as usize);
    assert(sm.contains((pos + o) as usize));
    vstd::seq_lib::to_multiset_contains(sm, (pos + o) as usize);
    vstd::seq_lib::to_multiset_contains(index.array@, (pos + o) as usize);
    let j = choose|j: int| 0 <= j < index.array@.len() && index.array@[j] == (pos + o) as usize;
    let p = pos + o;
    let s = suffix(r, p);
    assert(s.subrange(0, pattern.len() as int) =~= pattern) by {
        assert forall|x: int| 0 <= x < pattern.len() implies s.subrange(0, pattern.len() as int)[x] == pattern[x] by {
            assert(r.subrange(pos, pos + ql)[o + x] == q[o + x]);
        }
    }
    lemma_prefix_not_below(s, pattern);
    assert(index.array@[j] as int == p);
    assert(lo <= j) by {
        if j < lo {
            assert(below_pattern(suffix(r, index.array@[j] as int), pattern, false));
        }
    }
    assert(j < hi) by {
        if j >= hi {
            assert(!below_pattern(suffix(r, index.array@[j] as int), pattern, true));
        }
    }
    assert(r.subrange(p - o, p) =~= q.subrange(0, o)) by {
        assert forall|x: int| 0 <= x < o implies r.subrange(p - o, p)[x] == q.subrange(0, o)[x] by {
            assert(r.subrange(pos, pos + ql)[x] == q[x]);
        }
    }
    assert(left_context_matches(index, q, o, j));
    assert(hits.contains(j as usize));
    let u = choose|u: int| 0 <= u < hits.len() && hits[u] == j as usize;
    assert(hits[u] as int == j);
    assert(out[u] == pos);
}


/// Precision of the search-and-verify pipeline: an entry whose suffix starts
/// with `q[o..]` and whose left context is `q[0..o]` marks an occurrence of `q`.
pub proof fn lemma_candidate_occurs(index: SuffixArray, q: Seq<u8>, o: int, i: int)
    requires
        index.wf(),
        0 <= o <= q.len(),
        0 <= i < index.array@.len(),
        left_context_matches(index, q, o, i),
        is_prefix(q.subrange(o, q.len() as int), suffix(index.sequence@, index.array@[i] as int)),
    ensures
        occurs_at(index.sequence@, q, index.array@[i] - o),
{
    let r = index.sequence@;
    let p = index.array@[i] as int;
    let pattern = q.subrange(o, q.len() as int);
    let s = suffix(r, p);
    assert(p < r.len());
    let pos = p - o;
    let ql = q.len() as int;
    assert(pos + ql <= r.len()) by {
        assert(s.len() == r.len() - p);
    }
    assert forall|x: int| 0 <= x < ql implies #[trigger] r.subrange(pos, pos + ql)[x] == q[x] by {
        assert(r.subrange(pos, pos + ql)[x] == r[pos + x]);
        if x < o {
            assert(r.subrange(pos, p)[x] == q.subrange(0, o)[x]);
        } else {
            assert(s.subrange(0, pattern.len() as int)[x - o] == pattern[x - o]);
        }
    }
    assert(r.subrange(pos, pos + ql) =~= q);
}

} // verus!
