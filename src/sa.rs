//! Building the minimizer-sampled suffix array of a reference text.
use vstd::prelude::*;
use crate::minimizers::{
    Selector, Scheme, CharScheme, selects, covers, minimizer, kmer, is_frequency_scheme, symbols_of,
    bits_for, bits_for_size, preprocess_minimizer_scheme, preprocess_char_scheme, copy_bytes,
};
use crate::order::{lex_lt, lex_le, lex_less, lemma_lex_trichotomy};

verus! {

/// The suffix of `r` that starts at `p`.
pub open spec fn suffix(r: Seq<u8>, p: int) -> Seq<u8> {
    r.subrange(p, r.len() as int)
}

/// The window of length `w` of `r` that starts at `i`.
pub open spec fn window(r: Seq<u8>, i: int, w: int) -> Seq<u8> {
    r.subrange(i, i + w)
}

/// The minimizer offset of the window of `r` at `i`.
pub open spec fn min_offset(sel: Selector, r: Seq<u8>, w: int, k: int, i: int) -> int {
    choose|o: int| selects(sel, window(r, i, w), w, k, o)
}

/// Minimizer positions of the windows starting at `0..i`, in window order,
/// with each position that repeats the one just before left out.
pub open spec fn emitted_upto(sel: Selector, r: Seq<u8>, w: int, k: int, i: int) -> Seq<int>
    decreases i,
{
    if i <= 0 {
        seq![]
    } else {
        let prev = emitted_upto(sel, r, w, k, i - 1);
        let p = (i - 1) + min_offset(sel, r, w, k, i - 1);
        if prev.len() > 0 && prev.last() == p {
            prev
        } else {
            prev.push(p)
        }
    }
}

/// The windows whose minimizers the index samples: those that start at
/// `0..r.len() - w`, so that none reaches the final sentinel.
pub open spec fn n_windows(r: Seq<u8>, w: int) -> int {
    r.len() - w
}

pub open spec fn emitted(sel: Selector, r: Seq<u8>, w: int, k: int) -> Seq<int> {
    emitted_upto(sel, r, w, k, n_windows(r, w))
}

/// Each suffix of `r` named by `ps` is no greater than the next one.
pub open spec fn suffixes_sorted(r: Seq<u8>, ps: Seq<int>) -> bool {
    forall|j: int| 0 <= j < ps.len() - 1 ==> lex_le(#[trigger] suffix(r, ps[j]), suffix(r, ps[j + 1]))
}

/// The emitted positions as machine integers.
pub open spec fn sampled(sel: Selector, r: Seq<u8>, w: int, k: int) -> Seq<usize> {
    emitted(sel, r, w, k).map_values(|x: int| x as usize)
}

pub open spec fn usize_seq(v: Seq<usize>) -> Seq<int> {
    v.map_values(|x: usize| x as int)
}

/// The positions sorted by the suffixes of `reference` that they start;
/// equal suffixes keep their order.
fn sort_positions(reference: &[u8], positions: &Vec<usize>) -> (out: Vec<usize>)
    requires
        forall|j: int| 0 <= j < positions@.len() ==> positions@[j] <= reference@.len(),
    ensures
        out@.to_multiset() == positions@.to_multiset(),
        forall|j: int| 0 <= j < out@.len() ==> out@[j] <= reference@.len(),
        suffixes_sorted(reference@, usize_seq(out@)),
{
    let ghost r = reference@;
    let mut out: Vec<usize> = Vec::new();
    let mut i: usize = 0;
    proof {
        assert(positions@.subrange(0, 0) =~= Seq::<usize>::empty());
    }
    while i < positions.len()
        invariant
            r == reference@,
            forall|j: int| 0 <= j < positions@.len() ==> positions@[j] <= r.len(),
            i <= positions@.len(),
            out@.to_multiset() == positions@.subrange(0, i as int).to_multiset(),
            forall|j: int| 0 <= j < out@.len() ==> out@[j] <= r.len(),
            forall|j: int| 0 <= j < out@.len() - 1 ==> lex_le(#[trigger] suffix(r, out@[j] as int),
                suffix(r, out@[j + 1] as int)),
        decreases positions@.len() - i,
    {
        let x = &reference[positions[i]..reference.len()];
        let mut p: usize = 0;
        while p < out.len() && !lex_less(x, &reference[out[p]..reference.len()])
            invariant
                r == reference@,
                forall|j: int| 0 <= j < out@.len() ==> out@[j] <= r.len(),
                i < positions@.len(),
                x@ == suffix(r, positions@[i as int] as int),
                p <= out@.len(),
                p > 0 ==> !lex_lt(x@, suffix(r, out@[p - 1] as int)),
            decreases out@.len() - p,
        {
            p = p + 1;
        }
        let ghost old_out = out@;
        proof {
            old_out.insert_ensures(p as int, positions@[i as int]);
            vstd::seq_lib::to_multiset_insert(old_out, p as int, positions@[i as int]);
            vstd::seq_lib::to_multiset_build(positions@.subrange(0, i as int), positions@[i as int]);
            assert(positions@.subrange(0, i + 1) =~= positions@.subrange(0, i as int).push(positions@[i as int]));
        }
        out.insert(p, positions[i]);
        proof {
            let s = out@;
            assert forall|j: int| 0 <= j < s.len() - 1 implies lex_le(
                #[trigger] suffix(r, s[j] as int), suffix(r, s[j + 1] as int)) by {
                if j + 1 < p {
                    assert(s[j] == old_out[j] && s[j + 1] == old_out[j + 1]);
                } else if j + 1 == p {
                } else if j == p {
                    lemma_lex_trichotomy(x@, suffix(r, s[j + 1] as int));
                } else {
                    assert(s[j] == old_out[j - 1] && s[j + 1] == old_out[j]);
                }
            }
        }
        i = i + 1;
    }
    proof {
        assert(positions@.subrange(0, positions@.len() as int) =~= positions@);
        let u = usize_seq(out@);
        assert forall|j: int| 0 <= j < u.len() - 1 implies lex_le(#[trigger] suffix(r, u[j]), suffix(r, u[j + 1])) by {
            assert(u[j] == out@[j] && u[j + 1] == out@[j + 1]);
        }
    }
    out
}

/// Every window at `0..n_windows(r, w)` is ranked by the table of `sel`.
pub open spec fn covers_text(sel: Selector, r: Seq<u8>, w: int, k: int) -> bool {
    forall|i: int| 0 <= i < n_windows(r, w) ==> #[trigger] covers(sel, window(r, i, w), w, k)
}

pub proof fn lemma_min_offset(sel: Selector, r: Seq<u8>, w: int, k: int, i: int, o: int)
    requires
        selects(sel, window(r, i, w), w, k, o),
    ensures
        min_offset(sel, r, w, k, i) == o,
{
    let c = min_offset(sel, r, w, k, i);
    crate::order::lemma_first_min_unique(
        |a: int, b: int| crate::minimizers::kmer_lt(sel, window(r, i, w), k, a, b),
        crate::minimizers::n_offsets(w, k), c, o);
}

/// Each sampled window of `r` has a minimizer offset.
pub open spec fn windows_selected(sel: Selector, r: Seq<u8>, w: int, k: int) -> bool {
    forall|i: int| 0 <= i < n_windows(r, w) ==> #[trigger] selects(sel, window(r, i, w), w, k,
        min_offset(sel, r, w, k, i))
}

/// Minimizer positions of the windows of `reference`, in window order, with
/// consecutive repeats collapsed.
pub fn sample(reference: &[u8], window_size: usize, minimizer_size: usize, selector: &Selector) -> (r: Vec<usize>)
    requires
        1 <= minimizer_size <= window_size <= reference@.len(),
        covers_text(*selector, reference@, window_size as int, minimizer_size as int),
    ensures
        usize_seq(r@) == emitted(*selector, reference@, window_size as int, minimizer_size as int),
        forall|j: int| 0 <= j < r@.len() ==> r@[j] < reference@.len(),
        windows_selected(*selector, reference@, window_size as int, minimizer_size as int),
{
    let ghost rs = reference@;
    let ghost sel = *selector;
    let w = window_size;
    let k = minimizer_size;
    let mut out: Vec<usize> = Vec::new();
    let mut i: usize = 0;
    while i < reference.len() - w
        invariant
            rs == reference@,
            sel == *selector,
            1 <= k <= w <= rs.len(),
            covers_text(sel, rs, w as int, k as int),
            i <= rs.len() - w,
            usize_seq(out@) == emitted_upto(sel, rs, w as int, k as int, i as int),
            forall|j: int| 0 <= j < out@.len() ==> out@[j] < rs.len(),
            forall|j: int| 0 <= j < i ==> #[trigger] selects(sel, window(rs, j, w as int), w as int,
                k as int, min_offset(sel, rs, w as int, k as int, j)),
        decreases rs.len() - w - i,
    {
        let win = &reference[i..i + w];
        proof {
            assert(win@ == window(rs, i as int, w as int));
            assert(covers(sel, window(rs, i as int, w as int), w as int, k as int));
            assert(win@.subrange(0, w as int) =~= win@);
        }
        let m = minimizer(selector, win, w, k);
        proof {
            lemma_min_offset(sel, rs, w as int, k as int, i as int, m as int);
        }
        let p = i + m;
        let ghost prev = out@;
        if out.len() == 0 || out[out.len() - 1] != p {
            out.push(p);
            proof {
                assert(usize_seq(out@) =~= usize_seq(prev).push(p as int));
            }
        }
        i = i + 1;
    }
    out
}


/// The symbol that ends a reference text, and nowhere else occurs in it.
pub const SENTINEL: u8 = 36;

/// `r` ends with the sentinel, which occurs nowhere else.
pub open spec fn has_sentinel(r: Seq<u8>) -> bool {
    &&& r.len() >= 1
    &&& r.last() == SENTINEL
    &&& forall|i: int| 0 <= i < r.len() - 1 ==> r[i] != SENTINEL
}

/// `r` without its final sentinel.
pub open spec fn body(r: Seq<u8>) -> Seq<u8> {
    r.subrange(0, r.len() - 1)
}

/// The four minimizer orderings.
pub enum Rule {
    Lexicographic,
    Hash,
    Scheme,
    Char,
}

/// Why an index cannot be built or queried.
pub enum IndexError {
    /// The sizes break `1 <= minimizer_size <= window_size <= reference length`.
    InvalidParameters,
    /// The reference does not end with the sentinel, or has it elsewhere too.
    MissingSentinel,
    /// A packed substring of symbol ranks would not fit in 64 bits.
    KeyTooWide,
    /// The query is shorter than the window.
    QueryTooShort,
    /// The query holds a substring or symbol that the ordering table does not rank.
    MissingOrderingTableEntry,
}

/// A sampled suffix array with the reference it indexes and the ordering it
/// was built with.
pub struct SuffixArray {
    pub sequence: Vec<u8>,
    pub array: Vec<usize>,
    pub selector: Selector,
    pub window_size: usize,
    pub minimizer_size: usize,
}

pub open spec fn valid_sizes(n: int, w: int, k: int) -> bool {
    1 <= k <= w <= n
}

/// The ordering table that `rule` derives from the reference `r`.
pub open spec fn table_for(rule: Rule, r: Seq<u8>, k: int, sel: Selector) -> bool {
    match rule {
        Rule::Lexicographic => sel is Lexicographic,
        Rule::Hash => sel is Hash,
        Rule::Scheme => sel matches Selector::Scheme(t) && if k <= body(r).len() {
            is_frequency_scheme(t.keys(), body(r), k)
        } else {
            t.keys().len() == 0
        },
        Rule::Char => sel matches Selector::Char(t) && if body(r).len() > 0 {
            exists|s: Seq<Seq<u8>>| is_frequency_scheme(s, body(r), 1) && t.scheme@ == symbols_of(s)
        } else {
            t.scheme@.len() == 0
        },
    }
}

/// `r` has a window to sample, and packing `k` symbol ranks of its body takes more than 64 bits.
pub open spec fn char_key_too_wide(r: Seq<u8>, w: int, k: int) -> bool {
    n_windows(r, w) > 0 && body(r).len() > 0 && exists|s: Seq<Seq<u8>>| is_frequency_scheme(s, body(r), 1)
        && k * bits_for(s.len() as int) > 64
}

/// The table of `sel`, if any, ranks no entry twice.
pub open spec fn tables_wf(sel: Selector) -> bool {
    match sel {
        Selector::Scheme(t) => t.wf(),
        Selector::Char(t) => t.wf(),
        _ => true,
    }
}

impl SuffixArray {
    /// The index is what `build` makes of its own reference and sizes.
    pub open spec fn wf(&self) -> bool {
        let r = self.sequence@;
        let w = self.window_size as int;
        let k = self.minimizer_size as int;
        &&& valid_sizes(r.len() as int, w, k)
        &&& r.len() <= usize::MAX
        &&& has_sentinel(r)
        &&& tables_wf(self.selector)
        &&& covers_text(self.selector, r, w, k)
        &&& windows_selected(self.selector, r, w, k)
        &&& forall|j: int| 0 <= j < self.array@.len() ==> #[trigger] self.array@[j] < r.len()
        &&& suffixes_sorted(r, usize_seq(self.array@))
        &&& self.array@.to_multiset() == sampled(self.selector, r, w, k).to_multiset()
    }
}

proof fn lemma_scheme_covers(r: Seq<u8>, w: int, k: int, t: Scheme)
    requires
        valid_sizes(r.len() as int, w, k),
        k <= body(r).len(),
        is_frequency_scheme(t.keys(), body(r), k),
    ensures
        covers_text(Selector::Scheme(t), r, w, k),
{
    assert forall|i: int| 0 <= i < n_windows(r, w) implies #[trigger] covers(Selector::Scheme(t), window(r, i, w), w, k) by {
        assert forall|j: int| 0 <= j < crate::minimizers::n_offsets(w, k) implies #[trigger] t.has(kmer(window(r, i, w), j, k)) by {
            assert(kmer(window(r, i, w), j, k) =~= kmer(body(r), i + j, k));
        }
    }
}

proof fn lemma_char_covers(r: Seq<u8>, w: int, k: int, t: CharScheme, s: Seq<Seq<u8>>)
    requires
        valid_sizes(r.len() as int, w, k),
        body(r).len() > 0,
        is_frequency_scheme(s, body(r), 1),
        t.scheme@ == symbols_of(s),
        n_windows(r, w) > 0 ==> k * t.bits() <= 64,
    ensures
        covers_text(Selector::Char(t), r, w, k),
        t.wf(),
{
    let b = body(r);
    assert forall|a: int| 0 <= a < s.len() implies #[trigger] s[a] == seq![s[a][0]] by {
        assert(crate::minimizers::is_kmer_of(b, 1, s[a]));
        let q = choose|q: int| 0 <= q <= b.len() - 1 && kmer(b, q, 1) == s[a];
        assert(s[a] =~= seq![s[a][0]]);
    }
    assert forall|a: int, c: int| 0 <= a < c < t.scheme@.len() implies t.scheme@[a] != t.scheme@[c] by {
        assert(s[a] != s[c]);
        assert(s[a] == seq![s[a][0]]);
        assert(s[c] == seq![s[c][0]]);
    }
    assert forall|i: int| 0 <= i < n_windows(r, w) implies #[trigger] covers(Selector::Char(t), window(r, i, w), w, k) by {
        assert forall|x: int| 0 <= x < w implies #[trigger] t.has(window(r, i, w)[x]) by {
            let p = i + x;
            assert(s.contains(kmer(b, p, 1)));
            let a = choose|a: int| 0 <= a < s.len() && s[a] == kmer(b, p, 1);
            assert(t.scheme@[a] == b[p]);
        }
    }
}

/// `idx` is the index of `r` with window size `w` and minimizer size `k` under `rule`.
pub open spec fn built_from(idx: SuffixArray, r: Seq<u8>, w: int, k: int, rule: Rule) -> bool {
    &&& idx.wf()
    &&& idx.sequence@ == r
    &&& idx.window_size == w
    &&& idx.minimizer_size == k
    &&& table_for(rule, r, k, idx.selector)
}

/// Builds the sampled suffix array of `reference` under `rule`: the minimizer
/// positions of its windows, consecutive repeats collapsed, ordered by the
/// suffixes they start.
pub fn build(reference: &[u8], window_size: usize, minimizer_size: usize, rule: Rule) -> (res: Result<SuffixArray, IndexError>)
    ensures
        !valid_sizes(reference@.len() as int, window_size as int, minimizer_size as int)
            <==> res matches Err(IndexError::InvalidParameters),
        valid_sizes(reference@.len() as int, window_size as int, minimizer_size as int)
            ==> (!has_sentinel(reference@) <==> res matches Err(IndexError::MissingSentinel)),
        res matches Err(IndexError::KeyTooWide) ==> rule is Char
            && char_key_too_wide(reference@, window_size as int, minimizer_size as int),
        (rule is Char && char_key_too_wide(reference@, window_size as int, minimizer_size as int)) ==> res is Err,
        !(res matches Err(IndexError::QueryTooShort)),
        !(res matches Err(IndexError::MissingOrderingTableEntry)),
        res matches Ok(idx) ==> built_from(idx, reference@, window_size as int, minimizer_size as int, rule),
{
    let n = reference.len();
    let w = window_size;
    let k = minimizer_size;
    if !(1 <= k && k <= w && w <= n) {
        return Err(IndexError::InvalidParameters);
    }
    if reference[n - 1] != SENTINEL {
        return Err(IndexError::MissingSentinel);
    }
    let mut i: usize = 0;
    while i < n - 1
        invariant
            n == reference@.len(),
            w == window_size,
            k == minimizer_size,
            1 <= k <= w <= n,
            reference@[n - 1] == SENTINEL,
            i <= n - 1,
            forall|j: int| 0 <= j < i ==> reference@[j] != SENTINEL,
        decreases n - 1 - i,
    {
        if reference[i] == SENTINEL {
            return Err(IndexError::MissingSentinel);
        }
        i = i + 1;
    }
    let ghost r = reference@;
    let text = &reference[0..n - 1];
    assert(text@ == body(r));
    let selector = match rule {
        Rule::Lexicographic => Selector::Lexicographic,
        Rule::Hash => Selector::Hash,
        Rule::Scheme => {
            if k <= n - 1 {
                let t = preprocess_minimizer_scheme(text, k);
                proof {
                    lemma_scheme_covers(r, w as int, k as int, t);
                }
                Selector::Scheme(t)
            } else {
                let t = Scheme { scheme: Vec::new() };
                proof {
                    assert(t.keys() =~= Seq::<Seq<u8>>::empty());
                    assert(n_windows(r, w as int) <= 0);
                }
                Selector::Scheme(t)
            }
        },
        Rule::Char => {
            let t = preprocess_char_scheme(text);
            if n - 1 > 0 {
                let bits = bits_for_size(t.scheme.len());
                let ghost s = choose|s: Seq<Seq<u8>>| is_frequency_scheme(s, body(r), 1) && t.scheme@ == symbols_of(s);
                if n > w && bits > 0 && (k > 64 || bits > 64 || {
                    assert(k * bits <= 64 * 64) by (nonlinear_arith)
                        requires k <= 64, bits <= 64;
                    k * bits > 64
                }) {
                    proof {
                        assert(k * bits_for(s.len() as int) > 64) by (nonlinear_arith)
                            requires bits > 0, k > 64 || bits > 64 || k * bits > 64, k >= 1, bits == bits_for(s.len() as int);
                    }
                    return Err(IndexError::KeyTooWide);
                }
                proof {
                    if n > w {
                        assert(k * bits <= 64) by (nonlinear_arith)
                            requires bits == 0 || k * bits <= 64;
                    }
                    lemma_char_covers(r, w as int, k as int, t, s);
                    assert forall|s2: Seq<Seq<u8>>| n > w && is_frequency_scheme(s2, body(r), 1) implies !(k * bits_for(s2.len() as int) > 64) by {
                        crate::minimizers::lemma_frequency_scheme_len(s, s2, body(r), 1);
                    }
                }
            }
            proof {
                if n - 1 == 0 {
                    assert(n_windows(r, w as int) <= 0);
                }
            }
            Selector::Char(t)
        },
    };
    assert(covers_text(selector, r, w as int, k as int));
    assert(table_for(rule, r, k as int, selector));
    assert(tables_wf(selector));
    let positions = sample(reference, w, k, &selector);
    let array = sort_positions(reference, &positions);
    let idx = SuffixArray { sequence: copy_bytes(reference), array, selector, window_size: w, minimizer_size: k };
    proof {
        assert(positions@ =~= sampled(selector, r, w as int, k as int)) by {
            assert forall|j: int| 0 <= j < positions@.len() implies positions@[j] == sampled(selector, r, w as int, k as int)[j] by {
                assert(usize_seq(positions@)[j] == positions@[j] as int);
            }
        }
        assert(forall|t: int| 0 <= t < idx.array@.len() ==> idx.array@[t] <= r.len());
        assert forall|t: int| 0 <= t < idx.array@.len() implies #[trigger] idx.array@[t] < r.len() by {
            let v = idx.array@[t];
            vstd::seq_lib::to_multiset_contains(idx.array@, v);
            vstd::seq_lib::to_multiset_contains(positions@, v);
            assert(idx.array@[t] == v);
            assert(idx.array@.contains(v));
        }
    }
    Ok(idx)
}


/// The minimizer position of every sampled window is among the emitted positions.
pub proof fn lemma_emitted_contains(sel: Selector, r: Seq<u8>, w: int, k: int, i: int, n: int)
    requires
        0 <= i < n,
    ensures
        emitted_upto(sel, r, w, k, n).contains(i + min_offset(sel, r, w, k, i)),
    decreases n,
{
    let p = i + min_offset(sel, r, w, k, i);
    let prev = emitted_upto(sel, r, w, k, n - 1);
    if i == n - 1 {
        if prev.len() > 0 && prev.last() == p {
            assert(prev[prev.len() - 1] == p);
        } else {
            assert(prev.push(p)[prev.len() as int] == p);
        }
    } else {
        lemma_emitted_contains(sel, r, w, k, i, n - 1);
        let j = choose|j: int| 0 <= j < prev.len() && prev[j] == p;
        let q = (n - 1) + min_offset(sel, r, w, k, n - 1);
        if !(prev.len() > 0 && prev.last() == q) {
            assert(prev.push(q)[j] == p);
        }
    }
}


proof fn lemma_emitted_members(sel: Selector, r: Seq<u8>, w: int, k: int, n: int, m: int)
    requires
        0 <= m < emitted_upto(sel, r, w, k, n).len(),
    ensures
        exists|i: int| 0 <= i < n && emitted_upto(sel, r, w, k, n)[m] == i + min_offset(sel, r, w, k, i),
    decreases n,
{
    if n > 0 {
        let prev = emitted_upto(sel, r, w, k, n - 1);
        if m < prev.len() {
            lemma_emitted_members(sel, r, w, k, n - 1, m);
            let i = choose|i: int| 0 <= i < n - 1 && prev[m] == i + min_offset(sel, r, w, k, i);
            assert(emitted_upto(sel, r, w, k, n)[m] == prev[m]);
        } else {
            assert(emitted_upto(sel, r, w, k, n)[m] == (n - 1) + min_offset(sel, r, w, k, n - 1));
        }
    }
}

/// Every position in a built index starts the minimizer of some sampled window.
pub proof fn lemma_minimizer_membership(index: SuffixArray, j: int)
    requires
        index.wf(),
        0 <= j < index.array@.len(),
    ensures
        exists|i: int| 0 <= i < n_windows(index.sequence@, index.window_size as int)
            && #[trigger] selects(index.selector, window(index.sequence@, i, index.window_size as int),
                index.window_size as int, index.minimizer_size as int, index.array@[j] - i),
{
    let r = index.sequence@;
    let w = index.window_size as int;
    let k = index.minimizer_size as int;
    let sel = index.selector;
    let e = emitted(sel, r, w, k);
    let v = index.array@[j];
    assert(index.array@.contains(v));
    vstd::seq_lib::to_multiset_contains(index.array@, v);
    vstd::seq_lib::to_multiset_contains(sampled(sel, r, w, k), v);
    let m = choose|m: int| 0 <= m < e.len() && sampled(sel, r, w, k)[m] == v;
    lemma_emitted_members(sel, r, w, k, n_windows(r, w), m);
    let i = choose|i: int| 0 <= i < n_windows(r, w) && e[m] == i + min_offset(sel, r, w, k, i);
    assert(selects(sel, window(r, i, w), w, k, min_offset(sel, r, w, k, i)));
    assert(0 <= min_offset(sel, r, w, k, i) < crate::minimizers::n_offsets(w, k));
    assert(e[m] == v as int);
    assert(index.array@[j] - i == min_offset(sel, r, w, k, i));
}

/// Sorted neighbours make a sorted sequence.
pub proof fn lemma_sorted_pairwise(r: Seq<u8>, ps: Seq<int>, a: int, b: int)
    requires
        suffixes_sorted(r, ps),
        0 <= a <= b < ps.len(),
    ensures
        lex_le(suffix(r, ps[a]), suffix(r, ps[b])),
    decreases b - a,
{
    if a == b {
        lemma_lex_trichotomy(suffix(r, ps[a]), suffix(r, ps[a]));
    } else {
        lemma_sorted_pairwise(r, ps, a, b - 1);
        assert(lex_le(suffix(r, ps[b - 1]), suffix(r, ps[b])));
        crate::order::lemma_lex_le_transitive(suffix(r, ps[a]), suffix(r, ps[b - 1]), suffix(r, ps[b]));
    }
}

} // verus!
