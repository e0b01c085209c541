//! Building twice from the same input gives the same index.
use vstd::prelude::*;
use crate::minimizers::{
    Selector, CharScheme, kmer_lt, selects, n_offsets, lemma_frequency_scheme_unique, is_frequency_scheme,
    symbols_of,
};
use crate::order::{is_first_min, lemma_first_min_unique, lemma_lex_trichotomy, lex_le};
use crate::sa::{
    SuffixArray, Rule, built_from, body, suffix, suffixes_sorted, usize_seq, window, n_windows, min_offset,
    emitted_upto, sampled, lemma_sorted_pairwise,
};

verus! {

/// `x` and `y` use the same ordering with the same table.
pub open spec fn same_table(x: Selector, y: Selector) -> bool {
    match (x, y) {
        (Selector::Lexicographic, Selector::Lexicographic) => true,
        (Selector::Hash, Selector::Hash) => true,
        (Selector::Scheme(s), Selector::Scheme(t)) => s.keys() == t.keys(),
        (Selector::Char(s), Selector::Char(t)) => s.scheme@ == t.scheme@,
        _ => false,
    }
}

proof fn lemma_packed_same(t1: CharScheme, t2: CharScheme, s: Seq<u8>)
    requires
        t1.scheme@ == t2.scheme@,
    ensures
        t1.packed(s) == t2.packed(s),
    decreases s.len(),
{
    if s.len() > 0 {
        lemma_packed_same(t1, t2, s.drop_last());
    }
}

proof fn lemma_same_selection(x: Selector, y: Selector, win: Seq<u8>, w: int, k: int, o: int)
    requires
        same_table(x, y),
        selects(x, win, w, k, o),
    ensures
        selects(y, win, w, k, o),
{
    assert forall|i: int, j: int| kmer_lt(x, win, k, i, j) == kmer_lt(y, win, k, i, j) by {
        if let (Selector::Char(s), Selector::Char(t)) = (x, y) {
            lemma_packed_same(s, t, crate::minimizers::kmer(win, i, k));
            lemma_packed_same(s, t, crate::minimizers::kmer(win, j, k));
        }
    }
    let lx = |i: int, j: int| kmer_lt(x, win, k, i, j);
    let ly = |i: int, j: int| kmer_lt(y, win, k, i, j);
    assert(is_first_min(lx, n_offsets(w, k), o));
    assert forall|j: int| 0 <= j < o implies #[trigger] ly(o, j) by {
        assert(lx(o, j));
    }
    assert forall|j: int| o < j < n_offsets(w, k) implies !#[trigger] ly(j, o) by {
        assert(!lx(j, o));
    }
}

proof fn lemma_emitted_same(x: Selector, y: Selector, r: Seq<u8>, w: int, k: int, n: int)
    requires
        forall|i: int| 0 <= i < n ==> min_offset(x, r, w, k, i) == min_offset(y, r, w, k, i),
    ensures
        emitted_upto(x, r, w, k, n) == emitted_upto(y, r, w, k, n),
    decreases n,
{
    if n > 0 {
        lemma_emitted_same(x, y, r, w, k, n - 1);
        assert(min_offset(x, r, w, k, n - 1) == min_offset(y, r, w, k, n - 1));
    }
}

proof fn lemma_sorted_unique(r: Seq<u8>, a: Seq<usize>, b: Seq<usize>)
    requires
        a.to_multiset() == b.to_multiset(),
        suffixes_sorted(r, usize_seq(a)),
        suffixes_sorted(r, usize_seq(b)),
        forall|j: int| 0 <= j < a.len() ==> a[j] <= r.len(),
        forall|j: int| 0 <= j < b.len() ==> b[j] <= r.len(),
    ensures
        a == b,
    decreases a.len(),
{
    vstd::seq_lib::to_multiset_len(a);
    vstd::seq_lib::to_multiset_len(b);
    if a.len() == 0 {
        assert(a =~= b);
    } else {
        let x = a[0];
        let y = b[0];
        assert(a.contains(x));
        assert(b.contains(y));
        vstd::seq_lib::to_multiset_contains(a, x);
        vstd::seq_lib::to_multiset_contains(b, x);
        vstd::seq_lib::to_multiset_contains(a, y);
        vstd::seq_lib::to_multiset_contains(b, y);
        let ta = choose|t: int| 0 <= t < a.len() && a[t] == y;
        let tb = choose|t: int| 0 <= t < b.len() && b[t] == x;
        lemma_sorted_pairwise(r, usize_seq(a), 0, ta);
        lemma_sorted_pairwise(r, usize_seq(b), 0, tb);
        assert(usize_seq(a)[0] == x && usize_seq(a)[ta] == y);
        assert(usize_seq(b)[0] == y && usize_seq(b)[tb] == x);
        lemma_lex_trichotomy(suffix(r, x as int), suffix(r, y as int));
        assert(suffix(r, x as int).len() == suffix(r, y as int).len());
        assert(x == y);
        let ua = a.drop_first();
        let ub = b.drop_first();
        assert(a.remove(0) =~= ua);
        assert(b.remove(0) =~= ub);
        vstd::seq_lib::to_multiset_remove(a, 0);
        vstd::seq_lib::to_multiset_remove(b, 0);
        assert forall|j: int| 0 <= j < usize_seq(ua).len() - 1 implies lex_le(
            #[trigger] suffix(r, usize_seq(ua)[j]), suffix(r, usize_seq(ua)[j + 1])) by {
            assert(usize_seq(ua)[j] == usize_seq(a)[j + 1] && usize_seq(ua)[j + 1] == usize_seq(a)[j + 2]);
        }
        assert forall|j: int| 0 <= j < usize_seq(ub).len() - 1 implies lex_le(
            #[trigger] suffix(r, usize_seq(ub)[j]), suffix(r, usize_seq(ub)[j + 1])) by {
            assert(usize_seq(ub)[j] == usize_seq(b)[j + 1] && usize_seq(ub)[j + 1] == usize_seq(b)[j + 2]);
        }
        lemma_sorted_unique(r, ua, ub);
        assert(a =~= b) by {
            assert forall|j: int| 0 <= j < a.len() implies a[j] == b[j] by {
                if j > 0 {
                    assert(ua[j - 1] == ub[j - 1]);
                }
            }
        }
    }
}

/// Two builds with the same reference, sizes and rule give the same suffix
/// array and the same ordering table.
pub proof fn lemma_build_deterministic(a: SuffixArray, b: SuffixArray, r: Seq<u8>, w: int, k: int, rule: Rule)
    requires
        built_from(a, r, w, k, rule),
        built_from(b, r, w, k, rule),
    ensures
        a.array@ == b.array@,
        same_table(a.selector, b.selector),
{
    match rule {
        Rule::Scheme => {
            if let (Selector::Scheme(s), Selector::Scheme(t)) = (a.selector, b.selector) {
                if k <= body(r).len() {
                    lemma_frequency_scheme_unique(s.keys(), t.keys(), body(r), k);
                } else {
                    assert(s.keys() =~= t.keys());
                }
            }
        },
        Rule::Char => {
            if let (Selector::Char(s), Selector::Char(t)) = (a.selector, b.selector) {
                if body(r).len() > 0 {
                    let s1 = choose|s1: Seq<Seq<u8>>| is_frequency_scheme(s1, body(r), 1) && s.scheme@ == symbols_of(s1);
                    let s2 = choose|s2: Seq<Seq<u8>>| is_frequency_scheme(s2, body(r), 1) && t.scheme@ == symbols_of(s2);
                    lemma_frequency_scheme_unique(s1, s2, body(r), 1);
                } else {
                    assert(s.scheme@ =~= t.scheme@);
                }
            }
        },
        _ => {},
    }
    let x = a.selector;
    let y = b.selector;
    assert forall|i: int| 0 <= i < n_windows(r, w) implies min_offset(x, r, w, k, i) == min_offset(y, r, w, k, i) by {
        let ox = min_offset(x, r, w, k, i);
        let oy = min_offset(y, r, w, k, i);
        assert(selects(x, window(r, i, w), w, k, ox));
        assert(selects(y, window(r, i, w), w, k, oy));
        lemma_same_selection(x, y, window(r, i, w), w, k, ox);
        lemma_first_min_unique(|p: int, q: int| kmer_lt(y, window(r, i, w), k, p, q), n_offsets(w, k), ox, oy);
    }
    lemma_emitted_same(x, y, r, w, k, n_windows(r, w));
    assert(sampled(x, r, w, k) =~= sampled(y, r, w, k));
    assert forall|j: int| 0 <= j < a.array@.len() implies a.array@[j] <= r.len() by {
        assert(a.array@[j] < r.len());
    }
    assert forall|j: int| 0 <= j < b.array@.len() implies b.array@[j] <= r.len() by {
        assert(b.array@[j] < r.len());
    }
    lemma_sorted_unique(r, a.array@, b.array@);
}

} // verus!
