//! Lexicographic order on byte strings, and the first-minimum rule that every
//! minimizer selection shares.
use vstd::prelude::*;

verus! {

/// Length of the longest common prefix of `a` and `b`, counted from index `i`.
pub open spec fn lcp_from(a: Seq<u8>, b: Seq<u8>, i: int) -> int
    decreases a.len() - i,
{
    if 0 <= i && i < a.len() && i < b.len() && a[i] == b[i] {
        lcp_from(a, b, i + 1)
    } else {
        i
    }
}

/// Length of the longest common prefix of `a` and `b`.
pub open spec fn lcp(a: Seq<u8>, b: Seq<u8>) -> int {
    lcp_from(a, b, 0)
}

/// Strict lexicographic order: `a` is a proper prefix of `b`, or the first
/// differing symbol of `a` is smaller.
pub open spec fn lex_lt(a: Seq<u8>, b: Seq<u8>) -> bool {
    let l = lcp(a, b);
    l < b.len() && (l == a.len() || a[l] < b[l])
}

pub open spec fn lex_le(a: Seq<u8>, b: Seq<u8>) -> bool {
    !lex_lt(b, a)
}

/// `p` is a prefix of `s`.
pub open spec fn is_prefix(p: Seq<u8>, s: Seq<u8>) -> bool {
    p.len() <= s.len() && s.subrange(0, p.len() as int) == p
}

proof fn lemma_lcp_from(a: Seq<u8>, b: Seq<u8>, i: int)
    requires
        0 <= i <= a.len(),
        i <= b.len(),
    ensures
        i <= lcp_from(a, b, i) <= a.len(),
        lcp_from(a, b, i) <= b.len(),
        forall|j: int| i <= j < lcp_from(a, b, i) ==> a[j] == b[j],
        lcp_from(a, b, i) < a.len() && lcp_from(a, b, i) < b.len() ==> a[lcp_from(a, b, i)]
            != b[lcp_from(a, b, i)],
    decreases a.len() - i,
{
    if i < a.len() && i < b.len() && a[i] == b[i] {
        lemma_lcp_from(a, b, i + 1);
    }
}

/// The longest common prefix is the first index where the two strings differ,
/// or the end of the shorter one.
pub proof fn lemma_lcp(a: Seq<u8>, b: Seq<u8>)
    ensures
        0 <= lcp(a, b) <= a.len(),
        lcp(a, b) <= b.len(),
        forall|j: int| 0 <= j < lcp(a, b) ==> a[j] == b[j],
        lcp(a, b) < a.len() && lcp(a, b) < b.len() ==> a[lcp(a, b)] != b[lcp(a, b)],
{
    lemma_lcp_from(a, b, 0);
}

/// Any index with the defining properties of the longest common prefix is it.
pub proof fn lemma_lcp_unique(a: Seq<u8>, b: Seq<u8>, m: int)
    requires
        0 <= m <= a.len(),
        m <= b.len(),
        forall|j: int| 0 <= j < m ==> a[j] == b[j],
        m < a.len() && m < b.len() ==> a[m] != b[m],
    ensures
        lcp(a, b) == m,
{
    lemma_lcp(a, b);
}

pub proof fn lemma_lex_trichotomy(a: Seq<u8>, b: Seq<u8>)
    ensures
        lex_lt(a, b) || lex_lt(b, a) || a == b,
        !(lex_lt(a, b) && lex_lt(b, a)),
        !lex_lt(a, a),
{
    lemma_lcp(a, b);
    lemma_lcp(b, a);
    lemma_lcp(a, a);
    lemma_lcp_unique(b, a, lcp(a, b));
    lemma_lcp_unique(a, a, a.len() as int);
    if !lex_lt(a, b) && !lex_lt(b, a) {
        assert(a =~= b);
    }
}

pub proof fn lemma_lex_lt_transitive(a: Seq<u8>, b: Seq<u8>, c: Seq<u8>)
    requires
        lex_lt(a, b),
        lex_lt(b, c),
    ensures
        lex_lt(a, c),
{
    lemma_lcp(a, b);
    lemma_lcp(b, c);
    let i = lcp(a, b);
    let j = lcp(b, c);
    let m = if i < j { i } else { j };
    lemma_lcp_unique(a, c, m);
}

pub proof fn lemma_lex_le_transitive(a: Seq<u8>, b: Seq<u8>, c: Seq<u8>)
    requires
        lex_le(a, b),
        lex_le(b, c),
    ensures
        lex_le(a, c),
{
    lemma_lex_trichotomy(a, b);
    lemma_lex_trichotomy(b, c);
    lemma_lex_trichotomy(a, c);
    if lex_lt(c, a) {
        if a == b {
        } else {
            lemma_lex_lt_transitive(c, a, b);
        }
    }
}

/// `o` is the first offset among `0..n` whose score is minimal: it beats every
/// earlier offset strictly and no later offset beats it.
pub open spec fn is_first_min(lt: spec_fn(int, int) -> bool, n: int, o: int) -> bool {
    &&& 0 <= o < n
    &&& forall|j: int| 0 <= j < o ==> #[trigger] lt(o, j)
    &&& forall|j: int| o < j < n ==> !#[trigger] lt(j, o)
}

/// The first minimum is unique, whatever the order.
pub proof fn lemma_first_min_unique(lt: spec_fn(int, int) -> bool, n: int, o1: int, o2: int)
    requires
        is_first_min(lt, n, o1),
        is_first_min(lt, n, o2),
    ensures
        o1 == o2,
{
    if o1 < o2 {
        assert(lt(o2, o1));
    } else if o2 < o1 {
        assert(lt(o1, o2));
    }
}

/// Length of the longest common prefix of two byte strings.
pub fn longest_common_prefix_length(s1: &[u8], s2: &[u8]) -> (r: usize)
    ensures
        r == lcp(s1@, s2@),
{
    let mut i: usize = 0;
    while i < s1.len() && i < s2.len() && s1[i] == s2[i]
        invariant
            i <= s1@.len(),
            i <= s2@.len(),
            lcp_from(s1@, s2@, 0) == lcp_from(s1@, s2@, i as int),
        decreases s1@.len() - i,
    {
        i = i + 1;
    }
    i
}

/// Whether `a` comes strictly before `b` in lexicographic order.
pub fn lex_less(a: &[u8], b: &[u8]) -> (r: bool)
    ensures
        r == lex_lt(a@, b@),
{
    let l = longest_common_prefix_length(a, b);
    proof {
        lemma_lcp(a@, b@);
    }
    l < b.len() && (l == a.len() || a[l] < b[l])
}

} // verus!
