//! Minimizer selection: the offset of the smallest length-`k` substring of a
//! window of length `w`, under one of four orderings.
use vstd::prelude::*;
use vstd::arithmetic::power2::{pow2, lemma_pow2_unfold, lemma_pow2_adds, lemma_pow2_strictly_increases, lemma2_to64_rest, lemma_pow2_pos};
use crate::order::{is_first_min, lex_less, lex_lt, lemma_lcp, longest_common_prefix_length};

verus! {

/// What `wyhash::wyhash` returns for these bytes and this seed.
pub uninterp spec fn wyhash_of(bytes: Seq<u8>, seed: u64) -> u64;

/// Relies on `wyhash::wyhash`: a hash of the bytes and the seed, and of nothing else.
#[verifier::external_body]
fn wyhash_bytes(bytes: &[u8], seed: u64) -> (r: u64)
    ensures
        r == wyhash_of(bytes@, seed),
{
    wyhash::wyhash(bytes, seed)
}

/// The length-`k` substring of `s` that starts at `i`.
pub open spec fn kmer(s: Seq<u8>, i: int, k: int) -> Seq<u8> {
    s.subrange(i, i + k)
}

/// The offsets a window of length `w` offers for a length-`k` substring.
pub open spec fn n_offsets(w: int, k: int) -> int {
    w - k + 1
}

/// Ranking of the length-`k` substrings by frequency: `scheme[r]` is the
/// substring of rank `r`; rare substrings come first.
pub struct Scheme {
    pub scheme: Vec<Vec<u8>>,
}

/// Ranking of the symbols by frequency: `scheme[r]` is the symbol of rank `r`;
/// rare symbols come first.
pub struct CharScheme {
    pub scheme: Vec<u8>,
}

/// Index of `x` in a sequence without repeats (its length where `x` is absent).
pub open spec fn rank_in<A>(keys: Seq<A>, x: A) -> int {
    if keys.contains(x) {
        choose|i: int| 0 <= i < keys.len() && keys[i] == x
    } else {
        keys.len() as int
    }
}

impl Scheme {
    pub open spec fn keys(&self) -> Seq<Seq<u8>> {
        self.scheme@.map_values(|v: Vec<u8>| v@)
    }

    /// No substring is ranked twice.
    pub open spec fn wf(&self) -> bool {
        self.keys().no_duplicates()
    }

    pub open spec fn rank(&self, x: Seq<u8>) -> int {
        rank_in(self.keys(), x)
    }

    pub open spec fn has(&self, x: Seq<u8>) -> bool {
        self.keys().contains(x)
    }
}

/// Number of bits that hold every rank below `a`: the smallest `b` with `2^b >= a`.
pub open spec fn bits_for(a: int) -> nat
    decreases a,
{
    if a <= 1 {
        0
    } else {
        1 + bits_for((a + 1) / 2)
    }
}

impl CharScheme {
    /// No symbol is ranked twice.
    pub open spec fn wf(&self) -> bool {
        self.scheme@.no_duplicates()
    }

    pub open spec fn rank(&self, c: u8) -> int {
        rank_in(self.scheme@, c)
    }

    pub open spec fn has(&self, c: u8) -> bool {
        self.scheme@.contains(c)
    }

    /// Bits given to each symbol when a substring is packed.
    pub open spec fn bits(&self) -> nat {
        bits_for(self.scheme@.len() as int)
    }

    /// The ranks of the symbols of `s`, packed left to right, most significant first.
    pub open spec fn packed(&self, s: Seq<u8>) -> int
        decreases s.len(),
    {
        if s.len() == 0 {
            0
        } else {
            self.packed(s.drop_last()) * pow2(self.bits()) + self.rank(s.last())
        }
    }
}

/// A minimizer ordering together with the table it needs.
pub enum Selector {
    Lexicographic,
    Hash,
    Scheme(Scheme),
    Char(CharScheme),
}

/// Whether the substring at `i` scores strictly below the one at `j` in `win`.
pub open spec fn kmer_lt(sel: Selector, win: Seq<u8>, k: int, i: int, j: int) -> bool {
    let a = kmer(win, i, k);
    let b = kmer(win, j, k);
    match sel {
        Selector::Lexicographic => lex_lt(a, b),
        Selector::Hash => wyhash_of(a, 0) < wyhash_of(b, 0),
        Selector::Scheme(t) => t.rank(a) < t.rank(b),
        Selector::Char(t) => t.packed(a) < t.packed(b),
    }
}

/// `o` is the minimizer offset of the window `win` (of length `w`) under `sel`:
/// the earliest offset of a smallest length-`k` substring.
pub open spec fn selects(sel: Selector, win: Seq<u8>, w: int, k: int, o: int) -> bool {
    is_first_min(|i: int, j: int| kmer_lt(sel, win, k, i, j), n_offsets(w, k), o)
}

/// The table of `sel` ranks everything that the window `win` needs.
pub open spec fn covers(sel: Selector, win: Seq<u8>, w: int, k: int) -> bool {
    match sel {
        Selector::Lexicographic => true,
        Selector::Hash => true,
        Selector::Scheme(t) => t.wf() && forall|i: int|
            0 <= i < n_offsets(w, k) ==> #[trigger] t.has(kmer(win, i, k)),
        Selector::Char(t) => t.wf() && k * t.bits() <= 64 && forall|i: int|
            0 <= i < w ==> #[trigger] t.has(win[i]),
    }
}

proof fn lemma_kmer_of_window(r: Seq<u8>, w: int, k: int, i: int)
    requires
        0 <= i,
        i + k <= w <= r.len(),
        0 <= k,
    ensures
        kmer(r.subrange(0, w), i, k) == kmer(r, i, k),
{
    assert(kmer(r.subrange(0, w), i, k) =~= kmer(r, i, k));
}

/// Offset of the lexicographically smallest length-`minimizer_size` substring
/// of `reference[0..window_size]`, the earliest on ties.
pub fn lexicographical_minimizer(reference: &[u8], window_size: usize, minimizer_size: usize) -> (r: usize)
    requires
        1 <= minimizer_size <= window_size <= reference@.len(),
    ensures
        selects(Selector::Lexicographic, reference@.subrange(0, window_size as int),
            window_size as int, minimizer_size as int, r as int),
{
    let ghost win = reference@.subrange(0, window_size as int);
    let k = minimizer_size;
    let mut min: usize = 0;
    let mut i: usize = 1;
    while i <= window_size - k
        invariant
            1 <= k <= window_size <= reference@.len(),
            win == reference@.subrange(0, window_size as int),
            1 <= i <= window_size - k + 1,
            min < i,
            forall|j: int| 0 <= j < min ==> lex_lt(kmer(win, min as int, k as int), kmer(win, j, k as int)),
            forall|j: int| min < j < i ==> !lex_lt(kmer(win, j, k as int), kmer(win, min as int, k as int)),
        decreases window_size - k + 1 - i,
    {
        proof {
            lemma_kmer_of_window(reference@, window_size as int, k as int, i as int);
            lemma_kmer_of_window(reference@, window_size as int, k as int, min as int);
        }
        if lex_less(&reference[i..i + k], &reference[min..min + k]) {
            proof {
                assert forall|j: int| 0 <= j < i implies lex_lt(kmer(win, i as int, k as int), kmer(win, j, k as int)) by {
                    crate::order::lemma_lex_trichotomy(kmer(win, j, k as int), kmer(win, min as int, k as int));
                    if j < min {
                        crate::order::lemma_lex_lt_transitive(kmer(win, i as int, k as int),
                            kmer(win, min as int, k as int), kmer(win, j, k as int));
                    } else if j > min {
                        crate::order::lemma_lex_trichotomy(kmer(win, j, k as int), kmer(win, i as int, k as int));
                        if kmer(win, j, k as int) != kmer(win, min as int, k as int) {
                            crate::order::lemma_lex_lt_transitive(kmer(win, i as int, k as int),
                                kmer(win, min as int, k as int), kmer(win, j, k as int));
                        }
                    }
                }
            }
            min = i;
        }
        i = i + 1;
    }
    min
}

/// Offset of the length-`minimizer_size` substring of
/// `reference[0..window_size]` with the smallest hash (seed 0), the earliest on ties.
pub fn hash_minimizer(reference: &[u8], window_size: usize, minimizer_size: usize) -> (r: usize)
    requires
        1 <= minimizer_size <= window_size <= reference@.len(),
    ensures
        selects(Selector::Hash, reference@.subrange(0, window_size as int),
            window_size as int, minimizer_size as int, r as int),
{
    let ghost win = reference@.subrange(0, window_size as int);
    let k = minimizer_size;
    proof {
        lemma_kmer_of_window(reference@, window_size as int, k as int, 0);
    }
    let mut min: usize = 0;
    let mut min_val: u64 = wyhash_bytes(&reference[0..k], 0);
    let mut i: usize = 1;
    while i <= window_size - k
        invariant
            1 <= k <= window_size <= reference@.len(),
            win == reference@.subrange(0, window_size as int),
            1 <= i <= window_size - k + 1,
            min < i,
            min_val == wyhash_of(kmer(win, min as int, k as int), 0),
            forall|j: int| 0 <= j < min ==> wyhash_of(kmer(win, min as int, k as int), 0) < wyhash_of(kmer(win, j, k as int), 0),
            forall|j: int| min < j < i ==> !(wyhash_of(kmer(win, j, k as int), 0) < wyhash_of(kmer(win, min as int, k as int), 0)),
        decreases window_size - k + 1 - i,
    {
        proof {
            lemma_kmer_of_window(reference@, window_size as int, k as int, i as int);
        }
        let h = wyhash_bytes(&reference[i..i + k], 0);
        if h < min_val {
            min = i;
            min_val = h;
        }
        i = i + 1;
    }
    min
}


proof fn lemma_rank_in<A>(keys: Seq<A>, i: int)
    requires
        keys.no_duplicates(),
        0 <= i < keys.len(),
    ensures
        rank_in(keys, keys[i]) == i,
{
    assert(keys.contains(keys[i]));
}

/// Whether two byte strings are equal.
pub fn bytes_equal(a: &[u8], b: &[u8]) -> (r: bool)
    ensures
        r == (a@ == b@),
{
    let l = longest_common_prefix_length(a, b);
    proof {
        lemma_lcp(a@, b@);
        if a@ == b@ {
            crate::order::lemma_lcp_unique(a@, b@, a@.len() as int);
        }
        if l == a.len() && l == b.len() {
            assert(a@ =~= b@);
        }
    }
    l == a.len() && l == b.len()
}

impl Scheme {
    /// Rank of `x`, if the scheme ranks it.
    pub fn lookup(&self, x: &[u8]) -> (r: Option<usize>)
        requires
            self.wf(),
        ensures
            r matches Some(i) ==> i == self.rank(x@) && self.has(x@),
            r is None ==> !self.has(x@),
    {
        let mut i: usize = 0;
        while i < self.scheme.len()
            invariant
                i <= self.scheme@.len(),
                self.wf(),
                forall|j: int| 0 <= j < i ==> self.keys()[j] != x@,
            decreases self.scheme@.len() - i,
        {
            if bytes_equal(self.scheme[i].as_slice(), x) {
                proof {
                    lemma_rank_in(self.keys(), i as int);
                }
                return Some(i);
            }
            i = i + 1;
        }
        None
    }
}

impl CharScheme {
    /// Rank of the symbol `c`, if the scheme ranks it.
    pub fn lookup(&self, c: u8) -> (r: Option<usize>)
        requires
            self.wf(),
        ensures
            r matches Some(i) ==> i == self.rank(c) && self.has(c),
            r is None ==> !self.has(c),
    {
        let mut i: usize = 0;
        while i < self.scheme.len()
            invariant
                i <= self.scheme@.len(),
                self.wf(),
                forall|j: int| 0 <= j < i ==> self.scheme@[j] != c,
            decreases self.scheme@.len() - i,
        {
            if self.scheme[i] == c {
                proof {
                    lemma_rank_in(self.scheme@, i as int);
                }
                return Some(i);
            }
            i = i + 1;
        }
        None
    }
}

/// Offset of the length-`minimizer_size` substring of
/// `reference[0..window_size]` of lowest rank in `scheme`, the earliest on ties.
pub fn scheme_minimizer(reference: &[u8], scheme: &Scheme, window_size: usize, minimizer_size: usize) -> (r: usize)
    requires
        1 <= minimizer_size <= window_size <= reference@.len(),
        covers(Selector::Scheme(*scheme), reference@.subrange(0, window_size as int),
            window_size as int, minimizer_size as int),
    ensures
        selects(Selector::Scheme(*scheme), reference@.subrange(0, window_size as int),
            window_size as int, minimizer_size as int, r as int),
{
    let ghost win = reference@.subrange(0, window_size as int);
    let k = minimizer_size;
    proof {
        lemma_kmer_of_window(reference@, window_size as int, k as int, 0);
        assert(scheme.has(kmer(win, 0, k as int)));
    }
    let mut min: usize = 0;
    let mut min_val: usize = match scheme.lookup(&reference[0..k]) {
        Some(v) => v,
        None => 0,
    };
    let mut i: usize = 1;
    while i <= window_size - k
        invariant
            1 <= k <= window_size <= reference@.len(),
            win == reference@.subrange(0, window_size as int),
            covers(Selector::Scheme(*scheme), win, window_size as int, k as int),
            1 <= i <= window_size - k + 1,
            min < i,
            min_val == scheme.rank(kmer(win, min as int, k as int)),
            forall|j: int| 0 <= j < min ==> scheme.rank(kmer(win, min as int, k as int)) < scheme.rank(kmer(win, j, k as int)),
            forall|j: int| min < j < i ==> !(scheme.rank(kmer(win, j, k as int)) < scheme.rank(kmer(win, min as int, k as int))),
        decreases window_size - k + 1 - i,
    {
        proof {
            lemma_kmer_of_window(reference@, window_size as int, k as int, i as int);
            assert(scheme.has(kmer(win, i as int, k as int)));
        }
        let v = match scheme.lookup(&reference[i..i + k]) {
            Some(v) => v,
            None => 0,
        };
        if v < min_val {
            min = i;
            min_val = v;
        }
        i = i + 1;
    }
    min
}


proof fn lemma_bits_for(a: int, r: int)
    requires
        0 <= r < a,
    ensures
        r < pow2(bits_for(a)),
        bits_for(a) <= a,
    decreases a,
{
    if a > 1 {
        lemma_bits_for((a + 1) / 2, r / 2);
        lemma_pow2_unfold(bits_for(a));
    } else {
        lemma_pow2_pos(0);
        vstd::arithmetic::power2::lemma2_to64();
    }
}

proof fn lemma_packed_bound(t: CharScheme, s: Seq<u8>)
    requires
        t.wf(),
        forall|i: int| 0 <= i < s.len() ==> #[trigger] t.has(s[i]),
    ensures
        0 <= t.packed(s) < pow2(t.bits() * s.len()),
    decreases s.len(),
{
    let b = t.bits();
    if s.len() == 0 {
        vstd::arithmetic::power2::lemma2_to64();
    } else {
        let n = s.len();
        let pre = s.drop_last();
        assert forall|i: int| 0 <= i < pre.len() implies #[trigger] t.has(pre[i]) by {
            assert(t.has(s[i]));
        }
        lemma_packed_bound(t, pre);
        assert(t.has(s[n - 1]));
        let ri = choose|i: int| 0 <= i < t.scheme@.len() && t.scheme@[i] == s.last();
        lemma_rank_in(t.scheme@, ri);
        lemma_bits_for(t.scheme@.len() as int, ri);
        let p = t.packed(pre);
        let big = pow2(b * (n - 1) as nat);
        let q = pow2(b);
        lemma_pow2_pos(b);
        assert(p * q <= (big - 1) * q) by (nonlinear_arith)
            requires
                p <= big - 1,
                q > 0,
        ;
        assert(b * (n - 1) + b == b * n) by (nonlinear_arith);
        lemma_pow2_adds(b * (n - 1) as nat, b);
        assert((big - 1) * q + q == big * q) by (nonlinear_arith);
        assert(s.last() == s[n - 1]);
        assert(t.packed(s) == p * q + t.rank(s.last()));
    }
}

/// Bits needed to hold every rank below `a`.
pub fn bits_for_size(a: usize) -> (b: usize)
    ensures
        b == bits_for(a as int),
{
    let mut n: usize = a;
    let mut b: usize = 0;
    while n > 1
        invariant
            bits_for(a as int) == b + bits_for(n as int),
            b + n <= a,
        decreases n,
    {
        proof {
            lemma_bits_for(n as int, 0);
        }
        n = n / 2 + n % 2;
        b = b + 1;
    }
    b
}

/// The ranks of the symbols of `ascii_str` in `char_scheme`, packed left to
/// right, most significant first, in as many bits each as the scheme needs.
pub fn str_to_bin(ascii_str: &[u8], char_scheme: &CharScheme) -> (r: u64)
    requires
        char_scheme.wf(),
        ascii_str@.len() * char_scheme.bits() <= 64,
        forall|i: int| 0 <= i < ascii_str@.len() ==> #[trigger] char_scheme.has(ascii_str@[i]),
    ensures
        r == char_scheme.packed(ascii_str@),
{
    let ghost s = ascii_str@;
    let ghost t = *char_scheme;
    let bits = bits_for_size(char_scheme.scheme.len());
    let mut scale: u64 = 1;
    if ascii_str.len() >= 2 {
        proof {
            assert(2 * bits <= ascii_str@.len() * bits) by (nonlinear_arith)
                requires ascii_str@.len() >= 2;
            vstd::arithmetic::power2::lemma2_to64();
            if bits < 32 {
                lemma_pow2_strictly_increases(bits as nat, 32);
            }
        }
        let mut e: usize = 0;
        while e < bits
            invariant
                bits <= 32,
                e <= bits,
                scale == pow2(e as nat),
            decreases bits - e,
        {
            proof {
                lemma_pow2_unfold((e + 1) as nat);
                if e + 1 < 32 {
                    lemma_pow2_strictly_increases((e + 1) as nat, 32);
                }
                vstd::arithmetic::power2::lemma2_to64();
            }
            scale = scale * 2;
            e = e + 1;
        }
    }
    let mut val: u64 = 0;
    let mut j: usize = 0;
    while j < ascii_str.len()
        invariant
            s == ascii_str@,
            t == *char_scheme,
            t.wf(),
            s.len() * t.bits() <= 64,
            forall|i: int| 0 <= i < s.len() ==> #[trigger] t.has(s[i]),
            bits == t.bits(),
            s.len() >= 2 ==> scale == pow2(bits as nat),
            j <= s.len(),
            val == t.packed(s.subrange(0, j as int)),
        decreases s.len() - j,
    {
        let ghost pre = s.subrange(0, j as int);
        let ghost next = s.subrange(0, j + 1);
        assert(next.drop_last() =~= pre);
        assert(t.has(s[j as int]));
        let rank = match char_scheme.lookup(ascii_str[j]) {
            Some(v) => v,
            None => 0,
        };
        proof {
            assert forall|i: int| 0 <= i < next.len() implies #[trigger] t.has(next[i]) by {
                assert(t.has(s[i]));
            }
            lemma_packed_bound(t, next);
            assert(t.bits() * next.len() <= 64) by (nonlinear_arith)
                requires next.len() <= s.len(), s.len() * t.bits() <= 64;
            if t.bits() * next.len() < 64 {
                lemma_pow2_strictly_increases(t.bits() * next.len(), 64);
            }
            lemma2_to64_rest();
            lemma_pow2_pos(t.bits() * next.len());
        }
        if j == 0 {
            proof {
                assert(t.packed(pre) == 0);
            }
            val = rank as u64;
        } else {
            proof {
                lemma_pow2_pos(bits as nat);
                assert(val * scale <= val * scale + rank) by (nonlinear_arith)
                    requires rank >= 0;
            }
            val = val * scale + rank as u64;
        }
        j = j + 1;
    }
    assert(s.subrange(0, s.len() as int) =~= s);
    val
}


/// Offset of the length-`minimizer_size` substring of
/// `reference[0..window_size]` whose packed symbol ranks are smallest, the
/// earliest on ties.
pub fn char_minimizer(reference: &[u8], char_scheme: &CharScheme, window_size: usize, minimizer_size: usize) -> (r: usize)
    requires
        1 <= minimizer_size <= window_size <= reference@.len(),
        covers(Selector::Char(*char_scheme), reference@.subrange(0, window_size as int),
            window_size as int, minimizer_size as int),
    ensures
        selects(Selector::Char(*char_scheme), reference@.subrange(0, window_size as int),
            window_size as int, minimizer_size as int, r as int),
{
    let ghost win = reference@.subrange(0, window_size as int);
    let ghost t = *char_scheme;
    let k = minimizer_size;
    proof {
        lemma_kmer_of_window(reference@, window_size as int, k as int, 0);
        assert forall|x: int| 0 <= x < k implies #[trigger] t.has(kmer(win, 0, k as int)[x]) by {
            assert(t.has(win[x]));
        }
    }
    let mut min: usize = 0;
    let mut min_val: u64 = str_to_bin(&reference[0..k], char_scheme);
    let mut i: usize = 1;
    while i <= window_size - k
        invariant
            1 <= k <= window_size <= reference@.len(),
            win == reference@.subrange(0, window_size as int),
            t == *char_scheme,
            covers(Selector::Char(t), win, window_size as int, k as int),
            1 <= i <= window_size - k + 1,
            min < i,
            min_val == t.packed(kmer(win, min as int, k as int)),
            forall|j: int| 0 <= j < min ==> t.packed(kmer(win, min as int, k as int)) < t.packed(kmer(win, j, k as int)),
            forall|j: int| min < j < i ==> !(t.packed(kmer(win, j, k as int)) < t.packed(kmer(win, min as int, k as int))),
        decreases window_size - k + 1 - i,
    {
        proof {
            lemma_kmer_of_window(reference@, window_size as int, k as int, i as int);
            assert forall|x: int| 0 <= x < k implies #[trigger] t.has(kmer(win, i as int, k as int)[x]) by {
                assert(t.has(win[i + x]));
            }
        }
        let v = str_to_bin(&reference[i..i + k], char_scheme);
        if v < min_val {
            min = i;
            min_val = v;
        }
        i = i + 1;
    }
    min
}

/// Minimizer offset of `reference[0..window_size]` under the ordering of `selector`.
pub fn minimizer(selector: &Selector, reference: &[u8], window_size: usize, minimizer_size: usize) -> (r: usize)
    requires
        1 <= minimizer_size <= window_size <= reference@.len(),
        covers(*selector, reference@.subrange(0, window_size as int), window_size as int,
            minimizer_size as int),
    ensures
        selects(*selector, reference@.subrange(0, window_size as int), window_size as int,
            minimizer_size as int, r as int),
{
    match selector {
        Selector::Lexicographic => lexicographical_minimizer(reference, window_size, minimizer_size),
        Selector::Hash => hash_minimizer(reference, window_size, minimizer_size),
        Selector::Scheme(t) => scheme_minimizer(reference, t, window_size, minimizer_size),
        Selector::Char(t) => char_minimizer(reference, t, window_size, minimizer_size),
    }
}


/// Occurrences of `x` among the length-`k` substrings of `r` at `0..i`.
pub open spec fn count_upto(r: Seq<u8>, k: int, x: Seq<u8>, i: int) -> nat
    decreases i,
{
    if i <= 0 {
        0
    } else {
        count_upto(r, k, x, i - 1) + if kmer(r, i - 1, k) == x { 1nat } else { 0nat }
    }
}

/// Occurrences of `x` among the length-`k` substrings of `r`.
pub open spec fn kmer_count(r: Seq<u8>, k: int, x: Seq<u8>) -> nat {
    count_upto(r, k, x, r.len() - k + 1)
}

/// `a` ranks before `b`: it is rarer in `r`, or as frequent and smaller.
pub open spec fn ranks_before(r: Seq<u8>, k: int, a: Seq<u8>, b: Seq<u8>) -> bool {
    kmer_count(r, k, a) < kmer_count(r, k, b) || (kmer_count(r, k, a) == kmer_count(r, k, b)
        && lex_lt(a, b))
}

/// `x` is a length-`k` substring of `r`.
pub open spec fn is_kmer_of(r: Seq<u8>, k: int, x: Seq<u8>) -> bool {
    exists|p: int| 0 <= p <= r.len() - k && kmer(r, p, k) == x
}

/// `t` ranks exactly the length-`k` substrings of `r`, rarest first, ties
/// broken by lexicographic order.
pub open spec fn is_frequency_scheme(t: Seq<Seq<u8>>, r: Seq<u8>, k: int) -> bool {
    &&& t.no_duplicates()
    &&& forall|p: int| 0 <= p <= r.len() - k ==> t.contains(#[trigger] kmer(r, p, k))
    &&& forall|j: int| 0 <= j < t.len() ==> #[trigger] is_kmer_of(r, k, t[j])
    &&& forall|j: int| 0 <= j < t.len() - 1 ==> ranks_before(r, k, #[trigger] t[j], t[j + 1])
}

proof fn lemma_count_absent(r: Seq<u8>, k: int, x: Seq<u8>, i: int)
    requires
        forall|p: int| 0 <= p < i ==> kmer(r, p, k) != x,
    ensures
        count_upto(r, k, x, i) == 0,
    decreases i,
{
    if i > 0 {
        lemma_count_absent(r, k, x, i - 1);
    }
}

/// A fresh vector holding the bytes of `s`.
pub fn copy_bytes(s: &[u8]) -> (r: Vec<u8>)
    ensures
        r@ == s@,
{
    let mut out: Vec<u8> = Vec::new();
    let mut i: usize = 0;
    while i < s.len()
        invariant
            i <= s@.len(),
            out@ == s@.subrange(0, i as int),
        decreases s@.len() - i,
    {
        out.push(s[i]);
        i = i + 1;
        assert(out@ =~= s@.subrange(0, i as int));
    }
    assert(s@.subrange(0, s@.len() as int) =~= s@);
    out
}

/// The length-`k` substrings of `r` at the positions `ps`.
pub open spec fn kmers_at(r: Seq<u8>, ps: Seq<usize>, k: int) -> Seq<Seq<u8>> {
    ps.map_values(|p: usize| kmer(r, p as int, k))
}

/// What the counting pass knows after the substrings at `0..i`.
pub open spec fn counted(r: Seq<u8>, k: int, firsts: Seq<usize>, counts: Seq<usize>, i: int) -> bool {
    &&& firsts.len() == counts.len()
    &&& forall|j: int| 0 <= j < firsts.len() ==> firsts[j] < i
    &&& kmers_at(r, firsts, k).no_duplicates()
    &&& forall|j: int| 0 <= j < firsts.len() ==> counts[j] == count_upto(r, k,
        #[trigger] kmers_at(r, firsts, k)[j], i)
    &&& forall|j: int| 0 <= j < firsts.len() ==> counts[j] <= i
    &&& forall|p: int| 0 <= p < i ==> kmers_at(r, firsts, k).contains(#[trigger] kmer(r, p, k))
}

proof fn lemma_counted_seen(r: Seq<u8>, k: int, firsts: Seq<usize>, counts: Seq<usize>, i: int, j: int)
    requires
        counted(r, k, firsts, counts, i),
        0 <= j < firsts.len(),
        kmers_at(r, firsts, k)[j] == kmer(r, i, k),
        counts[j] < usize::MAX,
    ensures
        counted(r, k, firsts, counts.update(j, (counts[j] + 1) as usize), i + 1),
{
    let ks = kmers_at(r, firsts, k);
    let c2 = counts.update(j, (counts[j] + 1) as usize);
    assert forall|t: int| 0 <= t < firsts.len() implies c2[t] == count_upto(r, k, #[trigger] ks[t], i + 1) by {
        if t != j {
            assert(ks[t] != ks[j]);
        }
    }
    assert forall|p: int| 0 <= p < i + 1 implies ks.contains(#[trigger] kmer(r, p, k)) by {
        if p == i {
            assert(ks[j] == kmer(r, p, k));
        }
    }
}

proof fn lemma_counted_new(r: Seq<u8>, k: int, firsts: Seq<usize>, counts: Seq<usize>, i: int)
    requires
        counted(r, k, firsts, counts, i),
        0 <= i <= usize::MAX,
        !kmers_at(r, firsts, k).contains(kmer(r, i, k)),
    ensures
        counted(r, k, firsts.push(i as usize), counts.push(1), i + 1),
{
    let x = kmer(r, i, k);
    let ks = kmers_at(r, firsts, k);
    let f2 = firsts.push(i as usize);
    let c2 = counts.push(1usize);
    let ks2 = kmers_at(r, f2, k);
    assert(ks2 =~= ks.push(x));
    assert forall|p: int| 0 <= p < i implies kmer(r, p, k) != x by {
        assert(ks.contains(kmer(r, p, k)));
    }
    lemma_count_absent(r, k, x, i);
    assert forall|t: int| 0 <= t < f2.len() implies c2[t] == count_upto(r, k, #[trigger] ks2[t], i + 1) by {
        if t < firsts.len() {
            assert(ks[t] != x);
        }
    }
    assert forall|p: int| 0 <= p < i + 1 implies ks2.contains(#[trigger] kmer(r, p, k)) by {
        if p == i {
            assert(ks2[firsts.len() as int] == x);
        } else {
            assert(ks.contains(kmer(r, p, k)));
            let t = choose|t: int| 0 <= t < ks.len() && ks[t] == kmer(r, p, k);
            assert(ks2[t] == ks[t]);
        }
    }
}

/// The distinct length-`k` substrings of `r`, each given by the position where
/// it first occurs, and how often each occurs.
fn distinct_kmers(reference: &[u8], k: usize) -> (res: (Vec<usize>, Vec<usize>))
    requires
        1 <= k <= reference@.len(),
    ensures
        counted(reference@, k as int, res.0@, res.1@, reference@.len() - k + 1),
{
    let ghost r = reference@;
    let ghost kk = k as int;
    let mut firsts: Vec<usize> = Vec::new();
    let mut counts: Vec<usize> = Vec::new();
    let n = reference.len() - k + 1;
    let mut i: usize = 0;
    proof {
        assert(kmers_at(r, firsts@, kk) =~= Seq::<Seq<u8>>::empty());
    }
    while i < n
        invariant
            r == reference@,
            kk == k,
            1 <= k <= r.len(),
            r.len() <= usize::MAX,
            n == r.len() - k + 1,
            i <= n,
            counted(r, kk, firsts@, counts@, i as int),
        decreases n - i,
    {
        let x = &reference[i..i + k];
        let mut j: usize = 0;
        while j < firsts.len() && !bytes_equal(&reference[firsts[j]..firsts[j] + k], x)
            invariant
                r == reference@,
                kk == k,
                1 <= k <= r.len(),
                r.len() <= usize::MAX,
                x@ == kmer(r, i as int, kk),
                j <= firsts@.len(),
                forall|t: int| 0 <= t < firsts@.len() ==> firsts@[t] < i,
                i < n,
                n == r.len() - k + 1,
                forall|t: int| 0 <= t < j ==> kmers_at(r, firsts@, kk)[t] != x@,
            decreases firsts@.len() - j,
        {
            j = j + 1;
        }
        if j < firsts.len() {
            proof {
                lemma_counted_seen(r, kk, firsts@, counts@, i as int, j as int);
            }
            let c = counts[j];
            counts.set(j, c + 1);
        } else {
            proof {
                assert(!kmers_at(r, firsts@, kk).contains(x@));
                lemma_counted_new(r, kk, firsts@, counts@, i as int);
            }
            firsts.push(i);
            counts.push(1);
        }
        i = i + 1;
    }
    (firsts, counts)
}


/// The entry at `a` ranks before the one at `b`: rarer, or as frequent and smaller.
pub open spec fn entry_before(r: Seq<u8>, k: int, firsts: Seq<usize>, counts: Seq<usize>, a: int, b: int) -> bool {
    counts[a] < counts[b] || (counts[a] == counts[b] && lex_lt(kmers_at(r, firsts, k)[a],
        kmers_at(r, firsts, k)[b]))
}

/// Indices `0..firsts.len()` ordered by `entry_before`.
fn sort_by_frequency(reference: &[u8], k: usize, firsts: &Vec<usize>, counts: &Vec<usize>) -> (order: Vec<usize>)
    requires
        firsts@.len() == counts@.len(),
        forall|j: int| 0 <= j < firsts@.len() ==> firsts@[j] + k <= reference@.len(),
    ensures
        order@.len() == firsts@.len(),
        forall|j: int| 0 <= j < order@.len() ==> #[trigger] order@[j] < firsts@.len(),
        forall|v: usize| v < firsts@.len() ==> order@.contains(v),
        order@.no_duplicates(),
        forall|j: int| 0 <= j < order@.len() - 1 ==> !entry_before(reference@, k as int, firsts@,
            counts@, #[trigger] order@[j + 1] as int, order@[j] as int),
{
    let ghost r = reference@;
    let ghost kk = k as int;
    let n = reference.len();
    let mut order: Vec<usize> = Vec::new();
    let mut i: usize = 0;
    while i < firsts.len()
        invariant
            r == reference@,
            kk == k,
            firsts@.len() == counts@.len(),
            forall|j: int| 0 <= j < firsts@.len() ==> firsts@[j] + k <= r.len(),
            n == r.len(),
            i <= firsts@.len(),
            order@.len() == i,
            forall|j: int| 0 <= j < i ==> #[trigger] order@[j] < i,
            forall|v: usize| v < i ==> order@.contains(v),
            order@.no_duplicates(),
            forall|j: int| 0 <= j < order@.len() - 1 ==> !entry_before(r, kk, firsts@, counts@,
                #[trigger] order@[j + 1] as int, order@[j] as int),
        decreases firsts@.len() - i,
    {
        let x = &reference[firsts[i]..firsts[i] + k];
        let mut p: usize = 0;
        while p < order.len() && !(counts[i] < counts[order[p]] || (counts[i] == counts[order[p]]
            && lex_less(x, &reference[firsts[order[p]]..firsts[order[p]] + k])))
            invariant
                r == reference@,
                kk == k,
                firsts@.len() == counts@.len(),
                forall|j: int| 0 <= j < firsts@.len() ==> firsts@[j] + k <= r.len(),
                n == r.len(),
                i < firsts@.len(),
                order@.len() == i,
                forall|j: int| 0 <= j < i ==> #[trigger] order@[j] < i,
                x@ == kmers_at(r, firsts@, kk)[i as int],
                p <= order@.len(),
                p > 0 ==> !entry_before(r, kk, firsts@, counts@, i as int, order@[p - 1] as int),
            decreases order@.len() - p,
        {
            p = p + 1;
        }
        let ghost old_order = order@;
        proof {
            old_order.insert_ensures(p as int, i);
        }
        order.insert(p, i);
        proof {
            let s = order@;
            assert(s == old_order.insert(p as int, i));
            assert forall|j: int| 0 <= j < s.len() - 1 implies !entry_before(r, kk, firsts@, counts@,
                #[trigger] s[j + 1] as int, s[j] as int) by {
                if j + 1 < p {
                    assert(s[j] == old_order[j] && s[j + 1] == old_order[j + 1]);
                } else if j + 1 == p {
                } else if j == p {
                    crate::order::lemma_lex_trichotomy(x@, kmers_at(r, firsts@, kk)[s[j + 1] as int]);
                } else {
                    assert(s[j] == old_order[j - 1] && s[j + 1] == old_order[j]);
                }
            }
            assert forall|a: int, b: int| 0 <= a < b < s.len() implies s[a] != s[b] by {
                if a < p && b < p {
                    assert(old_order[a] != old_order[b]);
                } else if a < p && b > p {
                    assert(old_order[a] != old_order[b - 1]);
                } else if a > p && b > p {
                    assert(old_order[a - 1] != old_order[b - 1]);
                } else if a == p {
                    assert(old_order[b - 1] < i);
                } else {
                    assert(old_order[a] < i);
                }
            }
            assert forall|v: usize| v < i + 1 implies s.contains(v) by {
                if v == i {
                    assert(s[p as int] == v);
                } else {
                    assert(old_order.contains(v));
                    let t = choose|t: int| 0 <= t < old_order.len() && old_order[t] == v;
                    if t < p {
                        assert(s[t] == v);
                    } else {
                        assert(s[t + 1] == v);
                    }
                }
            }
        }
        i = i + 1;
    }
    order
}


/// Ranks the length-`minimizer_size` substrings of `reference` by how often
/// they occur, rarest first, ties broken by lexicographic order.
pub fn preprocess_minimizer_scheme(reference: &[u8], minimizer_size: usize) -> (t: Scheme)
    requires
        1 <= minimizer_size <= reference@.len(),
    ensures
        is_frequency_scheme(t.keys(), reference@, minimizer_size as int),
{
    let ghost r = reference@;
    let ghost kk = minimizer_size as int;
    let k = minimizer_size;
    let (firsts, counts) = distinct_kmers(reference, k);
    let n = reference.len();
    let ghost ks = kmers_at(r, firsts@, kk);
    let order = sort_by_frequency(reference, k, &firsts, &counts);
    let mut keys: Vec<Vec<u8>> = Vec::new();
    let mut j: usize = 0;
    while j < order.len()
        invariant
            r == reference@,
            kk == k,
            ks == kmers_at(r, firsts@, kk),
            counted(r, kk, firsts@, counts@, r.len() - kk + 1),
            n == r.len(),
            order@.len() == firsts@.len(),
            forall|t: int| 0 <= t < order@.len() ==> #[trigger] order@[t] < firsts@.len(),
            forall|v: usize| v < firsts@.len() ==> order@.contains(v),
            order@.no_duplicates(),
            forall|t: int| 0 <= t < order@.len() - 1 ==> !entry_before(r, kk, firsts@,
                counts@, #[trigger] order@[t + 1] as int, order@[t] as int),
            j <= order@.len(),
            keys@.len() == j,
            forall|t: int| 0 <= t < j ==> (#[trigger] keys@[t])@ == ks[order@[t] as int],
        decreases order@.len() - j,
    {
        let p = firsts[order[j]];
        let key = copy_bytes(&reference[p..p + k]);
        keys.push(key);
        j = j + 1;
    }
    let t = Scheme { scheme: keys };
    proof {
        let tk = t.keys();
        assert forall|a: int| 0 <= a < tk.len() implies #[trigger] tk[a] == ks[order@[a] as int] by {
            assert(tk[a] == keys@[a]@);
        }
        assert forall|a: int, b: int| 0 <= a < b < tk.len() implies tk[a] != tk[b] by {
            assert(order@[a] != order@[b]);
            assert(ks[order@[a] as int] != ks[order@[b] as int]);
        }
        assert forall|p: int| 0 <= p <= r.len() - kk implies tk.contains(#[trigger] kmer(r, p, kk)) by {
            assert(ks.contains(kmer(r, p, kk)));
            let v = choose|v: int| 0 <= v < ks.len() && ks[v] == kmer(r, p, kk);
            assert(order@.contains(v as usize));
            let a = choose|a: int| 0 <= a < order@.len() && order@[a] == v as usize;
            assert(tk[a] == kmer(r, p, kk));
        }
        assert forall|a: int| 0 <= a < tk.len() implies #[trigger] is_kmer_of(r, kk, tk[a]) by {
            let v = order@[a] as int;
            let q = firsts@[v] as int;
            assert(0 <= q <= r.len() - kk);
            assert(ks[v] == kmer(r, q, kk));
            assert(tk[a] == kmer(r, q, kk));
        }
        assert forall|a: int| 0 <= a < tk.len() - 1 implies ranks_before(r, kk, #[trigger] tk[a], tk[a + 1]) by {
            let x = order@[a] as int;
            let y = order@[a + 1] as int;
            assert(!entry_before(r, kk, firsts@, counts@, y, x));
            assert(counts@[x] == kmer_count(r, kk, ks[x]));
            assert(counts@[y] == kmer_count(r, kk, ks[y]));
            assert(ks[x] != ks[y]);
            crate::order::lemma_lex_trichotomy(ks[x], ks[y]);
        }
    }
    t
}

/// The symbols of a ranking of length-1 substrings, in the same order.
pub open spec fn symbols_of(t: Seq<Seq<u8>>) -> Seq<u8> {
    t.map_values(|x: Seq<u8>| x[0])
}

/// Ranks the symbols of `reference` by how often they occur, rarest first,
/// ties broken by symbol value.
pub fn preprocess_char_scheme(reference: &[u8]) -> (t: CharScheme)
    ensures
        reference@.len() == 0 ==> t.scheme@.len() == 0,
        reference@.len() > 0 ==> exists|s: Seq<Seq<u8>>| is_frequency_scheme(s, reference@, 1)
            && t.scheme@ == symbols_of(s),
{
    if reference.len() == 0 {
        return CharScheme { scheme: Vec::new() };
    }
    let kmers = preprocess_minimizer_scheme(reference, 1);
    let ghost s = kmers.keys();
    let mut syms: Vec<u8> = Vec::new();
    let mut j: usize = 0;
    while j < kmers.scheme.len()
        invariant
            s == kmers.keys(),
            is_frequency_scheme(s, reference@, 1),
            j <= s.len(),
            syms@ == symbols_of(s).subrange(0, j as int),
        decreases s.len() - j,
    {
        proof {
            assert(is_kmer_of(reference@, 1, s[j as int]));
            let q = choose|p: int| 0 <= p <= reference@.len() - 1 && kmer(reference@, p, 1) == s[j as int];
            assert(s[j as int].len() == 1);
        }
        syms.push(kmers.scheme[j][0]);
        j = j + 1;
        proof {
            assert(syms@ =~= symbols_of(s).subrange(0, j as int));
        }
    }
    proof {
        assert(syms@ =~= symbols_of(s));
    }
    CharScheme { scheme: syms }
}


/// Two frequency schemes of one text rank equally many substrings.
pub proof fn lemma_frequency_scheme_len(s1: Seq<Seq<u8>>, s2: Seq<Seq<u8>>, r: Seq<u8>, k: int)
    requires
        is_frequency_scheme(s1, r, k),
        is_frequency_scheme(s2, r, k),
    ensures
        s1.len() == s2.len(),
{
    assert forall|x: Seq<u8>| s1.to_set().contains(x) <==> s2.to_set().contains(x) by {
        if s1.contains(x) {
            let j = choose|j: int| 0 <= j < s1.len() && s1[j] == x;
            assert(is_kmer_of(r, k, s1[j]));
        }
        if s2.contains(x) {
            let j = choose|j: int| 0 <= j < s2.len() && s2[j] == x;
            assert(is_kmer_of(r, k, s2[j]));
        }
    }
    assert(s1.to_set() =~= s2.to_set());
    s1.unique_seq_to_set();
    s2.unique_seq_to_set();
}


proof fn lemma_ranks_before_order(r: Seq<u8>, k: int, a: Seq<u8>, b: Seq<u8>, c: Seq<u8>)
    ensures
        ranks_before(r, k, a, b) && ranks_before(r, k, b, c) ==> ranks_before(r, k, a, c),
        !(ranks_before(r, k, a, b) && ranks_before(r, k, b, a)),
{
    crate::order::lemma_lex_trichotomy(a, b);
    if lex_lt(a, b) && lex_lt(b, c) {
        crate::order::lemma_lex_lt_transitive(a, b, c);
    }
}

proof fn lemma_ranks_sorted_pairwise(s: Seq<Seq<u8>>, r: Seq<u8>, k: int, a: int, b: int)
    requires
        forall|j: int| 0 <= j < s.len() - 1 ==> ranks_before(r, k, #[trigger] s[j], s[j + 1]),
        0 <= a < b < s.len(),
    ensures
        ranks_before(r, k, s[a], s[b]),
    decreases b - a,
{
    if b > a + 1 {
        lemma_ranks_sorted_pairwise(s, r, k, a, b - 1);
        assert(ranks_before(r, k, s[b - 1], s[b]));
        lemma_ranks_before_order(r, k, s[a], s[b - 1], s[b]);
    }
}

proof fn lemma_ranked_unique(s1: Seq<Seq<u8>>, s2: Seq<Seq<u8>>, r: Seq<u8>, k: int)
    requires
        s1.no_duplicates(),
        s2.no_duplicates(),
        forall|x: Seq<u8>| s1.contains(x) <==> s2.contains(x),
        forall|j: int| 0 <= j < s1.len() - 1 ==> ranks_before(r, k, #[trigger] s1[j], s1[j + 1]),
        forall|j: int| 0 <= j < s2.len() - 1 ==> ranks_before(r, k, #[trigger] s2[j], s2[j + 1]),
    ensures
        s1 == s2,
    decreases s1.len(),
{
    if s1.len() == 0 {
        if s2.len() > 0 {
            assert(s2.contains(s2[0]));
        }
        assert(s1 =~= s2);
    } else {
        assert(s1.contains(s1[0]));
        assert(s2.len() > 0);
        let x1 = s1[0];
        let x2 = s2[0];
        if x1 != x2 {
            assert(s2.contains(x2));
            let t1 = choose|t: int| 0 <= t < s1.len() && s1[t] == x2;
            let t2 = choose|t: int| 0 <= t < s2.len() && s2[t] == x1;
            lemma_ranks_sorted_pairwise(s1, r, k, 0, t1);
            lemma_ranks_sorted_pairwise(s2, r, k, 0, t2);
            lemma_ranks_before_order(r, k, x1, x2, x1);
        }
        let u1 = s1.drop_first();
        let u2 = s2.drop_first();
        assert forall|x: Seq<u8>| u1.contains(x) <==> u2.contains(x) by {
            if u1.contains(x) {
                let t = choose|t: int| 0 <= t < u1.len() && u1[t] == x;
                assert(s1[t + 1] == x && s1[0] != s1[t + 1]);
                assert(s1.contains(x));
                let t2 = choose|t2: int| 0 <= t2 < s2.len() && s2[t2] == x;
                assert(t2 != 0);
                assert(u2[t2 - 1] == x);
            }
            if u2.contains(x) {
                let t = choose|t: int| 0 <= t < u2.len() && u2[t] == x;
                assert(s2[t + 1] == x && s2[0] != s2[t + 1]);
                assert(s2.contains(x));
                let t1 = choose|t1: int| 0 <= t1 < s1.len() && s1[t1] == x;
                assert(t1 != 0);
                assert(u1[t1 - 1] == x);
            }
        }
        assert forall|j: int| 0 <= j < u1.len() - 1 implies ranks_before(r, k, #[trigger] u1[j], u1[j + 1]) by {
            assert(ranks_before(r, k, s1[j + 1], s1[j + 2]));
        }
        assert forall|j: int| 0 <= j < u2.len() - 1 implies ranks_before(r, k, #[trigger] u2[j], u2[j + 1]) by {
            assert(ranks_before(r, k, s2[j + 1], s2[j + 2]));
        }
        lemma_ranked_unique(u1, u2, r, k);
        assert(s1 =~= s2) by {
            assert forall|j: int| 0 <= j < s1.len() implies s1[j] == s2[j] by {
                if j > 0 {
                    assert(u1[j - 1] == u2[j - 1]);
                }
            }
        }
    }
}

/// A text has one frequency scheme for each substring length.
pub proof fn lemma_frequency_scheme_unique(s1: Seq<Seq<u8>>, s2: Seq<Seq<u8>>, r: Seq<u8>, k: int)
    requires
        is_frequency_scheme(s1, r, k),
        is_frequency_scheme(s2, r, k),
    ensures
        s1 == s2,
{
    assert forall|x: Seq<u8>| s1.contains(x) <==> s2.contains(x) by {
        if s1.contains(x) {
            let j = choose|j: int| 0 <= j < s1.len() && s1[j] == x;
            assert(is_kmer_of(r, k, s1[j]));
        }
        if s2.contains(x) {
            let j = choose|j: int| 0 <= j < s2.len() && s2[j] == x;
            assert(is_kmer_of(r, k, s2[j]));
        }
    }
    lemma_ranked_unique(s1, s2, r, k);
}

} // verus!
