use minimizer_sa::{
    char_minimizer, hash_minimizer, lexicographical_minimizer, longest_common_prefix_length, minimizer,
    preprocess_char_scheme, preprocess_minimizer_scheme, scheme_minimizer, str_to_bin, CharScheme, Selector,
};

#[test]
fn lexicographic_minimizer_picks_smallest() {
    assert_eq!(lexicographical_minimizer(b"dcbab", 5, 2), 3);
    assert_eq!(lexicographical_minimizer(b"abracadabra", 5, 3), 0);
    assert_eq!(lexicographical_minimizer(b"bracadabra", 5, 3), 2);
}

#[test]
fn lexicographic_minimizer_ties_keep_earliest() {
    assert_eq!(lexicographical_minimizer(b"AAAAAA", 6, 2), 0);
    assert_eq!(lexicographical_minimizer(b"zababz", 6, 2), 1);
}

#[test]
fn minimizer_at_last_offset() {
    assert_eq!(lexicographical_minimizer(b"zzzza", 5, 1), 4);
}

#[test]
fn hash_minimizer_follows_wyhash() {
    let win = b"mississippi";
    let o = hash_minimizer(win, 8, 3);
    let hashes: Vec<u64> = (0..=5).map(|i| wyhash::wyhash(&win[i..i + 3], 0)).collect();
    let min = *hashes.iter().min().unwrap();
    assert_eq!(o, hashes.iter().position(|h| *h == min).unwrap());
    assert_eq!(minimizer(&Selector::Hash, win, 8, 3), o);
}

#[test]
fn scheme_minimizer_uses_ranks() {
    let t = preprocess_minimizer_scheme(b"abracadabracada", 2);
    let o = scheme_minimizer(b"abracad", &t, 7, 2);
    let rank = |x: &[u8]| t.scheme.iter().position(|k| k.as_slice() == x).unwrap();
    let ranks: Vec<usize> = (0..6).map(|i| rank(&b"abracad"[i..i + 2])).collect();
    let min = *ranks.iter().min().unwrap();
    assert_eq!(o, ranks.iter().position(|r| *r == min).unwrap());
}

#[test]
fn char_scheme_orders_by_frequency_then_symbol() {
    let t = preprocess_char_scheme(b"abracadabracada");
    assert_eq!(t.scheme, b"bcdra".to_vec());
    let empty = preprocess_char_scheme(b"");
    assert!(empty.scheme.is_empty());
}

#[test]
fn str_to_bin_packs_ranks() {
    let t = CharScheme { scheme: b"bcdra".to_vec() };
    // ranks b=0 c=1 d=2 r=3 a=4, three bits each
    assert_eq!(str_to_bin(b"bra", &t), (0 << 6) | (3 << 3) | 4);
    assert_eq!(str_to_bin(b"a", &t), 4);
    let t = CharScheme { scheme: b"ACGT".to_vec() };
    assert_eq!(str_to_bin(b"TGCA", &t), 0b11100100);
}

#[test]
fn char_minimizer_single_symbol_alphabet() {
    let t = CharScheme { scheme: b"A".to_vec() };
    assert_eq!(char_minimizer(b"AAAAA", &t, 5, 2), 0);
}

#[test]
fn char_minimizer_picks_rarest_packing() {
    let t = CharScheme { scheme: b"bcdra".to_vec() };
    // "ab"=4*8+0=32 "br"=0+3=3 "ra"=3*8+4=28 "ac"=33
    assert_eq!(char_minimizer(b"abrac", &t, 5, 2), 1);
}

#[test]
fn scheme_table_lists_each_kmer_once() {
    let t = preprocess_minimizer_scheme(b"mississippi", 2);
    let mut keys = t.scheme.clone();
    keys.sort();
    keys.dedup();
    assert_eq!(keys.len(), t.scheme.len());
    assert_eq!(t.scheme.len(), 7);
    assert_eq!(t.scheme[t.scheme.len() - 1], b"ss".to_vec());
}

#[test]
fn lcp_lengths() {
    assert_eq!(longest_common_prefix_length(b"abcd", b"abxd"), 2);
    assert_eq!(longest_common_prefix_length(b"abc", b"abc"), 3);
    assert_eq!(longest_common_prefix_length(b"", b"abc"), 0);
    assert_eq!(longest_common_prefix_length(b"ab", b"abc"), 2);
}

#[test]
fn abracadabra_two_mers_all_ranked() {
    let t = preprocess_minimizer_scheme(b"abracadabracada", 2);
    assert_eq!(t.scheme.len(), 7);
    let expected: Vec<Vec<u8>> = vec![b"ab", b"ac", b"ad", b"br", b"ca", b"da", b"ra"].into_iter().map(|x| x.to_vec()).collect();
    assert_eq!(t.scheme, expected);
}
