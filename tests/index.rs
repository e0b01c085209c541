use minimizer_sa::{build, query, IndexError, Rule, SuffixArray};

fn occurrences(text: &[u8], q: &[u8]) -> Vec<usize> {
    let mut out = Vec::new();
    if q.len() <= text.len() {
        for i in 0..=(text.len() - q.len()) {
            if &text[i..i + q.len()] == q {
                out.push(i);
            }
        }
    }
    out
}

fn sorted_hits(index: &SuffixArray, q: &[u8]) -> Vec<usize> {
    let mut v = match query(index, q) {
        Ok(v) => v,
        Err(_) => panic!("query refused"),
    };
    v.sort();
    v
}

fn built(text: &[u8], w: usize, k: usize, rule: Rule) -> SuffixArray {
    match build(text, w, k, rule) {
        Ok(idx) => idx,
        Err(_) => panic!("build refused"),
    }
}

fn check_all_substrings(text: &[u8], w: usize, k: usize, rule: fn() -> Rule) {
    let index = built(text, w, k, rule());
    let body = &text[..text.len() - 1];
    for start in 0..body.len() {
        for end in (start + w)..=body.len() {
            let q = &body[start..end];
            assert_eq!(sorted_hits(&index, q), occurrences(text, q));
        }
    }
}

#[test]
fn abracadabra_lexicographic_query_cada() {
    let index = built(b"abracadabracada$", 4, 3, Rule::Lexicographic);
    assert_eq!(sorted_hits(&index, b"cada"), vec![4, 11]);
}

#[test]
fn query_shorter_than_window_is_refused() {
    let index = built(b"abracadabracada$", 5, 3, Rule::Lexicographic);
    assert!(matches!(query(&index, b"cada"), Err(IndexError::QueryTooShort)));
}

#[test]
fn abracadabra_char_query_bra() {
    let index = built(b"abracadabracada$", 3, 2, Rule::Char);
    assert_eq!(sorted_hits(&index, b"bra"), vec![1, 8]);
}

#[test]
fn single_symbol_lexicographic() {
    let index = built(b"AAAAA$", 3, 2, Rule::Lexicographic);
    assert_eq!(sorted_hits(&index, b"AAA"), vec![0, 1, 2]);
    assert_eq!(index.array, vec![2, 1, 0]);
}

#[test]
fn mississippi_hash() {
    let index = built(b"mississippi$", 4, 2, Rule::Hash);
    assert_eq!(sorted_hits(&index, b"issi"), vec![1, 4]);
    assert_eq!(sorted_hits(&index, b"xyzw"), Vec::<usize>::new());
}

#[test]
fn scheme_ranks_rarest_first_and_matches_brute_force() {
    let text = b"abracadabracada$";
    let index = built(text, 4, 2, Rule::Scheme);
    let body = &text[..text.len() - 1];
    let count = |key: &[u8]| body.windows(2).filter(|x| *x == key).count();
    let keys = match &index.selector {
        minimizer_sa::Selector::Scheme(t) => t.scheme.clone(),
        _ => panic!("scheme table expected"),
    };
    let least = body.windows(2).map(|x| count(x)).min().unwrap();
    assert_eq!(count(&keys[0]), least);
    for pair in keys.windows(2) {
        assert!(count(&pair[0]) < count(&pair[1]) || (count(&pair[0]) == count(&pair[1]) && pair[0] < pair[1]));
    }
    check_all_substrings(text, 4, 2, || Rule::Scheme);
}

#[test]
fn every_rule_finds_exactly_the_occurrences() {
    let text = b"abracadabracada$";
    check_all_substrings(text, 5, 3, || Rule::Lexicographic);
    check_all_substrings(text, 5, 3, || Rule::Hash);
    check_all_substrings(text, 5, 3, || Rule::Scheme);
    check_all_substrings(text, 5, 3, || Rule::Char);
    let text = b"mississippi$";
    check_all_substrings(text, 4, 2, || Rule::Lexicographic);
    check_all_substrings(text, 4, 2, || Rule::Hash);
    check_all_substrings(text, 4, 2, || Rule::Scheme);
    check_all_substrings(text, 4, 2, || Rule::Char);
}

#[test]
fn suffix_array_is_sorted() {
    let text = b"abracadabracada$";
    for rule in [Rule::Lexicographic, Rule::Hash, Rule::Scheme, Rule::Char] {
        let index = built(text, 5, 3, rule);
        for pair in index.array.windows(2) {
            assert!(text[pair[0]..] <= text[pair[1]..]);
        }
    }
}

#[test]
fn builds_are_deterministic() {
    let text = b"mississippi$";
    let a = built(text, 4, 2, Rule::Scheme);
    let b = built(text, 4, 2, Rule::Scheme);
    assert_eq!(a.array, b.array);
    match (&a.selector, &b.selector) {
        (minimizer_sa::Selector::Scheme(x), minimizer_sa::Selector::Scheme(y)) => assert_eq!(x.scheme, y.scheme),
        _ => panic!("scheme table expected"),
    }
}

#[test]
fn repeated_kmer_gives_one_entry() {
    let index = built(b"AAAAAAAAAA$", 4, 4, Rule::Lexicographic);
    assert_eq!(index.array.len(), 7);
    let index = built(b"ACACACACAC$", 4, 2, Rule::Lexicographic);
    assert_eq!(sorted_hits(&index, b"ACAC"), vec![0, 2, 4, 6]);
}

#[test]
fn too_short_reference_gives_empty_array() {
    let index = built(b"abc$", 4, 2, Rule::Lexicographic);
    assert!(index.array.is_empty());
}

#[test]
fn invalid_parameters_are_refused() {
    assert!(matches!(build(b"abc$", 3, 0, Rule::Lexicographic), Err(IndexError::InvalidParameters)));
    assert!(matches!(build(b"abc$", 2, 3, Rule::Lexicographic), Err(IndexError::InvalidParameters)));
    assert!(matches!(build(b"abc$", 5, 2, Rule::Lexicographic), Err(IndexError::InvalidParameters)));
}

#[test]
fn missing_sentinel_is_refused() {
    assert!(matches!(build(b"abcd", 3, 2, Rule::Hash), Err(IndexError::MissingSentinel)));
    assert!(matches!(build(b"ab$cd$", 3, 2, Rule::Hash), Err(IndexError::MissingSentinel)));
}

#[test]
fn too_wide_char_key_is_refused() {
    let text = b"abcdeabcdeabcdeabcdeabcde$";
    assert!(matches!(build(text, 22, 22, Rule::Char), Err(IndexError::KeyTooWide)));
    assert!(build(text, 21, 21, Rule::Char).is_ok());
}

#[test]
fn unranked_symbol_is_refused() {
    let index = built(b"abracadabracada$", 4, 2, Rule::Char);
    assert!(matches!(query(&index, b"abzz"), Err(IndexError::MissingOrderingTableEntry)));
    let index = built(b"abracadabracada$", 4, 2, Rule::Scheme);
    assert!(matches!(query(&index, b"aaaa"), Err(IndexError::MissingOrderingTableEntry)));
}

#[test]
fn query_at_start_and_filtered_left_context() {
    let text = b"xabcyabcz$";
    let index = built(text, 4, 2, Rule::Lexicographic);
    assert_eq!(sorted_hits(&index, b"xabc"), vec![0]);
    assert_eq!(sorted_hits(&index, b"yabc"), vec![4]);
    assert_eq!(sorted_hits(&index, b"qabc"), Vec::<usize>::new());
}

#[test]
fn candidate_too_close_to_start_is_filtered() {
    let index = built(b"azzaq$", 3, 1, Rule::Lexicographic);
    assert_eq!(minimizer_sa::lexicographical_minimizer(b"zza", 3, 1), 2);
    assert_eq!(sorted_hits(&index, b"zza"), vec![1]);
}

#[test]
fn mississippi_short_query_is_refused() {
    let index = built(b"mississippi$", 4, 2, Rule::Hash);
    assert!(matches!(query(&index, b"xyz"), Err(IndexError::QueryTooShort)));
}

#[test]
fn query_that_does_not_occur() {
    let index = built(b"abracadabracada$", 5, 3, Rule::Lexicographic);
    assert_eq!(sorted_hits(&index, b"abracx"), Vec::<usize>::new());
}

#[test]
fn search_bounds_and_verify_indices() {
    let text = b"abracadabracada$";
    let index = built(text, 4, 3, Rule::Lexicographic);
    let o = minimizer_sa::lexicographical_minimizer(b"cada", 4, 3);
    let lo = minimizer_sa::search(&index, b"cada", false, o);
    let hi = minimizer_sa::search(&index, b"cada", true, o);
    assert!(lo < hi);
    let hits = minimizer_sa::verify(&index, b"cada", lo, hi, o);
    let mut positions: Vec<usize> = hits.iter().map(|&i| index.array[i] - o).collect();
    positions.sort();
    assert_eq!(positions, vec![4, 11]);
}

#[test]
fn reference_as_long_as_window_gives_empty_array_under_any_rule() {
    let text = b"abcdeabcdeabcdeabcdea$";
    let index = built(text, 22, 22, Rule::Char);
    assert!(index.array.is_empty());
    assert_eq!(index.sequence, text.to_vec());
}

#[test]
fn query_reaching_the_sentinel_is_found() {
    let index = built(b"abcab$", 3, 2, Rule::Lexicographic);
    assert_eq!(sorted_hits(&index, b"cab"), vec![2]);
}
