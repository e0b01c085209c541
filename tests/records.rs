use minimizer_sa::{parse_records, Sequence};

fn lines(text: &str) -> Vec<Vec<u8>> {
    text.lines().map(|l| l.as_bytes().to_vec()).collect()
}

#[test]
fn records_concatenate_lines_and_get_sentinel() {
    let recs = parse_records(&lines(">r1 some description\nACGT\nTTA\n>r2\nGG\n"));
    assert_eq!(recs.len(), 2);
    assert_eq!(recs[0].uid, b"r1".to_vec());
    assert_eq!(recs[0].sequence, b"ACGTTTA$".to_vec());
    assert_eq!(recs[1].uid, b"r2".to_vec());
    assert_eq!(recs[1].sequence, b"GG$".to_vec());
}

#[test]
fn header_token_ends_at_tab() {
    let recs = parse_records(&lines(">id\tx\nAC"));
    assert_eq!(recs[0].uid, b"id".to_vec());
    assert_eq!(recs[0].sequence, b"AC$".to_vec());
}

#[test]
fn empty_input_gives_one_empty_record() {
    let recs = parse_records(&lines(""));
    assert_eq!(recs.len(), 1);
    assert!(recs[0].uid.is_empty());
    assert_eq!(recs[0].sequence, b"$".to_vec());
}

#[test]
fn new_sequence_is_empty() {
    let s = Sequence::new();
    assert!(s.is_empty());
    let t = Sequence { uid: b"x".to_vec(), sequence: Vec::new() };
    assert!(!t.is_empty());
}

#[test]
fn header_without_identifier_still_begins_a_record() {
    let recs = parse_records(&lines(">\n>b\nAC"));
    assert_eq!(recs.len(), 2);
    assert!(recs[0].uid.is_empty());
    assert_eq!(recs[0].sequence, b"$".to_vec());
    assert_eq!(recs[1].uid, b"b".to_vec());
    assert_eq!(recs[1].sequence, b"AC$".to_vec());
}

#[test]
fn identifier_is_first_token_after_marker() {
    let recs = parse_records(&lines("> id rest\nGG\n>\tx2\r"));
    assert_eq!(recs[0].uid, b"id".to_vec());
    assert_eq!(recs[0].sequence, b"GG$".to_vec());
    assert_eq!(recs[1].uid, b"x2".to_vec());
}

#[test]
fn lines_before_first_header_form_a_record() {
    let recs = parse_records(&lines("AC\n>a\nGT"));
    assert_eq!(recs.len(), 2);
    assert!(recs[0].uid.is_empty());
    assert_eq!(recs[0].sequence, b"AC$".to_vec());
    assert_eq!(recs[1].sequence, b"GT$".to_vec());
}
