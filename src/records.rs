//! Records of the sequence file format: a header line `>id ...` followed by
//! sequence lines that concatenate; each sequence gets the sentinel appended.
use vstd::prelude::*;
use crate::sa::SENTINEL;

verus! {

pub const HEADER: u8 = 62;

/// One record: its identifier and its sequence.
pub struct Sequence {
    pub uid: Vec<u8>,
    pub sequence: Vec<u8>,
}

/// A record as a pair of byte strings.
pub type RecordView = (Seq<u8>, Seq<u8>);

impl Sequence {
    pub open spec fn view(&self) -> RecordView {
        (self.uid@, self.sequence@)
    }

    /// A record with no identifier and no sequence yet.
    pub fn new() -> (s: Sequence)
        ensures
            s.view() == (Seq::<u8>::empty(), Seq::<u8>::empty()),
    {
        Sequence { uid: Vec::new(), sequence: Vec::new() }
    }

    /// Whether the record has neither an identifier nor a sequence.
    pub fn is_empty(&self) -> (r: bool)
        ensures
            r == (self.uid@.len() == 0 && self.sequence@.len() == 0),
    {
        self.uid.len() == 0 && self.sequence.len() == 0
    }
}

/// ASCII whitespace: space, tab, line feed, vertical tab, form feed, carriage return.
pub open spec fn is_space(b: u8) -> bool {
    b == 32 || (9 <= b && b <= 13)
}

/// Index of the first non-whitespace byte in `line` at or after `i`, or its length.
pub open spec fn token_start(line: Seq<u8>, i: int) -> int
    decreases line.len() - i,
{
    if 0 <= i < line.len() && is_space(line[i]) {
        token_start(line, i + 1)
    } else {
        i
    }
}

/// Index of the first whitespace byte in `line` at or after `i`, or its length.
pub open spec fn token_end(line: Seq<u8>, i: int) -> int
    decreases line.len() - i,
{
    if 0 <= i < line.len() && !is_space(line[i]) {
        token_end(line, i + 1)
    } else {
        i
    }
}

/// The identifier of a header line: the first whitespace-delimited token after `>`.
pub open spec fn header_uid(line: Seq<u8>) -> Seq<u8> {
    line.subrange(token_start(line, 1), token_end(line, token_start(line, 1)))
}

pub open spec fn is_header(line: Seq<u8>) -> bool {
    line.len() > 0 && line[0] == HEADER
}

/// The records completed after the lines `0..i`, and the record being read.
/// Every header begins a record; it closes the record before it unless it
/// is the first line.
pub open spec fn parse_upto(lines: Seq<Seq<u8>>, i: int) -> (Seq<RecordView>, RecordView)
    decreases i,
{
    if i <= 0 {
        (seq![], (seq![], seq![]))
    } else {
        let (done, cur) = parse_upto(lines, i - 1);
        let line = lines[i - 1];
        if is_header(line) {
            let done2 = if i == 1 {
                done
            } else {
                done.push((cur.0, cur.1.push(SENTINEL)))
            };
            (done2, (header_uid(line), seq![]))
        } else {
            (done, (cur.0, cur.1 + line))
        }
    }
}

/// The records of a file given as its lines; the last record is always
/// closed, even when it is empty.
pub open spec fn parsed(lines: Seq<Seq<u8>>) -> Seq<RecordView> {
    let (done, cur) = parse_upto(lines, lines.len() as int);
    done.push((cur.0, cur.1.push(SENTINEL)))
}

fn append(dst: &mut Vec<u8>, src: &[u8])
    ensures
        final(dst)@ == old(dst)@ + src@,
{
    let mut i: usize = 0;
    while i < src.len()
        invariant
            i <= src@.len(),
            dst@ == old(dst)@ + src@.subrange(0, i as int),
        decreases src@.len() - i,
    {
        dst.push(src[i]);
        i = i + 1;
        assert(dst@ =~= old(dst)@ + src@.subrange(0, i as int));
    }
    assert(src@.subrange(0, src@.len() as int) =~= src@);
}

/// The identifier of the header line `line`.
fn uid_of(line: &[u8]) -> (r: Vec<u8>)
    requires
        is_header(line@),
    ensures
        r@ == header_uid(line@),
{
    let mut b: usize = 1;
    while b < line.len() && (line[b] == 32 || (9 <= line[b] && line[b] <= 13))
        invariant
            1 <= b <= line@.len(),
            token_start(line@, 1) == token_start(line@, b as int),
        decreases line@.len() - b,
    {
        b = b + 1;
    }
    let mut e: usize = b;
    while e < line.len() && !(line[e] == 32 || (9 <= line[e] && line[e] <= 13))
        invariant
            b <= e <= line@.len(),
            b == token_start(line@, 1),
            token_end(line@, b as int) == token_end(line@, e as int),
        decreases line@.len() - e,
    {
        e = e + 1;
    }
    crate::minimizers::copy_bytes(&line[b..e])
}

/// Splits lines of the sequence file format into records.
pub fn parse_records(lines: &Vec<Vec<u8>>) -> (r: Vec<Sequence>)
    ensures
        r@.map_values(|s: Sequence| s.view()) == parsed(lines@.map_values(|l: Vec<u8>| l@)),
{
    let ghost ls = lines@.map_values(|l: Vec<u8>| l@);
    let mut seqs: Vec<Sequence> = Vec::new();
    let mut seq = Sequence::new();
    let mut i: usize = 0;
    while i < lines.len()
        invariant
            ls == lines@.map_values(|l: Vec<u8>| l@),
            i <= lines@.len(),
            parse_upto(ls, i as int) == (seqs@.map_values(|s: Sequence| s.view()), seq.view()),
        decreases lines@.len() - i,
    {
        let line = lines[i].as_slice();
        assert(line@ == ls[i as int]);
        if line.len() > 0 && line[0] == HEADER {
            let ghost old_seqs = seqs@;
            if i > 0 {
                seq.sequence.push(SENTINEL);
                seqs.push(seq);
                proof {
                    assert(seqs@.map_values(|s: Sequence| s.view())
                        =~= old_seqs.map_values(|s: Sequence| s.view()).push(seqs@.last().view()));
                }
            }
            seq = Sequence { uid: uid_of(line), sequence: Vec::new() };
        } else {
            append(&mut seq.sequence, line);
        }
        i = i + 1;
    }
    let ghost old_seqs = seqs@;
    seq.sequence.push(SENTINEL);
    seqs.push(seq);
    proof {
        assert(seqs@.map_values(|s: Sequence| s.view())
            =~= old_seqs.map_values(|s: Sequence| s.view()).push(seqs@.last().view()));
    }
    seqs
}

} // verus!
