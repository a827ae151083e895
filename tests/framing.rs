use litegit::commit::{get_commit_field, get_commit_field_hash, CommitField, CommitParentsIter};
use litegit::protocol::{decode_frame, demux_sideband, encode_lines, trim_line, Frame, PacketLine, Sideband};
use litegit::Error;

#[test]
fn special_lengths_are_never_data() {
    assert_eq!(decode_frame(b"0000").unwrap(), Frame::Flush);
    assert_eq!(decode_frame(b"0001").unwrap(), Frame::Delimiter);
    assert_eq!(decode_frame(b"0002extra").unwrap(), Frame::ResponseEnd);
    assert!(matches!(decode_frame(b"0003"), Err(Error::GitProtocolError)));
}

#[test]
fn data_frames_and_incomplete_ones() {
    assert_eq!(decode_frame(b"0009hello").unwrap(), Frame::Data(9));
    assert_eq!(decode_frame(b"000ahello").unwrap(), Frame::Incomplete);
    assert_eq!(decode_frame(b"00").unwrap(), Frame::Incomplete);
    assert!(matches!(decode_frame(b"zz09hello"), Err(Error::GitProtocolError)));
    assert!(matches!(decode_frame(b"+009hello"), Err(Error::GitProtocolError)));
}

#[test]
fn lines_are_framed() {
    let bytes = encode_lines(&[
        PacketLine::String("command=ls-refs\n"),
        PacketLine::Bytes(b"ab"),
        PacketLine::DelimiterPacket,
        PacketLine::ResponseEndPacket,
        PacketLine::FlushPacket,
    ]);
    assert_eq!(bytes, b"0014command=ls-refs\n0006ab000100020000".to_vec());
}

#[test]
fn side_band_channels() {
    assert!(matches!(demux_sideband(&[1, b'x']).unwrap(), Sideband::Pack(d) if d == b"x".to_vec()));
    assert!(matches!(demux_sideband(&[2, b'p']).unwrap(), Sideband::Progress(_)));
    assert!(matches!(demux_sideband(&[3, b'e']).unwrap(), Sideband::Fatal(_)));
    assert!(matches!(demux_sideband(&[0, b'x']), Err(Error::GitProtocolError)));
    assert!(matches!(demux_sideband(&[4]), Err(Error::GitProtocolError)));
}

#[test]
fn trailing_whitespace_is_trimmed() {
    assert_eq!(trim_line(b"unpack ok\n"), b"unpack ok".to_vec());
    assert_eq!(trim_line(b" a \t\r\n"), b" a".to_vec());
    assert_eq!(trim_line(b"\n"), Vec::<u8>::new());
}

const COMMIT: &[u8] = b"tree 1111111111111111111111111111111111111111\n\
parent 2222222222222222222222222222222222222222\n\
parent 3333333333333333333333333333333333333333\n\
author Ann Lee <ann@example.org> 1700000000 +0100\n\
committer Bob <bob@example.org> 1700000001 -0200\n\
\n\
Subject\n\nBody\n";

fn field(f: CommitField) -> Option<Vec<u8>> {
    get_commit_field(COMMIT, f).unwrap()
}

#[test]
fn commit_fields() {
    assert_eq!(field(CommitField::Tree).unwrap(), b"1111111111111111111111111111111111111111".to_vec());
    assert_eq!(field(CommitField::Parent(1)).unwrap(), b"3333333333333333333333333333333333333333".to_vec());
    assert!(field(CommitField::Parent(2)).is_none());
    assert_eq!(field(CommitField::Author).unwrap(), b"Ann Lee".to_vec());
    assert_eq!(field(CommitField::AuthorEmail).unwrap(), b"ann@example.org".to_vec());
    assert_eq!(field(CommitField::AuthorTimestamp).unwrap(), b"1700000000".to_vec());
    assert_eq!(field(CommitField::AuthorTimezone).unwrap(), b"+0100".to_vec());
    assert_eq!(field(CommitField::Committer).unwrap(), b"Bob".to_vec());
    assert_eq!(field(CommitField::CommitterTimezone).unwrap(), b"-0200".to_vec());
    assert_eq!(field(CommitField::Message).unwrap(), b"Subject\n\nBody\n".to_vec());
}

#[test]
fn commit_parents_in_order() {
    let mut it = CommitParentsIter::new(COMMIT);
    assert_eq!(it.next().unwrap().unwrap().to_hex(), b"2222222222222222222222222222222222222222".to_vec());
    assert_eq!(it.next().unwrap().unwrap().to_hex(), b"3333333333333333333333333333333333333333".to_vec());
    assert!(it.next().unwrap().is_none());
}

#[test]
fn malformed_commits_are_invalid_object() {
    assert!(matches!(get_commit_field(b"tree abc\n", CommitField::Tree), Err(Error::InvalidObject)));
    assert!(matches!(get_commit_field(b"treeabc\n\nmsg", CommitField::Tree), Err(Error::InvalidObject)));
    assert!(matches!(get_commit_field(b"author nobody\n\n", CommitField::Author), Err(Error::InvalidObject)));
    assert!(matches!(get_commit_field_hash(b"tree xyz\n\n", CommitField::Tree), Err(Error::InvalidObject)));
    assert!(get_commit_field(b"tree a\n\n", CommitField::Message).unwrap().is_none());
}

#[test]
fn non_utf8_commit_is_invalid_object() {
    let commit = b"tree 1111111111111111111111111111111111111111\nauthor \xff <e> 0 +0000\n\nm\n";
    assert!(matches!(get_commit_field(commit, CommitField::Tree), Err(Error::InvalidObject)));
}
