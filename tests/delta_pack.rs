use litegit::delta::{checked_shift_add, read_hdr_size, reconstruct};
use litegit::hash;
use litegit::objects::{object_hash, ObjectStore, ObjectType};
use litegit::packfile::{
    dump_packfile_header, finish_record, InflateStatus, dump_packfile_object, parse_packfile_header, read_size, resolve_objects,
    write_encoding_size, ObjectEncoding, PackfileObject, PackfileReader,
};
use litegit::Error;

#[test]
fn delta_copy_insert_copy() {
    let source = b"abcdefghij";
    let delta = [0x0a, 0x08, 0x91, 0x02, 0x04, 0x02, b'X', b'Y', 0x90, 0x02];
    assert_eq!(reconstruct(&delta, source).unwrap(), b"cdefXYab".to_vec());
}

#[test]
fn delta_copy_size_zero_means_0x10000() {
    let source = vec![7u8; 0x10000];
    let delta = [0x80, 0x80, 0x04, 0x80, 0x80, 0x04, 0x80];
    assert_eq!(reconstruct(&delta, &source).unwrap(), source);
}

#[test]
fn delta_zero_length_insert_is_invalid() {
    let delta = [0x0a, 0x01, 0x00];
    assert!(matches!(reconstruct(&delta, b"abcdefghij"), Err(Error::InvalidPackfile)));
}

#[test]
fn delta_out_of_bounds_copy_is_invalid() {
    let delta = [0x0a, 0x04, 0x91, 0x08, 0x04];
    assert!(matches!(reconstruct(&delta, b"abcdefghij"), Err(Error::InvalidPackfile)));
}

#[test]
fn delta_truncated_instruction_is_invalid() {
    assert!(matches!(reconstruct(&[0x0a, 0x02, 0x91, 0x02], b"abcdefghij"), Err(Error::InvalidPackfile)));
    assert!(matches!(reconstruct(&[0x0a, 0x02, 0x03, b'a'], b"abcdefghij"), Err(Error::InvalidPackfile)));
    assert!(matches!(reconstruct(&[0x8a], b"abcdefghij"), Err(Error::InvalidPackfile)));
}

#[test]
fn delta_wrong_target_size_is_invalid() {
    let delta = [0x0a, 0x05, 0x02, b'X', b'Y'];
    assert!(matches!(reconstruct(&delta, b"abcdefghij"), Err(Error::InvalidPackfile)));
}

#[test]
fn header_varint_reads_multi_byte_sizes() {
    let mut i = 0;
    assert_eq!(read_hdr_size(&[0x80 | 0x2c, 0x02], &mut i).unwrap(), 300);
    assert_eq!(i, 2);
}

#[test]
fn header_varint_overflow_is_invalid() {
    let mut bytes = vec![0xffu8; 9];
    bytes.push(0x7f);
    let mut i = 0;
    assert!(matches!(read_hdr_size(&bytes, &mut i), Err(Error::InvalidPackfile)));
    let mut top = vec![0x80u8; 9];
    top.push(0x01);
    let mut j = 0;
    assert_eq!(read_hdr_size(&top, &mut j).unwrap(), 1u64 << 63);
}

#[test]
fn shift_add_loses_no_bits() {
    let mut dst = 0u64;
    let mut shift = 63u64;
    assert!(matches!(checked_shift_add(0x03, &mut dst, &mut shift, 7, 0x7f), Err(Error::InvalidPackfile)));
    let mut shift2 = 60u64;
    checked_shift_add(0x05, &mut dst, &mut shift2, 7, 0x7f).unwrap();
    assert_eq!(dst, 5u64 << 60);
    assert_eq!(shift2, 67);
}

#[test]
fn record_size_header_round_trip() {
    for size in [0usize, 15, 16, 127, 128, 300, 1 << 20] {
        let mut buf = Vec::new();
        write_encoding_size(size, 3, &mut buf);
        let (enc, got, n) = read_size(&buf).unwrap().unwrap();
        assert_eq!(enc, ObjectEncoding::Blob);
        assert_eq!(got, size as u64);
        assert_eq!(n, buf.len());
    }
}

#[test]
fn record_size_header_bytes() {
    let mut buf = Vec::new();
    write_encoding_size(300, 1, &mut buf);
    assert_eq!(buf, vec![0x9c, 0x12]);
}

#[test]
fn record_size_overflow_is_invalid() {
    let mut bytes = vec![0xbfu8];
    bytes.extend(vec![0xffu8; 9]);
    bytes.push(0x7f);
    assert!(matches!(read_size(&bytes), Err(Error::InvalidPackfile)));
}

#[test]
fn unused_type_code_is_invalid() {
    assert!(matches!(read_size(&[0x50]), Err(Error::InvalidPackfile)));
    assert!(read_size(&[0xb0]).unwrap().is_none());
}

#[test]
fn packfile_header() {
    let mut buf = Vec::new();
    dump_packfile_header(3, &mut buf);
    assert_eq!(buf, vec![b'P', b'A', b'C', b'K', 0, 0, 0, 2, 0, 0, 0, 3]);
    assert_eq!(parse_packfile_header(&buf).unwrap(), Some(3));
    assert_eq!(parse_packfile_header(&buf[..11]).unwrap(), None);
    buf[7] = 3;
    assert!(matches!(parse_packfile_header(&buf), Err(Error::InvalidPackfile)));
}

fn pack_of(records: &[PackfileObject<Vec<u8>>]) -> Vec<u8> {
    let mut buf = Vec::new();
    dump_packfile_header(records.len(), &mut buf);
    for r in records {
        dump_packfile_object(r, &mut buf);
    }
    buf
}

#[test]
fn reader_reads_plain_and_delta_records() {
    let base = b"abcdefghij".to_vec();
    let base_id = object_hash(ObjectType::Blob, &base);
    let delta = vec![0x0a, 0x08, 0x91, 0x02, 0x04, 0x02, b'X', b'Y', 0x90, 0x02];
    let pack = pack_of(&[
        PackfileObject::RefDelta(delta, base_id),
        PackfileObject::Blob(base),
    ]);
    let mut reader = PackfileReader::from_file(pack).unwrap();
    assert_eq!(reader.num_objects(), 2);
    let mut store = ObjectStore::new();
    reader.read_all_objects(&mut store).unwrap();
    let target = object_hash(ObjectType::Blob, b"cdefXYab");
    let obj = store.get(target).unwrap();
    assert_eq!(obj.content(), b"cdefXYab");
    assert!(obj.delta_hint().unwrap() == base_id);
    assert!(store.has(base_id));
}

#[test]
fn reader_rejects_offset_delta() {
    let mut buf = Vec::new();
    dump_packfile_header(1, &mut buf);
    write_encoding_size(1, 6, &mut buf);
    buf.push(0);
    let mut reader = PackfileReader::from_file(buf).unwrap();
    assert!(matches!(reader.next_object(), Err(Error::InvalidPackfile)));
}

#[test]
fn reader_rejects_bad_signature() {
    assert!(matches!(PackfileReader::from_file(b"PACK\0\0\0\x03\0\0\0\0".to_vec()), Err(Error::InvalidPackfile)));
    assert!(matches!(PackfileReader::from_file(b"PACK".to_vec()), Err(Error::InvalidPackfile)));
}

#[test]
fn missing_delta_source_is_invalid() {
    let mut store = ObjectStore::new();
    let records = vec![PackfileObject::RefDelta(vec![0x01, 0x01, 0x01, b'a'], hash::Hash::new([5; 20]))];
    assert!(matches!(resolve_objects(&mut store, records), Err(Error::InvalidPackfile)));
}

#[test]
fn streamed_side_band_reading() {
    let pack = pack_of(&[PackfileObject::Blob(b"hello".to_vec())]);
    let mut reader = PackfileReader::new();
    assert_eq!(reader.read_header().unwrap(), false);
    let mut progress = vec![2u8];
    progress.extend_from_slice(b"counting");
    assert!(reader.push_line(&progress).unwrap().is_some());
    for chunk in pack.chunks(5) {
        let mut line = vec![1u8];
        line.extend_from_slice(chunk);
        assert!(reader.push_line(&line).unwrap().is_none());
    }
    assert_eq!(reader.out(), &pack);
    assert!(reader.read_header().unwrap());
    match reader.next_object().unwrap().unwrap() {
        PackfileObject::Blob(b) => assert_eq!(b, b"hello".to_vec()),
        _ => panic!("expected a blob"),
    }
    assert!(matches!(reader.push_line(&[9, 1]), Err(Error::GitProtocolError)));
    assert!(matches!(reader.push_line(&[]), Err(Error::GitProtocolError)));
}

#[test]
fn partial_record_needs_more_input() {
    let pack = pack_of(&[PackfileObject::Blob(b"hello world".to_vec())]);
    let mut reader = PackfileReader::from_file(pack[..pack.len() - 3].to_vec()).unwrap();
    assert!(reader.next_object().unwrap().is_none());
}

#[test]
fn shift_add_ors_the_bits() {
    let mut dst = 1u64;
    let mut shift = 0u64;
    checked_shift_add(1, &mut dst, &mut shift, 7, 1).unwrap();
    assert_eq!(dst, 1);
    assert_eq!(shift, 7);
    let mut big = 0u64;
    let mut far = 70u64;
    checked_shift_add(0x80, &mut big, &mut far, 7, 0x7f).unwrap();
    assert_eq!((big, far), (0, 77));
    assert!(matches!(checked_shift_add(1, &mut big, &mut far, 7, 0x7f), Err(Error::InvalidPackfile)));
    assert_eq!((big, far), (0, 77));
}

#[test]
fn finish_record_outcomes() {
    let src = hash::Hash::new([4; 20]);
    match finish_record(ObjectEncoding::RefDelta, src, 3, 10, InflateStatus::Done, 7, 3, b"abc".to_vec()).unwrap() {
        Some((PackfileObject::RefDelta(b, h), used)) => {
            assert_eq!(b, b"abc".to_vec());
            assert!(h == src);
            assert_eq!(used, 7);
        },
        _ => panic!("expected a delta record"),
    }
    assert!(finish_record(ObjectEncoding::Blob, src, 3, 10, InflateStatus::Done, 7, 2, vec![0; 3]).unwrap().is_none());
    assert!(finish_record(ObjectEncoding::Blob, src, 3, 10, InflateStatus::FailedCannotMakeProgress, 0, 0, vec![0; 3]).unwrap().is_none());
    assert!(matches!(finish_record(ObjectEncoding::Blob, src, 3, 10, InflateStatus::Adler32Mismatch, 7, 3, vec![0; 3]), Err(Error::InvalidPackfile)));
    assert!(matches!(finish_record(ObjectEncoding::Blob, src, 3, 5, InflateStatus::Done, 7, 3, vec![0; 3]), Err(Error::InvalidPackfile)));
}

#[test]
fn chained_deltas_resolve_in_later_passes() {
    let base = b"abcdefghij".to_vec();
    let base_id = object_hash(ObjectType::Blob, &base);
    let mid_id = object_hash(ObjectType::Blob, b"cdefXYab");
    let d1 = vec![0x0a, 0x08, 0x91, 0x02, 0x04, 0x02, b'X', b'Y', 0x90, 0x02];
    let d2 = vec![0x08, 0x04, 0x90, 0x04];
    let mut store = ObjectStore::new();
    let records = vec![
        PackfileObject::RefDelta(d2, mid_id),
        PackfileObject::RefDelta(d1, base_id),
        PackfileObject::Blob(base),
    ];
    resolve_objects(&mut store, records).unwrap();
    let last = store.get(object_hash(ObjectType::Blob, b"cdef")).unwrap();
    assert_eq!(last.content(), b"cdef");
    assert!(last.delta_hint().unwrap() == mid_id);
    assert!(store.has(mid_id));
}
