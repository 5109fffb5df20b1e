//! Whole-archive behaviour: writing then reading an archive, the lazy
//! header, end-of-archive versus truncation, and the one-shot traversal.

use car::car::{CarHeader, CarReader, CarWriter, Error};
use car::stream::Cursor;
use car::{Cid, Multihash};

fn id(data: &[u8]) -> Cid {
    let digest = Multihash::wrap(0x1e, blake3::hash(data).as_bytes()).unwrap();
    Cid::new_v1(0x71, digest)
}

#[test]
fn car_write_read() {
    let cid_test = id(b"test");
    let cid_foo = id(b"foo");

    let header = CarHeader::new_v1(vec![cid_foo.clone()]);

    let mut writer = CarWriter::new(header, Vec::new());
    writer.write(cid_test.clone(), b"test").unwrap();
    writer.write(cid_foo.clone(), b"foo").unwrap();
    let buffer = writer.finish().unwrap();

    let reader = Cursor::new(buffer);
    let mut car_reader = CarReader::new(reader).unwrap();
    assert_eq!(car_reader.header().version(), 1);
    assert_eq!(car_reader.header().roots().as_slice(), &[cid_foo.clone()]);

    let mut files = Vec::new();
    while let Some(block) = car_reader.next_block().unwrap() {
        files.push(block);
    }

    assert_eq!(files.len(), 2);
    assert_eq!(files[0].0, cid_test);
    assert_eq!(files[0].1, b"test");
    assert_eq!(files[1].0, cid_foo);
    assert_eq!(files[1].1, b"foo");
}

#[test]
fn round_trip_preserves_many_blocks_in_order() {
    let roots = vec![id(b"r1"), id(b"r2")];
    let header = CarHeader::new_v1(roots.clone());
    let mut writer = CarWriter::new(header, Vec::new());
    let mut expected = Vec::new();
    let mut i: u32 = 0;
    while i < 20 {
        let data = format!("payload number {}", i).into_bytes();
        let cid = id(&data);
        writer.write(cid.clone(), &data).unwrap();
        expected.push((cid, data));
        i += 1;
    }
    let bytes = writer.finish().unwrap();

    let mut reader = CarReader::new(Cursor::new(bytes)).unwrap();
    assert_eq!(reader.header().roots().as_slice(), roots.as_slice());
    for (cid, data) in expected {
        let (got_cid, got_data) = reader.next_block().unwrap().unwrap();
        assert_eq!(got_cid, cid);
        assert_eq!(got_data, data);
    }
    assert!(reader.next_block().unwrap().is_none());
}

#[test]
fn header_is_written_lazily_and_once() {
    let header = CarHeader::new_v1(vec![id(b"root")]);
    let header_bytes = header.encode().unwrap();

    let mut writer = CarWriter::new(header, Vec::new());
    let first = writer.write_header().unwrap();
    assert!(first > header_bytes.len());
    let second = writer.write_header().unwrap();
    assert_eq!(second, 0);

    let bytes = writer.into_inner();
    // varint length prefix followed by exactly the encoded header
    assert_eq!(&bytes[bytes.len() - header_bytes.len()..], header_bytes.as_slice());
}

#[test]
fn write_emits_header_implicitly() {
    let header = CarHeader::new_v1(vec![id(b"root")]);
    let mut writer = CarWriter::new(header, Vec::new());
    let written = writer.write(id(b"block"), b"data").unwrap();
    assert!(written > 4);
    let bytes = writer.finish().unwrap();

    let mut reader = CarReader::new(Cursor::new(bytes)).unwrap();
    let (cid, data) = reader.next_block().unwrap().unwrap();
    assert_eq!(cid, id(b"block"));
    assert_eq!(data, b"data");
}

#[test]
fn end_of_archive_is_idempotent() {
    let header = CarHeader::new_v1(vec![id(b"root")]);
    let mut writer = CarWriter::new(header, Vec::new());
    writer.write_header().unwrap();
    let bytes = writer.finish().unwrap();

    let mut reader = CarReader::new(Cursor::new(bytes)).unwrap();
    assert!(reader.next_block().unwrap().is_none());
    assert!(reader.next_block().unwrap().is_none());
}

#[test]
fn truncated_block_is_an_error_not_an_end() {
    let header = CarHeader::new_v1(vec![id(b"root")]);
    let mut writer = CarWriter::new(header, Vec::new());
    writer.write(id(b"block"), b"some payload").unwrap();
    let mut bytes = writer.finish().unwrap();
    bytes.pop();

    let mut reader = CarReader::new(Cursor::new(bytes)).unwrap();
    assert!(matches!(reader.next_block(), Err(Error::Io(_))));
}

#[test]
fn empty_stream_has_no_header() {
    let result = CarReader::new(Cursor::new(Vec::new()));
    assert!(matches!(result, Err(Error::Parsing(_))));
}

#[test]
fn oversized_first_frame_is_reported_as_too_large() {
    let mut bytes = Vec::new();
    car::car::util::write_varint_usize(4 * 1024 * 1024 + 1, &mut bytes).unwrap();
    match CarReader::new(Cursor::new(bytes)) {
        Err(Error::LdReadTooLarge(len)) => assert_eq!(len, 4194305),
        other => panic!("expected LdReadTooLarge, got {:?}", other.err()),
    }
}

#[test]
fn iterator_yields_blocks_then_stops() {
    let header = CarHeader::new_v1(vec![id(b"root")]);
    let mut writer = CarWriter::new(header, Vec::new());
    writer.write(id(b"one"), b"one").unwrap();
    writer.write(id(b"two"), b"two").unwrap();
    let bytes = writer.finish().unwrap();

    let reader = CarReader::new(Cursor::new(bytes)).unwrap();
    let mut iter = reader.into_iter();
    assert_eq!(iter.next().unwrap().unwrap().1, b"one");
    assert_eq!(iter.next().unwrap().unwrap().1, b"two");
    assert!(iter.next().is_none());
    assert!(iter.next().is_none());
}

#[test]
fn iterator_reports_an_error_once_then_stops() {
    let header = CarHeader::new_v1(vec![id(b"root")]);
    let mut writer = CarWriter::new(header, Vec::new());
    writer.write(id(b"one"), b"payload one").unwrap();
    let mut bytes = writer.finish().unwrap();
    bytes.pop();

    let reader = CarReader::new(Cursor::new(bytes)).unwrap();
    let mut iter = reader.into_iter();
    assert!(iter.next().unwrap().is_err());
    assert!(iter.next().is_none());
    assert!(iter.next().is_none());
}

#[test]
fn into_inner_skips_the_flush_but_keeps_the_bytes() {
    let header = CarHeader::new_v1(vec![id(b"root")]);
    let mut writer = CarWriter::new(header.clone(), Vec::new());
    writer.write(id(b"b"), b"b").unwrap();
    let via_inner = writer.into_inner();

    let mut writer = CarWriter::new(header, Vec::new());
    writer.write(id(b"b"), b"b").unwrap();
    let via_finish = writer.finish().unwrap();

    assert_eq!(via_inner, via_finish);
}
