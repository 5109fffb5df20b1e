//! The length-delimited framer: frame round trips, the size cap, and the
//! split between a clean end of input and a truncated frame.

use car::car::util::{ld_read, read_varint_usize, write_varint_usize, MAX_ALLOC};
use car::varint::ReadError;
use car::car::Error;
use car::stream::{Cursor, StreamWrite};
use car::varint::decode;

fn ld_write(writer: &mut Vec<u8>, bytes: &[u8]) {
    write_varint_usize(bytes.len(), writer).unwrap();
    writer.write_all(bytes).unwrap();
    writer.flush().unwrap();
}

#[test]
fn ld_read_write_good() {
    let mut buffer = Vec::<u8>::new();
    ld_write(&mut buffer, b"test bytes");
    let mut reader = Cursor::new(buffer);

    let mut buffer = vec![1u8; 1024];
    let read = ld_read(&mut reader, &mut buffer).unwrap().unwrap();
    assert_eq!(&buffer[..read], b"test bytes");
}

#[test]
fn ld_read_write_fail() {
    let mut buffer = Vec::<u8>::new();
    let size = MAX_ALLOC + 1;
    ld_write(&mut buffer, &vec![2u8; size]);
    let mut reader = Cursor::new(buffer);

    let mut buffer = vec![1u8; 1024];
    let read = ld_read(&mut reader, &mut buffer);
    assert!(matches!(read, Err(Error::LdReadTooLarge(_))));
}

#[test]
fn oversized_frame_reports_its_declared_length() {
    // A declared length of 4 MiB + 1, with no payload behind it: the
    // declaration alone must be refused, with the length in the error.
    let mut buffer = Vec::<u8>::new();
    write_varint_usize(4 * 1024 * 1024 + 1, &mut buffer).unwrap();
    let mut reader = Cursor::new(buffer);

    let mut scratch = Vec::new();
    match ld_read(&mut reader, &mut scratch) {
        Err(Error::LdReadTooLarge(len)) => assert_eq!(len, 4194305),
        other => panic!("expected LdReadTooLarge, got {:?}", other),
    }
}

#[test]
fn clean_end_between_frames_is_no_frame() {
    let mut reader = Cursor::new(Vec::new());
    let mut scratch = Vec::new();
    assert!(matches!(ld_read(&mut reader, &mut scratch), Ok(None)));
    assert!(matches!(ld_read(&mut reader, &mut scratch), Ok(None)));
}

#[test]
fn truncated_payload_is_an_error() {
    let mut buffer = Vec::<u8>::new();
    write_varint_usize(10, &mut buffer).unwrap();
    buffer.write_all(b"short").unwrap();
    let mut reader = Cursor::new(buffer);

    let mut scratch = Vec::new();
    assert!(matches!(ld_read(&mut reader, &mut scratch), Err(Error::Io(_))));
}

#[test]
fn truncated_length_prefix_is_an_error() {
    let mut reader = Cursor::new(vec![0x80u8, 0x80]);
    let mut scratch = Vec::new();
    assert!(matches!(ld_read(&mut reader, &mut scratch), Err(Error::Io(_))));
}

#[test]
fn non_minimal_length_prefix_is_an_error() {
    let mut reader = Cursor::new(vec![0x80u8, 0x00]);
    let mut scratch = Vec::new();
    assert!(matches!(ld_read(&mut reader, &mut scratch), Err(Error::Parsing(_))));
}

#[test]
fn stream_varint_reads_one_value() {
    let mut bytes = Vec::new();
    write_varint_usize(300, &mut bytes).unwrap();
    bytes.push(0x55);
    let mut reader = Cursor::new(bytes);
    assert_eq!(read_varint_usize(&mut reader).unwrap(), Some(300));
}

#[test]
fn stream_varint_clean_eof_is_no_value() {
    let mut reader = Cursor::new(Vec::new());
    assert_eq!(read_varint_usize(&mut reader).unwrap(), None);
}

#[test]
fn stream_varint_eof_mid_value_is_an_error() {
    let mut reader = Cursor::new(vec![0x80u8]);
    assert!(matches!(read_varint_usize(&mut reader), Err(ReadError::Io(_))));
}

#[test]
fn stream_varint_overflow() {
    let mut reader = Cursor::new(vec![0x80u8; 11]);
    assert_eq!(
        read_varint_usize(&mut reader),
        Err(ReadError::Decode(decode::Error::Overflow))
    );
}

#[test]
fn scratch_buffer_grows_and_is_reused() {
    let mut bytes = Vec::new();
    ld_write(&mut bytes, b"first frame payload");
    ld_write(&mut bytes, b"2nd");
    let mut reader = Cursor::new(bytes);

    let mut scratch = Vec::new();
    let first = ld_read(&mut reader, &mut scratch).unwrap().unwrap();
    assert_eq!(first, 19);
    assert!(scratch.len() >= 19);
    let grown = scratch.len();
    let second = ld_read(&mut reader, &mut scratch).unwrap().unwrap();
    assert_eq!(&scratch[..second], b"2nd");
    assert_eq!(scratch.len(), grown);
}
