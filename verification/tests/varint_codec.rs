//! Varint codec behaviour: round trips, minimal lengths, and the three
//! rejection conditions.

use car::varint::decode;
use car::varint::encode;

fn encoded_u64(value: u64) -> Vec<u8> {
    let mut buf = encode::u64_buffer();
    let len = encode::u64(value, &mut buf);
    buf.truncate(len);
    buf
}

#[test]
fn is_last_splits_at_continuation_bit() {
    assert!(decode::is_last(0x00));
    assert!(decode::is_last(0x7f));
    assert!(!decode::is_last(0x80));
    assert!(!decode::is_last(0xff));
}

#[test]
fn u8_round_trip() {
    for value in [0u8, 1, 0x7f, 0x80, 0xff] {
        let mut buf = encode::u8_buffer();
        let len = encode::u8(value, &mut buf);
        let (decoded, rest) = decode::u8(&buf[..len]).unwrap();
        assert_eq!(decoded, value);
        assert!(rest.is_empty());
    }
}

#[test]
fn u16_round_trip() {
    for value in [0u16, 0x7f, 0x80, 0x3fff, 0x4000, 0xffff] {
        let mut buf = encode::u16_buffer();
        let len = encode::u16(value, &mut buf);
        let (decoded, rest) = decode::u16(&buf[..len]).unwrap();
        assert_eq!(decoded, value);
        assert!(rest.is_empty());
    }
}

#[test]
fn u32_round_trip() {
    for value in [0u32, 0x7f, 0x80, 0x3fff, 0x4000, 0x1f_ffff, 0xffff_ffff] {
        let mut buf = encode::u32_buffer();
        let len = encode::u32(value, &mut buf);
        let (decoded, rest) = decode::u32(&buf[..len]).unwrap();
        assert_eq!(decoded, value);
        assert!(rest.is_empty());
    }
}

#[test]
fn u64_round_trip() {
    for value in [0u64, 1, 0x7f, 0x80, 300, 0xffff_ffff, u64::MAX - 1, u64::MAX] {
        let bytes = encoded_u64(value);
        let (decoded, rest) = decode::u64(&bytes).unwrap();
        assert_eq!(decoded, value);
        assert!(rest.is_empty());
    }
}

#[test]
fn u128_round_trip() {
    for value in [0u128, 0x7f, 0x80, u64::MAX as u128 + 1, u128::MAX] {
        let mut buf = encode::u128_buffer();
        let len = encode::u128(value, &mut buf);
        let (decoded, rest) = decode::u128(&buf[..len]).unwrap();
        assert_eq!(decoded, value);
        assert!(rest.is_empty());
    }
}

#[test]
fn usize_round_trip() {
    for value in [0usize, 0x7f, 0x80, 4 * 1024 * 1024, usize::MAX] {
        let mut buf = encode::usize_buffer();
        let len = encode::usize(value, &mut buf);
        let (decoded, rest) = decode::usize(&buf[..len]).unwrap();
        assert_eq!(decoded, value);
        assert!(rest.is_empty());
    }
}

#[test]
fn known_encodings() {
    assert_eq!(encoded_u64(0), [0x00]);
    assert_eq!(encoded_u64(1), [0x01]);
    assert_eq!(encoded_u64(127), [0x7f]);
    assert_eq!(encoded_u64(128), [0x80, 0x01]);
    assert_eq!(encoded_u64(300), [0xac, 0x02]);
    assert_eq!(
        encoded_u64(u64::MAX),
        [0xff, 0xff, 0xff, 0xff, 0xff, 0xff, 0xff, 0xff, 0xff, 0x01]
    );
}

#[test]
fn encoding_lengths_are_minimal() {
    assert_eq!(encoded_u64(127).len(), 1);
    assert_eq!(encoded_u64(128).len(), 2);
    assert_eq!(encoded_u64(16383).len(), 2);
    assert_eq!(encoded_u64(16384).len(), 3);
    assert_eq!(encoded_u64(u64::MAX).len(), 10);
}

#[test]
fn non_minimal_two_byte_zero_is_rejected() {
    assert_eq!(decode::u8(&[0x80, 0x00]), Err(decode::Error::NotMinimal));
    assert_eq!(decode::u16(&[0x80, 0x00]), Err(decode::Error::NotMinimal));
    assert_eq!(decode::u32(&[0x80, 0x00]), Err(decode::Error::NotMinimal));
    assert_eq!(decode::u64(&[0x80, 0x00]), Err(decode::Error::NotMinimal));
    assert_eq!(decode::u128(&[0x80, 0x00]), Err(decode::Error::NotMinimal));
    assert_eq!(decode::usize(&[0x80, 0x00]), Err(decode::Error::NotMinimal));
}

#[test]
fn trailing_zero_after_longer_prefix_is_rejected() {
    assert_eq!(decode::u64(&[0x2c, 0x80, 0x00]).unwrap(), (44, &[0x80, 0x00][..]));
    assert_eq!(decode::u64(&[0x80, 0x80, 0x00]), Err(decode::Error::NotMinimal));
}

#[test]
fn empty_and_unterminated_input_is_insufficient() {
    assert_eq!(decode::u64(&[]), Err(decode::Error::Insufficient));
    assert_eq!(decode::u64(&[0x80]), Err(decode::Error::Insufficient));
    assert_eq!(decode::u64(&[0x80, 0x80, 0x80]), Err(decode::Error::Insufficient));
}

#[test]
fn too_many_continuation_bytes_overflow() {
    assert_eq!(decode::u8(&[0x80, 0x80, 0x01]), Err(decode::Error::Overflow));
    assert_eq!(decode::u16(&[0x80, 0x80, 0x80, 0x01]), Err(decode::Error::Overflow));
    assert_eq!(decode::u32(&[0x80; 6]), Err(decode::Error::Overflow));
    assert_eq!(decode::u64(&[0x80; 11]), Err(decode::Error::Overflow));
    assert_eq!(decode::u128(&[0x80; 20]), Err(decode::Error::Overflow));
}

#[test]
fn final_digits_beyond_the_width_wrap() {
    // The last admissible byte may carry more bits than the width has left;
    // the accumulation keeps only the low bits, so the value is reduced
    // modulo the width.
    assert_eq!(decode::u8(&[0x80, 0x04]).unwrap().0, 0);
    assert_eq!(decode::u8(&[0x81, 0x04]).unwrap().0, 1);
    let mut bytes = vec![0x80u8; 9];
    bytes.push(0x02);
    assert_eq!(decode::u64(&bytes).unwrap().0, 0);
}

#[test]
fn decode_returns_the_remaining_slice() {
    let (value, rest) = decode::u64(&[0xac, 0x02, 0xde, 0xad]).unwrap();
    assert_eq!(value, 300);
    assert_eq!(rest, [0xde, 0xad]);
}

#[test]
fn buffers_have_the_fixed_widths() {
    assert_eq!(encode::u8_buffer().len(), 2);
    assert_eq!(encode::u16_buffer().len(), 3);
    assert_eq!(encode::u32_buffer().len(), 5);
    assert_eq!(encode::u64_buffer().len(), 10);
    assert_eq!(encode::u128_buffer().len(), 19);
    assert_eq!(encode::usize_buffer().len(), 10);
}
