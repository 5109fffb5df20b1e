//! Header encode/decode: the round trip, and validation of the root list
//! and the version field.

use car::car::header::CarHeaderV1;
use car::car::{CarHeader, Error};
use car::{Cid, Multihash};

fn sample_cid(data: &[u8]) -> Cid {
    let digest = Multihash::wrap(0x1e, blake3::hash(data).as_bytes()).unwrap();
    Cid::new_v1(0x71, digest)
}

#[test]
fn symmetric_header_v1() {
    let digest = Multihash::wrap(0x1e, blake3::hash(b"test").as_bytes()).unwrap();
    let cid = Cid::new_v1(0x71, digest);

    let header = CarHeaderV1::from(vec![cid]);

    let bytes = CarHeader::V1(header.clone()).encode().unwrap();

    assert_eq!(CarHeader::decode(&bytes).unwrap(), CarHeader::V1(header));
}

#[test]
fn header_encoding_is_deterministic_cbor() {
    // {"roots": [], "version": 7} with the keys in canonical order; no root
    // passes validation, but the codec itself is exact.
    let header = CarHeader::V1(CarHeaderV1::new(Vec::new(), 7));
    let bytes = header.encode().unwrap();
    assert_eq!(
        bytes,
        [
            0xa2, // map of two pairs
            0x65, b'r', b'o', b'o', b't', b's', 0x80, // "roots": []
            0x67, b'v', b'e', b'r', b's', b'i', b'o', b'n', 0x07, // "version": 7
        ]
    );
}

#[test]
fn empty_root_list_is_a_parse_error() {
    let bytes = CarHeader::V1(CarHeaderV1::new(Vec::new(), 1)).encode().unwrap();
    assert!(matches!(CarHeader::decode(&bytes), Err(Error::Parsing(_))));
}

#[test]
fn unsupported_version_is_an_invalid_file() {
    let header = CarHeader::V1(CarHeaderV1::new(vec![sample_cid(b"root")], 2));
    let bytes = header.encode().unwrap();
    assert!(matches!(CarHeader::decode(&bytes), Err(Error::InvalidFile(_))));
}

#[test]
fn garbage_bytes_are_a_parse_error() {
    assert!(matches!(CarHeader::decode(b"not a header"), Err(Error::Parsing(_))));
    assert!(matches!(CarHeader::decode(&[]), Err(Error::Parsing(_))));
}

#[test]
fn trailing_data_after_the_header_is_rejected() {
    let mut bytes = CarHeader::V1(CarHeaderV1::new(vec![sample_cid(b"r")], 1))
        .encode()
        .unwrap();
    bytes.push(0x00);
    assert!(matches!(CarHeader::decode(&bytes), Err(Error::Parsing(_))));
}

#[test]
fn header_accessors() {
    let cid = sample_cid(b"root");
    let header = CarHeader::new_v1(vec![cid.clone()]);
    assert_eq!(header.version(), 1);
    assert_eq!(header.roots().len(), 1);
    assert_eq!(header.roots()[0], cid);
}

#[test]
fn decode_preserves_roots_in_order() {
    let a = sample_cid(b"a");
    let b = sample_cid(b"b");
    let header = CarHeader::new_v1(vec![a.clone(), b.clone()]);
    let bytes = header.encode().unwrap();
    let decoded = CarHeader::decode(&bytes).unwrap();
    assert_eq!(decoded.roots().as_slice(), &[a, b][..]);
}

#[test]
fn cid_binary_form_round_trips() {
    let cid = sample_cid(b"cid round trip");
    let mut bytes = Vec::new();
    cid.write_bytes(&mut bytes);
    bytes.extend_from_slice(b"payload");
    let (parsed, used) = Cid::read_bytes(&bytes).unwrap();
    assert_eq!(parsed, cid);
    assert_eq!(&bytes[used..], b"payload");
}

#[test]
fn cid_rejects_foreign_versions() {
    let cid = sample_cid(b"x");
    let mut bytes = Vec::new();
    cid.write_bytes(&mut bytes);
    bytes[0] = 0x02;
    assert!(Cid::read_bytes(&bytes).is_err());
}

#[test]
fn multihash_over_capacity_is_rejected() {
    let long = [0u8; 65];
    assert!(Multihash::wrap(0x1e, &long).is_err());
    let exact = [0u8; 64];
    let mh = Multihash::wrap(0x1e, &exact).unwrap();
    assert_eq!(mh.size(), 64);
    assert_eq!(mh.code(), 0x1e);
}
