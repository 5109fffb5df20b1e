//! The archive header: the ordered root identifiers and the format version,
//! validated on decode.

use vstd::prelude::*;

verus! {

use crate::cid::Cid;
use super::codec::{self, HeaderView, parse_header, header_encoding};
use super::error::Error;

/// CAR file header version 1.
#[derive(Debug, Clone, Default, PartialEq, Eq)]
pub struct CarHeaderV1 {
    pub roots: Vec<Cid>,
    pub version: u64,
}

impl View for CarHeaderV1 {
    type V = HeaderView;

    open spec fn view(&self) -> HeaderView {
        HeaderView { roots: self.roots@.map_values(|c: Cid| c@), version: self.version }
    }
}

impl CarHeaderV1 {
    /// Creates a new CAR file header.
    pub fn new(roots: Vec<Cid>, version: u64) -> (r: Self)
        ensures
            r@ == (HeaderView { roots: roots@.map_values(|c: Cid| c@), version }),
    {
        Self { roots, version }
    }
}

impl From<Vec<Cid>> for CarHeaderV1 {
    /// A version 1 header over the given roots.
    fn from(roots: Vec<Cid>) -> (r: Self) {
        Self { roots, version: 1 }
    }
}

impl vstd::std_specs::convert::FromSpecImpl<Vec<Cid>> for CarHeaderV1 {
    open spec fn obeys_from_spec() -> bool {
        true
    }

    open spec fn from_spec(roots: Vec<Cid>) -> Self {
        CarHeaderV1 { roots, version: 1 }
    }
}

/// A car header.
#[derive(Debug, Clone, PartialEq, Eq)]
pub enum CarHeader {
    V1(CarHeaderV1),
}

impl View for CarHeader {
    type V = HeaderView;

    open spec fn view(&self) -> HeaderView {
        match self {
            CarHeader::V1(h) => h@,
        }
    }
}

impl CarHeader {
    /// A version 1 header over the given roots.
    pub fn new_v1(roots: Vec<Cid>) -> (r: Self)
        ensures
            r@ == (HeaderView { roots: roots@.map_values(|c: Cid| c@), version: 1 }),
    {
        Self::V1(CarHeaderV1 { roots, version: 1 })
    }

    /// Decode a header from its canonical byte form, then validate it: the
    /// root list must be nonempty and the version must be 1.
    pub fn decode(buffer: &[u8]) -> (r: Result<Self, Error>)
        ensures
            match parse_header(buffer@) {
                Some(m) => {
                    if m.roots.len() == 0 {
                        r matches Err(Error::Parsing(_))
                    } else if m.version != 1 {
                        r matches Err(Error::InvalidFile(_))
                    } else {
                        r matches Ok(h) && h@ == m
                    }
                },
                None => r matches Err(Error::Parsing(_)),
            },
    {
        let (roots, version) = match codec::decode_header(buffer) {
            Some(p) => p,
            None => {
                return Err(Error::Parsing("invalid CAR header encoding".to_string()));
            },
        };
        if roots.len() == 0 {
            return Err(Error::Parsing("empty CAR file".to_string()));
        }
        if version != 1 {
            return Err(Error::InvalidFile("Only CAR file version 1 is supported".to_string()));
        }
        Ok(CarHeader::V1(CarHeaderV1 { roots, version }))
    }

    /// Encode this header canonically. Encoding a validated header cannot
    /// fail; the `Result` keeps the signature symmetric with decoding.
    pub fn encode(&self) -> (r: Result<Vec<u8>, Error>)
        ensures
            r matches Ok(v) && v@ == header_encoding(self@),
    {
        match self {
            CarHeader::V1(header) => {
                let res = codec::encode_header(&header.roots, header.version);
                Ok(res)
            },
        }
    }

    /// The ordered root identifiers.
    pub fn roots(&self) -> (r: &Vec<Cid>)
        ensures
            r@.map_values(|c: Cid| c@) == self@.roots,
    {
        match self {
            CarHeader::V1(header) => &header.roots,
        }
    }

    /// The format version.
    pub fn version(&self) -> (r: u64)
        ensures
            r == 1,
    {
        match self {
            CarHeader::V1(_) => 1,
        }
    }
}

} // verus!
