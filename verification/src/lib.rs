//! A verified implementation of the CAR (content addressable archive) v1
//! binary container format: a varint codec, a length-delimited framer, the
//! archive header, and streaming reader and writer over an abstract byte
//! stream.

pub mod car;
pub mod cid;
pub mod multihash;
pub mod stream;
pub mod varint;

pub use car::CarHeader;
pub use car::CarReader;
pub use car::CarWriter;
pub use cid::Cid;
pub use multihash::Multihash;
