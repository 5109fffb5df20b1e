//! The archive reader: parses the header frame once, then lazily yields
//! block records until the stream is cleanly exhausted or a frame is
//! malformed.

use vstd::prelude::*;

verus! {

use crate::stream::StreamRead;
use crate::cid::Cid;
use super::codec::{HeaderView, parse_header};
use super::header::CarHeader;
use super::error::Error;
use super::util::{ld_read, read_node, parse_frame, parse_block, FrameStep, BlockStep};

/// Reads the blocks of a CAR stream.
#[derive(Debug)]
pub struct CarReader<R> {
    reader: R,
    header: CarHeader,
    buffer: Vec<u8>,
}

impl<R: StreamRead> CarReader<R> {
    /// The bytes the underlying stream will still yield.
    pub closed spec fn remaining(&self) -> Seq<u8> {
        self.reader.remaining()
    }

    /// The header parsed at construction.
    pub closed spec fn spec_header(&self) -> HeaderView {
        self.header@
    }

    /// Whether the underlying stream is one that cannot fail on its own.
    pub closed spec fn infallible(&self) -> bool {
        self.reader.infallible()
    }

    /// Creates a new CarReader and parses the CarHeader.
    pub fn new(reader: R) -> (r: Result<Self, Error>)
        ensures
            reader.infallible() && !(parse_frame(reader.remaining()) is Truncated) ==> !(
            r matches Err(Error::Io(_))),
            match parse_frame(reader.remaining()) {
                FrameStep::NoFrame => (r matches Err(Error::Parsing(_))) || (r matches Err(
                    Error::Io(_),
                )),
                FrameStep::Frame { content, used } => match parse_header(content) {
                    Some(m) => {
                        if m.roots.len() == 0 {
                            (r matches Err(Error::Parsing(_))) || (r matches Err(Error::Io(_)))
                        } else if m.version != 1 {
                            (r matches Err(Error::InvalidFile(_))) || (r matches Err(
                                Error::Io(_),
                            ))
                        } else {
                            ({
                                &&& r matches Ok(cr)
                                &&& cr.spec_header() == m
                                &&& cr.remaining() == reader.remaining().skip(used)
                                &&& cr.infallible() == reader.infallible()
                            }) || (r matches Err(Error::Io(_)))
                        }
                    },
                    None => (r matches Err(Error::Parsing(_))) || (r matches Err(Error::Io(_))),
                },
                FrameStep::TooLarge { len, used } => (r matches Err(Error::LdReadTooLarge(l))
                    && l as nat == len) || (r matches Err(Error::Io(_))),
                FrameStep::Truncated => r matches Err(Error::Io(_)),
                FrameStep::BadVarint => (r matches Err(Error::Parsing(_))) || (r matches Err(
                    Error::Io(_),
                )),
            },
    {
        let mut reader = reader;
        let mut buffer: Vec<u8> = Vec::new();
        let len = match ld_read(&mut reader, &mut buffer) {
            Ok(Some(len)) => len,
            Ok(None) => {
                return Err(Error::Parsing("failed to parse uvarint for header".to_string()));
            },
            Err(e) => {
                return Err(e);
            },
        };
        let content = vstd::slice::slice_subrange(buffer.as_slice(), 0, len);
        match CarHeader::decode(content) {
            Ok(header) => Ok(CarReader { reader, header, buffer }),
            Err(e) => Err(e),
        }
    }

    /// Returns the header of this car file.
    pub fn header(&self) -> (r: &CarHeader)
        ensures
            r@ == self.spec_header(),
    {
        &self.header
    }

    /// Returns the next block in the stream: `Ok(None)` exactly at a clean
    /// end of the archive, which later calls report again.
    pub fn next_block(&mut self) -> (r: Result<Option<(Cid, Vec<u8>)>, Error>)
        ensures
            final(self).spec_header() == old(self).spec_header(),
            final(self).infallible() == old(self).infallible(),
            old(self).infallible() && !(parse_block(old(self).remaining()) is Truncated) ==> !(
            r matches Err(Error::Io(_))),
            match parse_block(old(self).remaining()) {
                BlockStep::NoBlock => (r matches Ok(q) && q is None && final(self).remaining()
                    == old(self).remaining()) || (r matches Err(Error::Io(_))),
                BlockStep::Block { cid, payload, used } => ({
                    &&& r matches Ok(q)
                    &&& q matches Some(p)
                    &&& p.0@ == cid
                    &&& p.0.wf()
                    &&& p.1@ == payload
                    &&& final(self).remaining() == old(self).remaining().skip(used)
                }) || (r matches Err(Error::Io(_))),
                BlockStep::TooLarge { len, used } => (r matches Err(Error::LdReadTooLarge(l))
                    && l as nat == len) || (r matches Err(Error::Io(_))),
                BlockStep::Truncated => r matches Err(Error::Io(_)),
                BlockStep::BadVarint => (r matches Err(Error::Parsing(_))) || (r matches Err(
                    Error::Io(_),
                )),
                BlockStep::BadCid => (r matches Err(Error::Parsing(_))) || (r matches Err(
                    Error::Io(_),
                )),
            },
    {
        read_node(&mut self.reader, &mut self.buffer)
    }

    /// A consuming forward-only traversal of the remaining blocks.
    pub fn into_iter(self) -> (r: Iter<R>)
        ensures
            r.remaining() == self.remaining(),
            r.spec_header() == self.spec_header(),
            r.infallible() == self.infallible(),
            !r.done(),
    {
        Iter { reader: self, failed: false }
    }
}

/// A single-use cursor over the blocks of a [`CarReader`]: after the first
/// error it reports nothing further.
pub struct Iter<R> {
    reader: CarReader<R>,
    failed: bool,
}

impl<R: StreamRead> Iter<R> {
    /// The bytes the underlying stream will still yield.
    pub closed spec fn remaining(&self) -> Seq<u8> {
        self.reader.remaining()
    }

    /// The header parsed at construction.
    pub closed spec fn spec_header(&self) -> HeaderView {
        self.reader.spec_header()
    }

    /// Whether the underlying stream is one that cannot fail on its own.
    pub closed spec fn infallible(&self) -> bool {
        self.reader.infallible()
    }

    /// Whether an error has already been reported.
    pub closed spec fn done(&self) -> bool {
        self.failed
    }

    /// The next block; `None` at a clean end of the archive, and always
    /// `None` once an error has been reported.
    pub fn next(&mut self) -> (r: Option<Result<(Cid, Vec<u8>), Error>>)
        ensures
            final(self).spec_header() == old(self).spec_header(),
            final(self).infallible() == old(self).infallible(),
            old(self).done() == false && old(self).infallible() && !(parse_block(
                old(self).remaining(),
            ) is Truncated) ==> !(r matches Some(q) && q matches Err(Error::Io(_))),
            old(self).done() ==> r is None && final(self).done(),
            old(self).done() == false ==> match parse_block(old(self).remaining()) {
                BlockStep::NoBlock => (r is None && final(self).done() == false
                    && final(self).remaining() == old(self).remaining()) || (r matches Some(q)
                    && q matches Err(Error::Io(_)) && final(self).done()),
                BlockStep::Block { cid, payload, used } => ({
                    &&& r matches Some(q)
                    &&& q matches Ok(p)
                    &&& p.0@ == cid
                    &&& p.1@ == payload
                    &&& final(self).remaining() == old(self).remaining().skip(used)
                    &&& final(self).done() == false
                }) || (r matches Some(q) && q matches Err(Error::Io(_)) && final(self).done()),
                _ => r matches Some(q) && q is Err && final(self).done(),
            },
    {
        if self.failed {
            return None;
        }
        match self.reader.next_block() {
            Ok(Some(p)) => Some(Ok(p)),
            Ok(None) => None,
            Err(e) => {
                self.failed = true;
                Some(Err(e))
            },
        }
    }
}

} // verus!
