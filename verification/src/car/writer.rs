//! The archive writer: lazily emits the header frame before the first
//! block, then appends one frame per block.

use vstd::prelude::*;

verus! {

use crate::stream::StreamWrite;
use crate::cid::{Cid, cid_enc};
use super::codec::{HeaderView, header_encoding};
use super::header::CarHeader;
use super::error::Error;
use super::util::write_varint_usize;
use vstd::arithmetic::power2::pow2;
use super::{header_frame, block_frame};

/// Writes a stream of blocks to a sink in CAR format.
#[derive(Debug)]
pub struct CarWriter<W> {
    header: CarHeader,
    writer: W,
    cid_buffer: Vec<u8>,
    is_header_written: bool,
}

impl<W: StreamWrite> CarWriter<W> {
    /// The header this writer was built over.
    pub closed spec fn spec_header(&self) -> HeaderView {
        self.header@
    }

    /// Whether the header frame has been emitted.
    pub closed spec fn header_written(&self) -> bool {
        self.is_header_written
    }

    /// What the underlying sink has accepted.
    pub closed spec fn written(&self) -> Seq<u8> {
        self.writer.written()
    }

    /// Whether the underlying sink is one that cannot fail on its own.
    pub closed spec fn infallible(&self) -> bool {
        self.writer.infallible()
    }

    /// A writer over `writer` that will emit `header` before the first
    /// block.
    pub fn new(header: CarHeader, writer: W) -> (r: Self)
        ensures
            r.spec_header() == header@,
            !r.header_written(),
            r.written() == writer.written(),
            r.infallible() == writer.infallible(),
    {
        CarWriter { header, writer, cid_buffer: Vec::new(), is_header_written: false }
    }

    /// Forces the header to be written. Also called implicitly by `write`.
    ///
    /// Returns the bytes written in this operation.
    pub fn write_header(&mut self) -> (r: Result<usize, Error>)
        requires
            header_encoding(old(self).spec_header()).len() + 10 <= usize::MAX,
        ensures
            final(self).spec_header() == old(self).spec_header(),
            final(self).infallible() == old(self).infallible(),
            old(self).infallible() ==> r is Ok,
            old(self).header_written() ==> r == Ok::<usize, Error>(0) && final(self).written()
                == old(self).written(),
            old(self).header_written() ==> final(self).header_written(),
            r is Err ==> final(self).header_written() == old(self).header_written(),
            match r {
                Ok(k) => {
                    &&& final(self).header_written()
                    &&& final(self).written() == old(self).written() + (if old(
                        self,
                    ).header_written() {
                        Seq::<u8>::empty()
                    } else {
                        header_frame(old(self).spec_header())
                    })
                    &&& k == (if old(self).header_written() {
                        0
                    } else {
                        header_frame(old(self).spec_header()).len()
                    })
                },
                Err(_) => true,
            },
    {
        let mut written: usize = 0;
        if !self.is_header_written {
            let header_bytes = match self.header.encode() {
                Ok(b) => b,
                Err(e) => {
                    return Err(e);
                },
            };
            proof {
                crate::varint::lemma_enc_usize_fits(header_bytes.len());
            }
            written = match write_varint_usize(header_bytes.len(), &mut self.writer) {
                Ok(k) => k,
                Err(e) => {
                    return Err(Error::Io(e));
                },
            };
            match self.writer.write_all(header_bytes.as_slice()) {
                Ok(()) => {},
                Err(e) => {
                    return Err(Error::Io(e));
                },
            }
            written = written + header_bytes.len();
            self.is_header_written = true;
            proof {
                assert(self.writer.written() =~= old(self).written() + header_frame(
                    old(self).spec_header(),
                ));
            }
        }
        Ok(written)
    }

    /// Writes the header if it is still pending, then one block frame: the
    /// varint length, the identifier bytes, the payload bytes, in that
    /// order.
    ///
    /// Returns the bytes written in this operation.
    pub fn write(&mut self, cid: Cid, data: &[u8]) -> (r: Result<usize, Error>)
        requires
            header_encoding(old(self).spec_header()).len() + cid_enc(cid@).len() + data@.len()
                + 20 <= usize::MAX,
        ensures
            final(self).spec_header() == old(self).spec_header(),
            final(self).infallible() == old(self).infallible(),
            old(self).infallible() ==> r is Ok,
            old(self).header_written() ==> final(self).header_written(),
            match r {
                Ok(k) => {
                    &&& final(self).header_written()
                    &&& final(self).written() == old(self).written() + (if old(
                        self,
                    ).header_written() {
                        Seq::<u8>::empty()
                    } else {
                        header_frame(old(self).spec_header())
                    }) + block_frame(cid@, data@)
                    &&& k == (if old(self).header_written() {
                        0
                    } else {
                        header_frame(old(self).spec_header()).len()
                    }) + block_frame(cid@, data@).len()
                },
                Err(_) => true,
            },
    {
        proof {
            use_type_invariant(&cid);
            Cid::lemma_inv_wf(cid);
            crate::cid::lemma_cid_enc_len(cid@);
        }
        proof {
            vstd::arithmetic::power2::lemma2_to64();
            assert((header_encoding(old(self).spec_header()).len() as nat) < pow2(64));
            crate::varint::lemma_enc_u64_fits(header_encoding(old(self).spec_header()).len());
        }
        let mut written: usize = 0;
        written = match self.write_header() {
            Ok(k) => k,
            Err(e) => {
                return Err(e);
            },
        };
        let ghost mid = self.writer.written();

        self.cid_buffer.clear();
        cid.write_bytes(&mut self.cid_buffer);

        let len = self.cid_buffer.len() + data.len();
        proof {
            crate::varint::lemma_enc_usize_fits(len);
        }
        match write_varint_usize(len, &mut self.writer) {
            Ok(k) => {
                written = written + k;
            },
            Err(e) => {
                return Err(Error::Io(e));
            },
        }
        match self.writer.write_all(self.cid_buffer.as_slice()) {
            Ok(()) => {},
            Err(e) => {
                return Err(Error::Io(e));
            },
        }
        match self.writer.write_all(data) {
            Ok(()) => {},
            Err(e) => {
                return Err(Error::Io(e));
            },
        }
        written = written + self.cid_buffer.len();
        written = written + data.len();
        proof {
            assert(cid_enc(cid@) + data@ =~= self.cid_buffer@ + data@);
            assert(self.writer.written() =~= mid + block_frame(cid@, data@));
        }
        Ok(written)
    }

    /// Finishes writing, including flushing, and returns the sink.
    pub fn finish(self) -> (r: Result<W, Error>)
        ensures
            self.infallible() ==> r is Ok,
            match r {
                Ok(w) => w.written() == self.written() && w.infallible() == self.infallible(),
                Err(_) => true,
            },
    {
        let mut this = self;
        match this.flush() {
            Ok(()) => {},
            Err(e) => {
                return Err(e);
            },
        }
        Ok(this.writer)
    }

    /// Flushes the underlying sink.
    pub fn flush(&mut self) -> (r: Result<(), Error>)
        ensures
            final(self).spec_header() == old(self).spec_header(),
            final(self).header_written() == old(self).header_written(),
            final(self).infallible() == old(self).infallible(),
            old(self).infallible() ==> r is Ok,
            match r {
                Ok(()) => final(self).written() == old(self).written(),
                Err(_) => true,
            },
    {
        match self.writer.flush() {
            Ok(()) => Ok(()),
            Err(e) => Err(Error::Io(e)),
        }
    }

    /// Consumes the writer and returns the sink without flushing.
    pub fn into_inner(self) -> (r: W)
        ensures
            r.written() == self.written(),
            r.infallible() == self.infallible(),
    {
        self.writer
    }
}

} // verus!
