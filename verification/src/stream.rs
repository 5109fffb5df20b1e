//! The byte-stream abstraction the archive reader and writer are built on:
//! blocking sequential sources and sinks, modelled by the byte sequence a
//! source will still yield and the byte sequence a sink has accepted.
//!
//! In-memory implementations live here ([`Cursor`] to read, `Vec<u8>` to
//! write); adapters over real I/O can implement the same traits outside the
//! verified core.

use vstd::prelude::*;

verus! {

/// Reason a stream operation failed.
#[derive(Clone, Copy, Debug, PartialEq, Eq, Structural)]
pub enum IoErrorKind {
    /// The source ended before the requested bytes were read.
    UnexpectedEof,
    /// Any other failure of the underlying stream.
    Other,
}

/// Failure of an underlying stream.
#[derive(Clone, Copy, Debug, PartialEq, Eq, Structural)]
pub struct IoError {
    pub kind: IoErrorKind,
}

/// A blocking source of bytes, modelled by the sequence of bytes it will
/// still yield. A real transport may fail at any point; when it succeeds it
/// hands over exactly the front of `remaining`.
pub trait StreamRead: Sized {
    /// The bytes this source will still yield, oldest first.
    spec fn remaining(&self) -> Seq<u8>;

    /// Whether this source can fail at all: an in-memory source cannot, a
    /// real transport can. When it holds, reads succeed whenever the bytes
    /// are there.
    spec fn infallible(&self) -> bool;

    /// Read a single byte; `Ok(None)` reports a cleanly exhausted source.
    fn read_byte(&mut self) -> (r: Result<Option<u8>, IoError>)
        ensures
            final(self).infallible() == old(self).infallible(),
            old(self).infallible() ==> r is Ok,
            match r {
                Ok(Some(b)) => {
                    &&& old(self).remaining().len() > 0
                    &&& b == old(self).remaining()[0]
                    &&& final(self).remaining() == old(self).remaining().skip(1)
                },
                Ok(None) => {
                    &&& old(self).remaining().len() == 0
                    &&& final(self).remaining() == old(self).remaining()
                },
                Err(_) => true,
            },
    ;

    /// Read exactly `n` bytes into the front of `buf`, leaving the rest of
    /// `buf` untouched; fails if the source ends first.
    fn read_exact(&mut self, buf: &mut Vec<u8>, n: usize) -> (r: Result<(), IoError>)
        requires
            n <= old(buf).len(),
        ensures
            final(self).infallible() == old(self).infallible(),
            final(buf)@.len() == old(buf)@.len(),
            old(self).infallible() && n <= old(self).remaining().len() ==> r is Ok,
            match r {
                Ok(()) => {
                    &&& n <= old(self).remaining().len()
                    &&& final(buf)@ == old(self).remaining().take(n as int) + old(
                        buf,
                    )@.skip(n as int)
                    &&& final(self).remaining() == old(self).remaining().skip(n as int)
                },
                Err(_) => true,
            },
    ;
}

/// A blocking sink of bytes, modelled by the sequence of bytes it has
/// accepted so far.
pub trait StreamWrite: Sized {
    /// Every byte this sink has accepted, oldest first.
    spec fn written(&self) -> Seq<u8>;

    /// Whether this sink can fail at all: an in-memory sink cannot, a real
    /// transport can. When it holds, writes always succeed.
    spec fn infallible(&self) -> bool;

    /// Write all of `data`, or fail; a failure may leave any prefix written.
    fn write_all(&mut self, data: &[u8]) -> (r: Result<(), IoError>)
        ensures
            final(self).infallible() == old(self).infallible(),
            old(self).infallible() ==> r is Ok,
            match r {
                Ok(()) => final(self).written() == old(self).written() + data@,
                Err(_) => true,
            },
    ;

    /// Flush the sink; what was accepted is unchanged.
    fn flush(&mut self) -> (r: Result<(), IoError>)
        ensures
            final(self).infallible() == old(self).infallible(),
            old(self).infallible() ==> r is Ok,
            match r {
                Ok(()) => final(self).written() == old(self).written(),
                Err(_) => true,
            },
    ;
}

/// Append all of `data` to an in-memory vector; the infallible core of the
/// sink implementation for `Vec<u8>`.
pub fn push_bytes(out: &mut Vec<u8>, data: &[u8])
    ensures
        final(out)@ == old(out)@ + data@,
{
    let mut j: usize = 0;
    while j < data.len()
        invariant
            0 <= j <= data@.len(),
            out@ == old(out)@ + data@.take(j as int),
        decreases data@.len() - j,
    {
        let b = data[j];
        out.push(b);
        proof {
            assert(old(out)@ + data@.take(j + 1) =~= (old(out)@ + data@.take(j as int)).push(b));
        }
        j = j + 1;
    }
    proof {
        assert(data@.take(data@.len() as int) =~= data@);
    }
}

/// An in-memory source over an owned byte vector.
#[derive(Debug)]
pub struct Cursor {
    data: Vec<u8>,
    pos: usize,
}

impl Cursor {
    /// A source that will yield all of `data`; it cannot fail.
    pub fn new(data: Vec<u8>) -> (r: Cursor)
        ensures
            r.remaining() == data@,
            r.infallible(),
    {
        Cursor { data, pos: 0 }
    }
}

impl StreamRead for Cursor {
    closed spec fn remaining(&self) -> Seq<u8> {
        if self.pos <= self.data@.len() {
            self.data@.skip(self.pos as int)
        } else {
            Seq::empty()
        }
    }

    closed spec fn infallible(&self) -> bool {
        true
    }

    fn read_byte(&mut self) -> (r: Result<Option<u8>, IoError>) {
        if self.pos < self.data.len() {
            let b = self.data[self.pos];
            self.pos = self.pos + 1;
            proof {
                assert(old(self).remaining()[0] == b);
                assert(final(self).remaining() =~= old(self).remaining().skip(1));
            }
            Ok(Some(b))
        } else {
            Ok(None)
        }
    }

    fn read_exact(&mut self, buf: &mut Vec<u8>, n: usize) -> (r: Result<(), IoError>) {
        if n == 0 {
            proof {
                assert(final(buf)@ =~= old(self).remaining().take(0) + old(buf)@.skip(0));
                assert(final(self).remaining() =~= old(self).remaining().skip(0));
            }
            return Ok(());
        }
        if n > self.data.len() || self.pos > self.data.len() - n {
            return Err(IoError { kind: IoErrorKind::UnexpectedEof });
        }
        let dlen: usize = self.data.len();
        let mut j: usize = 0;
        while j < n
            invariant
                0 <= j <= n,
                n <= buf@.len() == old(buf)@.len(),
                self.pos == old(self).pos + j,
                self.data == old(self).data,
                dlen == self.data@.len(),
                old(self).pos + n <= self.data@.len(),
                forall|x: int| 0 <= x < j ==> buf@[x] == self.data@[old(self).pos + x],
                forall|x: int| j <= x < buf@.len() ==> buf@[x] == old(buf)@[x],
            decreases n - j,
        {
            let b = self.data[self.pos];
            buf.set(j, b);
            self.pos = self.pos + 1;
            j = j + 1;
        }
        proof {
            assert(final(buf)@ =~= old(self).remaining().take(n as int) + old(buf)@.skip(
                n as int,
            ));
            assert(final(self).remaining() =~= old(self).remaining().skip(n as int));
        }
        Ok(())
    }
}

impl StreamWrite for Vec<u8> {
    open spec fn written(&self) -> Seq<u8> {
        self@
    }

    open spec fn infallible(&self) -> bool {
        true
    }

    fn write_all(&mut self, data: &[u8]) -> (r: Result<(), IoError>) {
        push_bytes(self, data);
        Ok(())
    }

    fn flush(&mut self) -> (r: Result<(), IoError>) {
        Ok(())
    }
}

} // verus!
