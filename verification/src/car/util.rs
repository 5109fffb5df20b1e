//! The length-delimited framer: one size-prefixed opaque frame per read or
//! write, with a cap on the declared size and a reusable scratch buffer.

use vstd::prelude::*;

verus! {

use vstd::arithmetic::power2::pow2;
use crate::stream::{StreamRead, StreamWrite, IoError, IoErrorKind};
use crate::varint::{vint_enc, vint_raw, vdecode, VarintStep, lemma_term_idx_at, lemma_term_idx_none,
    lemma_vdecode_enc, lemma_enc_u64_fits, lemma_mod_small_u64};
use crate::varint::decode;
use crate::varint::ReadError;
use crate::varint::encode;
use crate::cid::{Cid, CidView, cid_enc, cid_wf, parse_cid, lemma_parse_cid_enc};
use super::error::Error;

/// Maximum size that is used for a single node.
pub const MAX_ALLOC: usize = 4 * 1024 * 1024;

/// Outcome of taking one frame off the front of a byte sequence.
pub enum FrameStep {
    /// The sequence is empty: a clean end between frames.
    NoFrame,
    /// A frame of `content`, occupying `used` bytes with its length prefix.
    Frame { content: Seq<u8>, used: int },
    /// The declared length exceeds [`MAX_ALLOC`]; `used` is the size of
    /// the length prefix, the only bytes consumed.
    TooLarge { len: nat, used: int },
    /// The sequence ends inside the length prefix or inside the payload.
    Truncated,
    /// The length prefix is not an acceptable varint.
    BadVarint,
}

/// Take one length-prefixed frame off the front of `s`, as the framer does:
/// a `usize` varint length, capped at [`MAX_ALLOC`], then that many payload
/// bytes.
pub open spec fn parse_frame(s: Seq<u8>) -> FrameStep {
    match vdecode(s, 9) {
        VarintStep::Decoded { value, used } => {
            let len = ((value % pow2(64)) as u64) as usize;
            if len > MAX_ALLOC {
                FrameStep::TooLarge { len: len as nat, used }
            } else if s.len() - used < len {
                FrameStep::Truncated
            } else {
                FrameStep::Frame { content: s.skip(used).take(len as int), used: used + len }
            }
        },
        VarintStep::Insufficient => {
            if s.len() == 0 {
                FrameStep::NoFrame
            } else {
                FrameStep::Truncated
            }
        },
        _ => FrameStep::BadVarint,
    }
}

/// Outcome of taking one block record off the front of a byte sequence.
pub enum BlockStep {
    /// A clean end between frames.
    NoBlock,
    /// A block: its identifier, its payload, and the bytes the whole frame
    /// occupied.
    Block { cid: CidView, payload: Seq<u8>, used: int },
    /// The declared frame length exceeds [`MAX_ALLOC`]; `used` is the size
    /// of the length prefix, the only bytes consumed.
    TooLarge { len: nat, used: int },
    /// The sequence ends inside the frame.
    Truncated,
    /// The length prefix is not an acceptable varint.
    BadVarint,
    /// The frame does not start with a well-formed identifier.
    BadCid,
}

/// Take one block record off the front of `s`: a frame whose content is a
/// self-delimiting identifier followed by the payload.
pub open spec fn parse_block(s: Seq<u8>) -> BlockStep {
    match parse_frame(s) {
        FrameStep::NoFrame => BlockStep::NoBlock,
        FrameStep::Frame { content, used } => match parse_cid(content) {
            Ok(p) => BlockStep::Block { cid: p.0, payload: content.skip(p.1), used },
            Err(_) => BlockStep::BadCid,
        },
        FrameStep::TooLarge { len, used } => BlockStep::TooLarge { len, used },
        FrameStep::Truncated => BlockStep::Truncated,
        FrameStep::BadVarint => BlockStep::BadVarint,
    }
}

/// Read a varint from the provided reader. Returns `Ok(None)` when the
/// stream is exhausted before the first byte; exhaustion after at least one
/// byte is an error, never an end of input.
pub fn read_varint_usize<R: StreamRead>(reader: &mut R) -> (r: Result<Option<usize>, ReadError>)
    ensures
        final(reader).infallible() == old(reader).infallible(),
        old(reader).infallible() && !(vdecode(old(reader).remaining(), 9) is Insufficient
            && old(reader).remaining().len() > 0) ==> !(r matches Err(ReadError::Io(_))),
        match vdecode(old(reader).remaining(), 9) {
            VarintStep::Decoded { value, used } => (r == Ok::<Option<usize>, ReadError>(
                Some(((value % pow2(64)) as u64) as usize),
            ) && 0 < used <= old(reader).remaining().len() && final(reader).remaining() == old(
                reader,
            ).remaining().skip(used)) || (r matches Err(ReadError::Io(_))),
            VarintStep::NotMinimal => r == Err::<Option<usize>, ReadError>(ReadError::Decode(decode::Error::NotMinimal)) || (
            r matches Err(ReadError::Io(_))),
            VarintStep::Overflow => r == Err::<Option<usize>, ReadError>(ReadError::Decode(decode::Error::Overflow)) || (
            r matches Err(ReadError::Io(_))),
            VarintStep::Insufficient => {
                if old(reader).remaining().len() == 0 {
                    (r == Ok::<Option<usize>, ReadError>(None) && final(reader).remaining() == old(
                        reader,
                    ).remaining()) || (r matches Err(ReadError::Io(_)))
                } else {
                    r matches Err(ReadError::Io(_))
                }
            },
        },
{
    let ghost s = reader.remaining();
    let mut b = encode::usize_buffer();
    let mut i: usize = 0;
    while i < 10
        invariant
            s == old(reader).remaining(),
            reader.infallible() == old(reader).infallible(),
            0 <= i <= 10,
            b@.len() == 10,
            s.len() >= i,
            reader.remaining() == s.skip(i as int),
            b@.take(i as int) == s.take(i as int),
            forall|j: int| 0 <= j < i ==> s[j] >= 128,
        decreases 10 - i,
    {
        let byte = match reader.read_byte() {
            Ok(Some(x)) => x,
            Ok(None) => {
                if i == 0 {
                    proof {
                        assert(s.skip(0) =~= s);
                        assert(s =~= Seq::<u8>::empty());
                    }
                    return Ok(None);
                }
                proof {
                    assert(s =~= s.take(i as int));
                    lemma_term_idx_none(s);
                }
                return Err(ReadError::Io(IoError { kind: IoErrorKind::UnexpectedEof }));
            },
            Err(e) => {
                return Err(ReadError::Io(e));
            },
        };
        proof {
            assert(byte == s[i as int]);
        }
        b.set(i, byte);
        proof {
            assert(b@.take(i + 1) =~= s.take(i + 1));
        }
        proof {
            assert(s.skip(i as int).skip(1) =~= s.skip(i + 1));
        }
        if decode::is_last(byte) {
            let prefix = vstd::slice::slice_subrange(b.as_slice(), 0, i + 1);
            proof {
                assert(prefix@ =~= s.take(i + 1));
                lemma_term_idx_at(s, i as int);
                assert(forall|j: int| 0 <= j < i + 1 ==> s.take(i + 1)[j] == s[j]);
                lemma_term_idx_at(s.take(i + 1), i as int);
                assert(s.take(i + 1).take(i + 1) =~= s.take(i + 1));
                assert(s.skip(i as int).skip(1) =~= s.skip(i + 1));
                assert(vint_raw(s.take(i + 1).take(i + 1)) == vint_raw(s.take(i + 1)));
            }
            match decode::usize(prefix) {
                Ok((num, _)) => {
                    return Ok(Some(num));
                },
                Err(e) => {
                    return Err(ReadError::Decode(e));
                },
            }
        }
        i = i + 1;
    }
    proof {
        if s.len() > 10 {
            assert(s[10] == s.skip(10)[0]);
        }
        crate::varint::lemma_term_idx(s);
        match crate::varint::term_idx(s) {
            Some(t) => {
                if t <= 9 {
                    assert(s[t] >= 128);
                }
            },
            None => {},
        }
    }
    Err(ReadError::Decode(decode::Error::Overflow))
}

/// Write the given number as a varint to the provided writer; returns how
/// many bytes that took.
pub fn write_varint_usize<W: StreamWrite>(num: usize, writer: &mut W) -> (r: Result<
    usize,
    IoError,
>)
    ensures
        final(writer).infallible() == old(writer).infallible(),
        old(writer).infallible() ==> r is Ok,
        match r {
            Ok(k) => {
                &&& final(writer).written() == old(writer).written() + vint_enc(num as nat)
                &&& k == vint_enc(num as nat).len()
            },
            Err(_) => true,
        },
{
    let mut buffer = encode::usize_buffer();
    let len = encode::usize(num, &mut buffer);
    let to_write = vstd::slice::slice_subrange(buffer.as_slice(), 0, len);
    match writer.write_all(to_write) {
        Ok(()) => Ok(len),
        Err(e) => Err(e),
    }
}

/// Read one frame into the scratch buffer, growing it if needed and never
/// shrinking it; returns the frame length, or `None` at a clean end of the
/// stream between frames.
pub fn ld_read<R: StreamRead>(reader: &mut R, buf: &mut Vec<u8>) -> (r: Result<
    Option<usize>,
    Error,
>)
    ensures
        final(buf)@.len() >= old(buf)@.len(),
        final(reader).infallible() == old(reader).infallible(),
        old(reader).infallible() && !(parse_frame(old(reader).remaining()) is Truncated) ==> !(
        r matches Err(Error::Io(_))),
        match parse_frame(old(reader).remaining()) {
            FrameStep::NoFrame => (r == Ok::<Option<usize>, Error>(None) && final(reader).remaining() == old(
                reader,
            ).remaining() && final(buf)@ == old(buf)@) || (r matches Err(Error::Io(_))),
            FrameStep::Frame { content, used } => ({
                &&& r matches Ok(q)
                &&& q matches Some(len)
                &&& len == content.len()
                &&& len <= final(buf)@.len()
                &&& final(buf)@.take(len as int) == content
                &&& final(reader).remaining() == old(reader).remaining().skip(used)
            }) || (r matches Err(Error::Io(_))),
            FrameStep::TooLarge { len, used } => ({
                &&& r matches Err(Error::LdReadTooLarge(l))
                &&& l as nat == len
                &&& final(buf)@ == old(buf)@
                &&& final(reader).remaining() == old(reader).remaining().skip(used)
            }) || (r matches Err(Error::Io(_))),
            FrameStep::Truncated => r matches Err(Error::Io(_)),
            FrameStep::BadVarint => (r matches Err(Error::Parsing(_)) && final(buf)@ == old(
                buf,
            )@) || (r matches Err(Error::Io(_))),
        },
{
    let length: usize = match read_varint_usize(reader) {
        Ok(Some(len)) => len,
        Ok(None) => {
            return Ok(None);
        },
        Err(ReadError::Io(e)) => {
            return Err(Error::Io(e));
        },
        Err(ReadError::Decode(_)) => {
            return Err(Error::Parsing("invalid varint".to_string()));
        },
    };
    if length > MAX_ALLOC {
        return Err(Error::LdReadTooLarge(length));
    }
    if length > buf.len() {
        buf.resize(length, 0);
    }
    match reader.read_exact(buf, length) {
        Ok(()) => {},
        Err(e) => {
            return Err(Error::Io(e));
        },
    }
    proof {
        let s = old(reader).remaining();
        if let VarintStep::Decoded { value, used } = vdecode(s, 9) {
            assert(buf@.take(length as int) =~= s.skip(used).take(length as int));
        }
    }
    Ok(Some(length))
}

/// Read one block record: a frame parsed as an identifier plus payload.
pub fn read_node<R: StreamRead>(reader: &mut R, buf: &mut Vec<u8>) -> (r: Result<
    Option<(Cid, Vec<u8>)>,
    Error,
>)
    ensures
        final(buf)@.len() >= old(buf)@.len(),
        final(reader).infallible() == old(reader).infallible(),
        old(reader).infallible() && !(parse_block(old(reader).remaining()) is Truncated) ==> !(
        r matches Err(Error::Io(_))),
        match parse_block(old(reader).remaining()) {
            BlockStep::NoBlock => (r == Ok::<Option<(Cid, Vec<u8>)>, Error>(None) && final(reader).remaining()
                == old(reader).remaining() && final(buf)@ == old(buf)@) || (r matches Err(
            Error::Io(_))),
            BlockStep::Block { cid, payload, used } => ({
                &&& r matches Ok(q)
                &&& q matches Some(p)
                &&& p.0@ == cid
                &&& p.0.wf()
                &&& p.1@ == payload
                &&& final(reader).remaining() == old(reader).remaining().skip(used)
            }) || (r matches Err(Error::Io(_))),
            BlockStep::TooLarge { len, used } => ({
                &&& r matches Err(Error::LdReadTooLarge(l))
                &&& l as nat == len
                &&& final(buf)@ == old(buf)@
                &&& final(reader).remaining() == old(reader).remaining().skip(used)
            }) || (r matches Err(Error::Io(_))),
            BlockStep::Truncated => r matches Err(Error::Io(_)),
            BlockStep::BadVarint => (r matches Err(Error::Parsing(_)) && final(buf)@ == old(
                buf,
            )@) || (r matches Err(Error::Io(_))),
            BlockStep::BadCid => (r matches Err(Error::Parsing(_))) || (r matches Err(
                Error::Io(_),
            )),
        },
{
    let len = match ld_read(reader, buf) {
        Ok(Some(len)) => len,
        Ok(None) => {
            return Ok(None);
        },
        Err(e) => {
            return Err(e);
        },
    };
    let content = vstd::slice::slice_subrange(buf.as_slice(), 0, len);
    match Cid::read_bytes(content) {
        Ok((c, consumed)) => {
            let payload = vstd::slice::slice_to_vec(
                vstd::slice::slice_subrange(content, consumed, len),
            );
            proof {
                if let FrameStep::Frame { content: sc, used } = parse_frame(
                    old(reader).remaining(),
                ) {
                    if let Ok(p) = parse_cid(sc) {
                        assert(content@.subrange(p.1, len as int) =~= sc.skip(p.1));
                    }
                }
            }
            Ok(Some((c, payload)))
        },
        Err(_) => Err(Error::Parsing("failed to parse CID".to_string())),
    }
}

/// A frame built of a length prefix and `content` parses back to exactly
/// `content`, whatever follows it.
pub proof fn lemma_parse_frame_enc(content: Seq<u8>, rest: Seq<u8>)
    requires
        content.len() <= MAX_ALLOC,
    ensures
        parse_frame(vint_enc(content.len()) + content + rest) == (FrameStep::Frame {
            content,
            used: vint_enc(content.len()).len() + content.len() as int,
        }),
{
    let e = vint_enc(content.len());
    let s = e + content + rest;
    vstd::arithmetic::power2::lemma2_to64();
    lemma_enc_u64_fits(content.len());
    assert(s =~= e + (content + rest));
    lemma_vdecode_enc(content.len(), content + rest, 9);
    lemma_mod_small_u64(content.len());
    assert(s.skip(e.len() as int) =~= content + rest);
    assert((content + rest).take(content.len() as int) =~= content);
}

/// A block frame parses back to its identifier and payload, whatever
/// follows it.
pub proof fn lemma_parse_block_enc(c: CidView, payload: Seq<u8>, rest: Seq<u8>)
    requires
        cid_wf(c),
        cid_enc(c).len() + payload.len() <= MAX_ALLOC,
    ensures
        parse_block(vint_enc((cid_enc(c) + payload).len()) + (cid_enc(c) + payload) + rest)
            == (BlockStep::Block {
            cid: c,
            payload,
            used: vint_enc((cid_enc(c) + payload).len()).len() + cid_enc(c).len()
                + payload.len() as int,
        }),
{
    let content = cid_enc(c) + payload;
    lemma_parse_frame_enc(content, rest);
    lemma_parse_cid_enc(c, payload);
    assert(content.skip(cid_enc(c).len() as int) =~= payload);
}

} // verus!
