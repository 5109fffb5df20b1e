//! The CAR v1 container: a length-prefixed header frame followed by
//! length-prefixed block frames, each block an identifier and its payload.
//!
//! The wire-level ghost model lives here: the byte form of a whole archive,
//! the parse that inverts it, and the round-trip law relating them.

pub mod codec;
pub mod error;
pub mod header;
pub mod reader;
pub mod util;
pub mod writer;

pub use error::Error;
pub use header::CarHeader;
pub use reader::CarReader;
pub use writer::CarWriter;

use vstd::prelude::*;

verus! {

use vstd::arithmetic::power2::pow2;
use crate::varint::vint_enc;
use crate::cid::{CidView, cid_enc, cid_wf};
use codec::{HeaderView, header_encoding, parse_header};
use util::{parse_frame, parse_block, FrameStep, BlockStep, MAX_ALLOC, lemma_parse_frame_enc,
    lemma_parse_block_enc};

/// The header frame: the encoded header behind its varint length.
pub open spec fn header_frame(m: HeaderView) -> Seq<u8> {
    vint_enc(header_encoding(m).len()) + header_encoding(m)
}

/// One block frame: identifier and payload behind their combined varint
/// length.
pub open spec fn block_frame(c: CidView, payload: Seq<u8>) -> Seq<u8> {
    vint_enc(cid_enc(c).len() + payload.len()) + cid_enc(c) + payload
}

/// The block frames of an archive, in order.
pub open spec fn blocks_encoding(blocks: Seq<(CidView, Seq<u8>)>) -> Seq<u8>
    decreases blocks.len(),
{
    if blocks.len() == 0 {
        Seq::empty()
    } else {
        block_frame(blocks[0].0, blocks[0].1) + blocks_encoding(blocks.skip(1))
    }
}

/// The byte form of a whole archive: the header frame, then the blocks.
pub open spec fn archive_encoding(m: HeaderView, blocks: Seq<(CidView, Seq<u8>)>) -> Seq<u8> {
    header_frame(m) + blocks_encoding(blocks)
}

/// Parse block records until a clean end of input; any malformed frame
/// refuses the whole sequence.
pub open spec fn parse_archive_blocks(s: Seq<u8>) -> Option<Seq<(CidView, Seq<u8>)>>
    decreases s.len(),
{
    match parse_block(s) {
        BlockStep::NoBlock => Some(Seq::empty()),
        BlockStep::Block { cid, payload, used } => {
            if 0 < used <= s.len() {
                match parse_archive_blocks(s.skip(used)) {
                    Some(bs) => Some(seq![(cid, payload)] + bs),
                    None => None,
                }
            } else {
                None
            }
        },
        _ => None,
    }
}

/// Parse a whole archive: a valid header frame, then blocks until a clean
/// end.
pub open spec fn parse_archive(s: Seq<u8>) -> Option<(HeaderView, Seq<(CidView, Seq<u8>)>)> {
    match parse_frame(s) {
        FrameStep::Frame { content, used } => match parse_header(content) {
            Some(m) => {
                if m.roots.len() > 0 && m.version == 1 && 0 < used <= s.len() {
                    match parse_archive_blocks(s.skip(used)) {
                        Some(bs) => Some((m, bs)),
                        None => None,
                    }
                } else {
                    None
                }
            },
            None => None,
        },
        _ => None,
    }
}

/// A sequence of block frames parses back to exactly its blocks.
#[verifier::rlimit(60)]
pub proof fn lemma_parse_archive_blocks_enc(blocks: Seq<(CidView, Seq<u8>)>)
    requires
        forall|j: int|
            0 <= j < blocks.len() ==> cid_wf((#[trigger] blocks[j]).0) && cid_enc(
                blocks[j].0,
            ).len() + blocks[j].1.len() <= MAX_ALLOC,
    ensures
        parse_archive_blocks(blocks_encoding(blocks)) == Some(blocks),
    decreases blocks.len(),
{
    let s = blocks_encoding(blocks);
    if blocks.len() == 0 {
        assert(parse_frame(s) == FrameStep::NoFrame);
    } else {
        let c = blocks[0].0;
        let payload = blocks[0].1;
        let rest = blocks_encoding(blocks.skip(1));
        let frame = block_frame(c, payload);
        assert(s =~= vint_enc((cid_enc(c) + payload).len()) + (cid_enc(c) + payload) + rest);
        lemma_parse_block_enc(c, payload, rest);
        assert(parse_block(s) == (BlockStep::Block {
            cid: c,
            payload,
            used: frame.len() as int,
        }));
        crate::varint::lemma_enc_props(cid_enc(c).len() + payload.len());
        assert(s.skip(frame.len() as int) =~= rest);
        lemma_parse_archive_blocks_enc(blocks.skip(1));
        assert(seq![(c, payload)] + blocks.skip(1) =~= blocks);
    }
}

/// Round trip: writing any archive and parsing the bytes back yields the
/// header and the blocks unchanged, in order. Holds whenever every frame
/// respects the size cap that the reader enforces.
#[verifier::rlimit(60)]
pub proof fn lemma_archive_round_trip(m: HeaderView, blocks: Seq<(CidView, Seq<u8>)>)
    requires
        m.version == 1,
        m.roots.len() > 0,
        m.roots.len() < pow2(64),
        forall|j: int| 0 <= j < m.roots.len() ==> cid_wf(#[trigger] m.roots[j]),
        header_encoding(m).len() <= MAX_ALLOC,
        forall|j: int|
            0 <= j < blocks.len() ==> cid_wf((#[trigger] blocks[j]).0) && cid_enc(
                blocks[j].0,
            ).len() + blocks[j].1.len() <= MAX_ALLOC,
    ensures
        parse_archive(archive_encoding(m, blocks)) == Some((m, blocks)),
{
    let s = archive_encoding(m, blocks);
    let e = header_encoding(m);
    let rest = blocks_encoding(blocks);
    assert(s =~= vint_enc(e.len()) + e + rest);
    lemma_parse_frame_enc(e, rest);
    codec::lemma_parse_header_enc(m);
    let used = vint_enc(e.len()).len() + e.len() as int;
    assert(s.skip(used) =~= rest);
    crate::varint::lemma_enc_props(e.len());
    lemma_parse_archive_blocks_enc(blocks);
}

} // verus!
