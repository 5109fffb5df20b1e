//! Content identifiers: a version, a content-type code and a multihash,
//! with their self-delimiting binary form (a sequence of varints followed by
//! the digest bytes). Only version 1 identifiers are supported.

use vstd::prelude::*;

verus! {

use vstd::arithmetic::power2::pow2;
use crate::multihash::{Multihash, DIGEST_CAPACITY};
use crate::varint::{vint_enc, vdecode, VarintStep, lemma_vdecode_enc, lemma_enc_u64_fits,
    lemma_mod_small_u64};
use crate::varint::decode;

/// Error types.
#[derive(Clone, Copy, Debug, PartialEq, Eq, Structural)]
pub enum Error {
    /// Input data is too short.
    InputTooShort,
    /// Multihash codec failure.
    ParsingError,
    /// Invalid CID version.
    InvalidCidVersion,
    /// Varint decode failure.
    VarIntDecodeError,
}

/// Mathematical model of a version 1 content identifier.
pub struct CidView {
    pub codec: u64,
    pub hash_code: u64,
    pub digest: Seq<u8>,
}

/// A well-formed identifier: its digest fits the multihash capacity.
pub open spec fn cid_wf(c: CidView) -> bool {
    c.digest.len() <= DIGEST_CAPACITY
}

/// The canonical binary form: version, content-type code, hash code, digest
/// length, each as a varint, then the digest bytes.
pub open spec fn cid_enc(c: CidView) -> Seq<u8> {
    vint_enc(1) + vint_enc(c.codec as nat) + vint_enc(c.hash_code as nat) + vint_enc(
        c.digest.len(),
    ) + c.digest
}

/// Parse an identifier from the front of `s`: the identifier and the number
/// of bytes it occupies, or the reason `s` does not start with one.
/// Mirrors the executable parser field for field.
pub open spec fn parse_cid(s: Seq<u8>) -> Result<(CidView, int), Error> {
    match vdecode(s, 9) {
        VarintStep::Decoded { value: ver, used: u1 } => {
            if ver % pow2(64) != 1 {
                Err(Error::InvalidCidVersion)
            } else {
                let s1 = s.skip(u1);
                match vdecode(s1, 9) {
                    VarintStep::Decoded { value: cv, used: u2 } => {
                        let s2 = s1.skip(u2);
                        match vdecode(s2, 9) {
                            VarintStep::Decoded { value: hv, used: u3 } => {
                                let s3 = s2.skip(u3);
                                match vdecode(s3, 9) {
                                    VarintStep::Decoded { value: zv, used: u4 } => {
                                        let size = zv % pow2(64);
                                        let s4 = s3.skip(u4);
                                        if size > DIGEST_CAPACITY {
                                            Err(Error::ParsingError)
                                        } else if size > s4.len() {
                                            Err(Error::InputTooShort)
                                        } else {
                                            Ok(
                                                (
                                                    CidView {
                                                        codec: (cv % pow2(64)) as u64,
                                                        hash_code: (hv % pow2(64)) as u64,
                                                        digest: s4.take(size as int),
                                                    },
                                                    u1 + u2 + u3 + u4 + size,
                                                ),
                                            )
                                        }
                                    },
                                    _ => Err(Error::VarIntDecodeError),
                                }
                            },
                            _ => Err(Error::VarIntDecodeError),
                        }
                    },
                    _ => Err(Error::VarIntDecodeError),
                }
            }
        },
        _ => Err(Error::VarIntDecodeError),
    }
}

/// A version 1 content identifier.
#[derive(Debug, PartialEq, Eq)]
pub struct Cid {
    codec: u64,
    hash: Multihash,
}

impl Clone for Cid {
    /// An identical identifier.
    fn clone(&self) -> (r: Self)
        ensures
            r@ == self@,
    {
        let h = self.hash.clone();
        proof {
            use_type_invariant(&h);
        }
        Cid { codec: self.codec, hash: h }
    }
}

impl View for Cid {
    type V = CidView;

    closed spec fn view(&self) -> CidView {
        CidView {
            codec: self.codec,
            hash_code: self.hash.spec_code(),
            digest: self.hash.spec_digest(),
        }
    }
}

impl Cid {
    /// Every identifier ever built holds a multihash under the capacity cap.
    #[verifier::type_invariant]
    pub closed spec fn inv(self) -> bool {
        self.hash.capacity_inv()
    }

    /// The identifier is well formed.
    pub open spec fn wf(&self) -> bool {
        cid_wf(self@)
    }

    /// The construction invariant gives well-formedness.
    pub proof fn lemma_inv_wf(c: Cid)
        requires
            c.inv(),
        ensures
            c.wf(),
    {
        Multihash::lemma_capacity_wf(c.hash);
    }

    /// A version 1 identifier from a content-type code and a multihash.
    pub fn new_v1(codec: u64, hash: Multihash) -> (r: Cid)
        ensures
            r@.codec == codec,
            r@.hash_code == hash.spec_code(),
            r@.digest == hash.spec_digest(),
            r.wf(),
    {
        proof {
            use_type_invariant(&hash);
            Multihash::lemma_capacity_wf(hash);
        }
        Cid { codec, hash }
    }

    /// The version of this identifier.
    pub fn version(&self) -> (r: u64)
        ensures
            r == 1,
    {
        1
    }

    /// The content-type code.
    pub fn codec(&self) -> (r: u64)
        ensures
            r == self@.codec,
    {
        self.codec
    }

    /// The multihash.
    pub fn hash(&self) -> (r: &Multihash)
        ensures
            r.spec_code() == self@.hash_code,
            r.spec_digest() == self@.digest,
    {
        &self.hash
    }

    /// Parse an identifier from the front of a byte slice; returns it with
    /// the number of bytes it occupied, exactly as [`parse_cid`] says.
    pub fn read_bytes(buf: &[u8]) -> (r: Result<(Cid, usize), Error>)
        ensures
            match parse_cid(buf@) {
                Ok(p) => {
                    &&& r matches Ok(q)
                    &&& q.0@ == p.0
                    &&& q.0.wf()
                    &&& q.1 == p.1
                    &&& p.1 <= buf@.len()
                },
                Err(e) => r == Err::<(Cid, usize), Error>(e),
            },
    {
        proof {
            vstd::arithmetic::power2::lemma2_to64();
        }
        let (version, r1) = match decode::u64(buf) {
            Ok(p) => p,
            Err(_) => {
                return Err(Error::VarIntDecodeError);
            },
        };
        if version != 1 {
            return Err(Error::InvalidCidVersion);
        }
        let (codec, r2) = match decode::u64(r1) {
            Ok(p) => p,
            Err(_) => {
                return Err(Error::VarIntDecodeError);
            },
        };
        let (code, r3) = match decode::u64(r2) {
            Ok(p) => p,
            Err(_) => {
                return Err(Error::VarIntDecodeError);
            },
        };
        let (size, r4) = match decode::u64(r3) {
            Ok(p) => p,
            Err(_) => {
                return Err(Error::VarIntDecodeError);
            },
        };
        if size > DIGEST_CAPACITY as u64 {
            return Err(Error::ParsingError);
        }
        let size: usize = size as usize;
        if r4.len() < size {
            return Err(Error::InputTooShort);
        }
        let digest_slice = vstd::slice::slice_subrange(r4, 0, size);
        let digest = vstd::slice::slice_to_vec(digest_slice);
        let used = buf.len() - r4.len() + size;
        proof {
            assert(r4@.subrange(0, size as int) =~= r4@.take(size as int));
        }
        let mh = Multihash::from_parts(code, digest);
        proof {
            use_type_invariant(&mh);
        }
        Ok((Cid { codec, hash: mh }, used))
    }

    /// Append the canonical binary form to `out`.
    pub fn write_bytes(&self, out: &mut Vec<u8>)
        ensures
            final(out)@ == old(out)@ + cid_enc(self@),
    {
        let ghost start = out@;
        write_varint_u64(1, out);
        write_varint_u64(self.codec, out);
        write_varint_u64(self.hash.code(), out);
        write_varint_u64(self.hash.size() as u64, out);
        crate::stream::push_bytes(out, self.hash.digest());
        proof {
            assert(out@ =~= start + cid_enc(self@));
        }
    }
}

/// Append the canonical varint encoding of `n` to `out`.
pub fn write_varint_u64(n: u64, out: &mut Vec<u8>)
    ensures
        final(out)@ == old(out)@ + vint_enc(n as nat),
{
    let mut buf = crate::varint::encode::u64_buffer();
    let len = crate::varint::encode::u64(n, &mut buf);
    let piece = vstd::slice::slice_subrange(buf.as_slice(), 0, len);
    crate::stream::push_bytes(out, piece);
}

/// A well-formed identifier's canonical form is short: four varints of at
/// most ten bytes and a digest of at most the capacity.
pub proof fn lemma_cid_enc_len(c: CidView)
    requires
        cid_wf(c),
    ensures
        cid_enc(c).len() <= 104,
{
    vstd::arithmetic::power2::lemma2_to64();
    lemma_enc_u64_fits(1);
    lemma_enc_u64_fits(c.codec as nat);
    lemma_enc_u64_fits(c.hash_code as nat);
    lemma_enc_u64_fits(c.digest.len());
}

/// An identifier's canonical form parses back to the identifier, consuming
/// exactly its own bytes, whatever follows it.
pub proof fn lemma_parse_cid_enc(c: CidView, rest: Seq<u8>)
    requires
        cid_wf(c),
    ensures
        parse_cid(cid_enc(c) + rest) == Ok::<(CidView, int), Error>(
            (c, cid_enc(c).len() as int),
        ),
{
    let e1 = vint_enc(1);
    let e2 = vint_enc(c.codec as nat);
    let e3 = vint_enc(c.hash_code as nat);
    let e4 = vint_enc(c.digest.len());
    let s = cid_enc(c) + rest;
    vstd::arithmetic::power2::lemma2_to64();
    lemma_enc_u64_fits(1);
    lemma_enc_u64_fits(c.codec as nat);
    lemma_enc_u64_fits(c.hash_code as nat);
    lemma_enc_u64_fits(c.digest.len());
    assert(s =~= e1 + (e2 + (e3 + (e4 + (c.digest + rest)))));
    lemma_vdecode_enc(1, e2 + (e3 + (e4 + (c.digest + rest))), 9);
    assert(s.skip(e1.len() as int) =~= e2 + (e3 + (e4 + (c.digest + rest))));
    lemma_vdecode_enc(c.codec as nat, e3 + (e4 + (c.digest + rest)), 9);
    assert(s.skip(e1.len() as int).skip(e2.len() as int) =~= e3 + (e4 + (c.digest + rest)));
    lemma_vdecode_enc(c.hash_code as nat, e4 + (c.digest + rest), 9);
    assert(s.skip(e1.len() as int).skip(e2.len() as int).skip(e3.len() as int) =~= e4 + (
    c.digest + rest));
    lemma_vdecode_enc(c.digest.len(), c.digest + rest, 9);
    let s4 = s.skip(e1.len() as int).skip(e2.len() as int).skip(e3.len() as int).skip(
        e4.len() as int,
    );
    assert(s4 =~= c.digest + rest);
    assert(s4.take(c.digest.len() as int) =~= c.digest);
    lemma_mod_small_u64(1);
    lemma_mod_small_u64(c.codec as nat);
    lemma_mod_small_u64(c.hash_code as nat);
    lemma_mod_small_u64(c.digest.len());
}

} // verus!
