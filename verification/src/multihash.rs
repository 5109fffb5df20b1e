//! A self-describing digest: a hash-function code together with the digest
//! bytes, capped at 512 bits as the default code table allows.

use vstd::prelude::*;

verus! {

/// Largest digest, in bytes, that a [`Multihash`] may hold.
pub const DIGEST_CAPACITY: usize = 64;

/// Error for operations involving a [`Multihash`].
#[derive(Clone, Copy, Debug, PartialEq, Eq, Structural)]
pub enum Error {
    /// The digest does not fit the allocated capacity.
    InvalidSize(u64),
}

impl Clone for Multihash {
    /// An identical multihash.
    fn clone(&self) -> (r: Self)
        ensures
            r.spec_code() == self.spec_code(),
            r.spec_digest() == self.spec_digest(),
    {
        proof {
            use_type_invariant(self);
        }
        let d = self.digest.clone();
        proof {
            assert forall|i: int| 0 <= i < d@.len() implies d@[i] == self.digest@[i] by {
                assert(cloned::<u8>(self.digest[i], d@[i]));
            }
            assert(d@ =~= self.digest@);
        }
        Multihash { code: self.code, digest: d }
    }
}

/// A hash-function code together with the digest it produced.
#[derive(Debug, PartialEq, Eq)]
pub struct Multihash {
    code: u64,
    digest: Vec<u8>,
}

impl Multihash {
    /// Every multihash ever built fits the capacity.
    #[verifier::type_invariant]
    pub closed spec fn capacity_inv(self) -> bool {
        self.digest@.len() <= DIGEST_CAPACITY
    }

    /// The digest fits the capacity.
    pub open spec fn wf(&self) -> bool {
        self.spec_digest().len() <= DIGEST_CAPACITY
    }

    /// The capacity invariant is exactly well-formedness.
    pub proof fn lemma_capacity_wf(m: Multihash)
        requires
            m.capacity_inv(),
        ensures
            m.wf(),
    {
    }

    /// The hash-function code.
    pub closed spec fn spec_code(&self) -> u64 {
        self.code
    }

    /// The digest bytes.
    pub closed spec fn spec_digest(&self) -> Seq<u8> {
        self.digest@
    }

    /// Wraps the digest in a multihash, rejecting one over the capacity.
    pub fn wrap(code: u64, input_digest: &[u8]) -> (r: Result<Multihash, Error>)
        ensures
            match r {
                Ok(m) => {
                    &&& input_digest@.len() <= DIGEST_CAPACITY
                    &&& m.spec_code() == code
                    &&& m.spec_digest() == input_digest@
                    &&& m.wf()
                },
                Err(e) => {
                    &&& input_digest@.len() > DIGEST_CAPACITY
                    &&& e == Error::InvalidSize(input_digest@.len() as u64)
                },
            },
    {
        if input_digest.len() > DIGEST_CAPACITY {
            return Err(Error::InvalidSize(input_digest.len() as u64));
        }
        Ok(Multihash { code, digest: vstd::slice::slice_to_vec(input_digest) })
    }

    /// Builds a multihash from already-validated parts.
    pub fn from_parts(code: u64, digest: Vec<u8>) -> (r: Multihash)
        requires
            digest@.len() <= DIGEST_CAPACITY,
        ensures
            r.spec_code() == code,
            r.spec_digest() == digest@,
            r.wf(),
    {
        Multihash { code, digest }
    }

    /// The hash-function code.
    pub fn code(&self) -> (r: u64)
        ensures
            r == self.spec_code(),
    {
        self.code
    }

    /// The length of the digest, in bytes.
    pub fn size(&self) -> (r: usize)
        ensures
            r == self.spec_digest().len(),
    {
        self.digest.len()
    }

    /// The digest bytes.
    pub fn digest(&self) -> (r: &[u8])
        ensures
            r@ == self.spec_digest(),
    {
        self.digest.as_slice()
    }
}

} // verus!
