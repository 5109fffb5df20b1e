//! Encoding of unsigned varints into caller-supplied buffers.

use vstd::prelude::*;

verus! {

use crate::varint::{vint_enc, lemma_enc_props, lemma_enc_len_le};
use vstd::arithmetic::power2::*;

/// Fill the first bytes of `buf` with the canonical encoding of `number`,
/// returning how many bytes were written. Generic worker behind the
/// per-width entry points; `cap` bounds the encoded length.
fn encode_u64_into(number: u64, buf: &mut Vec<u8>, cap: usize) -> (len: usize)
    requires
        cap <= old(buf).len(),
        vint_enc(number as nat).len() <= cap as int,
    ensures
        1 <= len <= cap,
        final(buf)@.len() == old(buf)@.len(),
        final(buf)@.subrange(0, len as int) == vint_enc(number as nat),
        final(buf)@.skip(len as int) == old(buf)@.skip(len as int),
{
    let mut n: u64 = number;
    let mut i: usize = 0;
    proof {
        assert(buf@.subrange(0, 0) =~= Seq::<u8>::empty());
    }
    loop
        invariant
            cap <= buf@.len() == old(buf)@.len(),
            0 <= i,
            i + vint_enc(n as nat).len() <= cap,
            vint_enc(number as nat) == buf@.subrange(0, i as int) + vint_enc(n as nat),
            buf@.skip(i as int) == old(buf)@.skip(i as int),
        decreases n,
    {
        proof {
            lemma_enc_props(n as nat);
        }
        if n < 128 {
            let ghost prev = buf@;
            buf.set(i, n as u8);
            proof {
                assert(vint_enc(n as nat) =~= seq![n as u8]);
                assert(buf@.subrange(0, i + 1) =~= prev.subrange(0, i as int) + seq![n as u8]);
                assert forall|j: int| i + 1 <= j < prev.len() implies prev[j] == old(buf)@[j] by {
                    assert(prev.skip(i as int)[j - i] == old(buf)@.skip(i as int)[j - i]);
                }
                assert(buf@.skip(i + 1) =~= old(buf)@.skip(i + 1));
            }
            return i + 1;
        }
        let b: u8 = (#[verifier::truncate] (n as u8)) | 0x80;
        proof {
            assert((n as u8) | 0x80 == (n % 128) + 128) by (bit_vector)
                requires
                    n >= 128,
            ;
            assert(n >> 7u64 == n / 128) by (bit_vector);
            assert(n / 128 < n) by (nonlinear_arith)
                requires
                    n >= 128,
            ;
        }
        let ghost prev = buf@;
        buf.set(i, b);
        proof {
            assert(vint_enc(n as nat) == seq![b] + vint_enc((n / 128) as nat));
            assert(buf@.subrange(0, i + 1) =~= prev.subrange(0, i as int) + seq![b]);
            assert(vint_enc(number as nat) == buf@.subrange(0, i + 1) + vint_enc(
                (n / 128) as nat,
            )) by {
                assert(prev.subrange(0, i as int) + (seq![b] + vint_enc((n / 128) as nat))
                    =~= (prev.subrange(0, i as int) + seq![b]) + vint_enc((n / 128) as nat));
                assert(buf@.subrange(0, i as int) =~= prev.subrange(0, i as int));
            }
            assert forall|j: int| i + 1 <= j < prev.len() implies prev[j] == old(buf)@[j] by {
                assert(prev.skip(i as int)[j - i] == old(buf)@.skip(i as int)[j - i]);
            }
            assert(buf@.skip(i + 1) =~= old(buf)@.skip(i + 1));
        }
        n = n >> 7;
        i = i + 1;
    }
}

/// Bound used by every entry point: a value below 2^bits encodes in at most
/// `ceil(bits / 7)` bytes.
proof fn lemma_enc_len_u64(number: u64)
    ensures
        vint_enc(number as nat).len() <= 10,
{
    lemma2_to64();
    lemma2_to64_rest();
    lemma_pow2_strictly_increases(64, 70);
    lemma_enc_len_le(number as nat, 10);
}

/// Encode the given `u64` into the given buffer; returns the number of bytes
/// written.
pub fn u64(number: u64, buf: &mut Vec<u8>) -> (len: usize)
    requires
        old(buf).len() >= 10,
    ensures
        1 <= len <= 10,
        final(buf)@.len() == old(buf)@.len(),
        final(buf)@.subrange(0, len as int) == vint_enc(number as nat),
        final(buf)@.skip(len as int) == old(buf)@.skip(len as int),
{
    proof {
        lemma_enc_len_u64(number);
    }
    encode_u64_into(number, buf, 10)
}

/// A zeroed scratch vector of the given length.
fn zeroes(len: usize) -> (r: Vec<u8>)
    ensures
        r@.len() == len,
        forall|j: int| 0 <= j < len ==> r@[j] == 0,
{
    let mut v: Vec<u8> = Vec::new();
    let mut i: usize = 0;
    while i < len
        invariant
            v@.len() == i <= len,
            forall|j: int| 0 <= j < i ==> v@[j] == 0,
        decreases len - i,
    {
        v.push(0);
        i = i + 1;
    }
    v
}

/// Create a new buffer for encoding of `u64` values.
pub fn u64_buffer() -> (r: Vec<u8>)
    ensures
        r@.len() == 10,
        forall|j: int| 0 <= j < 10 ==> r@[j] == 0,
{
    zeroes(10)
}

/// As `encode_u64_into`, for the 128-bit width.
fn encode_u128_into(number: u128, buf: &mut Vec<u8>, cap: usize) -> (len: usize)
    requires
        cap <= old(buf).len(),
        vint_enc(number as nat).len() <= cap as int,
    ensures
        1 <= len <= cap,
        final(buf)@.len() == old(buf)@.len(),
        final(buf)@.subrange(0, len as int) == vint_enc(number as nat),
        final(buf)@.skip(len as int) == old(buf)@.skip(len as int),
{
    let mut n: u128 = number;
    let mut i: usize = 0;
    proof {
        assert(buf@.subrange(0, 0) =~= Seq::<u8>::empty());
    }
    loop
        invariant
            cap <= buf@.len() == old(buf)@.len(),
            0 <= i,
            i + vint_enc(n as nat).len() <= cap,
            vint_enc(number as nat) == buf@.subrange(0, i as int) + vint_enc(n as nat),
            buf@.skip(i as int) == old(buf)@.skip(i as int),
        decreases n,
    {
        proof {
            lemma_enc_props(n as nat);
        }
        if n < 128 {
            let ghost prev = buf@;
            buf.set(i, n as u8);
            proof {
                assert(vint_enc(n as nat) =~= seq![n as u8]);
                assert(buf@.subrange(0, i + 1) =~= prev.subrange(0, i as int) + seq![n as u8]);
                assert forall|j: int| i + 1 <= j < prev.len() implies prev[j] == old(buf)@[j] by {
                    assert(prev.skip(i as int)[j - i] == old(buf)@.skip(i as int)[j - i]);
                }
                assert(buf@.skip(i + 1) =~= old(buf)@.skip(i + 1));
            }
            return i + 1;
        }
        let b: u8 = (#[verifier::truncate] (n as u8)) | 0x80;
        proof {
            assert((n as u8) | 0x80 == (n % 128) + 128) by (bit_vector)
                requires
                    n >= 128,
            ;
            assert(n >> 7u128 == n / 128) by (bit_vector);
            assert(n / 128 < n) by (nonlinear_arith)
                requires
                    n >= 128,
            ;
        }
        let ghost prev = buf@;
        buf.set(i, b);
        proof {
            assert(vint_enc(n as nat) == seq![b] + vint_enc((n / 128) as nat));
            assert(buf@.subrange(0, i + 1) =~= prev.subrange(0, i as int) + seq![b]);
            assert(vint_enc(number as nat) == buf@.subrange(0, i + 1) + vint_enc(
                (n / 128) as nat,
            )) by {
                assert(prev.subrange(0, i as int) + (seq![b] + vint_enc((n / 128) as nat))
                    =~= (prev.subrange(0, i as int) + seq![b]) + vint_enc((n / 128) as nat));
                assert(buf@.subrange(0, i as int) =~= prev.subrange(0, i as int));
            }
            assert forall|j: int| i + 1 <= j < prev.len() implies prev[j] == old(buf)@[j] by {
                assert(prev.skip(i as int)[j - i] == old(buf)@.skip(i as int)[j - i]);
            }
            assert(buf@.skip(i + 1) =~= old(buf)@.skip(i + 1));
        }
        n = n >> 7;
        i = i + 1;
    }
}

proof fn lemma_enc_len_u8(number: u8)
    ensures
        vint_enc(number as nat).len() <= 2,
{
    lemma2_to64();
    lemma_pow2_strictly_increases(8, 14);
    lemma_enc_len_le(number as nat, 2);
}

/// Encode the given `u8` into the given buffer; returns the number of bytes
/// written.
pub fn u8(number: u8, buf: &mut Vec<u8>) -> (len: usize)
    requires
        old(buf).len() >= 2,
    ensures
        1 <= len <= 2,
        final(buf)@.len() == old(buf)@.len(),
        final(buf)@.subrange(0, len as int) == vint_enc(number as nat),
        final(buf)@.skip(len as int) == old(buf)@.skip(len as int),
{
    proof {
        lemma_enc_len_u8(number);
    }
    encode_u64_into(number as u64, buf, 2)
}

proof fn lemma_enc_len_u16(number: u16)
    ensures
        vint_enc(number as nat).len() <= 3,
{
    lemma2_to64();
    lemma_pow2_strictly_increases(16, 21);
    lemma_enc_len_le(number as nat, 3);
}

/// Encode the given `u16` into the given buffer; returns the number of bytes
/// written.
pub fn u16(number: u16, buf: &mut Vec<u8>) -> (len: usize)
    requires
        old(buf).len() >= 3,
    ensures
        1 <= len <= 3,
        final(buf)@.len() == old(buf)@.len(),
        final(buf)@.subrange(0, len as int) == vint_enc(number as nat),
        final(buf)@.skip(len as int) == old(buf)@.skip(len as int),
{
    proof {
        lemma_enc_len_u16(number);
    }
    encode_u64_into(number as u64, buf, 3)
}

proof fn lemma_enc_len_u32(number: u32)
    ensures
        vint_enc(number as nat).len() <= 5,
{
    lemma2_to64();
    lemma2_to64_rest();
    lemma_pow2_strictly_increases(32, 35);
    lemma_enc_len_le(number as nat, 5);
}

/// Encode the given `u32` into the given buffer; returns the number of bytes
/// written.
pub fn u32(number: u32, buf: &mut Vec<u8>) -> (len: usize)
    requires
        old(buf).len() >= 5,
    ensures
        1 <= len <= 5,
        final(buf)@.len() == old(buf)@.len(),
        final(buf)@.subrange(0, len as int) == vint_enc(number as nat),
        final(buf)@.skip(len as int) == old(buf)@.skip(len as int),
{
    proof {
        lemma_enc_len_u32(number);
    }
    encode_u64_into(number as u64, buf, 5)
}

proof fn lemma_enc_len_u128(number: u128)
    ensures
        vint_enc(number as nat).len() <= 19,
{
    crate::varint::lemma_pow2_128();
    lemma_pow2_strictly_increases(128, 133);
    lemma_enc_len_le(number as nat, 19);
}

/// Encode the given `u128` into the given buffer; returns the number of bytes
/// written.
pub fn u128(number: u128, buf: &mut Vec<u8>) -> (len: usize)
    requires
        old(buf).len() >= 19,
    ensures
        1 <= len <= 19,
        final(buf)@.len() == old(buf)@.len(),
        final(buf)@.subrange(0, len as int) == vint_enc(number as nat),
        final(buf)@.skip(len as int) == old(buf)@.skip(len as int),
{
    proof {
        lemma_enc_len_u128(number);
    }
    encode_u128_into(number, buf, 19)
}

/// Encode the given `usize` into the given buffer; returns the number of
/// bytes written.
pub fn usize(number: usize, buf: &mut Vec<u8>) -> (len: usize)
    requires
        old(buf).len() >= 10,
    ensures
        1 <= len <= 10,
        final(buf)@.len() == old(buf)@.len(),
        final(buf)@.subrange(0, len as int) == vint_enc(number as nat),
        final(buf)@.skip(len as int) == old(buf)@.skip(len as int),
{
    proof {
        lemma_enc_len_u64(number as u64);
    }
    encode_u64_into(number as u64, buf, 10)
}

/// Create a new buffer for encoding of `u8` values.
pub fn u8_buffer() -> (r: Vec<u8>)
    ensures
        r@.len() == 2,
        forall|j: int| 0 <= j < 2 ==> r@[j] == 0,
{
    zeroes(2)
}

/// Create a new buffer for encoding of `u16` values.
pub fn u16_buffer() -> (r: Vec<u8>)
    ensures
        r@.len() == 3,
        forall|j: int| 0 <= j < 3 ==> r@[j] == 0,
{
    zeroes(3)
}

/// Create a new buffer for encoding of `u32` values.
pub fn u32_buffer() -> (r: Vec<u8>)
    ensures
        r@.len() == 5,
        forall|j: int| 0 <= j < 5 ==> r@[j] == 0,
{
    zeroes(5)
}

/// Create a new buffer for encoding of `u128` values.
pub fn u128_buffer() -> (r: Vec<u8>)
    ensures
        r@.len() == 19,
        forall|j: int| 0 <= j < 19 ==> r@[j] == 0,
{
    zeroes(19)
}

/// Create a new buffer for encoding of `usize` values.
pub fn usize_buffer() -> (r: Vec<u8>)
    ensures
        r@.len() == 10,
        forall|j: int| 0 <= j < 10 ==> r@[j] == 0,
{
    zeroes(10)
}

} // verus!
