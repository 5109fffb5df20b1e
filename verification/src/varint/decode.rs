//! Decoding of unsigned varints from byte slices.
//!
//! Each decoder accepts at most the fixed byte count of its width, rejects a
//! multi-byte encoding whose final digit is zero (it would not be minimal),
//! and reduces the accumulated value modulo the width, exactly as the
//! accumulation with truncating shifts does.

use vstd::prelude::*;

verus! {

use vstd::arithmetic::power2::*;
use vstd::slice::slice_subrange;
use crate::varint::{vint_raw, vdecode, VarintStep, lemma_raw_take_snoc, lemma_term_idx_at,
    lemma_term_idx_none, lemma_pow2_128};

/// Possible decoding errors.
#[derive(Clone, Copy, Debug, PartialEq, Eq, Structural)]
pub enum Error {
    /// Not enough input bytes.
    Insufficient,
    /// Input bytes exceed maximum.
    Overflow,
    /// Encoding is not minimal (has trailing zero bytes).
    NotMinimal,
}

/// Is this the last byte of an unsigned varint?
#[inline]
pub fn is_last(b: u8) -> (r: bool)
    ensures
        r == (b < 128),
{
    proof {
        assert((b & 0x80 == 0) == (b < 128)) by (bit_vector);
    }
    b & 0x80 == 0
}

proof fn lemma_step_u64(n: u64, k: u64, sh: u64)
    by (bit_vector)
    requires
        sh <= 63,
        k < 128,
        n < (1u64 << sh),
    ensures
        (n | (k << sh)) == (n + k * ((1u64 << sh) as int)) % 0x1_0000_0000_0000_0000,
{
}

/// Decode the given slice as `u64`.
///
/// Returns the value and the remaining slice.
pub fn u64(buf: &[u8]) -> (r: Result<(u64, &[u8]), Error>)
    ensures
        match vdecode(buf@, 9) {
            VarintStep::Decoded { value, used } => {
                &&& r matches Ok(p)
                &&& p.0 as nat == value % pow2(64)
                &&& p.1@ == buf@.skip(used)
                &&& 0 < used <= buf@.len()
            },
            VarintStep::NotMinimal => r matches Err(Error::NotMinimal),
            VarintStep::Overflow => r matches Err(Error::Overflow),
            VarintStep::Insufficient => r matches Err(Error::Insufficient),
        },
{
    let mut n: u64 = 0;
    let mut i: usize = 0;
    proof {
        lemma2_to64();
        assert(buf@.take(0) =~= Seq::<u8>::empty());
    }
    while i < buf.len()
        invariant
            0 <= i <= 9,
            i <= buf@.len(),
            forall|j: int| 0 <= j < i ==> buf@[j] >= 128,
            n == vint_raw(buf@.take(i as int)),
            n < pow2((7 * i) as nat),
        decreases buf@.len() - i,
    {
        let b = buf[i];
        let k: u64 = (b & 0x7f) as u64;
        let sh: u64 = 7 * (i as u64);
        proof {
            assert((b & 0x7f) == b % 128 && (b & 0x7f) < 128) by (bit_vector);
            lemma_one_shl_u64(sh);
            lemma_raw_take_snoc(buf@, i as int);
        }
        let m = n | (k << sh);
        proof {
            lemma_step_u64(n, k, sh);
            lemma2_to64();
            assert(m == (n + k * pow2(sh as nat)) % (pow2(64) as int));
        }
        if is_last(b) {
            if b == 0 && i > 0 {
                proof {
                    lemma_term_idx_at(buf@, i as int);
                }
                return Err(Error::NotMinimal);
            }
            proof {
                lemma_term_idx_at(buf@, i as int);
                assert(vint_raw(buf@.take(i + 1)) == n + k * pow2(sh as nat));
                assert(buf@.subrange(i + 1, buf@.len() as int) =~= buf@.skip(i + 1));
            }
            return Ok((m, slice_subrange(buf, i + 1, buf.len())));
        }
        if i == 9 {
            proof {
                lemma_term_idx_none_bound(buf@, 9);
            }
            return Err(Error::Overflow);
        }
        proof {
            lemma_pow2_adds(sh as nat, 7);
            lemma2_to64();
            assert(n + k * pow2(sh as nat) < 128 * pow2(sh as nat)) by (nonlinear_arith)
                requires
                    n < pow2(sh as nat),
                    k < 128,
            ;
            lemma_pow2_strictly_increases((sh + 7) as nat, 64);
            vstd::arithmetic::div_mod::lemma_small_mod(
                (n + k * pow2(sh as nat)) as nat,
                pow2(64),
            );
        }
        n = m;
        i = i + 1;
    }
    proof {
        lemma_term_idx_none(buf@);
    }
    Err(Error::Insufficient)
}

/// `pow2(sh)` as a `u64` shift, for shifts below the width.
proof fn lemma_one_shl_u64(sh: u64)
    requires
        sh <= 63,
    ensures
        (1u64 << sh) as nat == pow2(sh as nat),
{
    vstd::bits::lemma_u64_pow2_no_overflow(sh as nat);
    vstd::bits::lemma_u64_shl_is_mul(1u64, sh);
}

/// All of the first `max + 1` bytes carry continuation bits, so decoding
/// overflows.
proof fn lemma_term_idx_none_bound(s: Seq<u8>, max: int)
    requires
        s.len() > max,
        forall|j: int| 0 <= j <= max ==> s[j] >= 128,
    ensures
        vdecode(s, max) matches VarintStep::Overflow,
{
    crate::varint::lemma_term_idx(s);
    match crate::varint::term_idx(s) {
        Some(j) => {
            if j <= max {
                assert(s[j] >= 128);
            }
        },
        None => {},
    }
}

proof fn lemma_step_u8(n: u8, k: u8, sh: u8)
    by (bit_vector)
    requires
        sh <= 7,
        k < 128,
        n < (1u8 << sh),
    ensures
        (n | (k << sh)) == (n + k * ((1u8 << sh) as int)) % 0x100,
{
}

/// Decode the given slice as `u8`.
///
/// Returns the value and the remaining slice.
pub fn u8(buf: &[u8]) -> (r: Result<(u8, &[u8]), Error>)
    ensures
        match vdecode(buf@, 1) {
            VarintStep::Decoded { value, used } => {
                &&& r matches Ok(p)
                &&& p.0 as nat == value % pow2(8)
                &&& p.1@ == buf@.skip(used)
                &&& 0 < used <= buf@.len()
            },
            VarintStep::NotMinimal => r matches Err(Error::NotMinimal),
            VarintStep::Overflow => r matches Err(Error::Overflow),
            VarintStep::Insufficient => r matches Err(Error::Insufficient),
        },
{
    let mut n: u8 = 0;
    let mut i: usize = 0;
    proof {
        lemma2_to64();
        assert(buf@.take(0) =~= Seq::<u8>::empty());
    }
    while i < buf.len()
        invariant
            0 <= i <= 1,
            i <= buf@.len(),
            forall|j: int| 0 <= j < i ==> buf@[j] >= 128,
            n == vint_raw(buf@.take(i as int)),
            n < pow2((7 * i) as nat),
        decreases buf@.len() - i,
    {
        let b = buf[i];
        let k: u8 = (b & 0x7f) as u8;
        let sh: u8 = 7 * (i as u8);
        proof {
            assert((b & 0x7f) == b % 128 && (b & 0x7f) < 128) by (bit_vector);
            lemma_one_shl_u8(sh);
            lemma_raw_take_snoc(buf@, i as int);
        }
        let m = n | (k << sh);
        proof {
            lemma_step_u8(n, k, sh);
            lemma2_to64();
            assert(m == (n + k * pow2(sh as nat)) % (pow2(8) as int));
        }
        if is_last(b) {
            if b == 0 && i > 0 {
                proof {
                    lemma_term_idx_at(buf@, i as int);
                }
                return Err(Error::NotMinimal);
            }
            proof {
                lemma_term_idx_at(buf@, i as int);
                assert(vint_raw(buf@.take(i + 1)) == n + k * pow2(sh as nat));
                assert(buf@.subrange(i + 1, buf@.len() as int) =~= buf@.skip(i + 1));
            }
            return Ok((m, slice_subrange(buf, i + 1, buf.len())));
        }
        if i == 1 {
            proof {
                lemma_term_idx_none_bound(buf@, 1);
            }
            return Err(Error::Overflow);
        }
        proof {
            lemma_pow2_adds(sh as nat, 7);
            lemma2_to64();
            assert(n + k * pow2(sh as nat) < 128 * pow2(sh as nat)) by (nonlinear_arith)
                requires
                    n < pow2(sh as nat),
                    k < 128,
            ;
            lemma_pow2_strictly_increases((sh + 7) as nat, 8);
            vstd::arithmetic::div_mod::lemma_small_mod(
                (n + k * pow2(sh as nat)) as nat,
                pow2(8),
            );
        }
        n = m;
        i = i + 1;
    }
    proof {
        lemma_term_idx_none(buf@);
    }
    Err(Error::Insufficient)
}

proof fn lemma_step_u16(n: u16, k: u16, sh: u16)
    by (bit_vector)
    requires
        sh <= 14,
        k < 128,
        n < (1u16 << sh),
    ensures
        (n | (k << sh)) == (n + k * ((1u16 << sh) as int)) % 0x1_0000,
{
}

/// Decode the given slice as `u16`.
///
/// Returns the value and the remaining slice.
pub fn u16(buf: &[u8]) -> (r: Result<(u16, &[u8]), Error>)
    ensures
        match vdecode(buf@, 2) {
            VarintStep::Decoded { value, used } => {
                &&& r matches Ok(p)
                &&& p.0 as nat == value % pow2(16)
                &&& p.1@ == buf@.skip(used)
                &&& 0 < used <= buf@.len()
            },
            VarintStep::NotMinimal => r matches Err(Error::NotMinimal),
            VarintStep::Overflow => r matches Err(Error::Overflow),
            VarintStep::Insufficient => r matches Err(Error::Insufficient),
        },
{
    let mut n: u16 = 0;
    let mut i: usize = 0;
    proof {
        lemma2_to64();
        assert(buf@.take(0) =~= Seq::<u8>::empty());
    }
    while i < buf.len()
        invariant
            0 <= i <= 2,
            i <= buf@.len(),
            forall|j: int| 0 <= j < i ==> buf@[j] >= 128,
            n == vint_raw(buf@.take(i as int)),
            n < pow2((7 * i) as nat),
        decreases buf@.len() - i,
    {
        let b = buf[i];
        let k: u16 = (b & 0x7f) as u16;
        let sh: u16 = 7 * (i as u16);
        proof {
            assert((b & 0x7f) == b % 128 && (b & 0x7f) < 128) by (bit_vector);
            lemma_one_shl_u16(sh);
            lemma_raw_take_snoc(buf@, i as int);
        }
        let m = n | (k << sh);
        proof {
            lemma_step_u16(n, k, sh);
            lemma2_to64();
            assert(m == (n + k * pow2(sh as nat)) % (pow2(16) as int));
        }
        if is_last(b) {
            if b == 0 && i > 0 {
                proof {
                    lemma_term_idx_at(buf@, i as int);
                }
                return Err(Error::NotMinimal);
            }
            proof {
                lemma_term_idx_at(buf@, i as int);
                assert(vint_raw(buf@.take(i + 1)) == n + k * pow2(sh as nat));
                assert(buf@.subrange(i + 1, buf@.len() as int) =~= buf@.skip(i + 1));
            }
            return Ok((m, slice_subrange(buf, i + 1, buf.len())));
        }
        if i == 2 {
            proof {
                lemma_term_idx_none_bound(buf@, 2);
            }
            return Err(Error::Overflow);
        }
        proof {
            lemma_pow2_adds(sh as nat, 7);
            lemma2_to64();
            assert(n + k * pow2(sh as nat) < 128 * pow2(sh as nat)) by (nonlinear_arith)
                requires
                    n < pow2(sh as nat),
                    k < 128,
            ;
            lemma_pow2_strictly_increases((sh + 7) as nat, 16);
            vstd::arithmetic::div_mod::lemma_small_mod(
                (n + k * pow2(sh as nat)) as nat,
                pow2(16),
            );
        }
        n = m;
        i = i + 1;
    }
    proof {
        lemma_term_idx_none(buf@);
    }
    Err(Error::Insufficient)
}

proof fn lemma_step_u32(n: u32, k: u32, sh: u32)
    by (bit_vector)
    requires
        sh <= 28,
        k < 128,
        n < (1u32 << sh),
    ensures
        (n | (k << sh)) == (n + k * ((1u32 << sh) as int)) % 0x1_0000_0000,
{
}

/// Decode the given slice as `u32`.
///
/// Returns the value and the remaining slice.
pub fn u32(buf: &[u8]) -> (r: Result<(u32, &[u8]), Error>)
    ensures
        match vdecode(buf@, 4) {
            VarintStep::Decoded { value, used } => {
                &&& r matches Ok(p)
                &&& p.0 as nat == value % pow2(32)
                &&& p.1@ == buf@.skip(used)
                &&& 0 < used <= buf@.len()
            },
            VarintStep::NotMinimal => r matches Err(Error::NotMinimal),
            VarintStep::Overflow => r matches Err(Error::Overflow),
            VarintStep::Insufficient => r matches Err(Error::Insufficient),
        },
{
    let mut n: u32 = 0;
    let mut i: usize = 0;
    proof {
        lemma2_to64();
        assert(buf@.take(0) =~= Seq::<u8>::empty());
    }
    while i < buf.len()
        invariant
            0 <= i <= 4,
            i <= buf@.len(),
            forall|j: int| 0 <= j < i ==> buf@[j] >= 128,
            n == vint_raw(buf@.take(i as int)),
            n < pow2((7 * i) as nat),
        decreases buf@.len() - i,
    {
        let b = buf[i];
        let k: u32 = (b & 0x7f) as u32;
        let sh: u32 = 7 * (i as u32);
        proof {
            assert((b & 0x7f) == b % 128 && (b & 0x7f) < 128) by (bit_vector);
            lemma_one_shl_u32(sh);
            lemma_raw_take_snoc(buf@, i as int);
        }
        let m = n | (k << sh);
        proof {
            lemma_step_u32(n, k, sh);
            lemma2_to64();
            assert(m == (n + k * pow2(sh as nat)) % (pow2(32) as int));
        }
        if is_last(b) {
            if b == 0 && i > 0 {
                proof {
                    lemma_term_idx_at(buf@, i as int);
                }
                return Err(Error::NotMinimal);
            }
            proof {
                lemma_term_idx_at(buf@, i as int);
                assert(vint_raw(buf@.take(i + 1)) == n + k * pow2(sh as nat));
                assert(buf@.subrange(i + 1, buf@.len() as int) =~= buf@.skip(i + 1));
            }
            return Ok((m, slice_subrange(buf, i + 1, buf.len())));
        }
        if i == 4 {
            proof {
                lemma_term_idx_none_bound(buf@, 4);
            }
            return Err(Error::Overflow);
        }
        proof {
            lemma_pow2_adds(sh as nat, 7);
            lemma2_to64();
            assert(n + k * pow2(sh as nat) < 128 * pow2(sh as nat)) by (nonlinear_arith)
                requires
                    n < pow2(sh as nat),
                    k < 128,
            ;
            lemma_pow2_strictly_increases((sh + 7) as nat, 32);
            vstd::arithmetic::div_mod::lemma_small_mod(
                (n + k * pow2(sh as nat)) as nat,
                pow2(32),
            );
        }
        n = m;
        i = i + 1;
    }
    proof {
        lemma_term_idx_none(buf@);
    }
    Err(Error::Insufficient)
}

proof fn lemma_step_u128(n: u128, k: u128, sh: u128)
    by (bit_vector)
    requires
        sh <= 126,
        k < 128,
        n < (1u128 << sh),
    ensures
        (n | (k << sh)) == (n + k * ((1u128 << sh) as int)) % 0x1_0000_0000_0000_0000_0000_0000_0000_0000int,
{
}

/// Decode the given slice as `u128`.
///
/// Returns the value and the remaining slice.
pub fn u128(buf: &[u8]) -> (r: Result<(u128, &[u8]), Error>)
    ensures
        match vdecode(buf@, 18) {
            VarintStep::Decoded { value, used } => {
                &&& r matches Ok(p)
                &&& p.0 as nat == value % pow2(128)
                &&& p.1@ == buf@.skip(used)
                &&& 0 < used <= buf@.len()
            },
            VarintStep::NotMinimal => r matches Err(Error::NotMinimal),
            VarintStep::Overflow => r matches Err(Error::Overflow),
            VarintStep::Insufficient => r matches Err(Error::Insufficient),
        },
{
    let mut n: u128 = 0;
    let mut i: usize = 0;
    proof {
        lemma2_to64();
        lemma_pow2_128();
        assert(buf@.take(0) =~= Seq::<u8>::empty());
    }
    while i < buf.len()
        invariant
            0 <= i <= 18,
            i <= buf@.len(),
            forall|j: int| 0 <= j < i ==> buf@[j] >= 128,
            n == vint_raw(buf@.take(i as int)),
            n < pow2((7 * i) as nat),
        decreases buf@.len() - i,
    {
        let b = buf[i];
        let k: u128 = (b & 0x7f) as u128;
        let sh: u128 = 7 * (i as u128);
        proof {
            assert((b & 0x7f) == b % 128 && (b & 0x7f) < 128) by (bit_vector);
            lemma_one_shl_u128(sh);
            lemma_raw_take_snoc(buf@, i as int);
        }
        let m = n | (k << sh);
        proof {
            lemma_step_u128(n, k, sh);
            lemma2_to64();
            lemma_pow2_128();
            assert(m == (n + k * pow2(sh as nat)) % (pow2(128) as int));
        }
        if is_last(b) {
            if b == 0 && i > 0 {
                proof {
                    lemma_term_idx_at(buf@, i as int);
                }
                return Err(Error::NotMinimal);
            }
            proof {
                lemma_term_idx_at(buf@, i as int);
                assert(vint_raw(buf@.take(i + 1)) == n + k * pow2(sh as nat));
                assert(buf@.subrange(i + 1, buf@.len() as int) =~= buf@.skip(i + 1));
            }
            return Ok((m, slice_subrange(buf, i + 1, buf.len())));
        }
        if i == 18 {
            proof {
                lemma_term_idx_none_bound(buf@, 18);
            }
            return Err(Error::Overflow);
        }
        proof {
            lemma_pow2_adds(sh as nat, 7);
            lemma2_to64();
            assert(n + k * pow2(sh as nat) < 128 * pow2(sh as nat)) by (nonlinear_arith)
                requires
                    n < pow2(sh as nat),
                    k < 128,
            ;
            lemma_pow2_strictly_increases((sh + 7) as nat, 128);
            vstd::arithmetic::div_mod::lemma_small_mod(
                (n + k * pow2(sh as nat)) as nat,
                pow2(128),
            );
        }
        n = m;
        i = i + 1;
    }
    proof {
        lemma_term_idx_none(buf@);
    }
    Err(Error::Insufficient)
}

/// Decode the given slice as `usize`.
///
/// Returns the value and the remaining slice.
pub fn usize(buf: &[u8]) -> (r: Result<(usize, &[u8]), Error>)
    ensures
        match vdecode(buf@, 9) {
            VarintStep::Decoded { value, used } => {
                &&& r matches Ok(p)
                &&& p.0 == ((value % pow2(64)) as u64) as usize
                &&& p.1@ == buf@.skip(used)
                &&& 0 < used <= buf@.len()
            },
            VarintStep::NotMinimal => r matches Err(Error::NotMinimal),
            VarintStep::Overflow => r matches Err(Error::Overflow),
            VarintStep::Insufficient => r matches Err(Error::Insufficient),
        },
{
    match u64(buf) {
        Ok((n, rest)) => Ok((n as usize, rest)),
        Err(e) => Err(e),
    }
}

proof fn lemma_one_shl_u8(sh: u8)
    requires
        sh <= 7,
    ensures
        (1u8 << sh) as nat == pow2(sh as nat),
{
    vstd::bits::lemma_u8_pow2_no_overflow(sh as nat);
    vstd::bits::lemma_u8_shl_is_mul(1u8, sh);
}

proof fn lemma_one_shl_u16(sh: u16)
    requires
        sh <= 15,
    ensures
        (1u16 << sh) as nat == pow2(sh as nat),
{
    vstd::bits::lemma_u16_pow2_no_overflow(sh as nat);
    vstd::bits::lemma_u16_shl_is_mul(1u16, sh);
}

proof fn lemma_one_shl_u32(sh: u32)
    requires
        sh <= 31,
    ensures
        (1u32 << sh) as nat == pow2(sh as nat),
{
    vstd::bits::lemma_u32_pow2_no_overflow(sh as nat);
    vstd::bits::lemma_u32_shl_is_mul(1u32, sh);
}

proof fn lemma_one_shl_u128(sh: u128)
    requires
        sh <= 127,
    ensures
        (1u128 << sh) as nat == pow2(sh as nat),
    decreases sh,
{
    if sh == 0 {
        assert((1u128 << 0u128) == 1) by (bit_vector);
        lemma2_to64();
    } else {
        lemma_one_shl_u128((sh - 1) as u128);
        assert((1u128 << sh) == (1u128 << ((sh - 1) as u128)) * 2) by (bit_vector)
            requires
                0 < sh <= 127,
        ;
        lemma_pow2_128();
        lemma_pow2_strictly_increases((sh - 1) as nat, 128);
        assert(pow2(sh as nat) == 2 * pow2((sh - 1) as nat)) by {
            lemma_pow2_adds(1, (sh - 1) as nat);
            lemma2_to64();
        }
        lemma_pow2_strictly_increases(sh as nat, 129);
        assert(pow2(129) == 2 * pow2(128)) by {
            lemma_pow2_adds(1, 128);
            lemma2_to64();
        }
    }
}

} // verus!
