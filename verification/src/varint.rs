//! Unsigned variable-length integers: little-endian base-128 digits, each
//! byte carrying seven value bits plus a continuation bit.
//!
//! The ghost model lives here: the canonical encoding `vint_enc`, the value
//! `vint_raw` of a digit sequence, and the decoding outcome `vdecode` that the
//! executable decoders in [`decode`] refine byte for byte.

pub mod decode;
pub mod encode;

use vstd::prelude::*;

verus! {

use vstd::arithmetic::power2::*;
use vstd::arithmetic::mul::*;

/// Possible errors of reading a varint off a byte stream.
#[derive(Clone, Copy, Debug, PartialEq, Eq, Structural)]
pub enum ReadError {
    /// The stream failed, or ended inside a varint.
    Io(crate::stream::IoError),
    /// The bytes read do not form an acceptable varint.
    Decode(decode::Error),
}

/// Value of a digit sequence: the low seven bits of each byte, first byte
/// least significant. Continuation bits are ignored.
pub open spec fn vint_raw(s: Seq<u8>) -> nat
    decreases s.len(),
{
    if s.len() == 0 {
        0
    } else {
        (s[0] % 128) as nat + 128 * vint_raw(s.skip(1))
    }
}

/// The canonical (minimal) varint encoding of `n`.
pub open spec fn vint_enc(n: nat) -> Seq<u8>
    decreases n,
{
    if n < 128 {
        seq![n as u8]
    } else {
        seq![((n % 128) + 128) as u8] + vint_enc(n / 128)
    }
}

/// Index of the first byte without a continuation bit, if any.
pub open spec fn term_idx(s: Seq<u8>) -> Option<int>
    decreases s.len(),
{
    if s.len() == 0 {
        None
    } else if s[0] < 128 {
        Some(0)
    } else {
        match term_idx(s.skip(1)) {
            Some(j) => Some(j + 1),
            None => None,
        }
    }
}

/// Outcome of decoding a varint from the front of a byte sequence, with at
/// most `max + 1` bytes admitted (`max` is the largest admissible index of a
/// continuation byte, matching the per-width bounds of [`decode`]).
///
/// `value` is the raw base-128 value of the consumed digits; the executable
/// decoders reduce it modulo their width.
pub enum VarintStep {
    Decoded { value: nat, used: int },
    NotMinimal,
    Overflow,
    Insufficient,
}

/// Decoding outcome for the front of `s`: mirrors the executable loop, which
/// stops at the first terminator byte, rejects a trailing zero digit of a
/// multi-byte encoding, and gives up after index `max`.
pub open spec fn vdecode(s: Seq<u8>, max: int) -> VarintStep {
    match term_idx(s) {
        Some(t) => {
            if t <= max {
                if s[t] == 0 && t > 0 {
                    VarintStep::NotMinimal
                } else {
                    VarintStep::Decoded { value: vint_raw(s.take(t + 1)), used: t + 1 }
                }
            } else {
                VarintStep::Overflow
            }
        },
        None => {
            if s.len() > max {
                VarintStep::Overflow
            } else {
                VarintStep::Insufficient
            }
        },
    }
}

/// The raw value of a digit sequence is bounded by 128^len.
pub proof fn lemma_raw_bound(s: Seq<u8>)
    ensures
        vint_raw(s) < pow2((7 * s.len()) as nat),
    decreases s.len(),
{
    if s.len() == 0 {
        lemma2_to64();
    } else {
        let rest = s.skip(1);
        lemma_raw_bound(rest);
        lemma_pow2_adds(7, (7 * rest.len()) as nat);
        lemma2_to64();
        assert(vint_raw(rest) + 1 <= pow2((7 * rest.len()) as nat));
        lemma_mul_inequality(
            (vint_raw(rest) + 1) as int,
            pow2((7 * rest.len()) as nat) as int,
            128,
        );
        assert(128 * (vint_raw(rest) + 1) <= 128 * pow2((7 * rest.len()) as nat))
            by (nonlinear_arith)
            requires
                vint_raw(rest) + 1 <= pow2((7 * rest.len()) as nat),
        ;
        assert(vint_raw(s) <= 127 + 128 * vint_raw(rest));
        assert(127 + 128 * vint_raw(rest) < 128 * (vint_raw(rest) + 1)) by (nonlinear_arith);
    }
}

/// Appending one more digit to a prefix adds its weighted value.
pub proof fn lemma_raw_take_snoc(s: Seq<u8>, i: int)
    requires
        0 <= i < s.len(),
    ensures
        vint_raw(s.take(i + 1)) == vint_raw(s.take(i)) + (s[i] % 128) * pow2((7 * i) as nat),
    decreases i,
{
    let t1 = s.take(i + 1);
    let t0 = s.take(i);
    if i == 0 {
        assert(t1 =~= seq![s[0]]);
        assert(t1.skip(1) =~= Seq::<u8>::empty());
        assert(t0 =~= Seq::<u8>::empty());
        lemma2_to64();
        assert(vint_raw(t1) == (s[0] % 128) as nat);
    } else {
        let r = s.skip(1);
        lemma_raw_take_snoc(r, i - 1);
        assert(t1.skip(1) =~= r.take(i));
        assert(t0.skip(1) =~= r.take(i - 1));
        assert(t1[0] == s[0] && t0[0] == s[0]);
        assert(r[i - 1] == s[i]);
        // vint_raw(t1) == s[0]%128 + 128 * vint_raw(r.take(i))
        // vint_raw(r.take(i)) == vint_raw(r.take(i-1)) + (s[i]%128) * pow2(7*(i-1))
        lemma_pow2_adds(7, (7 * (i - 1)) as nat);
        lemma2_to64();
        let p = pow2((7 * (i - 1)) as nat);
        let d = (s[i] % 128) as nat;
        assert(128 * (vint_raw(r.take(i - 1)) + d * p)
            == 128 * vint_raw(r.take(i - 1)) + d * (128 * p)) by (nonlinear_arith);
        assert(pow2((7 * i) as nat) == 128 * p);
    }
}

/// Characterization of `term_idx`: it is the least index of a byte below 128.
pub proof fn lemma_term_idx(s: Seq<u8>)
    ensures
        match term_idx(s) {
            Some(j) => 0 <= j < s.len() && s[j] < 128 && forall|k: int| 0 <= k < j ==> s[k] >= 128,
            None => forall|k: int| 0 <= k < s.len() ==> s[k] >= 128,
        },
    decreases s.len(),
{
    if s.len() == 0 {
    } else if s[0] < 128 {
    } else {
        let r = s.skip(1);
        lemma_term_idx(r);
        assert(forall|k: int| 0 <= k < r.len() ==> r[k] == s[k + 1]);
        match term_idx(r) {
            Some(j) => {
                assert(forall|k: int| 1 <= k < j + 1 ==> s[k] == r[k - 1] && r[k - 1] >= 128);
            },
            None => {
                assert(forall|k: int| 1 <= k < s.len() ==> s[k] == r[k - 1] && r[k - 1] >= 128);
            },
        }
    }
}

/// If the bytes before `i` all carry a continuation bit and byte `i` does
/// not, then `i` is where decoding terminates.
pub proof fn lemma_term_idx_at(s: Seq<u8>, i: int)
    requires
        0 <= i < s.len(),
        s[i] < 128,
        forall|k: int| 0 <= k < i ==> s[k] >= 128,
    ensures
        term_idx(s) == Some(i),
{
    lemma_term_idx(s);
    match term_idx(s) {
        Some(j) => {
            if j < i {
                assert(s[j] >= 128);
            } else if j > i {
                assert(s[i] >= 128);
            }
        },
        None => {
            assert(s[i] >= 128);
        },
    }
}

/// If every byte carries a continuation bit there is no terminator.
pub proof fn lemma_term_idx_none(s: Seq<u8>)
    requires
        forall|k: int| 0 <= k < s.len() ==> s[k] >= 128,
    ensures
        term_idx(s) == None::<int>,
{
    lemma_term_idx(s);
    match term_idx(s) {
        Some(j) => {
            assert(s[j] >= 128);
        },
        None => {},
    }
}

/// Shape of the canonical encoding: nonempty, continuation bits on every
/// byte but the last, terminator below 128 and nonzero unless the encoding
/// is the single byte of a value below 128; and its raw value is `n`.
pub proof fn lemma_enc_props(n: nat)
    ensures
        1 <= vint_enc(n).len(),
        vint_enc(n)[vint_enc(n).len() - 1] < 128,
        forall|j: int| 0 <= j < vint_enc(n).len() - 1 ==> vint_enc(n)[j] >= 128,
        vint_enc(n).len() > 1 ==> vint_enc(n)[vint_enc(n).len() - 1] != 0,
        vint_raw(vint_enc(n)) == n,
    decreases n,
{
    let e = vint_enc(n);
    if n < 128 {
        assert(e =~= seq![n as u8]);
        assert(e.skip(1) =~= Seq::<u8>::empty());
        assert(vint_raw(e) == (e[0] % 128) as nat + 128 * vint_raw(e.skip(1)));
        assert(vint_raw(e.skip(1)) == 0);
        assert(e[0] == n as u8);
        assert(vint_raw(e) == n);
    } else {
        assert(128 <= n);
        assert(n / 128 < n && n / 128 >= 1) by (nonlinear_arith)
            requires
                n >= 128,
        ;
        lemma_enc_props(n / 128);
        let rest = vint_enc(n / 128);
        assert(e =~= seq![((n % 128) + 128) as u8] + rest);
        assert(e.skip(1) =~= rest);
        assert(e[0] == (n % 128) + 128);
        assert(e[0] >= 128);
        assert(e[0] % 128 == n % 128) by (nonlinear_arith)
            requires
                e[0] == (n % 128) + 128,
        ;
        assert(forall|j: int| 1 <= j < e.len() ==> e[j] == rest[j - 1]);
        // last byte of e is last byte of rest
        assert(e[e.len() - 1] == rest[rest.len() - 1]);
        if rest.len() == 1 {
            // rest encodes n / 128 >= 1, a single byte, so it is nonzero
            assert(rest[0] == (n / 128) as u8 || rest[0] >= 128);
            assert(vint_raw(rest) == n / 128);
            assert(rest[0] != 0);
        }
        assert(vint_raw(e) == (e[0] % 128) as nat + 128 * vint_raw(e.skip(1)));
        assert(vint_raw(e.skip(1)) == n / 128);
        assert(vint_raw(e) == (n % 128) + 128 * (n / 128));
        assert((n % 128) + 128 * (n / 128) == n) by (nonlinear_arith);
    }
}

/// A value below 128^k fits in k bytes.
pub proof fn lemma_enc_len_le(n: nat, k: nat)
    requires
        k >= 1,
        n < pow2(7 * k),
    ensures
        vint_enc(n).len() <= k,
    decreases k,
{
    if n < 128 {
    } else {
        assert(k >= 2) by {
            lemma2_to64();
            if k == 1 {
                assert(pow2(7) == 128);
            }
        }
        assert(n / 128 < pow2((7 * (k - 1)) as nat)) by {
            lemma_pow2_adds(7, (7 * (k - 1)) as nat);
            lemma2_to64();
            assert(n < 128 * pow2((7 * (k - 1)) as nat));
            assert(n / 128 < pow2((7 * (k - 1)) as nat)) by (nonlinear_arith)
                requires
                    n < 128 * pow2((7 * (k - 1)) as nat),
            ;
        }
        lemma_enc_len_le(n / 128, (k - 1) as nat);
    }
}

/// The canonical encoding is minimal: no digit sequence of the same value is
/// shorter.
pub proof fn lemma_enc_minimal(s: Seq<u8>)
    requires
        s.len() >= 1,
    ensures
        vint_enc(vint_raw(s)).len() <= s.len(),
{
    lemma_raw_bound(s);
    lemma_enc_len_le(vint_raw(s), s.len());
}

/// The concrete value of 2^128, one step past the tables of vstd.
pub proof fn lemma_pow2_128()
    ensures
        pow2(128) == 0x1_0000_0000_0000_0000_0000_0000_0000_0000,
{
    lemma_pow2_adds(64, 64);
    lemma2_to64();
}

/// A value below 2^64 encodes in at most ten bytes.
pub proof fn lemma_enc_u64_fits(n: nat)
    requires
        n < pow2(64),
    ensures
        vint_enc(n).len() <= 10,
{
    lemma2_to64();
    lemma_pow2_strictly_increases(64, 70);
    lemma_enc_len_le(n, 10);
}

/// Any `usize` encodes in at most ten bytes.
pub proof fn lemma_enc_usize_fits(n: usize)
    ensures
        vint_enc(n as nat).len() <= 10,
{
    lemma2_to64();
    lemma_pow2_strictly_increases(64, 70);
    assert((n as nat) < pow2(64));
    lemma_enc_len_le(n as nat, 10);
}

/// Reducing a value below 2^64 modulo 2^64 changes nothing.
pub proof fn lemma_mod_small_u64(n: nat)
    requires
        n < pow2(64),
    ensures
        n % pow2(64) == n,
{
    vstd::arithmetic::div_mod::lemma_small_mod(n, pow2(64));
}

/// Decoding completeness: a canonical encoding followed by anything decodes
/// to its value, consuming exactly the encoding.
pub proof fn lemma_vdecode_enc(n: nat, rest: Seq<u8>, max: int)
    requires
        vint_enc(n).len() <= max + 1,
    ensures
        vdecode(vint_enc(n) + rest, max) == (VarintStep::Decoded {
            value: n,
            used: vint_enc(n).len() as int,
        }),
{
    let e = vint_enc(n);
    let s = e + rest;
    lemma_enc_props(n);
    let t = e.len() - 1;
    assert(forall|k: int| 0 <= k < t ==> s[k] >= 128);
    assert(s[t] == e[t]);
    lemma_term_idx_at(s, t);
    assert(s.take(t + 1) =~= e);
    if t > 0 {
        assert(s[t] != 0);
    }
}

/// A digit sequence an executable decoder could accept: continuation bits
/// on every byte but the last, and no trailing zero digit unless the whole
/// encoding is the single byte of zero.
pub open spec fn wellformed_varint(s: Seq<u8>) -> bool {
    &&& s.len() >= 1
    &&& s[s.len() - 1] < 128
    &&& forall|j: int| 0 <= j < s.len() - 1 ==> s[j] >= 128
    &&& s.len() > 1 ==> s[s.len() - 1] != 0
}

/// Canonical uniqueness: a well-formed digit sequence is the canonical
/// encoding of its own value, so no value has two acceptable encodings.
pub proof fn lemma_enc_unique(s: Seq<u8>)
    requires
        wellformed_varint(s),
    ensures
        s == vint_enc(vint_raw(s)),
    decreases s.len(),
{
    lemma2_to64();
    if s.len() == 1 {
        assert(vint_raw(s) == (s[0] % 128) as nat + 128 * vint_raw(s.skip(1)));
        assert(s.skip(1) =~= Seq::<u8>::empty());
        assert(vint_raw(s) == s[0]);
        assert(vint_enc(vint_raw(s)) =~= s);
    } else {
        let rest = s.skip(1);
        assert(forall|j: int| 0 <= j < rest.len() ==> rest[j] == s[j + 1]);
        assert(rest[rest.len() - 1] == s[s.len() - 1]);
        lemma_enc_unique(rest);
        // the tail's value is positive, since its final digit is not zero
        lemma_raw_take_snoc(rest, rest.len() - 1);
        assert(rest.take(rest.len() as int) =~= rest);
        lemma_pow2_pos((7 * (rest.len() - 1)) as nat);
        assert((rest[rest.len() - 1] % 128) >= 1);
        assert((rest[rest.len() - 1] % 128) * pow2((7 * (rest.len() - 1)) as nat) >= 1)
            by (nonlinear_arith)
            requires
                (rest[rest.len() - 1] % 128) >= 1,
                pow2((7 * (rest.len() - 1)) as nat) >= 1,
        ;
        let r = vint_raw(rest);
        assert(r >= 1);
        let v = vint_raw(s);
        assert(v == (s[0] % 128) as nat + 128 * r);
        assert(v >= 128) by (nonlinear_arith)
            requires
                v == (s[0] % 128) as nat + 128 * r,
                r >= 1,
        ;
        assert(v % 128 == s[0] % 128 && v / 128 == r) by (nonlinear_arith)
            requires
                v == (s[0] % 128) as nat + 128 * r,
                s[0] % 128 < 128,
        ;
        assert(((v % 128) + 128) as u8 == s[0]);
        assert(vint_enc(v) == seq![s[0]] + vint_enc(r));
        assert(seq![s[0]] + rest =~= s);
    }
}

/// Whatever a decoder accepts is the canonical encoding of the value it
/// returns: the bytes consumed are minimal, and no other byte form yields
/// the same raw value.
pub proof fn lemma_vdecode_canonical(s: Seq<u8>, max: int)
    ensures
        match vdecode(s, max) {
            VarintStep::Decoded { value, used } => s.take(used) == vint_enc(value),
            _ => true,
        },
{
    lemma_term_idx(s);
    if let VarintStep::Decoded { value, used } = vdecode(s, max) {
        let t = used - 1;
        let w = s.take(used);
        assert(forall|j: int| 0 <= j < used ==> w[j] == s[j]);
        assert(wellformed_varint(w));
        lemma_enc_unique(w);
    }
}

/// Round trip at full width: the canonical encoding of a 64-bit value,
/// whatever follows it, decodes back to exactly that value, consuming
/// exactly the encoding; and no reduction modulo the width intervenes.
pub proof fn lemma_round_trip_u64(n: u64, rest: Seq<u8>)
    ensures
        vdecode(vint_enc(n as nat) + rest, 9) == (VarintStep::Decoded {
            value: n as nat,
            used: vint_enc(n as nat).len() as int,
        }),
        (n as nat) % pow2(64) == n,
{
    lemma2_to64();
    lemma_enc_u64_fits(n as nat);
    lemma_vdecode_enc(n as nat, rest, 9);
    lemma_mod_small_u64(n as nat);
}

} // verus!
