//! The wire form of the archive header: a map of the root identifiers and
//! the format version, written in the deterministic subset of CBOR that the
//! format uses (definite lengths, minimally encoded integers, keys in fixed
//! order, identifiers tagged 42 as byte strings with a leading zero byte).
//!
//! `header_encoding` is the canonical byte form; `parse_header` accepts
//! exactly the canonical encodings and is what the executable decoder
//! refines.

use vstd::prelude::*;

verus! {

use vstd::arithmetic::power2::*;
use crate::cid::{Cid, CidView, cid_enc, cid_wf, parse_cid, lemma_parse_cid_enc};
use crate::stream::push_bytes;

/// The ghost value of a decoded header: its roots and its version field.
pub struct HeaderView {
    pub roots: Seq<CidView>,
    pub version: u64,
}

/// Big-endian bytes of `v`, `k` bytes wide.
pub open spec fn be_bytes(v: nat, k: nat) -> Seq<u8>
    decreases k,
{
    if k == 0 {
        Seq::empty()
    } else {
        be_bytes(v / 256, (k - 1) as nat) + seq![(v % 256) as u8]
    }
}

/// Value of big-endian bytes.
pub open spec fn be_val(s: Seq<u8>) -> nat
    decreases s.len(),
{
    if s.len() == 0 {
        0
    } else {
        be_val(s.drop_last()) * 256 + (s.last() as nat)
    }
}

/// The minimal CBOR head for major type `major` and argument `n`.
pub open spec fn cbor_head(major: u8, n: nat) -> Seq<u8> {
    if n < 24 {
        seq![(major * 32 + n) as u8]
    } else if n < 0x100 {
        seq![(major * 32 + 24) as u8] + be_bytes(n, 1)
    } else if n < 0x10000 {
        seq![(major * 32 + 25) as u8] + be_bytes(n, 2)
    } else if n < 0x1_0000_0000 {
        seq![(major * 32 + 26) as u8] + be_bytes(n, 4)
    } else {
        seq![(major * 32 + 27) as u8] + be_bytes(n, 8)
    }
}

/// The key `"roots"` with its text head.
pub open spec fn roots_key() -> Seq<u8> {
    seq![0x65u8, 0x72, 0x6f, 0x6f, 0x74, 0x73]
}

/// The key `"version"` with its text head.
pub open spec fn version_key() -> Seq<u8> {
    seq![0x67u8, 0x76, 0x65, 0x72, 0x73, 0x69, 0x6f, 0x6e]
}

/// One root entry: tag 42, then the identifier bytes behind a zero byte, as
/// a byte string.
pub open spec fn root_item(c: CidView) -> Seq<u8> {
    seq![0xd8u8, 0x2a] + cbor_head(2, cid_enc(c).len() + 1) + seq![0u8] + cid_enc(c)
}

/// The root entries, in order.
pub open spec fn roots_items(rs: Seq<CidView>) -> Seq<u8>
    decreases rs.len(),
{
    if rs.len() == 0 {
        Seq::empty()
    } else {
        root_item(rs[0]) + roots_items(rs.skip(1))
    }
}

/// The canonical encoding of a header value.
pub open spec fn header_encoding(h: HeaderView) -> Seq<u8> {
    seq![0xa2u8] + roots_key() + cbor_head(4, h.roots.len()) + roots_items(h.roots)
        + version_key() + cbor_head(0, h.version as nat)
}

/// Parse a minimal CBOR head of major type `major` at `pos`: the argument
/// and the position after the head.
pub open spec fn parse_head(s: Seq<u8>, pos: int, major: u8) -> Option<(nat, int)> {
    if pos < 0 || pos >= s.len() {
        None
    } else {
        let b = s[pos];
        if b / 32 != major {
            None
        } else {
            let info = b % 32;
            if info < 24 {
                Some((info as nat, pos + 1))
            } else if info == 24 {
                if pos + 2 <= s.len() && s[pos + 1] >= 24 {
                    Some((s[pos + 1] as nat, pos + 2))
                } else {
                    None
                }
            } else if info == 25 {
                if pos + 3 <= s.len() && be_val(s.subrange(pos + 1, pos + 3)) >= 0x100 {
                    Some((be_val(s.subrange(pos + 1, pos + 3)), pos + 3))
                } else {
                    None
                }
            } else if info == 26 {
                if pos + 5 <= s.len() && be_val(s.subrange(pos + 1, pos + 5)) >= 0x10000 {
                    Some((be_val(s.subrange(pos + 1, pos + 5)), pos + 5))
                } else {
                    None
                }
            } else if info == 27 {
                if pos + 9 <= s.len() && be_val(s.subrange(pos + 1, pos + 9)) >= 0x1_0000_0000 {
                    Some((be_val(s.subrange(pos + 1, pos + 9)), pos + 9))
                } else {
                    None
                }
            } else {
                None
            }
        }
    }
}

/// Parse `count` root entries starting at `pos`.
pub open spec fn parse_roots(s: Seq<u8>, pos: int, count: nat) -> Option<(Seq<CidView>, int)>
    decreases count,
{
    if count == 0 {
        Some((Seq::empty(), pos))
    } else if 0 <= pos && pos + 2 <= s.len() && s[pos] == 0xd8 && s[pos + 1] == 0x2a {
        match parse_head(s, pos + 2, 2) {
            Some((blen, p2)) => {
                if blen >= 1 && p2 + blen <= s.len() && s[p2] == 0 {
                    match parse_cid(s.subrange(p2 + 1, p2 + blen as int)) {
                        Ok((c, used)) => {
                            if used == blen - 1 {
                                match parse_roots(s, p2 + blen as int, (count - 1) as nat) {
                                    Some((cs, p3)) => Some((seq![c] + cs, p3)),
                                    None => None,
                                }
                            } else {
                                None
                            }
                        },
                        Err(_) => None,
                    }
                } else {
                    None
                }
            },
            None => None,
        }
    } else {
        None
    }
}

/// Parse a whole header from `s`, which must be consumed exactly: the map
/// head, the roots key and array, the version key and value.
pub open spec fn parse_header(s: Seq<u8>) -> Option<HeaderView> {
    if s.len() >= 7 && s[0] == 0xa2 && s.subrange(1, 7) == roots_key() {
        match parse_head(s, 7, 4) {
            Some((count, p1)) => match parse_roots(s, p1, count) {
                Some((cs, p2)) => {
                    if p2 + 8 <= s.len() && s.subrange(p2, p2 + 8) == version_key() {
                        match parse_head(s, p2 + 8, 0) {
                            Some((v, p3)) => {
                                if p3 == s.len() && v < pow2(64) {
                                    Some(HeaderView { roots: cs, version: v as u64 })
                                } else {
                                    None
                                }
                            },
                            None => None,
                        }
                    } else {
                        None
                    }
                },
                None => None,
            },
            None => None,
        }
    } else {
        None
    }
}

/// Append the big-endian bytes of `n`, `k` bytes wide.
fn write_be(out: &mut Vec<u8>, n: u64, k: usize)
    ensures
        final(out)@ == old(out)@ + be_bytes(n as nat, k as nat),
    decreases k,
{
    if k == 0 {
        proof {
            assert(old(out)@ + be_bytes(n as nat, 0) =~= old(out)@);
        }
        return ;
    }
    write_be(out, n / 256, k - 1);
    out.push((n % 256) as u8);
    proof {
        assert(old(out)@ + be_bytes(n as nat, k as nat) =~= (old(out)@ + be_bytes(
            (n / 256) as nat,
            (k - 1) as nat,
        )).push((n % 256) as u8));
    }
}

/// Append the minimal CBOR head for `major` and `n`.
fn write_head(out: &mut Vec<u8>, major: u8, n: u64)
    requires
        major < 8,
    ensures
        final(out)@ == old(out)@ + cbor_head(major, n as nat),
{
    if n < 24 {
        out.push(major * 32 + n as u8);
        proof {
            assert(old(out)@ + cbor_head(major, n as nat) =~= old(out)@.push(
                (major * 32 + n) as u8,
            ));
        }
    } else if n < 0x100 {
        out.push(major * 32 + 24);
        write_be(out, n, 1);
        proof {
            assert(old(out)@ + cbor_head(major, n as nat) =~= old(out)@.push(
                (major * 32 + 24) as u8,
            ) + be_bytes(n as nat, 1));
        }
    } else if n < 0x10000 {
        out.push(major * 32 + 25);
        write_be(out, n, 2);
        proof {
            assert(old(out)@ + cbor_head(major, n as nat) =~= old(out)@.push(
                (major * 32 + 25) as u8,
            ) + be_bytes(n as nat, 2));
        }
    } else if n < 0x1_0000_0000 {
        out.push(major * 32 + 26);
        write_be(out, n, 4);
        proof {
            assert(old(out)@ + cbor_head(major, n as nat) =~= old(out)@.push(
                (major * 32 + 26) as u8,
            ) + be_bytes(n as nat, 4));
        }
    } else {
        out.push(major * 32 + 27);
        write_be(out, n, 8);
        proof {
            assert(old(out)@ + cbor_head(major, n as nat) =~= old(out)@.push(
                (major * 32 + 27) as u8,
            ) + be_bytes(n as nat, 8));
        }
    }
}

/// Read `k` big-endian bytes at `pos`; also bounds the value by 256^k.
fn be_read(buf: &[u8], pos: usize, k: usize) -> (r: u64)
    requires
        k <= 8,
        pos + k <= buf@.len(),
    ensures
        r as nat == be_val(buf@.subrange(pos as int, pos + k)),
        (r as nat) < pow2((8 * k) as nat),
    decreases k,
{
    proof {
        lemma2_to64();
        lemma2_to64_rest();
    }
    if k == 0 {
        proof {
            assert(buf@.subrange(pos as int, pos as int) =~= Seq::<u8>::empty());
        }
        return 0;
    }
    let total = buf.len();
    proof {
        assert(pos + k <= total);
    }
    let hi = be_read(buf, pos, k - 1);
    let b = buf[pos + (k - 1)];
    proof {
        let sub = buf@.subrange(pos as int, pos + k);
        assert(sub.drop_last() =~= buf@.subrange(pos as int, pos + (k - 1)));
        assert(sub.last() == buf@[pos + k - 1]);
        lemma_pow2_adds((8 * (k - 1)) as nat, 8);
        assert(hi * 256 + b < 256 * pow2((8 * (k - 1)) as nat)) by (nonlinear_arith)
            requires
                hi < pow2((8 * (k - 1)) as nat),
                b < 256,
        ;
    }
    hi * 256 + b as u64
}

/// Decode a header from exactly the canonical byte form; anything else is
/// refused.
#[verifier::rlimit(60)]
pub fn decode_header(buf: &[u8]) -> (r: Option<(Vec<Cid>, u64)>)
    ensures
        match parse_header(buf@) {
            Some(m) => {
                &&& r matches Some(p)
                &&& p.0@.map_values(|c: Cid| c@) == m.roots
                &&& forall|j: int| 0 <= j < p.0@.len() ==> (#[trigger] p.0@[j]).wf()
                &&& p.1 == m.version
            },
            None => r is None,
        },
{
    if buf.len() < 7 {
        return None;
    }
    if !(buf[0] == 0xa2 && buf[1] == 0x65 && buf[2] == 0x72 && buf[3] == 0x6f && buf[4] == 0x6f
        && buf[5] == 0x74 && buf[6] == 0x73) {
        proof {
            if buf@.subrange(1, 7) == roots_key() {
                assert(buf@.subrange(1, 7)[0] == buf@[1]);
                assert(buf@.subrange(1, 7)[1] == buf@[2]);
                assert(buf@.subrange(1, 7)[2] == buf@[3]);
                assert(buf@.subrange(1, 7)[3] == buf@[4]);
                assert(buf@.subrange(1, 7)[4] == buf@[5]);
                assert(buf@.subrange(1, 7)[5] == buf@[6]);
            }
        }
        return None;
    }
    proof {
        assert(buf@.subrange(1, 7) =~= roots_key());
    }
    let (count, p1) = match parse_head_ex(buf, 7, 4) {
        Some(p) => p,
        None => {
            return None;
        },
    };
    let mut roots: Vec<Cid> = Vec::new();
    let mut pos: usize = p1;
    let mut i: u64 = 0;
    let ghost s = buf@;
    while i < count
        invariant
            s == buf@,
            s.len() >= 7 && s[0] == 0xa2 && s.subrange(1, 7) == roots_key(),
            parse_head(s, 7, 4) == Some(((count as nat), (p1 as int))),
            0 <= i <= count,
            pos <= s.len(),
            roots@.len() == i,
            forall|j: int| 0 <= j < roots@.len() ==> (#[trigger] roots@[j]).wf(),
            match parse_roots(s, pos as int, (count - i) as nat) {
                Some(p) => parse_roots(s, p1 as int, count as nat) == Some(
                    (roots@.map_values(|c: Cid| c@) + p.0, p.1),
                ),
                None => parse_roots(s, p1 as int, count as nat) is None,
            },
        decreases count - i,
    {
        if buf.len() - pos < 2 {
            return None;
        }
        if !(buf[pos] == 0xd8 && buf[pos + 1] == 0x2a) {
            return None;
        }
        let (blen, p2) = match parse_head_ex(buf, pos + 2, 2) {
            Some(p) => p,
            None => {
                return None;
            },
        };
        if blen < 1 || blen > (buf.len() - p2) as u64 {
            return None;
        }
        let blen: usize = blen as usize;
        if buf[p2] != 0 {
            return None;
        }
        let sub = vstd::slice::slice_subrange(buf, p2 + 1, p2 + blen);
        let (c, used) = match Cid::read_bytes(sub) {
            Ok(p) => p,
            Err(_) => {
                proof {
                    assert(sub@ =~= s.subrange(p2 + 1, p2 + blen as int));
                }
                return None;
            },
        };
        proof {
            assert(sub@ =~= s.subrange(p2 + 1, p2 + blen as int));
        }
        if used != blen - 1 {
            return None;
        }
        let ghost prev_roots = roots@;
        roots.push(c);
        proof {
            assert(roots@.map_values(|x: Cid| x@) =~= prev_roots.map_values(|x: Cid| x@).push(
                c@,
            ));
            if let Some(p) = parse_roots(s, (p2 + blen) as int, (count - i - 1) as nat) {
                assert(prev_roots.map_values(|x: Cid| x@) + (seq![c@] + p.0) =~= roots@.map_values(
                    |x: Cid| x@,
                ) + p.0);
            }
        }
        pos = p2 + blen;
        i = i + 1;
    }
    // every declared root has been consumed; the version pair must follow
    if buf.len() - pos < 8 {
        return None;
    }
    if !(buf[pos] == 0x67 && buf[pos + 1] == 0x76 && buf[pos + 2] == 0x65 && buf[pos + 3] == 0x72
        && buf[pos + 4] == 0x73 && buf[pos + 5] == 0x69 && buf[pos + 6] == 0x6f && buf[pos + 7]
        == 0x6e) {
        proof {
            if s.subrange(pos as int, pos + 8) == version_key() {
                assert(forall|j: int|
                    0 <= j < 8 ==> #[trigger] s.subrange(pos as int, pos + 8)[j] == s[pos + j]);
            }
        }
        return None;
    }
    proof {
        assert(s.subrange(pos as int, pos + 8) =~= version_key());
    }
    let (v, p3) = match parse_head_ex(buf, pos + 8, 0) {
        Some(p) => p,
        None => {
            return None;
        },
    };
    if p3 != buf.len() {
        return None;
    }
    proof {
        lemma_head_value_bound(s, (pos + 8) as int, 0);
    }
    Some((roots, v))
}

/// Parse a minimal CBOR head, as [`parse_head`] says.
fn parse_head_ex(buf: &[u8], pos: usize, major: u8) -> (r: Option<(u64, usize)>)
    requires
        major < 8,
    ensures
        match parse_head(buf@, pos as int, major) {
            Some(p) => {
                &&& r matches Some(q)
                &&& q.0 as nat == p.0
                &&& q.1 == p.1
                &&& pos < p.1 <= buf@.len()
            },
            None => r is None,
        },
{
    proof {
        lemma2_to64();
        lemma2_to64_rest();
    }
    if pos >= buf.len() {
        return None;
    }
    let b = buf[pos];
    if b / 32 != major {
        return None;
    }
    let info = b % 32;
    if info < 24 {
        Some((info as u64, pos + 1))
    } else if info == 24 {
        if buf.len() - pos >= 2 && buf[pos + 1] >= 24 {
            proof {
                assert(buf@.subrange(pos + 1, pos + 2) =~= seq![buf@[pos + 1]]);
            }
            Some((buf[pos + 1] as u64, pos + 2))
        } else {
            None
        }
    } else if info == 25 {
        if buf.len() - pos >= 3 {
            let v = be_read(buf, pos + 1, 2);
            if v >= 0x100 {
                Some((v, pos + 3))
            } else {
                None
            }
        } else {
            None
        }
    } else if info == 26 {
        if buf.len() - pos >= 5 {
            let v = be_read(buf, pos + 1, 4);
            if v >= 0x10000 {
                Some((v, pos + 5))
            } else {
                None
            }
        } else {
            None
        }
    } else if info == 27 {
        if buf.len() - pos >= 9 {
            let v = be_read(buf, pos + 1, 8);
            if v >= 0x1_0000_0000 {
                Some((v, pos + 9))
            } else {
                None
            }
        } else {
            None
        }
    } else {
        None
    }
}

/// A parsed head value fits in 64 bits.
proof fn lemma_head_value_bound(s: Seq<u8>, pos: int, major: u8)
    ensures
        match parse_head(s, pos, major) {
            Some(p) => p.0 < pow2(64),
            None => true,
        },
{
    lemma2_to64();
    lemma2_to64_rest();
    if let Some(p) = parse_head(s, pos, major) {
        let b = s[pos];
        let info = b % 32;
        if info < 24 {
        } else if info == 24 {
            lemma_pow2_strictly_increases(8, 64);
        } else if info == 25 {
            lemma_be_val_bound(s.subrange(pos + 1, pos + 3));
            lemma_pow2_strictly_increases(16, 64);
        } else if info == 26 {
            lemma_be_val_bound(s.subrange(pos + 1, pos + 5));
            lemma_pow2_strictly_increases(32, 64);
        } else {
            lemma_be_val_bound(s.subrange(pos + 1, pos + 9));
        }
    }
}

/// Big-endian values are bounded by 256^len.
proof fn lemma_be_val_bound(s: Seq<u8>)
    ensures
        be_val(s) < pow2((8 * s.len()) as nat),
    decreases s.len(),
{
    lemma2_to64();
    if s.len() == 0 {
    } else {
        lemma_be_val_bound(s.drop_last());
        lemma_pow2_adds((8 * (s.len() - 1)) as nat, 8);
        assert(be_val(s.drop_last()) * 256 + s.last() < 256 * pow2((8 * (s.len() - 1)) as nat))
            by (nonlinear_arith)
            requires
                be_val(s.drop_last()) < pow2((8 * (s.len() - 1)) as nat),
                s.last() < 256,
        ;
    }
}

/// Encode a header value canonically; this cannot fail.
pub fn encode_header(roots: &Vec<Cid>, version: u64) -> (r: Vec<u8>)
    ensures
        r@ == header_encoding(
            HeaderView { roots: roots@.map_values(|c: Cid| c@), version },
        ),
{
    let ghost rs = roots@.map_values(|c: Cid| c@);
    let mut out: Vec<u8> = Vec::new();
    out.push(0xa2);
    out.push(0x65);
    out.push(0x72);
    out.push(0x6f);
    out.push(0x6f);
    out.push(0x74);
    out.push(0x73);
    proof {
        assert(out@ =~= seq![0xa2u8] + roots_key());
    }
    write_head(&mut out, 4, roots.len() as u64);
    let ghost arr_prefix = out@;
    proof {
        assert(roots_items(rs.take(0)) =~= Seq::<u8>::empty());
        assert(out@ =~= arr_prefix + roots_items(rs.take(0)));
    }
    let mut i: usize = 0;
    while i < roots.len()
        invariant
            rs == roots@.map_values(|c: Cid| c@),
            0 <= i <= roots@.len(),
            out@ == arr_prefix + roots_items(rs.take(i as int)),
        decreases roots@.len() - i,
    {
        out.push(0xd8);
        out.push(0x2a);
        let mut cid_bytes: Vec<u8> = Vec::new();
        let root = &roots[i];
        proof {
            use_type_invariant(root);
            Cid::lemma_inv_wf(*root);
            crate::cid::lemma_cid_enc_len(root@);
        }
        root.write_bytes(&mut cid_bytes);
        write_head(&mut out, 2, (cid_bytes.len() + 1) as u64);
        out.push(0x00);
        push_bytes(&mut out, cid_bytes.as_slice());
        proof {
            assert(rs[i as int] == roots@[i as int]@);
            assert(out@ =~= arr_prefix + roots_items(rs.take(i as int)) + root_item(
                rs[i as int],
            ));
            lemma_roots_items_snoc(rs, i as int);
            assert(out@ =~= arr_prefix + roots_items(rs.take(i + 1)));
        }
        i = i + 1;
    }
    proof {
        assert(rs.take(rs.len() as int) =~= rs);
    }
    out.push(0x67);
    out.push(0x76);
    out.push(0x65);
    out.push(0x72);
    out.push(0x73);
    out.push(0x69);
    out.push(0x6f);
    out.push(0x6e);
    let ghost ver_prefix = out@;
    proof {
        assert(ver_prefix =~= arr_prefix + roots_items(rs) + version_key());
    }
    write_head(&mut out, 0, version);
    proof {
        assert(out@ =~= header_encoding(HeaderView { roots: rs, version }));
    }
    out
}

/// Taking one more root into the prefix appends its entry.
proof fn lemma_roots_items_snoc(rs: Seq<CidView>, i: int)
    requires
        0 <= i < rs.len(),
    ensures
        roots_items(rs.take(i + 1)) == roots_items(rs.take(i)) + root_item(rs[i]),
    decreases i,
{
    if i == 0 {
        let t = rs.take(1);
        assert(t =~= seq![rs[0]]);
        assert(t.len() == 1 && t[0] == rs[0]);
        assert(t.skip(1) =~= Seq::<CidView>::empty());
        assert(roots_items(t.skip(1)) == Seq::<u8>::empty());
        assert(roots_items(t) == root_item(rs[0]) + roots_items(t.skip(1)));
        assert(root_item(rs[0]) + Seq::<u8>::empty() =~= root_item(rs[0]));
        assert(rs.take(0) =~= Seq::<CidView>::empty());
        assert(roots_items(rs.take(0)) == Seq::<u8>::empty());
        assert(Seq::<u8>::empty() + root_item(rs[0]) =~= root_item(rs[0]));
    } else {
        let r = rs.skip(1);
        lemma_roots_items_snoc(r, i - 1);
        assert(rs.take(i + 1).skip(1) =~= r.take(i));
        assert(rs.take(i).skip(1) =~= r.take(i - 1));
        assert(rs.take(i + 1)[0] == rs[0] && rs.take(i)[0] == rs[0]);
        assert(r[i - 1] == rs[i]);
        assert(roots_items(rs.take(i + 1)) == root_item(rs[0]) + roots_items(r.take(i)));
        assert(roots_items(rs.take(i)) == root_item(rs[0]) + roots_items(r.take(i - 1)));
        assert(root_item(rs[0]) + (roots_items(r.take(i - 1)) + root_item(r[i - 1])) =~= (
        root_item(rs[0]) + roots_items(r.take(i - 1))) + root_item(r[i - 1]));
    }
}

/// A subrange of a subrange, re-based.
proof fn lemma_sub_sub(s: Seq<u8>, pos: int, len: int, a: int, b: int)
    requires
        0 <= pos,
        pos + len <= s.len(),
        0 <= a <= b <= len,
    ensures
        s.subrange(pos + a, pos + b) == s.subrange(pos, pos + len).subrange(a, b),
{
    assert(s.subrange(pos + a, pos + b) =~= s.subrange(pos, pos + len).subrange(a, b));
}

/// The big-endian form inverts: `k` bytes of a value below 256^k read back
/// to the value.
proof fn lemma_be_round(v: nat, k: nat)
    requires
        v < pow2((8 * k) as nat),
    ensures
        be_bytes(v, k).len() == k,
        be_val(be_bytes(v, k)) == v,
    decreases k,
{
    lemma2_to64();
    if k == 0 {
    } else {
        let e = be_bytes(v, k);
        lemma_pow2_adds((8 * (k - 1)) as nat, 8);
        assert(v / 256 < pow2((8 * (k - 1)) as nat)) by (nonlinear_arith)
            requires
                v < 256 * pow2((8 * (k - 1)) as nat),
        ;
        lemma_be_round(v / 256, (k - 1) as nat);
        assert(e =~= be_bytes(v / 256, (k - 1) as nat) + seq![(v % 256) as u8]);
        assert(e.drop_last() =~= be_bytes(v / 256, (k - 1) as nat));
        assert(e.last() == (v % 256) as u8);
        assert(be_val(e) == (v / 256) * 256 + (v % 256));
        assert((v / 256) * 256 + (v % 256) == v) by (nonlinear_arith);
    }
}

/// A canonical head standing at `pos` of `s` parses back to its argument.
proof fn lemma_parse_head_enc(s: Seq<u8>, pos: int, major: u8, n: nat)
    requires
        major < 8,
        n < pow2(64),
        0 <= pos,
        pos + cbor_head(major, n).len() <= s.len(),
        s.subrange(pos, pos + cbor_head(major, n).len()) == cbor_head(major, n),
    ensures
        parse_head(s, pos, major) == Some((n, pos + cbor_head(major, n).len())),
{
    lemma2_to64();
    lemma2_to64_rest();
    let h = cbor_head(major, n);
    assert(s[pos] == h[0]);
    if n < 24 {
        assert(h =~= seq![(major * 32 + n) as u8]);
        assert(s[pos] == major * 32 + n);
        assert(s[pos] / 32 == major && s[pos] % 32 == n) by (nonlinear_arith)
            requires
                s[pos] == major * 32 + n,
                n < 24,
                major < 8,
        ;
    } else if n < 0x100 {
        lemma_be_round(n, 1);
        assert(h.len() == 2 && h[0] == (major * 32 + 24) as u8);
        assert(s[pos] / 32 == major && s[pos] % 32 == 24) by (nonlinear_arith)
            requires
                s[pos] == major * 32 + 24,
                major < 8,
        ;
        assert(be_bytes(n, 1) =~= seq![(n % 256) as u8]);
        assert(h[1] == (n % 256) as u8);
        assert(s[pos + 1] == h[1]);
        assert(n % 256 == n);
    } else {
        let k: nat = if n < 0x10000 {
            2
        } else if n < 0x1_0000_0000 {
            4
        } else {
            8
        };
        let info: u8 = if n < 0x10000 {
            25
        } else if n < 0x1_0000_0000 {
            26
        } else {
            27
        };
        lemma_be_round(n, k);
        assert(h =~= seq![(major * 32 + info) as u8] + be_bytes(n, k));
        assert(s[pos] == major * 32 + info);
        assert(s[pos] / 32 == major && s[pos] % 32 == info) by (nonlinear_arith)
            requires
                s[pos] == major * 32 + info,
                major < 8,
                24 <= info < 28,
        ;
        assert(s.subrange(pos + 1, pos + 1 + k) =~= be_bytes(n, k)) by {
            assert(forall|j: int|
                0 <= j < k ==> #[trigger] s.subrange(pos + 1, pos + 1 + k)[j] == s[pos + 1 + j]);
            assert(forall|j: int|
                0 <= j < k ==> s.subrange(pos, pos + h.len() as int)[j + 1] == #[trigger] s[pos
                    + 1 + j]);
            assert(forall|j: int| 0 <= j < k ==> #[trigger] h[j + 1] == be_bytes(n, k)[j]);
        }
    }
}

/// The encoded roots standing at `pos` of `s` parse back to the roots.
#[verifier::rlimit(60)]
proof fn lemma_parse_roots_enc(s: Seq<u8>, pos: int, rs: Seq<CidView>)
    requires
        forall|j: int| 0 <= j < rs.len() ==> cid_wf(#[trigger] rs[j]),
        0 <= pos,
        pos + roots_items(rs).len() <= s.len(),
        s.subrange(pos, pos + roots_items(rs).len()) == roots_items(rs),
    ensures
        parse_roots(s, pos, rs.len()) == Some((rs, pos + roots_items(rs).len())),
    decreases rs.len(),
{
    lemma2_to64();
    if rs.len() == 0 {
        assert(roots_items(rs).len() == 0);
    } else {
        let c = rs[0];
        let item = root_item(c);
        let rest_items = roots_items(rs.skip(1));
        assert(roots_items(rs) == item + rest_items);
        crate::cid::lemma_cid_enc_len(c);
        let e = cid_enc(c);
        let blen = e.len() + 1;
        let head = cbor_head(2, blen as nat);
        let t = roots_items(rs);
        let hl = head.len() as int;
        lemma_be_round(blen as nat, 1);
        assert(item =~= seq![0xd8u8, 0x2a] + head + seq![0u8] + e);
        assert(head.len() <= 2);
        assert(s[pos + 0] == t[0] && s[pos + 1] == t[1]) by {
            assert(s.subrange(pos, pos + t.len() as int)[0] == s[pos + 0]);
            assert(s.subrange(pos, pos + t.len() as int)[1] == s[pos + 1]);
        }
        assert(t[0] == item[0] && t[1] == item[1]);
        assert(s[pos] == 0xd8 && s[pos + 1] == 0x2a);
        assert(head =~= t.subrange(2, 2 + hl));
        lemma_sub_sub(s, pos, t.len() as int, 2, 2 + hl);
        assert(s.subrange(pos + 2, pos + 2 + hl) == head);
        lemma_pow2_strictly_increases(16, 64);
        lemma_parse_head_enc(s, pos + 2, 2, blen as nat);
        let p2 = pos + 2 + hl;
        assert(s[pos + (2 + hl)] == t[2 + hl]) by {
            assert(s.subrange(pos, pos + t.len() as int)[2 + hl] == s[pos + (2 + hl)]);
        }
        assert(t[2 + hl] == item[2 + hl]);
        assert(item[2 + hl] == 0);
        assert(s[p2] == 0);
        assert(e =~= t.subrange(2 + hl + 1, 2 + hl + 1 + e.len() as int));
        lemma_sub_sub(s, pos, t.len() as int, 2 + hl + 1, 2 + hl + 1 + e.len() as int);
        assert(s.subrange(p2 + 1, p2 + blen as int) == e);
        lemma_parse_cid_enc(c, Seq::empty());
        assert(e + Seq::<u8>::empty() =~= e);
        assert(parse_cid(e) == Ok::<(CidView, int), crate::cid::Error>((c, e.len() as int)));
        let next = p2 + blen as int;
        assert(next == pos + item.len() as int);
        assert(rest_items =~= t.subrange(item.len() as int, t.len() as int));
        lemma_sub_sub(s, pos, t.len() as int, item.len() as int, t.len() as int);
        assert(s.subrange(next, next + rest_items.len() as int) == rest_items);
        lemma_parse_roots_enc(s, next, rs.skip(1));
        assert(seq![c] + rs.skip(1) =~= rs);
    }
}

/// A canonically encoded header parses back to its value: decoding inverts
/// encoding.
#[verifier::rlimit(60)]
pub proof fn lemma_parse_header_enc(m: HeaderView)
    requires
        m.roots.len() < pow2(64),
        forall|j: int| 0 <= j < m.roots.len() ==> cid_wf(#[trigger] m.roots[j]),
    ensures
        parse_header(header_encoding(m)) == Some(m),
{
    lemma2_to64();
    lemma2_to64_rest();
    let s = header_encoding(m);
    let ch = cbor_head(4, m.roots.len());
    let items = roots_items(m.roots);
    let vh = cbor_head(0, m.version as nat);
    assert(s =~= seq![0xa2u8] + roots_key() + ch + items + version_key() + vh);
    assert(s[0] == 0xa2);
    assert(s.subrange(1, 7) =~= roots_key());
    assert(s.subrange(7, 7 + ch.len() as int) =~= ch);
    lemma_parse_head_enc(s, 7, 4, m.roots.len());
    let p1 = 7 + ch.len() as int;
    assert(s.subrange(p1, p1 + items.len() as int) =~= items);
    lemma_parse_roots_enc(s, p1, m.roots);
    let p2 = p1 + items.len() as int;
    assert(s.subrange(p2, p2 + 8) =~= version_key());
    assert(s.subrange(p2 + 8, p2 + 8 + vh.len() as int) =~= vh);
    lemma_parse_head_enc(s, p2 + 8, 0, m.version as nat);
    assert(p2 + 8 + vh.len() as int == s.len());
}

} // verus!
