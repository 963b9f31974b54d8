//! The canonical binary encoding: little-endian `u32` lengths before variable-length parts,
//! fixed 32-byte images for points and scalars. Every reader here accepts exactly the
//! encodings of well-formed values and reads back the value that was written.

use vstd::prelude::*;
use vstd::arithmetic::div_mod::lemma_fundamental_div_mod_converse;
use crate::bytes::append_bytes;
use crate::ascii::BoringAscii;
use crate::curve::{RistrettoPoint, Scalar, is_canonical_scalar, le_bytes, le_nat, ristretto_decodes};
use crate::sag::{Signature, SignatureView, response_views};
use crate::identity::{Identity, IdentityView, identity_valid};
use vstd::utf8::{decode_utf8_encode_utf8, encode_utf8, encode_utf8_decode_utf8, encode_utf8_valid_utf8};

verus! {

/// Whether `s` occurs in `b` at position `pos`.
pub open spec fn at(b: Seq<u8>, pos: int, s: Seq<u8>) -> bool {
    0 <= pos && pos + s.len() <= b.len() && b.subrange(pos, pos + s.len()) == s
}

/// `x + y` occurs at `pos` exactly when `x` does and `y` follows it.
pub proof fn lemma_at_concat(b: Seq<u8>, pos: int, x: Seq<u8>, y: Seq<u8>)
    ensures
        at(b, pos, x + y) <==> at(b, pos, x) && at(b, pos + x.len(), y),
{
    if at(b, pos, x + y) {
        let w = b.subrange(pos, pos + (x + y).len());
        assert(b.subrange(pos, pos + x.len()) =~= w.subrange(0, x.len() as int));
        assert(w.subrange(0, x.len() as int) =~= x);
        assert(b.subrange(pos + x.len(), pos + x.len() + y.len()) =~= w.subrange(
            x.len() as int,
            (x.len() + y.len()) as int,
        ));
        assert(w.subrange(x.len() as int, (x.len() + y.len()) as int) =~= y);
    }
    if at(b, pos, x) && at(b, pos + x.len(), y) {
        assert(b.subrange(pos, pos + (x + y).len()) =~= b.subrange(pos, pos + x.len())
            + b.subrange(pos + x.len(), pos + x.len() + y.len()));
        assert(b.subrange(pos, pos + (x + y).len()) =~= x + y);
    }
}

/// Reading a number's low `k` bytes back gives the number, when it has no more bytes.
pub proof fn lemma_le_bytes_nat(n: nat, k: nat)
    requires
        n < pow256(k),
    ensures
        le_bytes(n, k).len() == k,
        le_nat(le_bytes(n, k)) == n,
    decreases k,
{
    if k > 0 {
        let q = n / 256;
        let r = n % 256;
        assert(n == q * 256 + r);
        assert(q < pow256((k - 1) as nat));
        lemma_le_bytes_nat(q, (k - 1) as nat);
        let s = le_bytes(n, k);
        assert(s.drop_first() =~= le_bytes(q, (k - 1) as nat));
    } else {
        assert(n == 0);
    }
}

/// Writing the number that `b` encodes gives back `b`.
pub proof fn lemma_le_nat_bytes(b: Seq<u8>)
    ensures
        le_nat(b) < pow256(b.len()),
        le_bytes(le_nat(b), b.len()) == b,
    decreases b.len(),
{
    if b.len() > 0 {
        let rest = b.drop_first();
        lemma_le_nat_bytes(rest);
        let n = le_nat(b);
        assert(n == le_nat(rest) * 256 + b[0]);
        lemma_fundamental_div_mod_converse(n as int, 256, le_nat(rest) as int, b[0] as int);
        assert(le_bytes(n, b.len()) =~= b);
    }
}

/// 256 to the power `k`.
pub open spec fn pow256(k: nat) -> nat
    decreases k,
{
    if k == 0 {
        1
    } else {
        256 * pow256((k - 1) as nat)
    }
}

/// The four-byte little-endian encoding of a length or count.
pub open spec fn u32_le(n: nat) -> Seq<u8> {
    le_bytes(n, 4)
}

/// A byte string preceded by its length.
pub open spec fn ser_bytes(b: Seq<u8>) -> Seq<u8> {
    u32_le(b.len()) + b
}

/// Appends the four-byte little-endian encoding of `n`.
pub fn write_u32(out: &mut Vec<u8>, n: u32)
    ensures
        final(out)@ == old(out)@ + u32_le(n as nat),
{
    let b0 = (n % 256) as u8;
    let b1 = ((n / 256) % 256) as u8;
    let b2 = ((n / 65536) % 256) as u8;
    let b3 = ((n / 16777216) % 256) as u8;
    let ghost start = out@;
    out.push(b0);
    out.push(b1);
    out.push(b2);
    out.push(b3);
    proof {
        let v = n as nat;
        assert(v / 256 / 256 == v / 65536) by (nonlinear_arith);
        assert(v / 256 / 256 / 256 == v / 16777216) by (nonlinear_arith);
        assert(u32_le(v) =~= seq![b0, b1, b2, b3]) by {
            reveal_with_fuel(le_bytes, 5);
        }
        assert(out@ =~= start + u32_le(v));
    }
}

/// Appends a byte string preceded by its length; the length is written modulo 2^32.
pub fn write_bytes(out: &mut Vec<u8>, b: &[u8])
    ensures
        final(out)@ == old(out)@ + ser_bytes(b@),
{
    let ghost start = out@;
    let len = b.len();
    let n: u32 = ((len as u64) % 4294967296u64) as u32;
    write_u32(out, n);
    proof {
        lemma_le_bytes_mod(len as nat, 4);
        assert(pow256(4) == 4294967296) by {
            reveal_with_fuel(pow256, 5);
        }
    }
    append_bytes(out, b);
    assert(out@ =~= start + ser_bytes(b@));
}

/// Only the number modulo 256^k shows in its low `k` bytes.
pub proof fn lemma_le_bytes_mod(n: nat, k: nat)
    ensures
        le_bytes(n, k) == le_bytes(n % pow256(k), k),
    decreases k,
{
    if k > 0 {
        let p = pow256((k - 1) as nat);
        lemma_pow256_pos((k - 1) as nat);
        lemma_le_bytes_mod(n / 256, (k - 1) as nat);
        let m = n % pow256(k);
        assert(pow256(k) == 256 * p);
        assert(m % 256 == n % 256) by {
            vstd::arithmetic::div_mod::lemma_mod_mod(n as int, 256, p as int);
        }
        assert(m / 256 == (n / 256) % p) by {
            vstd::arithmetic::div_mod::lemma_mod_breakdown(n as int, 256, p as int);
            vstd::arithmetic::div_mod::lemma_fundamental_div_mod(m as int, 256);
            vstd::arithmetic::div_mod::lemma_fundamental_div_mod_converse(
                m as int,
                256,
                ((n / 256) % p) as int,
                (n % 256) as int,
            );
        }
        lemma_le_bytes_mod(m / 256, (k - 1) as nat);
        vstd::arithmetic::div_mod::lemma_mod_mod((n / 256) as int, p as int, 1);
        assert((m / 256) % p == m / 256) by {
            vstd::arithmetic::div_mod::lemma_mod_bound((n / 256) as int, p as int);
            vstd::arithmetic::div_mod::lemma_small_mod((m / 256) as nat, p);
        }
    }
}

/// Powers of 256 are positive.
pub proof fn lemma_pow256_pos(k: nat)
    ensures
        pow256(k) > 0,
    decreases k,
{
    if k > 0 {
        lemma_pow256_pos((k - 1) as nat);
    }
}

/// Reads a four-byte little-endian number at `pos`.
pub fn read_u32(b: &[u8], pos: usize) -> (r: Option<(u32, usize)>)
    ensures
        r.is_some() <==> pos + 4 <= b@.len(),
        r.is_some() ==> r.unwrap().1 == pos + 4 && at(b@, pos as int, u32_le(r.unwrap().0 as nat)),
        forall|n: nat| n < pow256(4) && #[trigger] at(b@, pos as int, u32_le(n)) ==> r.is_some() && r.unwrap().0 == n,
{
    if pos > b.len() || b.len() - pos < 4 {
        proof {
            assert forall|n: nat| n < pow256(4) && #[trigger] at(b@, pos as int, u32_le(n)) implies false by {
                lemma_le_bytes_nat(n, 4);
            }
        }
        return None;
    }
    let b0 = b[pos] as u64;
    let b1 = b[pos + 1] as u64;
    let b2 = b[pos + 2] as u64;
    let b3 = b[pos + 3] as u64;
    let v: u64 = b0 + 256 * (b1 + 256 * (b2 + 256 * b3));
    let ghost s = b@.subrange(pos as int, pos + 4);
    proof {
        assert(s.drop_first().drop_first().drop_first().drop_first() =~= Seq::<u8>::empty());
        assert(le_nat(s) == v) by {
            reveal_with_fuel(le_nat, 5);
        }
        lemma_le_nat_bytes(s);
        assert(pow256(4) == 4294967296) by {
            reveal_with_fuel(pow256, 5);
        }
        assert forall|n: nat| n < pow256(4) && #[trigger] at(b@, pos as int, u32_le(n)) implies n == v by {
            lemma_le_bytes_nat(n, 4);
        }
    }
    Some((v as u32, pos + 4))
}

/// The low `k` bytes of a number are `k` bytes.
pub proof fn lemma_le_bytes_len(n: nat, k: nat)
    ensures
        le_bytes(n, k).len() == k,
    decreases k,
{
    if k > 0 {
        lemma_le_bytes_len(n / 256, (k - 1) as nat);
    }
}

/// Whether a byte string's length fits the four-byte length prefix.
pub open spec fn fits_u32(b: Seq<u8>) -> bool {
    b.len() < pow256(4)
}

/// Reads a byte string preceded by its length at `pos`; gives it and the position after it.
pub fn read_bytes(b: &[u8], pos: usize) -> (r: Option<(Vec<u8>, usize)>)
    ensures
        r.is_some() ==> r.unwrap().1 == pos + ser_bytes(r.unwrap().0@).len() && at(
            b@,
            pos as int,
            ser_bytes(r.unwrap().0@),
        ),
        forall|x: Seq<u8>| fits_u32(x) && #[trigger] at(b@, pos as int, ser_bytes(x)) ==> r.is_some() && r.unwrap().0@ == x,
{
    proof {
        assert forall|x: Seq<u8>| fits_u32(x) && #[trigger] at(b@, pos as int, ser_bytes(x)) implies at(
            b@,
            pos as int,
            u32_le(x.len()),
        ) && at(b@, pos + 4, x) by {
            lemma_at_concat(b@, pos as int, u32_le(x.len()), x);
            lemma_le_bytes_len(x.len(), 4);
        }
    }
    let (n, p) = match read_u32(b, pos) {
        Some(v) => v,
        None => return None,
    };
    if b.len() - p < n as usize {
        return None;
    }
    let end = p + n as usize;
    let v = crate::bytes::copy_range(b, p, end);
    proof {
        lemma_le_bytes_len(n as nat, 4);
        lemma_at_concat(b@, pos as int, u32_le(n as nat), v@);
    }
    Some((v, end))
}

/// Reads a point's 32-byte encoding at `pos`.
pub fn read_point(b: &[u8], pos: usize) -> (r: Option<(RistrettoPoint, usize)>)
    ensures
        r.is_some() ==> r.unwrap().1 == pos + 32 && r.unwrap().0@.len() == 32 && at(b@, pos as int, r.unwrap().0@),
        forall|x: Seq<u8>| x.len() == 32 && ristretto_decodes(x) && #[trigger] at(b@, pos as int, x) ==> r.is_some() && r.unwrap().0@ == x,
{
    let (arr, end) = match crate::bytes::read_array32(b, pos) {
        Some(a) => a,
        None => return None,
    };
    match RistrettoPoint::from_compressed(arr) {
        Some(p) => Some((p, end)),
        None => None,
    }
}

/// Reads a scalar's canonical 32-byte encoding at `pos`.
pub fn read_scalar(b: &[u8], pos: usize) -> (r: Option<(Scalar, usize)>)
    ensures
        r.is_some() ==> r.unwrap().1 == pos + 32 && r.unwrap().0@.len() == 32 && at(b@, pos as int, r.unwrap().0@),
        forall|x: Seq<u8>| is_canonical_scalar(x) && #[trigger] at(b@, pos as int, x) ==> r.is_some() && r.unwrap().0@ == x,
{
    let (arr, end) = match crate::bytes::read_array32(b, pos) {
        Some(a) => a,
        None => return None,
    };
    match Scalar::from_canonical_bytes(arr) {
        Some(s) => Some((s, end)),
        None => None,
    }
}

/// The encoding of an identity: its name's UTF-8 bytes, then its email address, each
/// preceded by its length.
pub open spec fn ser_identity(id: IdentityView) -> Seq<u8> {
    ser_bytes(encode_utf8(id.name)) + ser_bytes(id.email)
}

/// Whether an identity can be written and read back: it is well formed and both its parts
/// fit the length prefix.
pub open spec fn identity_encodable(id: IdentityView) -> bool {
    identity_valid(id) && fits_u32(encode_utf8(id.name)) && fits_u32(id.email)
}

/// Appends the encoding of an identity.
pub fn write_identity(out: &mut Vec<u8>, id: &Identity)
    ensures
        final(out)@ == old(out)@ + ser_identity(id@),
{
    let ghost start = out@;
    write_bytes(out, id.name_bytes());
    write_bytes(out, id.email_bytes());
    assert(out@ =~= start + ser_identity(id@));
}

/// Reads an identity at `pos`, rejecting a name with a control code or an email address with
/// a byte outside printable, non-whitespace ASCII.
pub fn read_identity(b: &[u8], pos: usize) -> (r: Option<(Identity, usize)>)
    ensures
        r.is_some() ==> r.unwrap().1 == pos + ser_identity(r.unwrap().0@).len() && at(
            b@,
            pos as int,
            ser_identity(r.unwrap().0@),
        ),
        forall|x: IdentityView| identity_encodable(x) && #[trigger] at(b@, pos as int, ser_identity(x)) ==> r.is_some() && r.unwrap().0@ == x,
{
    proof {
        assert forall|x: IdentityView| identity_encodable(x) && #[trigger] at(b@, pos as int, ser_identity(x)) implies at(
            b@,
            pos as int,
            ser_bytes(encode_utf8(x.name)),
        ) && at(b@, pos + ser_bytes(encode_utf8(x.name)).len(), ser_bytes(x.email)) by {
            lemma_at_concat(b@, pos as int, ser_bytes(encode_utf8(x.name)), ser_bytes(x.email));
        }
    }
    let (name_bytes, p) = match read_bytes(b, pos) {
        Some(v) => v,
        None => return None,
    };
    let ghost nb = name_bytes@;
    let (email_bytes, q) = match read_bytes(b, p) {
        Some(v) => v,
        None => return None,
    };
    let name = match crate::bytes::string_from_utf8(name_bytes) {
        Some(s) => s,
        None => {
            proof {
                assert forall|x: IdentityView| identity_encodable(x) && #[trigger] at(b@, pos as int, ser_identity(x)) implies false by {
                    encode_utf8_valid_utf8(x.name);
                }
            }
            return None;
        },
    };
    let email = match BoringAscii::from_bytes(email_bytes.as_slice()) {
        Some(e) => e,
        None => return None,
    };
    let ghost ev = email@;
    match Identity::with_email(name.as_str(), email) {
        Some(id) => {
            proof {
                decode_utf8_encode_utf8(nb);
                lemma_at_concat(b@, pos as int, ser_bytes(nb), ser_bytes(ev));
                assert(ser_identity(id@) == ser_bytes(nb) + ser_bytes(ev));
                assert forall|x: IdentityView| identity_encodable(x) && #[trigger] at(b@, pos as int, ser_identity(x)) implies id@ == x by {
                    encode_utf8_decode_utf8(x.name);
                }
            }
            Some((id, q))
        },
        None => {
            proof {
                assert forall|x: IdentityView| identity_encodable(x) && #[trigger] at(b@, pos as int, ser_identity(x)) implies false by {
                    encode_utf8_decode_utf8(x.name);
                }
            }
            None
        },
    }
}

/// The ring of a signature: each point followed by its response.
pub open spec fn ring_bytes(r: Seq<(Seq<u8>, Seq<u8>)>) -> Seq<u8>
    decreases r.len(),
{
    if r.len() == 0 {
        Seq::empty()
    } else {
        ring_bytes(r.drop_last()) + (r.last().0 + r.last().1)
    }
}

/// The encoding of a signature: the challenge, the ring's size, then the ring.
pub open spec fn ser_signature(sig: SignatureView) -> Seq<u8> {
    sig.challenge + u32_le(sig.ring.len()) + ring_bytes(sig.ring)
}

/// Whether a signature can be written and read back: canonical scalars, points that decode,
/// and a ring whose size fits the count.
pub open spec fn signature_encodable(sig: SignatureView) -> bool {
    &&& is_canonical_scalar(sig.challenge)
    &&& sig.ring.len() < pow256(4)
    &&& forall|i: int|
        0 <= i < sig.ring.len() ==> {
            &&& (#[trigger] sig.ring[i]).0.len() == 32
            &&& ristretto_decodes(sig.ring[i].0)
            &&& is_canonical_scalar(sig.ring[i].1)
        }
}

/// Where a ring occurs, so does each of its prefixes.
pub proof fn lemma_ring_bytes_prefix(b: Seq<u8>, q: int, r: Seq<(Seq<u8>, Seq<u8>)>, i: int)
    requires
        0 <= i <= r.len(),
        at(b, q, ring_bytes(r)),
    ensures
        at(b, q, ring_bytes(r.subrange(0, i))),
    decreases r.len(),
{
    if i == r.len() {
        assert(r.subrange(0, i) =~= r);
    } else {
        lemma_at_concat(b, q, ring_bytes(r.drop_last()), r.last().0 + r.last().1);
        lemma_ring_bytes_prefix(b, q, r.drop_last(), i);
        assert(r.drop_last().subrange(0, i) =~= r.subrange(0, i));
    }
}

/// Appends the encoding of a signature; the ring's size is written modulo 2^32.
pub fn write_signature(out: &mut Vec<u8>, sig: &Signature)
    ensures
        final(out)@ == old(out)@ + ser_signature(sig@),
{
    let ghost start = out@;
    append_bytes(out, &sig.challenge.to_bytes());
    let n = sig.ring_responses.len();
    write_u32(out, ((n as u64) % 4294967296u64) as u32);
    proof {
        lemma_le_bytes_mod(n as nat, 4);
        assert(pow256(4) == 4294967296) by {
            reveal_with_fuel(pow256, 5);
        }
    }
    let ghost mid = out@;
    let ghost ring = sig@.ring;
    let mut i: usize = 0;
    assert(ring.subrange(0, 0) =~= Seq::<(Seq<u8>, Seq<u8>)>::empty());
    assert(out@ =~= mid + ring_bytes(ring.subrange(0, 0)));
    while i < n
        invariant
            i <= n,
            n == sig.ring_responses@.len(),
            ring == sig@.ring,
            out@ == mid + ring_bytes(ring.subrange(0, i as int)),
        decreases n - i,
    {
        let (p, s) = sig.ring_responses[i];
        append_bytes(out, &p.compress());
        append_bytes(out, &s.to_bytes());
        proof {
            let sub = ring.subrange(0, i + 1);
            assert(sub.drop_last() =~= ring.subrange(0, i as int));
        }
        i = i + 1;
        assert(out@ =~= mid + ring_bytes(ring.subrange(0, i as int)));
    }
    assert(ring.subrange(0, n as int) =~= ring);
    assert(out@ =~= start + ser_signature(sig@));
}

/// Reads a signature at `pos`.
pub fn read_signature(b: &[u8], pos: usize) -> (r: Option<(Signature, usize)>)
    ensures
        r.is_some() ==> r.unwrap().1 == pos + ser_signature(r.unwrap().0@).len() && at(
            b@,
            pos as int,
            ser_signature(r.unwrap().0@),
        ),
        forall|x: SignatureView| signature_encodable(x) && #[trigger] at(b@, pos as int, ser_signature(x)) ==> r.is_some() && r.unwrap().0@ == x,
{
    proof {
        assert forall|x: SignatureView| signature_encodable(x) && #[trigger] at(b@, pos as int, ser_signature(x)) implies at(
            b@,
            pos as int,
            x.challenge,
        ) && at(b@, pos + 32, u32_le(x.ring.len())) && at(b@, pos + 36, ring_bytes(x.ring)) by {
            lemma_le_bytes_len(x.ring.len(), 4);
            lemma_at_concat(b@, pos as int, x.challenge + u32_le(x.ring.len()), ring_bytes(x.ring));
            lemma_at_concat(b@, pos as int, x.challenge, u32_le(x.ring.len()));
        }
    }
    let (challenge, p) = match read_scalar(b, pos) {
        Some(v) => v,
        None => return None,
    };
    let (n, q) = match read_u32(b, p) {
        Some(v) => v,
        None => return None,
    };
    proof {
        lemma_le_bytes_len(n as nat, 4);
        lemma_at_concat(b@, pos as int, challenge@, u32_le(n as nat));
    }
    let ghost head = challenge@ + u32_le(n as nat);
    let mut ring: Vec<(RistrettoPoint, Scalar)> = Vec::new();
    let mut cur: usize = q;
    let mut i: u32 = 0;
    assert(response_views(ring@) =~= Seq::<(Seq<u8>, Seq<u8>)>::empty());
    assert(head + ring_bytes(response_views(ring@)) =~= head);
    while i < n
        invariant
            i <= n,
            q == pos + 36,
            head == challenge@ + u32_le(n as nat),
            head.len() == 36,
            ring@.len() == i,
            at(b@, pos as int, head + ring_bytes(response_views(ring@))),
            cur == pos + 36 + ring_bytes(response_views(ring@)).len(),
            forall|x: SignatureView| signature_encodable(x) && #[trigger] at(b@, pos as int, ser_signature(x)) ==> {
                &&& x.challenge == challenge@
                &&& x.ring.len() == n
                &&& response_views(ring@) == x.ring.subrange(0, i as int)
                &&& at(b@, pos + 36, ring_bytes(x.ring))
            },
        decreases n - i,
    {
        let ghost before = response_views(ring@);
        proof {
            assert forall|x: SignatureView| signature_encodable(x) && #[trigger] at(b@, pos as int, ser_signature(x)) implies at(
                b@,
                cur as int,
                x.ring[i as int].0,
            ) && at(b@, cur + 32, x.ring[i as int].1) by {
                lemma_ring_bytes_prefix(b@, pos + 36, x.ring, i + 1);
                let sub = x.ring.subrange(0, i + 1);
                assert(sub.drop_last() =~= x.ring.subrange(0, i as int));
                lemma_at_concat(b@, pos + 36, ring_bytes(sub.drop_last()), sub.last().0 + sub.last().1);
                lemma_at_concat(b@, cur as int, x.ring[i as int].0, x.ring[i as int].1);
            }
        }
        let (k, c1) = match read_point(b, cur) {
            Some(v) => v,
            None => return None,
        };
        let (s, c2) = match read_scalar(b, c1) {
            Some(v) => v,
            None => return None,
        };
        ring.push((k, s));
        proof {
            let after = response_views(ring@);
            assert(after.drop_last() =~= before);
            assert(after.last() == (k@, s@));
            lemma_at_concat(b@, cur as int, k@, s@);
            lemma_at_concat(b@, pos as int, head + ring_bytes(before), k@ + s@);
            assert(head + ring_bytes(after) =~= head + ring_bytes(before) + (k@ + s@));
            assert forall|x: SignatureView| signature_encodable(x) && #[trigger] at(b@, pos as int, ser_signature(x)) implies response_views(ring@)
                == x.ring.subrange(0, i + 1) by {
                assert(x.ring.subrange(0, i + 1) =~= x.ring.subrange(0, i as int).push(x.ring[i as int]));
            }
        }
        cur = c2;
        i = i + 1;
    }
    let sig = Signature { challenge, ring_responses: ring };
    proof {
        assert(ser_signature(sig@) =~= head + ring_bytes(response_views(ring@)));
        assert forall|x: SignatureView| signature_encodable(x) && #[trigger] at(b@, pos as int, ser_signature(x)) implies sig@ == x by {
            assert(x.ring.subrange(0, n as int) =~= x.ring);
        }
    }
    Some((sig, cur))
}

} // verus!
