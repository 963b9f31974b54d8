//! Identity-bound keys. A public key carries its holder's identity and an attestation: a
//! one-member ring signature, by the key itself, of the identity and the key's point.

use vstd::prelude::*;
use crate::codec::{
    at, identity_encodable, lemma_at_concat, read_identity, read_point, read_scalar,
    read_signature, ser_identity, ser_signature, signature_encodable, write_identity,
    write_signature,
};
use crate::bytes::append_bytes;
use crate::curve::{RistrettoPoint, Scalar, base_mul_of, is_canonical_scalar, ristretto_decodes};
use crate::identity::{Identity, IdentityView, attestation_image};
use crate::sag::{Signature, SignatureView, sag_sign, sag_verifies, sort_by_key, sorted_ring};

verus! {

/// The format version of keys and messages. Its text is `ZebraSign 1.0 Beta` and its byte
/// in the binary encoding is 0.
#[derive(Clone, Copy, Debug, PartialEq, Eq)]
pub enum Version {
    ZebraOneBeta,
}

/// The text of the current version.
pub const VERSION_TEXT: &'static str = "ZebraSign 1.0 Beta";

/// The encodings of a public key.
pub struct PublicKeyView {
    pub holder: IdentityView,
    pub keypoint: Seq<u8>,
    pub attestation: SignatureView,
}

/// The encodings of a private key.
pub struct PrivateKeyView {
    pub holder: IdentityView,
    pub key: Seq<u8>,
    pub attestation: SignatureView,
}

/// Whether a public key's attestation holds: a ring of exactly one member, whose point is the
/// key's point, validly signing the identity and that point.
pub open spec fn attestation_valid(k: PublicKeyView) -> bool {
    &&& k.attestation.ring.len() == 1
    &&& k.attestation.ring[0].0 == k.keypoint
    &&& sag_verifies(attestation_image(k.holder, k.keypoint), k.attestation)
}

/// The public key that belongs to a private key: same holder and attestation, and the point
/// of the secret scalar.
pub open spec fn public_of(k: PrivateKeyView) -> PublicKeyView {
    PublicKeyView { holder: k.holder, keypoint: base_mul_of(k.key), attestation: k.attestation }
}

/// Whether a private key's attestation is the one made when the key was made: the key
/// signing, as the only member of its ring, its holder's identity and its own point, with one
/// drawn response and some nonce.
pub open spec fn fresh_attestation(k: PrivateKeyView) -> bool {
    exists|rs: Seq<Seq<u8>>, a: Seq<u8>|
        rs.len() == 1 && #[trigger] sag_sign(
            attestation_image(k.holder, base_mul_of(k.key)),
            k.key,
            seq![base_mul_of(k.key)],
            0,
            rs,
            a,
        ) == k.attestation
}

/// The encoding of a public key: the version byte, the identity, the point and the
/// attestation.
pub open spec fn ser_public_key(k: PublicKeyView) -> Seq<u8> {
    seq![0u8] + ser_identity(k.holder) + k.keypoint + ser_signature(k.attestation)
}

/// The encoding of a private key: the identity, the secret scalar and the attestation.
pub open spec fn ser_private_key(k: PrivateKeyView) -> Seq<u8> {
    ser_identity(k.holder) + k.key + ser_signature(k.attestation)
}

/// Whether a public key can be written and read back.
pub open spec fn public_key_encodable(k: PublicKeyView) -> bool {
    identity_encodable(k.holder) && k.keypoint.len() == 32 && ristretto_decodes(k.keypoint)
        && signature_encodable(k.attestation)
}

/// Whether a private key can be written and read back.
pub open spec fn private_key_encodable(k: PrivateKeyView) -> bool {
    identity_encodable(k.holder) && is_canonical_scalar(k.key) && signature_encodable(k.attestation)
}

/// A public key: who holds it, the format version, the point, and the holder's attestation.
/// A value of this type may carry an attestation that does not hold; `validate_attestation`
/// says whether it does.
#[derive(Clone, Debug, PartialEq, Eq)]
pub struct PublicKey {
    holder: Identity,
    version: Version,
    keypoint: RistrettoPoint,
    holder_attestation: Signature,
}

/// A private key: who holds it, the secret scalar, and the attestation that its public key
/// carries (made once, when the key was made).
#[derive(Clone, Debug, PartialEq, Eq)]
pub struct PrivateKey {
    holder: Identity,
    key: Scalar,
    holder_attestation: Signature,
}

impl View for PublicKey {
    type V = PublicKeyView;

    closed spec fn view(&self) -> PublicKeyView {
        PublicKeyView {
            holder: self.holder@,
            keypoint: self.keypoint@,
            attestation: self.holder_attestation@,
        }
    }
}

impl View for PrivateKey {
    type V = PrivateKeyView;

    closed spec fn view(&self) -> PrivateKeyView {
        PrivateKeyView { holder: self.holder@, key: self.key@, attestation: self.holder_attestation@ }
    }
}

/// A copy of a signature.
pub fn copy_signature(sig: &Signature) -> (r: Signature)
    ensures
        r@ == sig@,
{
    let mut ring: Vec<(RistrettoPoint, Scalar)> = Vec::new();
    let mut i: usize = 0;
    while i < sig.ring_responses.len()
        invariant
            i <= sig.ring_responses@.len(),
            ring@.len() == i,
            forall|j: int| 0 <= j < i ==> #[trigger] ring@[j] == sig.ring_responses@[j],
        decreases sig.ring_responses@.len() - i,
    {
        ring.push(sig.ring_responses[i]);
        i = i + 1;
    }
    let r = Signature { challenge: sig.challenge, ring_responses: ring };
    assert(r@.ring =~= sig@.ring);
    r
}

/// Whether two signatures have the same encodings.
pub fn signature_eq(a: &Signature, b: &Signature) -> (r: bool)
    ensures
        r == (a@ == b@),
{
    if !crate::bytes::bytes_eq(&a.challenge.to_bytes(), &b.challenge.to_bytes()) {
        assert(a@.challenge != b@.challenge);
        return false;
    }
    if a.ring_responses.len() != b.ring_responses.len() {
        assert(a@.ring.len() != b@.ring.len());
        return false;
    }
    let mut i: usize = 0;
    while i < a.ring_responses.len()
        invariant
            i <= a.ring_responses@.len(),
            a.ring_responses@.len() == b.ring_responses@.len(),
            a@.challenge == b@.challenge,
            forall|j: int| 0 <= j < i ==> #[trigger] a@.ring[j] == b@.ring[j],
        decreases a.ring_responses@.len() - i,
    {
        let (p, s) = a.ring_responses[i];
        let (q, t) = b.ring_responses[i];
        assert(a@.ring[i as int] == (p@, s@));
        assert(b@.ring[i as int] == (q@, t@));
        if !crate::bytes::bytes_eq(&p.compress(), &q.compress()) || !crate::bytes::bytes_eq(&s.to_bytes(), &t.to_bytes()) {
            return false;
        }
        i = i + 1;
    }
    assert(a@.ring =~= b@.ring);
    true
}

impl PublicKey {
    /// The key's holder.
    pub fn holder(&self) -> (r: Identity)
        ensures
            r@ == self@.holder,
    {
        self.holder.clone()
    }

    /// The key's format version.
    pub fn version(&self) -> (r: Version)
        ensures
            r == Version::ZebraOneBeta,
    {
        Version::ZebraOneBeta
    }

    /// The key's point.
    pub fn keypoint(&self) -> (r: RistrettoPoint)
        ensures
            r@ == self@.keypoint,
    {
        self.keypoint
    }

    /// The holder's attestation.
    pub fn holder_attestation(&self) -> (r: Signature)
        ensures
            r@ == self@.attestation,
    {
        copy_signature(&self.holder_attestation)
    }

    /// The key with these parts, in the current version.
    pub(crate) fn from_parts(holder: Identity, keypoint: RistrettoPoint, holder_attestation: Signature) -> (r: PublicKey)
        ensures
            r@ == (PublicKeyView { holder: holder@, keypoint: keypoint@, attestation: holder_attestation@ }),
    {
        PublicKey { holder, version: Version::ZebraOneBeta, keypoint, holder_attestation }
    }

    /// A copy of this key.
    pub fn copy(&self) -> (r: PublicKey)
        ensures
            r@ == self@,
    {
        PublicKey {
            holder: self.holder.clone(),
            version: Version::ZebraOneBeta,
            keypoint: self.keypoint,
            holder_attestation: copy_signature(&self.holder_attestation),
        }
    }

    /// Whether this key and `other` are the same key, attestation included.
    pub fn equals(&self, other: &PublicKey) -> (r: bool)
        ensures
            r == (self@ == other@),
    {
        let same = self.holder.name() == other.holder.name()
            && crate::bytes::bytes_eq(self.holder.email_bytes(), other.holder.email_bytes())
            && crate::bytes::bytes_eq(&self.keypoint.compress(), &other.keypoint.compress())
            && signature_eq(&self.holder_attestation, &other.holder_attestation);
        proof {
            if self.holder@.name == other.holder@.name && self.holder@.email == other.holder@.email {
                assert(self.holder@ == other.holder@);
            }
        }
        same
    }

    /// Whether the attestation holds: a ring of exactly one member, whose point is this key's,
    /// validly signing the holder's identity and this key's point.
    pub fn validate_attestation(&self) -> (r: bool)
        ensures
            r == attestation_valid(self@),
    {
        if self.holder_attestation.ring_responses.len() != 1 {
            return false;
        }
        let p = self.holder_attestation.ring_responses[0].0;
        if !crate::bytes::bytes_eq(&p.compress(), &self.keypoint.compress()) {
            return false;
        }
        let image = self.holder.attestation_bytes(&self.keypoint.compress());
        self.holder_attestation.verify(&image)
    }

    /// Appends the binary encoding of this key.
    pub fn write_to(&self, out: &mut Vec<u8>)
        ensures
            final(out)@ == old(out)@ + ser_public_key(self@),
    {
        let ghost start = out@;
        out.push(0u8);
        write_identity(out, &self.holder);
        append_bytes(out, &self.keypoint.compress());
        write_signature(out, &self.holder_attestation);
        assert(out@ =~= start + ser_public_key(self@));
    }

    /// The binary encoding of this key.
    pub fn to_bytes(&self) -> (r: Vec<u8>)
        ensures
            r@ == ser_public_key(self@),
    {
        let mut out: Vec<u8> = Vec::new();
        self.write_to(&mut out);
        assert(out@ =~= ser_public_key(self@));
        out
    }

    /// Reads a public key's binary encoding at `pos`. The attestation is not checked here.
    pub fn read_from(b: &[u8], pos: usize) -> (r: Option<(PublicKey, usize)>)
        ensures
            r.is_some() ==> r.unwrap().1 == pos + ser_public_key(r.unwrap().0@).len() && at(
                b@,
                pos as int,
                ser_public_key(r.unwrap().0@),
            ),
            forall|x: PublicKeyView| public_key_encodable(x) && #[trigger] at(b@, pos as int, ser_public_key(x)) ==> r.is_some() && r.unwrap().0@ == x,
    {
        proof {
            assert forall|x: PublicKeyView| public_key_encodable(x) && #[trigger] at(b@, pos as int, ser_public_key(x)) implies {
                let i = ser_identity(x.holder).len();
                &&& pos < b@.len() && b@[pos as int] == 0u8
                &&& at(b@, pos + 1, ser_identity(x.holder))
                &&& at(b@, pos + 1 + i, x.keypoint)
                &&& at(b@, pos + 1 + i + 32, ser_signature(x.attestation))
            } by {
                let a = ser_identity(x.holder);
                lemma_at_concat(b@, pos as int, seq![0u8] + a + x.keypoint, ser_signature(x.attestation));
                lemma_at_concat(b@, pos as int, seq![0u8] + a, x.keypoint);
                lemma_at_concat(b@, pos as int, seq![0u8], a);
                assert(b@.subrange(pos as int, pos + 1)[0] == b@[pos as int]);
            }
        }
        if pos >= b.len() || b[pos] != 0u8 {
            return None;
        }
        let (holder, p) = match read_identity(b, pos + 1) {
            Some(v) => v,
            None => return None,
        };
        let (keypoint, q) = match read_point(b, p) {
            Some(v) => v,
            None => return None,
        };
        let (att, end) = match read_signature(b, q) {
            Some(v) => v,
            None => return None,
        };
        let k = PublicKey { holder, version: Version::ZebraOneBeta, keypoint, holder_attestation: att };
        proof {
            let a = ser_identity(k@.holder);
            assert(b@.subrange(pos as int, pos + 1) =~= seq![0u8]);
            lemma_at_concat(b@, pos as int, seq![0u8], a);
            lemma_at_concat(b@, pos as int, seq![0u8] + a, k@.keypoint);
            lemma_at_concat(b@, pos as int, seq![0u8] + a + k@.keypoint, ser_signature(k@.attestation));
        }
        Some((k, end))
    }
}

/// A one-member ring holds just its member.
pub proof fn lemma_sort_single(x: Seq<u8>)
    ensures
        sort_by_key(seq![x]) == seq![x],
{
    let s = seq![x];
    assert(s.drop_last() =~= Seq::<Seq<u8>>::empty());
    assert(sort_by_key(s.drop_last()) =~= Seq::<Seq<u8>>::empty());
    assert(Seq::<Seq<u8>>::empty().insert(0, x) =~= seq![x]);
}

impl PrivateKey {
    /// A new key for `holder`: a random secret scalar, and the attestation that it signs at
    /// once, as the only member of its ring, over the identity and its point.
    pub fn new(holder: Identity) -> (r: PrivateKey)
        ensures
            r@.holder == holder@,
            fresh_attestation(r@),
    {
        let key = Scalar::random();
        let point = RistrettoPoint::mul_base(&key);
        let image = holder.attestation_bytes(&point.compress());
        let others: Vec<RistrettoPoint> = Vec::new();
        let att = Signature::sign(&image, &key, others.as_slice());
        proof {
            assert(crate::sag::point_views(others@) =~= Seq::<Seq<u8>>::empty());
            assert(Seq::<Seq<u8>>::empty().push(base_mul_of(key@)) =~= seq![base_mul_of(key@)]);
            lemma_sort_single(base_mul_of(key@));
            let ring_v = sorted_ring(crate::sag::point_views(others@), base_mul_of(key@));
            assert(ring_v == seq![base_mul_of(key@)]);
            let (rs, a, pi) = choose|rs: Seq<Seq<u8>>, a: Seq<u8>, pi: nat|
                {
                    &&& pi < others@.len() + 1
                    &&& rs.len() == others@.len() + 1
                    &&& ring_v[pi as int] == base_mul_of(key@)
                    &&& att@ == #[trigger] sag_sign(image@, key@, ring_v, pi, rs, a)
                };
            assert(pi == 0);
            assert(sag_sign(attestation_image(holder@, base_mul_of(key@)), key@, seq![base_mul_of(key@)], 0, rs, a) == att@);
        }
        let ghost h = holder@;
        let r = PrivateKey { holder, key, holder_attestation: att };
        proof {
            assert(r@.key == key@);
            assert(r@.attestation == att@);
            assert(h == r@.holder);
        }
        r
    }

    /// The key's holder.
    pub fn holder(&self) -> (r: Identity)
        ensures
            r@ == self@.holder,
    {
        self.holder.clone()
    }

    /// The secret scalar.
    pub fn secret(&self) -> (r: Scalar)
        ensures
            r@ == self@.key,
    {
        self.key
    }

    /// A copy of this key.
    pub fn copy(&self) -> (r: PrivateKey)
        ensures
            r@ == self@,
    {
        PrivateKey {
            holder: self.holder.clone(),
            key: self.key,
            holder_attestation: copy_signature(&self.holder_attestation),
        }
    }

    /// The public key of this key: the same holder and attestation, with the secret scalar's
    /// point.
    pub fn public(&self) -> (r: PublicKey)
        ensures
            r@ == public_of(self@),
    {
        PublicKey {
            holder: self.holder.clone(),
            version: Version::ZebraOneBeta,
            keypoint: RistrettoPoint::mul_base(&self.key),
            holder_attestation: copy_signature(&self.holder_attestation),
        }
    }

    /// Appends the binary encoding of this key.
    pub fn write_to(&self, out: &mut Vec<u8>)
        ensures
            final(out)@ == old(out)@ + ser_private_key(self@),
    {
        let ghost start = out@;
        write_identity(out, &self.holder);
        append_bytes(out, &self.key.to_bytes());
        write_signature(out, &self.holder_attestation);
        assert(out@ =~= start + ser_private_key(self@));
    }

    /// Reads a private key's binary encoding at `pos`.
    pub fn read_from(b: &[u8], pos: usize) -> (r: Option<(PrivateKey, usize)>)
        ensures
            r.is_some() ==> r.unwrap().1 == pos + ser_private_key(r.unwrap().0@).len() && at(
                b@,
                pos as int,
                ser_private_key(r.unwrap().0@),
            ),
            forall|x: PrivateKeyView| private_key_encodable(x) && #[trigger] at(b@, pos as int, ser_private_key(x)) ==> r.is_some() && r.unwrap().0@ == x,
    {
        proof {
            assert forall|x: PrivateKeyView| private_key_encodable(x) && #[trigger] at(b@, pos as int, ser_private_key(x)) implies {
                let i = ser_identity(x.holder).len();
                &&& at(b@, pos as int, ser_identity(x.holder))
                &&& at(b@, pos + i, x.key)
                &&& at(b@, pos + i + 32, ser_signature(x.attestation))
            } by {
                let a = ser_identity(x.holder);
                lemma_at_concat(b@, pos as int, a + x.key, ser_signature(x.attestation));
                lemma_at_concat(b@, pos as int, a, x.key);
            }
        }
        let (holder, p) = match read_identity(b, pos) {
            Some(v) => v,
            None => return None,
        };
        let (key, q) = match read_scalar(b, p) {
            Some(v) => v,
            None => return None,
        };
        let (att, end) = match read_signature(b, q) {
            Some(v) => v,
            None => return None,
        };
        let k = PrivateKey { holder, key, holder_attestation: att };
        proof {
            let a = ser_identity(k@.holder);
            lemma_at_concat(b@, pos as int, a, k@.key);
            lemma_at_concat(b@, pos as int, a + k@.key, ser_signature(k@.attestation));
        }
        Some((k, end))
    }
}

} // verus!
