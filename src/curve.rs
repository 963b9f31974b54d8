//! Scalars and points of the Ristretto group, held as their canonical 32-byte encodings. The
//! group arithmetic itself is done by `curve25519-dalek`.
//!
//! These values are plain byte arrays: secret scalars are not cleared from memory when they
//! are dropped.

use vstd::prelude::*;
use vstd::arithmetic::power2::pow2;
use crate::hash::{sha3_512, sha3_512_of};
use curve25519_dalek::ristretto::CompressedRistretto;

verus! {

/// The little-endian number that a byte string encodes.
pub open spec fn le_nat(s: Seq<u8>) -> nat
    decreases s.len(),
{
    if s.len() == 0 {
        0
    } else {
        s[0] as nat + 256 * le_nat(s.drop_first())
    }
}

/// The `k` least significant bytes of `n`, little-endian.
pub open spec fn le_bytes(n: nat, k: nat) -> Seq<u8>
    decreases k,
{
    if k == 0 {
        Seq::empty()
    } else {
        seq![(n % 256) as u8] + le_bytes(n / 256, (k - 1) as nat)
    }
}

/// The order of the Ristretto group, 2^252 + 27742317777372353535851937790883648493.
pub open spec fn group_order() -> nat {
    pow2(252) + 27742317777372353535851937790883648493
}

/// The canonical encoding of the scalar `v` reduced modulo the group order.
pub open spec fn scalar_bytes(v: int) -> Seq<u8> {
    le_bytes((v % (group_order() as int)) as nat, 32)
}

/// Whether a byte string is the canonical encoding of a scalar.
pub open spec fn is_canonical_scalar(s: Seq<u8>) -> bool {
    s.len() == 32 && le_nat(s) < group_order()
}

/// The scalar that the SHA3-512 digest of `data` reduces to.
pub open spec fn hash_to_scalar(data: Seq<u8>) -> Seq<u8> {
    scalar_bytes(le_nat(sha3_512_of(data)) as int)
}

/// Whether 32 bytes are the compressed encoding of a Ristretto point.
pub uninterp spec fn ristretto_decodes(b: Seq<u8>) -> bool;

/// The encoding of the base point multiplied by a scalar.
pub uninterp spec fn base_mul_of(s: Seq<u8>) -> Seq<u8>;

/// The encoding of the sum of two points.
pub uninterp spec fn point_add_of(p: Seq<u8>, q: Seq<u8>) -> Seq<u8>;

/// The encoding of a point multiplied by a scalar.
pub uninterp spec fn point_mul_of(s: Seq<u8>, p: Seq<u8>) -> Seq<u8>;

/// Strict lexicographic order on byte strings.
pub open spec fn lex_lt(a: Seq<u8>, b: Seq<u8>) -> bool
    decreases a.len(),
{
    if a.len() == 0 {
        b.len() > 0
    } else if b.len() == 0 {
        false
    } else if a[0] != b[0] {
        a[0] < b[0]
    } else {
        lex_lt(a.drop_first(), b.drop_first())
    }
}

/// Lexicographic order is irreflexive.
pub proof fn lemma_lex_irreflexive(a: Seq<u8>)
    ensures
        !lex_lt(a, a),
    decreases a.len(),
{
    if a.len() > 0 {
        lemma_lex_irreflexive(a.drop_first());
    }
}

/// Lexicographic order is transitive.
pub proof fn lemma_lex_transitive(a: Seq<u8>, b: Seq<u8>, c: Seq<u8>)
    requires
        lex_lt(a, b),
        lex_lt(b, c),
    ensures
        lex_lt(a, c),
    decreases a.len(),
{
    if a.len() > 0 && b.len() > 0 && c.len() > 0 && a[0] == b[0] && b[0] == c[0] {
        lemma_lex_transitive(a.drop_first(), b.drop_first(), c.drop_first());
    }
}

/// Any two distinct byte strings are comparable.
pub proof fn lemma_lex_total(a: Seq<u8>, b: Seq<u8>)
    ensures
        a == b || lex_lt(a, b) || lex_lt(b, a),
    decreases a.len(),
{
    if a.len() == 0 && b.len() == 0 {
        assert(a =~= b);
    } else if a.len() > 0 && b.len() > 0 && a[0] == b[0] {
        lemma_lex_total(a.drop_first(), b.drop_first());
        if a.drop_first() == b.drop_first() {
            assert(a =~= seq![a[0]] + a.drop_first());
            assert(b =~= seq![b[0]] + b.drop_first());
        }
    }
}

/// Lexicographic order is asymmetric.
pub proof fn lemma_lex_asymmetric(a: Seq<u8>, b: Seq<u8>)
    ensures
        !(lex_lt(a, b) && lex_lt(b, a)),
{
    if lex_lt(a, b) && lex_lt(b, a) {
        lemma_lex_transitive(a, b, a);
        lemma_lex_irreflexive(a);
    }
}

/// Compares two byte arrays lexicographically.
pub fn bytes_lt(a: &[u8; 32], b: &[u8; 32]) -> (r: bool)
    ensures
        r == lex_lt(a@, b@),
{
    let mut i: usize = 0;
    assert(a@.subrange(0, 32) =~= a@);
    assert(b@.subrange(0, 32) =~= b@);
    assert(a@.subrange(0, 0) =~= b@.subrange(0, 0));
    while i < 32
        invariant
            0 <= i <= 32,
            a@.len() == 32,
            b@.len() == 32,
            a@.subrange(0, i as int) == b@.subrange(0, i as int),
            lex_lt(a@, b@) == lex_lt(a@.subrange(i as int, 32), b@.subrange(i as int, 32)),
        decreases 32 - i,
    {
        let x = a[i];
        let y = b[i];
        let ghost sa = a@.subrange(i as int, 32);
        let ghost sb = b@.subrange(i as int, 32);
        assert(sa.drop_first() =~= a@.subrange(i + 1, 32));
        assert(sb.drop_first() =~= b@.subrange(i + 1, 32));
        if x != y {
            return x < y;
        }
        assert(a@.subrange(0, i + 1) =~= a@.subrange(0, i as int).push(x));
        assert(b@.subrange(0, i + 1) =~= b@.subrange(0, i as int).push(y));
        i = i + 1;
    }
    assert(a@.subrange(32, 32) =~= Seq::<u8>::empty());
    assert(b@.subrange(32, 32) =~= Seq::<u8>::empty());
    false
}

/// An element of the scalar field, held as its canonical little-endian encoding (a number
/// below the group order; every constructor keeps it so, the wrappers below because
/// `curve25519-dalek` only writes canonical scalars).
#[derive(Clone, Copy, Debug, PartialEq, Eq)]
pub struct Scalar {
    bytes: [u8; 32],
}

/// A point of the Ristretto group, held as its compressed encoding (which always decodes:
/// the wrappers below only store what `curve25519-dalek` compressed).
#[derive(Clone, Copy, Debug, PartialEq, Eq)]
pub struct RistrettoPoint {
    bytes: [u8; 32],
}

impl View for Scalar {
    type V = Seq<u8>;

    closed spec fn view(&self) -> Seq<u8> {
        self.bytes@
    }
}

impl View for RistrettoPoint {
    type V = Seq<u8>;

    closed spec fn view(&self) -> Seq<u8> {
        self.bytes@
    }
}

/// Two scalars, or two points, are equal exactly when their encodings are.
pub proof fn lemma_scalar_view_eq(a: Scalar, b: Scalar)
    ensures
        (a@ == b@) <==> a == b,
{
    if a@ == b@ {
        assert(a.bytes@ =~= b.bytes@);
        assert(a.bytes == b.bytes);
    }
}

/// Two points are equal exactly when their compressed encodings are.
pub proof fn lemma_point_view_eq(a: RistrettoPoint, b: RistrettoPoint)
    ensures
        (a@ == b@) <==> a == b,
{
    if a@ == b@ {
        assert(a.bytes@ =~= b.bytes@);
        assert(a.bytes == b.bytes);
    }
}

impl Scalar {
    #[verifier::type_invariant]
    spec fn inv(&self) -> bool {
        le_nat(self.bytes@) < group_order()
    }

    /// The zero scalar.
    pub fn zero() -> (r: Scalar)
        ensures
            r@ == scalar_bytes(0),
    {
        let bytes = [0u8; 32];
        proof {
            lemma_le_nat_zero(bytes@);
            lemma_le_bytes_zero(32);
            assert(bytes@ =~= le_bytes(0, 32));
        }
        Scalar { bytes }
    }

    /// The canonical encoding.
    pub fn to_bytes(&self) -> (r: [u8; 32])
        ensures
            r@ == self@,
            is_canonical_scalar(r@),
    {
        proof {
            use_type_invariant(self);
        }
        self.bytes
    }

    /// Relies on `curve25519_dalek::Scalar::random`: a uniformly drawn scalar from the operating
    /// system's random source.
    #[verifier::external_body]
    pub fn random() -> (r: Scalar) {
        let s = curve25519_dalek::Scalar::random(&mut rand::rngs::OsRng);
        Scalar { bytes: s.to_bytes() }
    }

    /// Relies on `curve25519_dalek::Scalar::from_canonical_bytes`: it accepts exactly the
    /// encodings of numbers below the group order.
    #[verifier::external_body]
    pub(crate) fn from_canonical_bytes(b: [u8; 32]) -> (r: Option<Scalar>)
        ensures
            r.is_some() <==> le_nat(b@) < group_order(),
            r.is_some() ==> r.unwrap()@ == b@,
    {
        let s: Option<curve25519_dalek::Scalar> =
            curve25519_dalek::Scalar::from_canonical_bytes(b).into();
        s.map(|s| Scalar { bytes: s.to_bytes() })
    }

    /// Relies on `curve25519_dalek::Scalar::from_bytes_mod_order_wide`: the 64-byte
    /// little-endian number reduced modulo the group order.
    #[verifier::external_body]
    fn from_bytes_mod_order_wide(b: &[u8; 64]) -> (r: Scalar)
        ensures
            r@ == scalar_bytes(le_nat(b@) as int),
    {
        Scalar { bytes: curve25519_dalek::Scalar::from_bytes_mod_order_wide(b).to_bytes() }
    }

    /// The SHA3-512 digest of `data`, reduced to a scalar.
    pub fn from_hash(data: &[u8]) -> (r: Scalar)
        ensures
            r@ == hash_to_scalar(data@),
    {
        let digest = sha3_512(data);
        Scalar::from_bytes_mod_order_wide(&digest)
    }

    /// Relies on `curve25519_dalek::Scalar`'s `Sub`: the difference modulo the group order.
    #[verifier::external_body]
    pub(crate) fn sub(&self, other: &Scalar) -> (r: Scalar)
        ensures
            r@ == scalar_bytes(le_nat(self@) - le_nat(other@)),
    {
        let a = curve25519_dalek::Scalar::from_bytes_mod_order(self.bytes);
        let b = curve25519_dalek::Scalar::from_bytes_mod_order(other.bytes);
        Scalar { bytes: (a - b).to_bytes() }
    }

    /// Relies on `curve25519_dalek::Scalar`'s `Mul`: the product modulo the group order.
    #[verifier::external_body]
    pub(crate) fn mul(&self, other: &Scalar) -> (r: Scalar)
        ensures
            r@ == scalar_bytes((le_nat(self@) * le_nat(other@)) as int),
    {
        let a = curve25519_dalek::Scalar::from_bytes_mod_order(self.bytes);
        let b = curve25519_dalek::Scalar::from_bytes_mod_order(other.bytes);
        Scalar { bytes: (a * b).to_bytes() }
    }

    /// Relies on the `Mul` of `curve25519_dalek::Scalar` and `RistrettoPoint`: the point
    /// multiplied by this scalar.
    #[verifier::external_body]
    pub(crate) fn mul_point(&self, p: &RistrettoPoint) -> (r: RistrettoPoint)
        ensures
            r@ == point_mul_of(self@, p@),
    {
        let s = curve25519_dalek::Scalar::from_bytes_mod_order(self.bytes);
        let q = CompressedRistretto(p.bytes).decompress().unwrap();
        RistrettoPoint { bytes: (s * q).compress().to_bytes() }
    }

    /// Whether this scalar's encoding comes before `other`'s in lexicographic order.
    pub fn lt(&self, other: &Scalar) -> (r: bool)
        ensures
            r == lex_lt(self@, other@),
    {
        bytes_lt(&self.bytes, &other.bytes)
    }
}

proof fn lemma_le_nat_zero(s: Seq<u8>)
    requires
        forall|i: int| 0 <= i < s.len() ==> s[i] == 0,
    ensures
        le_nat(s) == 0,
    decreases s.len(),
{
    if s.len() > 0 {
        lemma_le_nat_zero(s.drop_first());
    }
}

proof fn lemma_le_bytes_zero(k: nat)
    ensures
        le_bytes(0, k).len() == k,
        forall|i: int| 0 <= i < k ==> le_bytes(0, k)[i] == 0,
    decreases k,
{
    if k > 0 {
        lemma_le_bytes_zero((k - 1) as nat);
    }
}

impl RistrettoPoint {
    #[verifier::type_invariant]
    spec fn inv(&self) -> bool {
        ristretto_decodes(self.bytes@)
    }

    /// The compressed encoding.
    pub fn compress(&self) -> (r: [u8; 32])
        ensures
            r@ == self@,
            ristretto_decodes(r@),
    {
        proof {
            use_type_invariant(self);
        }
        self.bytes
    }

    /// Relies on `CompressedRistretto::decompress`: it accepts exactly the encodings of points,
    /// and a point's compressed form is the encoding it was read from.
    #[verifier::external_body]
    pub(crate) fn from_compressed(b: [u8; 32]) -> (r: Option<RistrettoPoint>)
        ensures
            r.is_some() <==> ristretto_decodes(b@),
            r.is_some() ==> r.unwrap()@ == b@,
    {
        CompressedRistretto(b).decompress().map(|p| RistrettoPoint { bytes: p.compress().to_bytes() })
    }

    /// Relies on `curve25519_dalek::ristretto::RistrettoPoint::mul_base`: the base point
    /// multiplied by `s`.
    #[verifier::external_body]
    pub(crate) fn mul_base(s: &Scalar) -> (r: RistrettoPoint)
        ensures
            r@ == base_mul_of(s@),
    {
        let s = curve25519_dalek::Scalar::from_bytes_mod_order(s.bytes);
        let p = curve25519_dalek::ristretto::RistrettoPoint::mul_base(&s);
        RistrettoPoint { bytes: p.compress().to_bytes() }
    }

    /// Relies on `curve25519_dalek::ristretto::RistrettoPoint`'s `Add`: the sum of two points.
    #[verifier::external_body]
    pub(crate) fn add(&self, other: &RistrettoPoint) -> (r: RistrettoPoint)
        ensures
            r@ == point_add_of(self@, other@),
    {
        let p = CompressedRistretto(self.bytes).decompress().unwrap();
        let q = CompressedRistretto(other.bytes).decompress().unwrap();
        RistrettoPoint { bytes: (p + q).compress().to_bytes() }
    }

    /// Relies on `curve25519_dalek::ristretto::RistrettoPoint::random`: a uniformly drawn point
    /// from the operating system's random source.
    #[verifier::external_body]
    pub fn random() -> (r: RistrettoPoint) {
        let p = curve25519_dalek::ristretto::RistrettoPoint::random(&mut rand::rngs::OsRng);
        RistrettoPoint { bytes: p.compress().to_bytes() }
    }

    /// Whether this point's encoding comes before `other`'s in lexicographic order.
    pub fn lt(&self, other: &RistrettoPoint) -> (r: bool)
        ensures
            r == lex_lt(self@, other@),
    {
        bytes_lt(&self.bytes, &other.bytes)
    }
}

} // verus!
