//! Signed messages: a text, the ring of public keys that might have signed it (sorted by
//! point), and the ring signature's challenge and responses.

use vstd::prelude::*;
use vstd::string::StringSliceAdditionalSpecFns;
use vstd::utf8::{decode_utf8, encode_utf8, encode_utf8_valid_utf8, valid_utf8, valid_utf8_concat};
use crate::ascii::is_boring;
use crate::bytes::{bytes_eq, copy_range, string_from_utf8};
use crate::text::lemma_ascii_valid;
use crate::bytes::append_bytes;
use crate::hash::{z85_decode, z85_encode, z85_of};
use crate::text::fingerprint_chars;
use crate::codec::{at, lemma_at_concat, lemma_le_bytes_len, lemma_le_bytes_mod, pow256, read_scalar, read_u32, u32_le, write_u32};
use crate::curve::{RistrettoPoint, Scalar, is_canonical_scalar};
use crate::keys::{PrivateKey, PrivateKeyView, PublicKey, PublicKeyView, attestation_valid, public_key_encodable, public_of, ser_public_key};
use crate::sag::{RingKey, Signature, SignatureView, sag_sign, sag_verifies, sort_by_key, insert_pos, lemma_insert_pos_bound};

verus! {

impl RingKey for PublicKeyView {
    open spec fn ring_key(&self) -> Seq<u8> {
        self.keypoint
    }
}

/// The encodings of a sequence of public keys.
pub open spec fn key_views(s: Seq<PublicKey>) -> Seq<PublicKeyView> {
    s.map_values(|k: PublicKey| k@)
}

/// The points of a sequence of public keys.
pub open spec fn keypoints_of(s: Seq<PublicKeyView>) -> Seq<Seq<u8>> {
    s.map_values(|k: PublicKeyView| k.keypoint)
}

/// `s` without any occurrence of `x`.
pub open spec fn without_key(s: Seq<PublicKeyView>, x: PublicKeyView) -> Seq<PublicKeyView>
    decreases s.len(),
{
    if s.len() == 0 {
        s
    } else if s.last() == x {
        without_key(s.drop_last(), x)
    } else {
        without_key(s.drop_last(), x).push(s.last())
    }
}

/// The ring of a message signed by `mine` with `others`: the others without the signer's
/// own public key, and the signer's public key once, sorted by point.
pub open spec fn message_ring(others: Seq<PublicKeyView>, mine: PublicKeyView) -> Seq<PublicKeyView> {
    sort_by_key(without_key(others, mine).push(mine))
}

/// The encodings of a signed message.
pub struct SignedMessageView {
    pub message: Seq<char>,
    pub challenge: Seq<u8>,
    pub ring: Seq<(PublicKeyView, Seq<u8>)>,
}

/// The ring signature inside a signed message: its challenge, and each member's point with
/// its response.
pub open spec fn message_signature(m: SignedMessageView) -> SignatureView {
    SignatureView {
        challenge: m.challenge,
        ring: m.ring.map_values(|e: (PublicKeyView, Seq<u8>)| (e.0.keypoint, e.1)),
    }
}

/// Whether a signed message is valid: every ring member's attestation holds, and the ring
/// signature is valid for the message's UTF-8 bytes.
pub open spec fn signed_message_valid(m: SignedMessageView) -> bool {
    &&& forall|i: int| 0 <= i < m.ring.len() ==> attestation_valid(#[trigger] m.ring[i].0)
    &&& sag_verifies(encode_utf8(m.message), message_signature(m))
}

/// Pairs each ring key with the response that the signature gives its position.
pub open spec fn signed_ring(keys: Seq<PublicKeyView>, sig: SignatureView) -> Seq<(PublicKeyView, Seq<u8>)> {
    Seq::new(keys.len(), |i: int| (keys[i], sig.ring[i].1))
}

/// The message `message` signed by `k` with the others `others`, the signer at position `pi`
/// of the ring, with the responses `rs` and the nonce `a`.
pub open spec fn signed_message_by(
    message: Seq<char>,
    k: PrivateKeyView,
    others: Seq<PublicKeyView>,
    pi: nat,
    rs: Seq<Seq<u8>>,
    a: Seq<u8>,
) -> SignedMessageView {
    let ring = message_ring(others, public_of(k));
    let sig = sag_sign(encode_utf8(message), k.key, keypoints_of(ring), pi, rs, a);
    SignedMessageView { message, challenge: sig.challenge, ring: signed_ring(ring, sig) }
}

/// Whether `m` is `message` signed by `k` with the others `others`: the signer at its
/// position of the ring, one drawn response per ring member, and some nonce.
pub open spec fn signed_by(m: SignedMessageView, message: Seq<char>, k: PrivateKeyView, others: Seq<PublicKeyView>) -> bool {
    let ring = message_ring(others, public_of(k));
    exists|rs: Seq<Seq<u8>>, a: Seq<u8>, pi: nat|
        {
            &&& pi < ring.len()
            &&& rs.len() == ring.len()
            &&& ring[pi as int] == public_of(k)
            &&& m == #[trigger] signed_message_by(message, k, others, pi, rs, a)
        }
}

/// A signed message: the text, and the ring signature over its UTF-8 bytes by one of the
/// ring's keys.
#[derive(Clone, Debug, PartialEq, Eq)]
pub struct SignedMessage {
    message: String,
    challenge: Scalar,
    ring: Vec<(PublicKey, Scalar)>,
}

/// The encodings of a sequence of (key, response) pairs.
pub open spec fn entry_views(s: Seq<(PublicKey, Scalar)>) -> Seq<(PublicKeyView, Seq<u8>)> {
    s.map_values(|e: (PublicKey, Scalar)| (e.0@, e.1@))
}

impl View for SignedMessage {
    type V = SignedMessageView;

    closed spec fn view(&self) -> SignedMessageView {
        SignedMessageView { message: self.message@, challenge: self.challenge@, ring: entry_views(self.ring@) }
    }
}

/// Finds where `k` goes into the ring `ring`, sorted by point.
fn find_key_pos(ring: &Vec<PublicKey>, k: &PublicKey) -> (r: usize)
    ensures
        r == insert_pos(key_views(ring@), k@),
        r <= ring@.len(),
{
    let ghost s = key_views(ring@);
    let mut j: usize = 0;
    assert(s.subrange(0, s.len() as int) =~= s);
    let p = k.keypoint();
    while j < ring.len()
        invariant
            j <= ring@.len(),
            s == key_views(ring@),
            p@ == k@.keypoint,
            insert_pos(s, k@) == j + insert_pos(s.subrange(j as int, s.len() as int), k@),
        decreases ring@.len() - j,
    {
        let ghost rest = s.subrange(j as int, s.len() as int);
        assert(rest.drop_first() =~= s.subrange(j + 1, s.len() as int));
        if p.lt(&ring[j].keypoint()) {
            return j;
        }
        j = j + 1;
    }
    proof {
        lemma_insert_pos_bound(s, k@);
    }
    j
}

/// Sorts `others` together with `mine` by point, and says where `mine` went.
fn make_key_ring(others: &Vec<PublicKey>, mine: &PublicKey) -> (r: (Vec<PublicKey>, usize))
    ensures
        key_views(r.0@) == sort_by_key(key_views(others@).push(mine@)),
        r.1 < r.0@.len(),
        key_views(r.0@)[r.1 as int] == mine@,
{
    let ghost all = key_views(others@).push(mine@);
    let mut ring: Vec<PublicKey> = Vec::new();
    let mut i: usize = 0;
    while i < others.len()
        invariant
            i <= others@.len(),
            all == key_views(others@).push(mine@),
            key_views(ring@) == sort_by_key(all.subrange(0, i as int)),
        decreases others@.len() - i,
    {
        let ghost before = key_views(ring@);
        let p = others[i].copy();
        let k = find_key_pos(&ring, &p);
        let ghost pv = p@;
        ring.insert(k, p);
        proof {
            let sub = all.subrange(0, i + 1);
            assert(sub.drop_last() =~= all.subrange(0, i as int));
            assert(sub.last() == pv);
            assert(key_views(ring@) =~= before.insert(k as int, pv));
        }
        i = i + 1;
    }
    let ghost before = key_views(ring@);
    let k = find_key_pos(&ring, mine);
    ring.insert(k, mine.copy());
    proof {
        assert(all.drop_last() =~= all.subrange(0, others@.len() as int));
        assert(key_views(ring@) =~= before.insert(k as int, mine@));
    }
    (ring, k)
}

/// The keys of `others` that differ from `mine`.
fn keys_without(others: &[PublicKey], mine: &PublicKey) -> (r: Vec<PublicKey>)
    ensures
        key_views(r@) == without_key(key_views(others@), mine@),
{
    let ghost s = key_views(others@);
    let mut out: Vec<PublicKey> = Vec::new();
    let mut i: usize = 0;
    while i < others.len()
        invariant
            i <= others@.len(),
            s == key_views(others@),
            key_views(out@) == without_key(s.subrange(0, i as int), mine@),
        decreases others@.len() - i,
    {
        let ghost before = key_views(out@);
        proof {
            let sub = s.subrange(0, i + 1);
            assert(sub.drop_last() =~= s.subrange(0, i as int));
            assert(sub.last() == others@[i as int]@);
        }
        if !others[i].equals(mine) {
            out.push(others[i].copy());
            assert(key_views(out@) =~= before.push(others@[i as int]@));
        }
        i = i + 1;
    }
    assert(s.subrange(0, others@.len() as int) =~= s);
    out
}

impl SignedMessage {
    /// Signs `message` with `my_key`, in a ring of `other_keys` and the signer's own public
    /// key. Any occurrence of the signer's public key among `other_keys` is dropped, so that
    /// it appears once; the ring is sorted by point, and the responses of the other members
    /// and the nonce are drawn at random.
    pub fn sign(message: &str, my_key: &PrivateKey, other_keys: &[PublicKey]) -> (r: SignedMessage)
        ensures
            r@.message == message@,
            signed_by(r@, message@, my_key@, key_views(other_keys@)),
    {
        let mine = my_key.public();
        let filtered = keys_without(other_keys, &mine);
        let (ring, pi) = make_key_ring(&filtered, &mine);
        let n = ring.len();
        let mut points: Vec<RistrettoPoint> = Vec::new();
        let mut responses: Vec<Scalar> = Vec::new();
        let mut i: usize = 0;
        while i < n
            invariant
                i <= n,
                n == ring@.len(),
                points@.len() == i,
                responses@.len() == i,
                forall|t: int| 0 <= t < i ==> (#[trigger] points@[t])@ == ring@[t]@.keypoint,
            decreases n - i,
        {
            points.push(ring[i].keypoint());
            responses.push(Scalar::random());
            i = i + 1;
        }
        let ghost ring_v = key_views(ring@);
        assert(crate::sag::point_views(points@) =~= keypoints_of(ring_v));
        let a = Scalar::random();
        let secret = my_key.secret();
        let sig = Signature::sign_with(message.as_bytes(), &secret, &points, pi, &responses, &a);
        assert(sig.ring_responses@.len() == sig@.ring.len());
        let mut entries: Vec<(PublicKey, Scalar)> = Vec::new();
        let mut j: usize = 0;
        while j < n
            invariant
                j <= n,
                n == ring@.len(),
                n == sig@.ring.len(),
                n == sig.ring_responses@.len(),
                entries@.len() == j,
                forall|t: int| 0 <= t < j ==> (#[trigger] entries@[t]).0@ == ring@[t]@ && entries@[t].1@ == sig@.ring[t].1,
            decreases n - j,
        {
            let s = sig.ring_responses[j].1;
            entries.push((ring[j].copy(), s));
            j = j + 1;
        }
        let r = SignedMessage { message: message.to_string(), challenge: sig.challenge, ring: entries };
        proof {
            let sv = sag_sign(encode_utf8(message@), my_key@.key, keypoints_of(ring_v), pi as nat, crate::sag::scalar_views(responses@), a@);
            assert(sig@ == sv);
            assert(r@.ring =~= signed_ring(ring_v, sv));
            assert(r@ == signed_message_by(message@, my_key@, key_views(other_keys@), pi as nat, crate::sag::scalar_views(responses@), a@));
        }
        r
    }

    /// The message text.
    pub fn message(&self) -> (r: String)
        ensures
            r@ == self@.message,
    {
        self.message.clone()
    }

    /// Replaces the message text, keeping the ring and the signature.
    pub fn set_message(&mut self, message: &str)
        ensures
            final(self)@ == (SignedMessageView { message: message@, ..old(self)@ }),
    {
        self.message = message.to_string();
    }

    /// The ring's public keys, in the order of the signature (sorted by point).
    pub fn ring(&self) -> (r: Vec<PublicKey>)
        ensures
            key_views(r@) == self@.ring.map_values(|e: (PublicKeyView, Seq<u8>)| e.0),
    {
        let mut out: Vec<PublicKey> = Vec::new();
        let mut i: usize = 0;
        while i < self.ring.len()
            invariant
                i <= self.ring@.len(),
                out@.len() == i,
                forall|t: int| 0 <= t < i ==> (#[trigger] out@[t])@ == self.ring@[t].0@,
            decreases self.ring@.len() - i,
        {
            out.push(self.ring[i].0.copy());
            i = i + 1;
        }
        assert(key_views(out@) =~= self@.ring.map_values(|e: (PublicKeyView, Seq<u8>)| e.0));
        out
    }

    /// The ring signature inside this message.
    pub fn signature(&self) -> (r: Signature)
        ensures
            r@ == message_signature(self@),
    {
        let mut entries: Vec<(RistrettoPoint, Scalar)> = Vec::new();
        let mut i: usize = 0;
        while i < self.ring.len()
            invariant
                i <= self.ring@.len(),
                entries@.len() == i,
                forall|t: int| 0 <= t < i ==> (#[trigger] entries@[t]).0@ == self.ring@[t].0@.keypoint && entries@[t].1 == self.ring@[t].1,
            decreases self.ring@.len() - i,
        {
            entries.push((self.ring[i].0.keypoint(), self.ring[i].1));
            i = i + 1;
        }
        let r = Signature { challenge: self.challenge, ring_responses: entries };
        assert(r@.ring =~= message_signature(self@).ring);
        r
    }

    /// Whether this message is validly signed: every ring member's attestation holds, and
    /// the ring signature is valid for the message's UTF-8 bytes.
    pub fn verify(&self) -> (r: bool)
        ensures
            r == signed_message_valid(self@),
    {
        let mut i: usize = 0;
        while i < self.ring.len()
            invariant
                i <= self.ring@.len(),
                forall|t: int| 0 <= t < i ==> attestation_valid(#[trigger] self@.ring[t].0),
            decreases self.ring@.len() - i,
        {
            if !self.ring[i].0.validate_attestation() {
                assert(self@.ring[i as int].0 == self.ring@[i as int].0@);
                return false;
            }
            i = i + 1;
        }
        self.signature().verify(self.message.as_str().as_bytes())
    }
}

/// The ring of a signed message in binary: each key's encoding followed by its response.
pub open spec fn entries_bytes(r: Seq<(PublicKeyView, Seq<u8>)>) -> Seq<u8>
    decreases r.len(),
{
    if r.len() == 0 {
        Seq::empty()
    } else {
        entries_bytes(r.drop_last()) + (ser_public_key(r.last().0) + r.last().1)
    }
}

/// The binary encoding of a signed message's challenge and ring: the challenge, the ring's
/// size, then the ring.
pub open spec fn ser_message_ring(c: Seq<u8>, r: Seq<(PublicKeyView, Seq<u8>)>) -> Seq<u8> {
    c + u32_le(r.len()) + entries_bytes(r)
}

/// Whether a challenge and ring can be written and read back.
pub open spec fn message_ring_encodable(c: Seq<u8>, r: Seq<(PublicKeyView, Seq<u8>)>) -> bool {
    &&& is_canonical_scalar(c)
    &&& r.len() < pow256(4)
    &&& forall|i: int| 0 <= i < r.len() ==> public_key_encodable(#[trigger] r[i].0) && is_canonical_scalar(r[i].1)
}

/// Where a ring occurs, so does each of its prefixes.
pub proof fn lemma_entries_bytes_prefix(b: Seq<u8>, q: int, r: Seq<(PublicKeyView, Seq<u8>)>, i: int)
    requires
        0 <= i <= r.len(),
        at(b, q, entries_bytes(r)),
    ensures
        at(b, q, entries_bytes(r.subrange(0, i))),
    decreases r.len(),
{
    if i == r.len() {
        assert(r.subrange(0, i) =~= r);
    } else {
        lemma_at_concat(b, q, entries_bytes(r.drop_last()), ser_public_key(r.last().0) + r.last().1);
        lemma_entries_bytes_prefix(b, q, r.drop_last(), i);
        assert(r.drop_last().subrange(0, i) =~= r.subrange(0, i));
    }
}

impl SignedMessage {
    /// The binary encoding of the challenge and ring; the ring's size is written modulo 2^32.
    pub fn ring_bytes(&self) -> (r: Vec<u8>)
        ensures
            r@ == ser_message_ring(self@.challenge, self@.ring),
    {
        let mut out: Vec<u8> = Vec::new();
        append_bytes(&mut out, &self.challenge.to_bytes());
        let n = self.ring.len();
        write_u32(&mut out, ((n as u64) % 4294967296u64) as u32);
        proof {
            lemma_le_bytes_mod(n as nat, 4);
            assert(pow256(4) == 4294967296) by {
                reveal_with_fuel(pow256, 5);
            }
        }
        let ghost mid = out@;
        let ghost ring = self@.ring;
        let mut i: usize = 0;
        assert(ring.subrange(0, 0) =~= Seq::<(PublicKeyView, Seq<u8>)>::empty());
        assert(out@ =~= mid + entries_bytes(ring.subrange(0, 0)));
        while i < n
            invariant
                i <= n,
                n == self.ring@.len(),
                ring == self@.ring,
                out@ == mid + entries_bytes(ring.subrange(0, i as int)),
            decreases n - i,
        {
            self.ring[i].0.write_to(&mut out);
            append_bytes(&mut out, &self.ring[i].1.to_bytes());
            proof {
                let sub = ring.subrange(0, i + 1);
                assert(sub.drop_last() =~= ring.subrange(0, i as int));
                assert(sub.last() == (self.ring@[i as int].0@, self.ring@[i as int].1@));
            }
            i = i + 1;
            assert(out@ =~= mid + entries_bytes(ring.subrange(0, i as int)));
        }
        assert(ring.subrange(0, n as int) =~= ring);
        assert(out@ =~= ser_message_ring(self@.challenge, self@.ring));
        out
    }
}

/// Reads a challenge and ring at `pos`.
pub fn read_message_ring(b: &[u8], pos: usize) -> (r: Option<(Scalar, Vec<(PublicKey, Scalar)>, usize)>)
    ensures
        r.is_some() ==> ({
            let (c, ring, end) = r.unwrap();
            end == pos + ser_message_ring(c@, entry_views(ring@)).len() && at(b@, pos as int, ser_message_ring(c@, entry_views(ring@)))
        }),
        forall|c: Seq<u8>, x: Seq<(PublicKeyView, Seq<u8>)>| message_ring_encodable(c, x) && #[trigger] at(b@, pos as int, ser_message_ring(c, x)) ==> r.is_some() && r.unwrap().0@ == c && entry_views(r.unwrap().1@) == x,
{
    proof {
        assert forall|c: Seq<u8>, x: Seq<(PublicKeyView, Seq<u8>)>| message_ring_encodable(c, x) && #[trigger] at(b@, pos as int, ser_message_ring(c, x)) implies at(
            b@,
            pos as int,
            c,
        ) && at(b@, pos + 32, u32_le(x.len())) && at(b@, pos + 36, entries_bytes(x)) by {
            lemma_le_bytes_len(x.len(), 4);
            lemma_at_concat(b@, pos as int, c + u32_le(x.len()), entries_bytes(x));
            lemma_at_concat(b@, pos as int, c, u32_le(x.len()));
        }
    }
    let (challenge, p) = match read_scalar(b, pos) {
        Some(v) => v,
        None => return None,
    };
    let (n, q) = match read_u32(b, p) {
        Some(v) => v,
        None => return None,
    };
    proof {
        lemma_le_bytes_len(n as nat, 4);
        lemma_at_concat(b@, pos as int, challenge@, u32_le(n as nat));
    }
    let ghost head = challenge@ + u32_le(n as nat);
    let mut ring: Vec<(PublicKey, Scalar)> = Vec::new();
    let mut cur: usize = q;
    let mut i: u32 = 0;
    assert(entry_views(ring@) =~= Seq::<(PublicKeyView, Seq<u8>)>::empty());
    assert(head + entries_bytes(entry_views(ring@)) =~= head);
    while i < n
        invariant
            i <= n,
            q == pos + 36,
            head == challenge@ + u32_le(n as nat),
            head.len() == 36,
            ring@.len() == i,
            at(b@, pos as int, head + entries_bytes(entry_views(ring@))),
            cur == pos + 36 + entries_bytes(entry_views(ring@)).len(),
            forall|c: Seq<u8>, x: Seq<(PublicKeyView, Seq<u8>)>| message_ring_encodable(c, x) && #[trigger] at(b@, pos as int, ser_message_ring(c, x)) ==> {
                &&& c == challenge@
                &&& x.len() == n
                &&& entry_views(ring@) == x.subrange(0, i as int)
                &&& at(b@, pos + 36, entries_bytes(x))
            },
        decreases n - i,
    {
        let ghost before = entry_views(ring@);
        proof {
            assert forall|c: Seq<u8>, x: Seq<(PublicKeyView, Seq<u8>)>| message_ring_encodable(c, x) && #[trigger] at(b@, pos as int, ser_message_ring(c, x)) implies at(
                b@,
                cur as int,
                ser_public_key(x[i as int].0),
            ) && at(b@, cur + ser_public_key(x[i as int].0).len(), x[i as int].1) by {
                lemma_entries_bytes_prefix(b@, pos + 36, x, i + 1);
                let sub = x.subrange(0, i + 1);
                assert(sub.drop_last() =~= x.subrange(0, i as int));
                lemma_at_concat(b@, pos + 36, entries_bytes(sub.drop_last()), ser_public_key(sub.last().0) + sub.last().1);
                lemma_at_concat(b@, cur as int, ser_public_key(x[i as int].0), x[i as int].1);
            }
        }
        let (k, c1) = match PublicKey::read_from(b, cur) {
            Some(v) => v,
            None => return None,
        };
        let (s, c2) = match read_scalar(b, c1) {
            Some(v) => v,
            None => return None,
        };
        let ghost kv = k@;
        ring.push((k, s));
        proof {
            let after = entry_views(ring@);
            assert(after.drop_last() =~= before);
            assert(after.last() == (kv, s@));
            lemma_at_concat(b@, cur as int, ser_public_key(kv), s@);
            lemma_at_concat(b@, pos as int, head + entries_bytes(before), ser_public_key(kv) + s@);
            assert(head + entries_bytes(after) =~= head + entries_bytes(before) + (ser_public_key(kv) + s@));
            assert forall|c: Seq<u8>, x: Seq<(PublicKeyView, Seq<u8>)>| message_ring_encodable(c, x) && #[trigger] at(b@, pos as int, ser_message_ring(c, x)) implies entry_views(ring@)
                == x.subrange(0, i + 1) by {
                assert(x.subrange(0, i + 1) =~= x.subrange(0, i as int).push(x[i as int]));
            }
        }
        cur = c2;
        i = i + 1;
    }
    proof {
        assert(ser_message_ring(challenge@, entry_views(ring@)) =~= head + entries_bytes(entry_views(ring@)));
        assert forall|c: Seq<u8>, x: Seq<(PublicKeyView, Seq<u8>)>| message_ring_encodable(c, x) && #[trigger] at(b@, pos as int, ser_message_ring(c, x)) implies entry_views(ring@) == x by {
            assert(x.subrange(0, n as int) =~= x);
        }
    }
    Some((challenge, ring, cur))
}

/// The first line of a signed message's text.
pub const MESSAGE_HEADER: &'static str = "The following message has been signed using ZebraSign 1.0 Beta:";

/// The line that introduces the ring's identities.
pub const MESSAGE_INFIX: &'static str = "It was signed by someone with a private key corresponding to one of these fingerprints:";

/// The last line of a signed message's text.
pub const MESSAGE_SUFFIX: &'static str = "To verify this signature, paste this entire message into the ZebraSign app (starting with \"The following message\" and ending with this line).";

/// Why a signed message's text was refused.
#[derive(Debug, PartialEq, Eq, PartialOrd, Ord, Clone)]
pub enum SignatureParseError {
    /// The text is not the text of any signed message.
    ParseError(),
    /// Kept for callers that match on it; never returned by the parser.
    NotParseError(i8),
}

/// The line of a ring member: `<name> <<email>> <fingerprint>`.
pub open spec fn identity_line(k: PublicKeyView) -> Seq<u8> {
    encode_utf8(k.holder.name) + seq![0x20u8, 0x3cu8] + k.holder.email + seq![0x3eu8, 0x20u8]
        + encode_utf8(fingerprint_chars(k))
}

/// The lines of the ring's members, each ended by a newline.
pub open spec fn identity_lines(r: Seq<(PublicKeyView, Seq<u8>)>) -> Seq<u8>
    decreases r.len(),
{
    if r.len() == 0 {
        Seq::empty()
    } else {
        identity_lines(r.drop_last()) + identity_line(r.last().0) + seq![0x0au8]
    }
}

/// The line holding the Z85 text of the challenge and ring.
pub open spec fn z85_line(c: Seq<u8>, r: Seq<(PublicKeyView, Seq<u8>)>) -> Seq<u8> {
    encode_utf8(z85_of(ser_message_ring(c, r)))
}

/// Whether the Z85 text of a challenge and ring is printable ASCII (as `z85` always writes
/// it).
pub open spec fn z85_printable(c: Seq<u8>, r: Seq<(PublicKeyView, Seq<u8>)>) -> bool {
    forall|i: int| 0 <= i < z85_of(ser_message_ring(c, r)).len() ==> 0x21 <= (#[trigger] z85_of(ser_message_ring(c, r))[i]) as u32 <= 0x7e
}

/// What comes before the message: the header line and the opening triple quote.
pub open spec fn message_head() -> Seq<u8> {
    MESSAGE_HEADER.spec_bytes() + seq![0x0au8, 0x22u8, 0x22u8, 0x22u8, 0x0au8]
}

/// What ends the text: a blank line and the last line.
pub open spec fn message_end() -> Seq<u8> {
    seq![0x0au8, 0x0au8] + MESSAGE_SUFFIX.spec_bytes()
}

/// What comes after the message: the closing triple quote, a blank line, the line that
/// introduces the ring, a blank line, the ring's lines, a blank line, the Z85 line, a blank
/// line and the last line.
pub open spec fn message_tail(c: Seq<u8>, r: Seq<(PublicKeyView, Seq<u8>)>) -> Seq<u8> {
    seq![0x0au8, 0x22u8, 0x22u8, 0x22u8, 0x0au8, 0x0au8] + MESSAGE_INFIX.spec_bytes() + seq![0x0au8, 0x0au8]
        + identity_lines(r) + seq![0x0au8] + z85_line(c, r) + message_end()
}

/// The UTF-8 bytes of a signed message's text.
pub open spec fn signed_message_text(m: SignedMessageView) -> Seq<u8> {
    message_head() + encode_utf8(m.message) + message_tail(m.challenge, m.ring)
}

/// Whether a signed message has a text form that reads back: its challenge and ring can be
/// encoded, and the ring is not empty.
pub open spec fn signed_message_text_form(m: SignedMessageView) -> bool {
    message_ring_encodable(m.challenge, m.ring) && m.ring.len() >= 1
}

/// The bytes of a constant line.
fn line_bytes(s: &str) -> (r: Vec<u8>)
    ensures
        r@ == s.spec_bytes(),
{
    let mut out: Vec<u8> = Vec::new();
    append_bytes(&mut out, s.as_bytes());
    assert(out@ =~= s.spec_bytes());
    out
}

/// The line of a ring member.
fn identity_line_bytes(k: &PublicKey) -> (r: Vec<u8>)
    ensures
        r@ == identity_line(k@),
{
    let holder = k.holder();
    let mut out: Vec<u8> = Vec::new();
    append_bytes(&mut out, holder.name_bytes());
    out.push(0x20u8);
    out.push(0x3cu8);
    append_bytes(&mut out, holder.email_bytes());
    out.push(0x3eu8);
    out.push(0x20u8);
    let f = k.fingerprint();
    append_bytes(&mut out, f.as_str().as_bytes());
    assert(out@ =~= identity_line(k@));
    out
}

impl SignedMessage {
    /// The text after the message; it depends on the challenge and ring only.
    fn tail_bytes(&self) -> (r: Vec<u8>)
        ensures
            r@ == message_tail(self@.challenge, self@.ring),
            z85_printable(self@.challenge, self@.ring),
    {
        let mut out: Vec<u8> = vec![0x0au8, 0x22u8, 0x22u8, 0x22u8, 0x0au8, 0x0au8];
        append_bytes(&mut out, MESSAGE_INFIX.as_bytes());
        out.push(0x0au8);
        out.push(0x0au8);
        let ghost mid = out@;
        let ghost ring = self@.ring;
        let mut i: usize = 0;
        assert(ring.subrange(0, 0) =~= Seq::<(PublicKeyView, Seq<u8>)>::empty());
        assert(out@ =~= mid + identity_lines(ring.subrange(0, 0)));
        while i < self.ring.len()
            invariant
                i <= self.ring@.len(),
                ring == self@.ring,
                out@ == mid + identity_lines(ring.subrange(0, i as int)),
            decreases self.ring@.len() - i,
        {
            let line = identity_line_bytes(&self.ring[i].0);
            append_bytes(&mut out, line.as_slice());
            out.push(0x0au8);
            proof {
                let sub = ring.subrange(0, i + 1);
                assert(sub.drop_last() =~= ring.subrange(0, i as int));
                assert(sub.last().0 == self.ring@[i as int].0@);
            }
            i = i + 1;
            assert(out@ =~= mid + identity_lines(ring.subrange(0, i as int)));
        }
        assert(ring.subrange(0, self.ring@.len() as int) =~= ring);
        out.push(0x0au8);
        let z = z85_encode(self.ring_bytes().as_slice());
        append_bytes(&mut out, z.as_str().as_bytes());
        out.push(0x0au8);
        out.push(0x0au8);
        append_bytes(&mut out, MESSAGE_SUFFIX.as_bytes());
        assert(out@ =~= message_tail(self@.challenge, self@.ring));
        out
    }

    /// The UTF-8 bytes of this message's text.
    pub fn text_bytes(&self) -> (r: Vec<u8>)
        ensures
            r@ == signed_message_text(self@),
            z85_printable(self@.challenge, self@.ring),
    {
        let mut out = line_bytes(MESSAGE_HEADER);
        out.push(0x0au8);
        out.push(0x22u8);
        out.push(0x22u8);
        out.push(0x22u8);
        out.push(0x0au8);
        append_bytes(&mut out, self.message.as_str().as_bytes());
        let tail = self.tail_bytes();
        append_bytes(&mut out, tail.as_slice());
        assert(out@ =~= signed_message_text(self@));
        out
    }
}

/// The ring's lines are valid UTF-8 when every email address is printable ASCII.
pub proof fn lemma_identity_lines_valid(r: Seq<(PublicKeyView, Seq<u8>)>)
    requires
        forall|i: int| 0 <= i < r.len() ==> is_boring(#[trigger] r[i].0.holder.email),
    ensures
        valid_utf8(identity_lines(r)),
    decreases r.len(),
{
    if r.len() > 0 {
        let k = r.last().0;
        assert(is_boring(r[r.len() - 1].0.holder.email));
        assert forall|i: int| 0 <= i < r.drop_last().len() implies is_boring(#[trigger] r.drop_last()[i].0.holder.email) by {
            assert(r.drop_last()[i] == r[i]);
        }
        lemma_identity_lines_valid(r.drop_last());
        encode_utf8_valid_utf8(k.holder.name);
        encode_utf8_valid_utf8(fingerprint_chars(k));
        lemma_ascii_valid(seq![0x20u8, 0x3cu8]);
        lemma_ascii_valid(seq![0x3eu8, 0x20u8]);
        lemma_ascii_valid(seq![0x0au8]);
        assert forall|i: int| 0 <= i < k.holder.email.len() implies #[trigger] k.holder.email[i] < 128 by {
            assert(crate::ascii::is_boring_byte(k.holder.email[i]));
        }
        lemma_ascii_valid(k.holder.email);
        let t1 = encode_utf8(k.holder.name) + seq![0x20u8, 0x3cu8];
        valid_utf8_concat(encode_utf8(k.holder.name), seq![0x20u8, 0x3cu8]);
        let t2 = t1 + k.holder.email;
        valid_utf8_concat(t1, k.holder.email);
        let t3 = t2 + seq![0x3eu8, 0x20u8];
        valid_utf8_concat(t2, seq![0x3eu8, 0x20u8]);
        valid_utf8_concat(t3, encode_utf8(fingerprint_chars(k)));
        let prev = identity_lines(r.drop_last());
        valid_utf8_concat(prev, identity_line(k));
        valid_utf8_concat(prev + identity_line(k), seq![0x0au8]);
    }
}

/// The text of a signed message is valid UTF-8 when every email address in its ring is
/// printable ASCII.
pub proof fn lemma_signed_message_text_valid(m: SignedMessageView)
    requires
        forall|i: int| 0 <= i < m.ring.len() ==> is_boring(#[trigger] m.ring[i].0.holder.email),
    ensures
        valid_utf8(signed_message_text(m)),
{
    broadcast use valid_utf8_concat;

    lemma_identity_lines_valid(m.ring);
    encode_utf8_valid_utf8(MESSAGE_HEADER@);
    encode_utf8_valid_utf8(MESSAGE_INFIX@);
    encode_utf8_valid_utf8(MESSAGE_SUFFIX@);
    encode_utf8_valid_utf8(m.message);
    encode_utf8_valid_utf8(z85_of(ser_message_ring(m.challenge, m.ring)));
    lemma_ascii_valid(seq![0x0au8, 0x22u8, 0x22u8, 0x22u8, 0x0au8]);
    lemma_ascii_valid(seq![0x0au8, 0x22u8, 0x22u8, 0x22u8, 0x0au8, 0x0au8]);
    lemma_ascii_valid(seq![0x0au8, 0x0au8]);
    lemma_ascii_valid(seq![0x0au8]);
    let h = message_head();
    assert(valid_utf8(h));
    let e = message_end();
    assert(valid_utf8(e));
    let t1 = seq![0x0au8, 0x22u8, 0x22u8, 0x22u8, 0x0au8, 0x0au8] + MESSAGE_INFIX.spec_bytes();
    assert(valid_utf8(t1));
    let t2 = t1 + seq![0x0au8, 0x0au8];
    assert(valid_utf8(t2));
    let t3 = t2 + identity_lines(m.ring);
    assert(valid_utf8(t3));
    let t4 = t3 + seq![0x0au8];
    assert(valid_utf8(t4));
    let t5 = t4 + z85_line(m.challenge, m.ring);
    assert(valid_utf8(t5));
    let t6 = t5 + e;
    assert(valid_utf8(t6));
    let u1 = h + encode_utf8(m.message);
    assert(valid_utf8(u1));
    assert(valid_utf8(u1 + t6));
}

impl SignedMessage {
    /// Every email address in the ring is printable ASCII.
    fn ring_emails_valid(&self) -> (r: bool)
        ensures
            r,
            forall|i: int| 0 <= i < self@.ring.len() ==> is_boring(#[trigger] self@.ring[i].0.holder.email),
    {
        let mut i: usize = 0;
        while i < self.ring.len()
            invariant
                i <= self.ring@.len(),
                forall|t: int| 0 <= t < i ==> is_boring(#[trigger] self@.ring[t].0.holder.email),
            decreases self.ring@.len() - i,
        {
            let h = self.ring[i].0.holder();
            let _ = h.is_valid();
            assert(self@.ring[i as int].0 == self.ring@[i as int].0@);
            i = i + 1;
        }
        true
    }

    /// This message's text: a header, the message between triple quotes, a line with each
    /// ring member's name, email address and fingerprint, the Z85 text of the challenge and
    /// ring, and a closing line.
    pub fn format(&self) -> (r: String)
        ensures
            valid_utf8(signed_message_text(self@)),
            r@ == decode_utf8(signed_message_text(self@)),
            z85_printable(self@.challenge, self@.ring),
    {
        let _ = self.ring_emails_valid();
        proof {
            lemma_signed_message_text_valid(self@);
        }
        match string_from_utf8(self.text_bytes()) {
            Some(s) => s,
            None => String::new(),
        }
    }
}

/// Where the parts of a signed message's text lie.
pub proof fn lemma_message_layout(m: SignedMessageView, b: Seq<u8>)
    requires
        z85_printable(m.challenge, m.ring),
        b == signed_message_text(m),
    ensures
        ({
            let h = message_head().len() as int;
            let e = message_end().len() as int;
            let z = z85_line(m.challenge, m.ring);
            let n = b.len() as int;
            let t = message_tail(m.challenge, m.ring).len() as int;
            &&& n == h + encode_utf8(m.message).len() + t
            &&& h == MESSAGE_HEADER.spec_bytes().len() + 5
            &&& e == MESSAGE_SUFFIX.spec_bytes().len() + 2
            &&& t >= z.len() + e + 1
            &&& b.subrange(h, h + encode_utf8(m.message).len()) == encode_utf8(m.message)
            &&& b.subrange(n - e - z.len(), n - e) == z
            &&& b[n - e - z.len() - 1] == 0x0a
            &&& forall|j: int| n - e - z.len() <= j < n - e ==> b[j] != 0x0a
        }),
{
    let h = message_head();
    let mm = encode_utf8(m.message);
    let zc = z85_of(ser_message_ring(m.challenge, m.ring));
    let z = z85_line(m.challenge, m.ring);
    let e = message_end();
    let a = seq![0x0au8, 0x22u8, 0x22u8, 0x22u8, 0x0au8, 0x0au8] + MESSAGE_INFIX.spec_bytes() + seq![0x0au8, 0x0au8]
        + identity_lines(m.ring) + seq![0x0au8];
    assert(message_tail(m.challenge, m.ring) =~= a + z + e);
    assert(b =~= h + mm + a + z + e);
    let n = b.len() as int;
    assert(b.subrange(h.len() as int, (h.len() + mm.len()) as int) =~= mm);
    assert(b.subrange(n - e.len() - z.len(), n - e.len()) =~= z);
    assert(a[a.len() - 1] == 0x0a);
    assert(b[n - e.len() - z.len() - 1] == a[a.len() - 1]);
    assert(vstd::utf8::is_ascii_chars(zc)) by {
        assert forall|t: int| 0 <= t < zc.len() implies '\0' <= #[trigger] zc[t] && zc[t] <= '\u{7f}' by {
            crate::text::lemma_printable_char(zc[t]);
        }
    }
    vstd::utf8::is_ascii_chars_encode_utf8(zc);
    assert forall|j: int| n - e.len() - z.len() <= j < n - e.len() implies b[j] != 0x0a by {
        let u = j - (n - e.len() - z.len());
        assert(b[j] == z[u]);
        assert(z[u] == zc[u] as u8);
        crate::text::lemma_printable_char(zc[u]);
    }
}

impl SignedMessage {
    /// Reads a signed message's text. Success says only that the text is well formed; whether
    /// the signature holds is for `verify` to say.
    pub fn parse(text: &str) -> (r: Result<SignedMessage, SignatureParseError>)
        ensures
            r.is_ok() ==> signed_message_text(r.unwrap()@) == text.spec_bytes(),
            r.is_ok() ==> r.unwrap()@.ring.len() >= 1,
            forall|m: SignedMessageView| signed_message_text_form(m) && z85_printable(m.challenge, m.ring) && #[trigger] signed_message_text(m) == text.spec_bytes() ==> r.is_ok() && r.unwrap()@ == m,
    {
        let b = text.as_bytes();
        let n = b.len();
        let hb = MESSAGE_HEADER.as_bytes().len();
        let sb = MESSAGE_SUFFIX.as_bytes().len();
        if n < hb || n - hb < 5 || n - hb - 5 < sb || n - hb - 5 - sb < 2 {
            proof {
                assert forall|m: SignedMessageView| signed_message_text_form(m) && z85_printable(m.challenge, m.ring) && #[trigger] signed_message_text(m) == text.spec_bytes() implies false by {
                    lemma_message_layout(m, b@);
                }
            }
            return Err(SignatureParseError::ParseError());
        }
        let hl = hb + 5;
        let el = sb + 2;
        let z_end = n - el;
        let mut j: usize = z_end;
        proof {
            assert forall|m: SignedMessageView| signed_message_text_form(m) && z85_printable(m.challenge, m.ring) && #[trigger] signed_message_text(m) == b@ implies z_end - z85_line(m.challenge, m.ring).len() >= 1 by {
                lemma_message_layout(m, b@);
            }
        }
        while j > 0 && b[j - 1] != 0x0a
            invariant
                j <= z_end,
                z_end == n - el,
                n == b@.len(),
                el == message_end().len(),
                forall|m: SignedMessageView| signed_message_text_form(m) && z85_printable(m.challenge, m.ring) && #[trigger] signed_message_text(m) == b@ ==> z_end - z85_line(m.challenge, m.ring).len() <= j,
                forall|m: SignedMessageView| signed_message_text_form(m) && z85_printable(m.challenge, m.ring) && #[trigger] signed_message_text(m) == b@ ==> z_end - z85_line(m.challenge, m.ring).len() >= 1,
            decreases j,
        {
            proof {
                assert forall|m: SignedMessageView| signed_message_text_form(m) && z85_printable(m.challenge, m.ring) && #[trigger] signed_message_text(m) == b@ implies z_end - z85_line(m.challenge, m.ring).len() <= j - 1 by {
                    lemma_message_layout(m, b@);
                }
            }
            j = j - 1;
        }
        proof {
            assert forall|m: SignedMessageView| signed_message_text_form(m) && z85_printable(m.challenge, m.ring) && #[trigger] signed_message_text(m) == b@ implies j == z_end - z85_line(m.challenge, m.ring).len() by {
                lemma_message_layout(m, b@);
            }
        }
        if j == 0 {
            return Err(SignatureParseError::ParseError());
        }
        let z_bytes = copy_range(b, j, z_end);
        let z_str = match string_from_utf8(z_bytes) {
            Some(x) => x,
            None => {
                proof {
                    assert forall|m: SignedMessageView| signed_message_text_form(m) && z85_printable(m.challenge, m.ring) && #[trigger] signed_message_text(m) == text.spec_bytes() implies false by {
                        lemma_message_layout(m, b@);
                        encode_utf8_valid_utf8(z85_of(ser_message_ring(m.challenge, m.ring)));
                    }
                }
                return Err(SignatureParseError::ParseError());
            },
        };
        let decoded = match z85_decode(z_str.as_str()) {
            Some(x) => x,
            None => {
                proof {
                    assert forall|m: SignedMessageView| signed_message_text_form(m) && z85_printable(m.challenge, m.ring) && #[trigger] signed_message_text(m) == text.spec_bytes() implies false by {
                        lemma_message_layout(m, b@);
                        vstd::utf8::encode_utf8_decode_utf8(z85_of(ser_message_ring(m.challenge, m.ring)));
                    }
                }
                return Err(SignatureParseError::ParseError());
            },
        };
        proof {
            assert forall|m: SignedMessageView| signed_message_text_form(m) && z85_printable(m.challenge, m.ring) && #[trigger] signed_message_text(m) == b@ implies decoded@ == ser_message_ring(m.challenge, m.ring) && at(decoded@, 0, ser_message_ring(m.challenge, m.ring)) by {
                lemma_message_layout(m, b@);
                vstd::utf8::encode_utf8_decode_utf8(z85_of(ser_message_ring(m.challenge, m.ring)));
                assert(decoded@.subrange(0, decoded@.len() as int) =~= decoded@);
            }
        }
        let (challenge, ring, _) = match read_message_ring(decoded.as_slice(), 0) {
            Some(x) => x,
            None => return Err(SignatureParseError::ParseError()),
        };
        if ring.len() == 0 {
            return Err(SignatureParseError::ParseError());
        }
        let mut cand = SignedMessage { message: String::new(), challenge, ring };
        let tail = cand.tail_bytes();
        if n - hl < tail.len() {
            proof {
                assert forall|m: SignedMessageView| signed_message_text_form(m) && z85_printable(m.challenge, m.ring) && #[trigger] signed_message_text(m) == text.spec_bytes() implies false by {
                    lemma_message_layout(m, b@);
                }
            }
            return Err(SignatureParseError::ParseError());
        }
        let msg_bytes = copy_range(b, hl, n - tail.len());
        let msg = match string_from_utf8(msg_bytes) {
            Some(x) => x,
            None => {
                proof {
                    assert forall|m: SignedMessageView| signed_message_text_form(m) && z85_printable(m.challenge, m.ring) && #[trigger] signed_message_text(m) == text.spec_bytes() implies false by {
                        lemma_message_layout(m, b@);
                        encode_utf8_valid_utf8(m.message);
                    }
                }
                return Err(SignatureParseError::ParseError());
            },
        };
        cand.message = msg;
        proof {
            assert forall|m: SignedMessageView| signed_message_text_form(m) && z85_printable(m.challenge, m.ring) && #[trigger] signed_message_text(m) == text.spec_bytes() implies cand@ == m by {
                lemma_message_layout(m, b@);
                vstd::utf8::encode_utf8_decode_utf8(m.message);
            }
        }
        if !bytes_eq(cand.text_bytes().as_slice(), b) {
            return Err(SignatureParseError::ParseError());
        }
        Ok(cand)
    }
}

/// Whether `text` is the text of a validly signed message.
pub fn verify_signature(text: &str) -> (r: bool)
    ensures
        r ==> exists|m: SignedMessageView| #[trigger] signed_message_text(m) == text.spec_bytes() && signed_message_valid(m),
        forall|m: SignedMessageView| signed_message_text_form(m) && z85_printable(m.challenge, m.ring) && #[trigger] signed_message_text(m) == text.spec_bytes() ==> r == signed_message_valid(m),
{
    match SignedMessage::parse(text) {
        Ok(m) => m.verify(),
        Err(_) => false,
    }
}

} // verus!
