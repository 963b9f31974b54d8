//! Laws that relate several operations of the library.

use vstd::prelude::*;
use vstd::utf8::{decode_utf8, decode_utf8_encode_utf8, encode_utf8, valid_utf8};
use crate::curve::{base_mul_of, le_nat, point_add_of, point_mul_of, scalar_bytes};
use crate::identity::attestation_image;
use crate::keys::{PrivateKeyView, PublicKeyView, attestation_valid, fresh_attestation, public_of};
use crate::message::{
    SignedMessageView, keypoints_of, message_ring, message_signature, signed_by, signed_message_by,
    signed_message_text, signed_message_valid, without_key,
};
use crate::sag::{
    keys_distinct, lemma_sort_by_key, lemma_sorted_unique, ring_points, ring_prefix, ring_step, sag_chain, sag_round, sag_sign,
    sag_verifies, sign_challenge, sorted_by_key,
};
use crate::text::public_key_text;

verus! {

/// The public keys of a signed message's ring, in order.
pub open spec fn ring_keys(m: SignedMessageView) -> Seq<PublicKeyView> {
    m.ring.map_values(|e: (PublicKeyView, Seq<u8>)| e.0)
}

/// The ring of a signed message depends on the signer and the other keys alone, never on the
/// random values drawn while signing: two signatures of the same message by the same key with
/// the same other keys list the same public keys in the same order. That order is sorted by
/// point, and the ring holds the signer's public key once and every other key that differs
/// from it.
pub proof fn law_ring_order(
    message: Seq<char>,
    k: PrivateKeyView,
    others: Seq<PublicKeyView>,
    pi1: nat,
    rs1: Seq<Seq<u8>>,
    a1: Seq<u8>,
    pi2: nat,
    rs2: Seq<Seq<u8>>,
    a2: Seq<u8>,
)
    ensures
        ring_keys(signed_message_by(message, k, others, pi1, rs1, a1)) == ring_keys(
            signed_message_by(message, k, others, pi2, rs2, a2),
        ),
        sorted_by_key(ring_keys(signed_message_by(message, k, others, pi1, rs1, a1))),
        ring_keys(signed_message_by(message, k, others, pi1, rs1, a1)).to_multiset() == without_key(
            others,
            public_of(k),
        ).push(public_of(k)).to_multiset(),
{
    let ring = message_ring(others, public_of(k));
    assert(ring_keys(signed_message_by(message, k, others, pi1, rs1, a1)) =~= ring);
    assert(ring_keys(signed_message_by(message, k, others, pi2, rs2, a2)) =~= ring);
    lemma_sort_by_key(without_key(others, public_of(k)).push(public_of(k)));
}

/// A key's text reads back: the UTF-8 bytes of the string that `PublicKey::format` returns
/// are the key's text, which `PublicKey::parse` turns back into the key.
pub proof fn law_public_key_text_round_trip(k: PublicKeyView, s: Seq<char>)
    requires
        valid_utf8(public_key_text(k)),
        s == decode_utf8(public_key_text(k)),
    ensures
        encode_utf8(s) == public_key_text(k),
{
    decode_utf8_encode_utf8(public_key_text(k));
}

/// A signed message's text reads back: the UTF-8 bytes of the string that
/// `SignedMessage::format` returns are the message's text, which `SignedMessage::parse` turns
/// back into the message.
pub proof fn law_signed_message_text_round_trip(m: SignedMessageView, s: Seq<char>)
    requires
        valid_utf8(signed_message_text(m)),
        s == decode_utf8(signed_message_text(m)),
    ensures
        encode_utf8(s) == signed_message_text(m),
{
    decode_utf8_encode_utf8(signed_message_text(m));
}

/// A fresh private key's public key carries an attestation whose ring is that key alone: one
/// member, whose point is the key's point.
pub proof fn law_fresh_attestation_ring(k: PrivateKeyView, rs: Seq<Seq<u8>>, a: Seq<u8>)
    requires
        k.attestation == sag_sign(
            attestation_image(k.holder, base_mul_of(k.key)),
            k.key,
            seq![base_mul_of(k.key)],
            0,
            rs,
            a,
        ),
    ensures
        public_of(k).attestation.ring.len() == 1,
        public_of(k).attestation.ring[0].0 == public_of(k).keypoint,
{
}

/// The offset from the signer's position `pi` to position `p`, going round the ring: between
/// 1 and `n`, the signer's own position being `n`.
pub open spec fn offset_to(pi: nat, p: nat, n: nat) -> nat {
    if p > pi {
        (p - pi) as nat
    } else {
        (p + n - pi) as nat
    }
}

/// Walking the ring of a fresh signature from position `i` on, from the challenge that
/// signing gave position `i`, ends at the challenge of position 0, once the signer's response
/// balances.
proof fn lemma_walk(
    message: Seq<u8>,
    k: Seq<u8>,
    points: Seq<Seq<u8>>,
    pi: nat,
    rs: Seq<Seq<u8>>,
    a: Seq<u8>,
    i: nat,
)
    requires
        pi < points.len(),
        rs.len() == points.len(),
        i <= points.len(),
        point_add_of(
            base_mul_of(sag_sign(message, k, points, pi, rs, a).ring[pi as int].1),
            point_mul_of(sign_challenge(ring_prefix(message, points), points, rs, pi, a, points.len()), points[pi as int]),
        ) == base_mul_of(a),
    ensures
        ({
            let h = ring_prefix(message, points);
            let n = points.len();
            let sig = sag_sign(message, k, points, pi, rs, a);
            let start = if i < n {
                sign_challenge(h, points, rs, pi, a, offset_to(pi, i, n))
            } else {
                sig.challenge
            };
            sag_chain(h, start, sig.ring.subrange(i as int, n as int)) == sig.challenge
        }),
    decreases points.len() - i,
{
    let h = ring_prefix(message, points);
    let n = points.len();
    let sig = sag_sign(message, k, points, pi, rs, a);
    if i < n {
        lemma_walk(message, k, points, pi, rs, a, i + 1);
        let sub = sig.ring.subrange(i as int, n as int);
        assert(sub.drop_first() =~= sig.ring.subrange((i + 1) as int, n as int));
        let j = offset_to(pi, i, n);
        let c = sign_challenge(h, points, rs, pi, a, j);
        assert(sub[0] == sig.ring[i as int]);
        assert(ring_step(pi, j, n) == i);
        let next = sag_round(h, c, points[i as int], sig.ring[i as int].1);
        if i == pi {
            assert(j == n);
            assert(next == sign_challenge(h, points, rs, pi, a, 1));
            if i + 1 < n {
                assert(offset_to(pi, i + 1, n) == 1);
            } else {
                assert(n - pi == 1);
            }
        } else {
            assert(sig.ring[i as int].1 == rs[i as int]);
            assert(next == sign_challenge(h, points, rs, pi, a, j + 1));
            if i + 1 < n {
                assert(offset_to(pi, i + 1, n) == j + 1);
            } else {
                assert(j + 1 == n - pi);
            }
        }
    } else {
        assert(sig.ring.subrange(i as int, n as int) =~= Seq::<(Seq<u8>, Seq<u8>)>::empty());
    }
}

/// The ring closes: once the signer's response balances (`r·G + c·K` is the point `a·G` that
/// the signer committed to, which the group's arithmetic makes so when `K = k·G`), a fresh
/// signature verifies.
pub proof fn law_ring_closes(
    message: Seq<u8>,
    k: Seq<u8>,
    points: Seq<Seq<u8>>,
    pi: nat,
    rs: Seq<Seq<u8>>,
    a: Seq<u8>,
)
    requires
        pi < points.len(),
        rs.len() == points.len(),
        point_add_of(
            base_mul_of(sag_sign(message, k, points, pi, rs, a).ring[pi as int].1),
            point_mul_of(sign_challenge(ring_prefix(message, points), points, rs, pi, a, points.len()), points[pi as int]),
        ) == base_mul_of(a),
    ensures
        sag_verifies(message, sag_sign(message, k, points, pi, rs, a)),
{
    let sig = sag_sign(message, k, points, pi, rs, a);
    let n = points.len();
    lemma_walk(message, k, points, pi, rs, a, 0);
    assert(sig.ring.subrange(0, n as int) =~= sig.ring);
    assert(ring_points(sig.ring) =~= points);
    assert(offset_to(pi, 0, n) == n - pi);
}

/// The ring's order is fixed by the points alone: other keys given in another order (the same
/// keys, as many times each) give the same ring, when no two of the ring's keys share a point.
pub proof fn law_ring_independent_of_order(
    others1: Seq<PublicKeyView>,
    others2: Seq<PublicKeyView>,
    mine: PublicKeyView,
)
    requires
        without_key(others1, mine).to_multiset() == without_key(others2, mine).to_multiset(),
        keys_distinct(message_ring(others1, mine)),
    ensures
        message_ring(others1, mine) == message_ring(others2, mine),
{
    broadcast use vstd::seq_lib::group_to_multiset_ensures;

    let s1 = without_key(others1, mine).push(mine);
    let s2 = without_key(others2, mine).push(mine);
    lemma_sort_by_key(s1);
    lemma_sort_by_key(s2);
    assert(s1.to_multiset() == without_key(others1, mine).to_multiset().insert(mine));
    assert(s2.to_multiset() == without_key(others2, mine).to_multiset().insert(mine));
    lemma_sorted_unique(message_ring(others1, mine), message_ring(others2, mine));
}

/// The group law that closes a ring: for every nonce `a`, challenge `c` and secret `x`, the
/// response `a - c·x` satisfies `(a - c·x)·G + c·(x·G) = a·G`. This is arithmetic of the
/// Ristretto group that nothing in this crate states; the laws below take it as a hypothesis.
pub open spec fn closing_law() -> bool {
    forall|a: Seq<u8>, c: Seq<u8>, x: Seq<u8>|
        #[trigger] point_add_of(
            base_mul_of(scalar_bytes(le_nat(a) - le_nat(scalar_bytes((le_nat(c) * le_nat(x)) as int)))),
            point_mul_of(c, base_mul_of(x)),
        ) == base_mul_of(a)
}

/// Under the closing law, a fresh private key's public key has a valid attestation.
pub proof fn law_fresh_key_validates(k: PrivateKeyView)
    requires
        closing_law(),
        fresh_attestation(k),
    ensures
        attestation_valid(public_of(k)),
{
    let (rs, a) = choose|rs: Seq<Seq<u8>>, a: Seq<u8>|
        rs.len() == 1 && #[trigger] sag_sign(
            attestation_image(k.holder, base_mul_of(k.key)),
            k.key,
            seq![base_mul_of(k.key)],
            0,
            rs,
            a,
        ) == k.attestation;
    let m = attestation_image(k.holder, base_mul_of(k.key));
    let points = seq![base_mul_of(k.key)];
    let c = sign_challenge(ring_prefix(m, points), points, rs, 0, a, 1);
    assert(point_add_of(
        base_mul_of(scalar_bytes(le_nat(a) - le_nat(scalar_bytes((le_nat(c) * le_nat(k.key)) as int)))),
        point_mul_of(c, base_mul_of(k.key)),
    ) == base_mul_of(a));
    law_ring_closes(m, k.key, points, 0, rs, a);
    law_fresh_attestation_ring(k, rs, a);
}

/// Every key of `s` with `mine` taken out is a key of `s`.
proof fn lemma_without_key_contains(s: Seq<PublicKeyView>, mine: PublicKeyView, x: PublicKeyView)
    requires
        without_key(s, mine).contains(x),
    ensures
        s.contains(x),
    decreases s.len(),
{
    if s.len() > 0 {
        let w = without_key(s.drop_last(), mine);
        if w.contains(x) {
            lemma_without_key_contains(s.drop_last(), mine, x);
            let i = choose|i: int| 0 <= i < s.drop_last().len() && s.drop_last()[i] == x;
            assert(s[i] == x);
        } else {
            assert(x == s.last());
            assert(s[s.len() - 1] == x);
        }
    }
}

/// Under the closing law, a message signed by a fresh private key verifies, when every other
/// key given has a valid attestation.
pub proof fn law_signed_message_verifies(
    m: SignedMessageView,
    message: Seq<char>,
    k: PrivateKeyView,
    others: Seq<PublicKeyView>,
)
    requires
        closing_law(),
        fresh_attestation(k),
        forall|i: int| 0 <= i < others.len() ==> attestation_valid(#[trigger] others[i]),
        signed_by(m, message, k, others),
    ensures
        signed_message_valid(m),
{
    broadcast use vstd::seq_lib::group_to_multiset_ensures;

    let mine = public_of(k);
    let ring = message_ring(others, mine);
    let (rs, a, pi) = choose|rs: Seq<Seq<u8>>, a: Seq<u8>, pi: nat|
        {
            &&& pi < ring.len()
            &&& rs.len() == ring.len()
            &&& ring[pi as int] == mine
            &&& m == #[trigger] signed_message_by(message, k, others, pi, rs, a)
        };
    let bytes = encode_utf8(message);
    let points = keypoints_of(ring);
    let sig = sag_sign(bytes, k.key, points, pi, rs, a);
    assert(message_signature(m) =~= sig) by {
        assert(message_signature(m).ring =~= sig.ring);
    }
    let c = sign_challenge(ring_prefix(bytes, points), points, rs, pi, a, points.len());
    assert(points[pi as int] == base_mul_of(k.key));
    assert(point_add_of(
        base_mul_of(scalar_bytes(le_nat(a) - le_nat(scalar_bytes((le_nat(c) * le_nat(k.key)) as int)))),
        point_mul_of(c, base_mul_of(k.key)),
    ) == base_mul_of(a));
    law_ring_closes(bytes, k.key, points, pi, rs, a);
    law_fresh_key_validates(k);
    let s = without_key(others, mine).push(mine);
    lemma_sort_by_key(s);
    assert forall|i: int| 0 <= i < m.ring.len() implies attestation_valid(#[trigger] m.ring[i].0) by {
        let x = ring[i];
        assert(m.ring[i].0 == x);
        assert(ring.to_multiset().count(x) > 0);
        assert(s.contains(x));
        let j = choose|j: int| 0 <= j < s.len() && s[j] == x;
        if x != mine {
            assert(j < s.len() - 1);
            assert(without_key(others, mine)[j] == x);
            lemma_without_key_contains(others, mine, x);
        }
    }
}

} // verus!
