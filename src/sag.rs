//! The spontaneous anonymous group (SAG) ring signature: a signature made with one secret scalar
//! that any holder of the ring's points could have made.

use vstd::prelude::*;
use crate::bytes::{append_bytes, bytes_eq};
use crate::curve::{
    RistrettoPoint, Scalar, base_mul_of, hash_to_scalar, le_nat, lemma_lex_asymmetric,
    lemma_lex_irreflexive, lemma_lex_total, lemma_lex_transitive, lex_lt, point_add_of,
    point_mul_of, scalar_bytes,
};

verus! {

/// The encodings of a signature: its challenge and each ring member's point and response.
pub struct SignatureView {
    pub challenge: Seq<u8>,
    pub ring: Seq<(Seq<u8>, Seq<u8>)>,
}

/// A ring signature: the challenge of the first ring member, and the ring's points, in
/// order, each with its response.
#[derive(Clone, Debug, PartialEq, Eq)]
pub struct Signature {
    pub challenge: Scalar,
    pub ring_responses: Vec<(RistrettoPoint, Scalar)>,
}

impl View for Signature {
    type V = SignatureView;

    open spec fn view(&self) -> SignatureView {
        SignatureView {
            challenge: self.challenge@,
            ring: response_views(self.ring_responses@),
        }
    }
}

/// The encodings of a sequence of (point, response) pairs.
pub open spec fn response_views(s: Seq<(RistrettoPoint, Scalar)>) -> Seq<(Seq<u8>, Seq<u8>)> {
    s.map_values(|e: (RistrettoPoint, Scalar)| (e.0@, e.1@))
}

/// The encodings of a sequence of points.
pub open spec fn point_views(s: Seq<RistrettoPoint>) -> Seq<Seq<u8>> {
    s.map_values(|q: RistrettoPoint| q@)
}

/// The encodings of a sequence of scalars.
pub open spec fn scalar_views(s: Seq<Scalar>) -> Seq<Seq<u8>> {
    s.map_values(|x: Scalar| x@)
}

/// The concatenation of a sequence of encodings.
pub open spec fn concat_all(parts: Seq<Seq<u8>>) -> Seq<u8>
    decreases parts.len(),
{
    if parts.len() == 0 {
        Seq::empty()
    } else {
        concat_all(parts.drop_last()) + parts.last()
    }
}

/// The points of a ring of (point, response) pairs.
pub open spec fn ring_points(ring: Seq<(Seq<u8>, Seq<u8>)>) -> Seq<Seq<u8>> {
    ring.map_values(|e: (Seq<u8>, Seq<u8>)| e.0)
}

/// What every challenge hash starts with: the message, then each ring point in order.
pub open spec fn ring_prefix(message: Seq<u8>, points: Seq<Seq<u8>>) -> Seq<u8> {
    message + concat_all(points)
}

/// The challenge that follows a ring member with point `k`, response `r` and challenge `c`:
/// the hash of the prefix and of `r·G + c·K`.
pub open spec fn sag_round(prefix: Seq<u8>, c: Seq<u8>, k: Seq<u8>, r: Seq<u8>) -> Seq<u8> {
    hash_to_scalar(prefix + point_add_of(base_mul_of(r), point_mul_of(c, k)))
}

/// The challenge reached by walking the ring from challenge `c`.
pub open spec fn sag_chain(prefix: Seq<u8>, c: Seq<u8>, ring: Seq<(Seq<u8>, Seq<u8>)>) -> Seq<u8>
    decreases ring.len(),
{
    if ring.len() == 0 {
        c
    } else {
        sag_chain(prefix, sag_round(prefix, c, ring[0].0, ring[0].1), ring.drop_first())
    }
}

/// Whether `sig` is a valid signature of `message`: its ring is not empty, and walking the
/// ring from the stored challenge comes back to it.
pub open spec fn sag_verifies(message: Seq<u8>, sig: SignatureView) -> bool {
    sig.ring.len() >= 1 && sag_chain(ring_prefix(message, ring_points(sig.ring)), sig.challenge, sig.ring)
        == sig.challenge
}

/// The ring position `j` steps after position `pi`, in a ring of `n` members.
pub open spec fn ring_step(pi: nat, j: nat, n: nat) -> nat {
    if pi + j >= n {
        (pi + j - n) as nat
    } else {
        pi + j
    }
}

/// While signing: the challenge of the member `j` steps after the signer (for `j >= 1`), from
/// the nonce `a` and the responses `rs` of the members in between.
pub open spec fn sign_challenge(
    prefix: Seq<u8>,
    points: Seq<Seq<u8>>,
    rs: Seq<Seq<u8>>,
    pi: nat,
    a: Seq<u8>,
    j: nat,
) -> Seq<u8>
    decreases j,
{
    if j <= 1 {
        hash_to_scalar(prefix + base_mul_of(a))
    } else {
        let i = ring_step(pi, (j - 1) as nat, points.len());
        sag_round(prefix, sign_challenge(prefix, points, rs, pi, a, (j - 1) as nat), points[i as int], rs[i as int])
    }
}

/// The signature of `message` by the secret `k` at position `pi` of the sorted ring `points`,
/// with the responses `rs` drawn for the other members and the nonce `a`.
pub open spec fn sag_sign(
    message: Seq<u8>,
    k: Seq<u8>,
    points: Seq<Seq<u8>>,
    pi: nat,
    rs: Seq<Seq<u8>>,
    a: Seq<u8>,
) -> SignatureView {
    let prefix = ring_prefix(message, points);
    let n = points.len();
    let c_pi = sign_challenge(prefix, points, rs, pi, a, n);
    SignatureView {
        challenge: sign_challenge(prefix, points, rs, pi, a, (n - pi) as nat),
        ring: Seq::new(
            n,
            |i: int|
                (points[i], if i == pi {
                    scalar_bytes(le_nat(a) - le_nat(scalar_bytes((le_nat(c_pi) * le_nat(k)) as int)))
                } else {
                    rs[i]
                }),
        ),
    }
}

/// What a ring is sorted by: the encoding of a member's point.
pub trait RingKey {
    spec fn ring_key(&self) -> Seq<u8>;
}

impl RingKey for Seq<u8> {
    open spec fn ring_key(&self) -> Seq<u8> {
        *self
    }
}

/// The position at which `x` goes into the sorted sequence `s`: after every element whose
/// key is not above `x`'s.
pub open spec fn insert_pos<T: RingKey>(s: Seq<T>, x: T) -> nat
    decreases s.len(),
{
    if s.len() == 0 {
        0
    } else if lex_lt(x.ring_key(), s[0].ring_key()) {
        0
    } else {
        1 + insert_pos(s.drop_first(), x)
    }
}

/// The stable insertion sort of `s` by ring key.
pub open spec fn sort_by_key<T: RingKey>(s: Seq<T>) -> Seq<T>
    decreases s.len(),
{
    if s.len() == 0 {
        s
    } else {
        let sorted = sort_by_key(s.drop_last());
        sorted.insert(insert_pos(sorted, s.last()) as int, s.last())
    }
}

/// Whether `s` is sorted by ring key: no element's key comes before an earlier one's.
pub open spec fn sorted_by_key<T: RingKey>(s: Seq<T>) -> bool {
    forall|i: int, j: int| 0 <= i < j < s.len() ==> !lex_lt(#[trigger] s[j].ring_key(), #[trigger] s[i].ring_key())
}

/// What the insert position separates: keys not above `x`'s before it, and (in a sorted
/// sequence) keys above `x`'s from it on.
pub proof fn lemma_insert_pos_split<T: RingKey>(s: Seq<T>, x: T)
    ensures
        insert_pos(s, x) <= s.len(),
        forall|i: int| 0 <= i < insert_pos(s, x) ==> !lex_lt(x.ring_key(), #[trigger] s[i].ring_key()),
        insert_pos(s, x) < s.len() ==> lex_lt(x.ring_key(), s[insert_pos(s, x) as int].ring_key()),
    decreases s.len(),
{
    if s.len() > 0 && !lex_lt(x.ring_key(), s[0].ring_key()) {
        lemma_insert_pos_split(s.drop_first(), x);
        assert forall|i: int| 1 <= i < insert_pos(s, x) implies !lex_lt(x.ring_key(), #[trigger] s[i].ring_key()) by {
            assert(s[i] == s.drop_first()[i - 1]);
        }
    }
}

/// Inserting at the insert position keeps a sequence sorted.
pub proof fn lemma_insert_sorted<T: RingKey>(s: Seq<T>, x: T)
    requires
        sorted_by_key(s),
    ensures
        sorted_by_key(s.insert(insert_pos(s, x) as int, x)),
{
    lemma_insert_pos_split(s, x);
    let p = insert_pos(s, x) as int;
    let r = s.insert(p, x);
    assert forall|i: int, j: int| 0 <= i < j < r.len() implies !lex_lt(#[trigger] r[j].ring_key(), #[trigger] r[i].ring_key()) by {
        if j < p {
            assert(r[i] == s[i] && r[j] == s[j]);
        } else if j == p {
            assert(r[i] == s[i]);
            lemma_lex_asymmetric(s[i].ring_key(), x.ring_key());
            lemma_lex_total(s[i].ring_key(), x.ring_key());
            lemma_lex_irreflexive(x.ring_key());
        } else if i == p {
            assert(r[j] == s[j - 1]);
            let kp = s[p].ring_key();
            let kj = s[j - 1].ring_key();
            lemma_lex_total(kp, kj);
            if kp != kj {
                lemma_lex_transitive(x.ring_key(), kp, kj);
            }
            lemma_lex_asymmetric(x.ring_key(), kj);
        } else if i < p {
            assert(r[i] == s[i] && r[j] == s[j - 1]);
        } else {
            assert(r[i] == s[i - 1] && r[j] == s[j - 1]);
        }
    }
}

/// The insertion sort is sorted, and holds the same elements as its input.
pub proof fn lemma_sort_by_key<T: RingKey>(s: Seq<T>)
    ensures
        sorted_by_key(sort_by_key(s)),
        sort_by_key(s).to_multiset() == s.to_multiset(),
    decreases s.len(),
{
    broadcast use vstd::seq_lib::group_to_multiset_ensures;

    if s.len() > 0 {
        lemma_sort_by_key(s.drop_last());
        let sorted = sort_by_key(s.drop_last());
        lemma_insert_sorted(sorted, s.last());
        lemma_insert_pos_bound(sorted, s.last());
        vstd::seq_lib::to_multiset_insert(sorted, insert_pos(sorted, s.last()) as int, s.last());
        assert(s =~= s.drop_last().push(s.last()));
        vstd::seq_lib::to_multiset_build(s.drop_last(), s.last());
    } else {
        assert(s.to_multiset() =~= vstd::multiset::Multiset::empty());
    }
}

/// Whether no two elements of `s` have the same ring key.
pub open spec fn keys_distinct<T: RingKey>(s: Seq<T>) -> bool {
    forall|i: int, j: int| 0 <= i < j < s.len() ==> #[trigger] s[i].ring_key() != #[trigger] s[j].ring_key()
}

/// Two sequences sorted by ring key, with the same elements and no key twice, are the same
/// sequence.
pub proof fn lemma_sorted_unique<T: RingKey>(s1: Seq<T>, s2: Seq<T>)
    requires
        sorted_by_key(s1),
        sorted_by_key(s2),
        keys_distinct(s1),
        s1.to_multiset() == s2.to_multiset(),
    ensures
        s1 == s2,
    decreases s1.len(),
{
    broadcast use vstd::seq_lib::group_to_multiset_ensures;

    assert(s1.to_multiset().len() == s1.len());
    assert(s2.to_multiset().len() == s2.len());
    if s1.len() == 0 {
        assert(s2.len() == 0);
        assert(s1 =~= s2);
    } else {
        assert(s2.len() == s1.len());
        let x = s1[0];
        let y = s2[0];
        assert(s1.to_multiset().count(x) > 0);
        assert(s2.contains(x));
        let j = choose|j: int| 0 <= j < s2.len() && s2[j] == x;
        assert(s2.to_multiset().count(y) > 0);
        assert(s1.contains(y));
        let i = choose|i: int| 0 <= i < s1.len() && s1[i] == y;
        if i != 0 {
            assert(!lex_lt(s1[i].ring_key(), s1[0].ring_key()));
        }
        if j != 0 {
            assert(!lex_lt(s2[j].ring_key(), s2[0].ring_key()));
        }
        lemma_lex_total(x.ring_key(), y.ring_key());
        assert(x.ring_key() == y.ring_key());
        assert(i == 0);
        assert(x == y);
        let t1 = s1.remove(0);
        let t2 = s2.remove(0);
        assert(t1 =~= s1.drop_first());
        assert(t2 =~= s2.drop_first());
        assert(sorted_by_key(t1)) by {
            assert forall|a: int, b: int| 0 <= a < b < t1.len() implies !lex_lt(#[trigger] t1[b].ring_key(), #[trigger] t1[a].ring_key()) by {
                assert(t1[a] == s1[a + 1] && t1[b] == s1[b + 1]);
            }
        }
        assert(sorted_by_key(t2)) by {
            assert forall|a: int, b: int| 0 <= a < b < t2.len() implies !lex_lt(#[trigger] t2[b].ring_key(), #[trigger] t2[a].ring_key()) by {
                assert(t2[a] == s2[a + 1] && t2[b] == s2[b + 1]);
            }
        }
        assert(keys_distinct(t1)) by {
            assert forall|a: int, b: int| 0 <= a < b < t1.len() implies #[trigger] t1[a].ring_key() != #[trigger] t1[b].ring_key() by {
                assert(t1[a] == s1[a + 1] && t1[b] == s1[b + 1]);
            }
        }
        lemma_sorted_unique(t1, t2);
        assert(s1 =~= s2) by {
            assert forall|a: int| 0 <= a < s1.len() implies s1[a] == s2[a] by {
                if a > 0 {
                    assert(t1[a - 1] == t2[a - 1]);
                }
            }
        }
    }
}

/// The insertion sort of `s` counts its length.
pub proof fn lemma_sort_len<T: RingKey>(s: Seq<T>)
    ensures
        sort_by_key(s).len() == s.len(),
    decreases s.len(),
{
    if s.len() > 0 {
        lemma_sort_len(s.drop_last());
        lemma_insert_pos_bound(sort_by_key(s.drop_last()), s.last());
    }
}

/// The insert position lies within the sequence.
pub proof fn lemma_insert_pos_bound<T: RingKey>(s: Seq<T>, x: T)
    ensures
        insert_pos(s, x) <= s.len(),
    decreases s.len(),
{
    if s.len() > 0 {
        lemma_insert_pos_bound(s.drop_first(), x);
    }
}

/// Finds where `p` goes into the sorted `ring`.
fn find_insert_pos(ring: &Vec<RistrettoPoint>, p: &RistrettoPoint) -> (r: usize)
    ensures
        r == insert_pos(point_views(ring@), p@),
        r <= ring@.len(),
{
    let ghost s = point_views(ring@);
    let mut j: usize = 0;
    assert(s.subrange(0, s.len() as int) =~= s);
    while j < ring.len()
        invariant
            j <= ring@.len(),
            s == point_views(ring@),
            insert_pos(s, p@) == j + insert_pos(s.subrange(j as int, s.len() as int), p@),
        decreases ring@.len() - j,
    {
        let ghost rest = s.subrange(j as int, s.len() as int);
        assert(rest.drop_first() =~= s.subrange(j + 1, s.len() as int));
        if p.lt(&ring[j]) {
            return j;
        }
        j = j + 1;
    }
    proof {
        lemma_insert_pos_bound(s, p@);
    }
    j
}

/// Sorts `others` together with `mine` by their encodings, and says where `mine` went.
fn make_point_ring(others: &[RistrettoPoint], mine: &RistrettoPoint) -> (r: (Vec<RistrettoPoint>, usize))
    ensures
        point_views(r.0@) == sort_by_key(
            point_views(others@).push(mine@),
        ),
        r.1 < r.0@.len(),
        r.0@[r.1 as int] == *mine,
{
    let ghost all = point_views(others@).push(mine@);
    let mut ring: Vec<RistrettoPoint> = Vec::new();
    let mut i: usize = 0;
    while i < others.len()
        invariant
            i <= others@.len(),
            all == point_views(others@).push(mine@),
            point_views(ring@) == sort_by_key(all.subrange(0, i as int)),
        decreases others@.len() - i,
    {
        let ghost before = point_views(ring@);
        let p = others[i];
        let k = find_insert_pos(&ring, &p);
        ring.insert(k, p);
        proof {
            let sub = all.subrange(0, i + 1);
            assert(sub.drop_last() =~= all.subrange(0, i as int));
            assert(sub.last() == p@);
            assert(point_views(ring@) =~= before.insert(k as int, p@));
        }
        i = i + 1;
    }
    let ghost before = point_views(ring@);
    let k = find_insert_pos(&ring, mine);
    ring.insert(k, *mine);
    proof {
        assert(all.drop_last() =~= all.subrange(0, others@.len() as int));
        assert(point_views(ring@) =~= before.insert(k as int, mine@));
    }
    (ring, k)
}

} // verus!

verus! {

/// The message followed by each point's encoding.
fn hash_prefix(message: &[u8], points: &Vec<RistrettoPoint>) -> (r: Vec<u8>)
    ensures
        r@ == ring_prefix(message@, point_views(points@)),
{
    let ghost pts = point_views(points@);
    let mut out = vstd::slice::slice_to_vec(message);
    let mut i: usize = 0;
    assert(pts.subrange(0, 0) =~= Seq::<Seq<u8>>::empty());
    assert(out@ =~= message@ + concat_all(pts.subrange(0, 0)));
    while i < points.len()
        invariant
            i <= points@.len(),
            pts == point_views(points@),
            out@ == message@ + concat_all(pts.subrange(0, i as int)),
        decreases points@.len() - i,
    {
        let b = points[i].compress();
        append_bytes(&mut out, &b);
        proof {
            let sub = pts.subrange(0, i + 1);
            assert(sub.drop_last() =~= pts.subrange(0, i as int));
            assert(sub.last() == b@);
        }
        i = i + 1;
        assert(out@ =~= message@ + concat_all(pts.subrange(0, i as int)));
    }
    assert(pts.subrange(0, points@.len() as int) =~= pts);
    out
}

/// The prefix followed by a point's encoding, reduced to a scalar through SHA3-512.
fn challenge_after(prefix: &Vec<u8>, u: &RistrettoPoint) -> (r: Scalar)
    ensures
        r@ == hash_to_scalar(prefix@ + u@),
{
    let mut data = prefix.clone();
    assert(data@ =~= prefix@);
    append_bytes(&mut data, &u.compress());
    Scalar::from_hash(&data)
}

impl Signature {
    /// Signs `message` with the secret `k`, which sits at position `pi` of the sorted ring
    /// `ring`, using the responses `responses` for the other members and the nonce `a`.
    pub fn sign_with(
        message: &[u8],
        k: &Scalar,
        ring: &Vec<RistrettoPoint>,
        pi: usize,
        responses: &Vec<Scalar>,
        a: &Scalar,
    ) -> (r: Signature)
        requires
            pi < ring@.len(),
            responses@.len() == ring@.len(),
        ensures
            r@ == sag_sign(
                message@,
                k@,
                point_views(ring@),
                pi as nat,
                scalar_views(responses@),
                a@,
            ),
    {
        let ghost pts = point_views(ring@);
        let ghost rs = scalar_views(responses@);
        let n = ring.len();
        let prefix = hash_prefix(message, ring);
        let ghost pre = prefix@;
        let mut u = RistrettoPoint::mul_base(a);
        let mut c = Scalar::zero();
        let mut c0 = Scalar::zero();
        let mut j: usize = 0;
        while j < n
            invariant
                j <= n,
                n == ring@.len(),
                n == responses@.len(),
                pi < n,
                pre == prefix@,
                pts == point_views(ring@),
                rs == scalar_views(responses@),
                j == 0 ==> u@ == base_mul_of(a@),
                j > 0 ==> c@ == sign_challenge(pre, pts, rs, pi as nat, a@, j as nat),
                j > 0 ==> u@ == point_add_of(
                    base_mul_of(rs[ring_step(pi as nat, j as nat, n as nat) as int]),
                    point_mul_of(c@, pts[ring_step(pi as nat, j as nat, n as nat) as int]),
                ),
                j >= n - pi ==> c0@ == sign_challenge(pre, pts, rs, pi as nat, a@, (n - pi) as nat),
            decreases n - j,
        {
            let offset = j + 1;
            let i = if offset >= n - pi {
                offset - (n - pi)
            } else {
                pi + offset
            };
            c = challenge_after(&prefix, &u);
            if i == 0 {
                c0 = c;
            }
            u = RistrettoPoint::mul_base(&responses[i]).add(&c.mul_point(&ring[i]));
            j = offset;
        }
        let r_pi = a.sub(&c.mul(k));
        let mut ring_responses: Vec<(RistrettoPoint, Scalar)> = Vec::new();
        let mut i: usize = 0;
        while i < n
            invariant
                i <= n,
                n == ring@.len(),
                n == responses@.len(),
                pts == point_views(ring@),
                rs == scalar_views(responses@),
                ring_responses@.len() == i,
                forall|t: int|
                    0 <= t < i ==> (#[trigger] ring_responses@[t]).0 == ring@[t] && ring_responses@[t].1
                        == if t == pi {
                        r_pi
                    } else {
                        responses@[t]
                    },
            decreases n - i,
        {
            let s = if i == pi {
                r_pi
            } else {
                responses[i]
            };
            ring_responses.push((ring[i], s));
            i = i + 1;
        }
        let r = Signature { challenge: c0, ring_responses };
        assert(r@.ring =~= sag_sign(message@, k@, pts, pi as nat, rs, a@).ring);
        r
    }
}

/// The ring of a signature: the other members' points and the signer's, sorted by encoding.
pub open spec fn sorted_ring(others: Seq<Seq<u8>>, mine: Seq<u8>) -> Seq<Seq<u8>> {
    sort_by_key(others.push(mine))
}

/// The points of a ring of (point, response) pairs.
fn points_of(ring: &Vec<(RistrettoPoint, Scalar)>) -> (r: Vec<RistrettoPoint>)
    ensures
        point_views(r@) == ring_points(
            response_views(ring@),
        ),
{
    let mut out: Vec<RistrettoPoint> = Vec::new();
    let mut i: usize = 0;
    while i < ring.len()
        invariant
            i <= ring@.len(),
            out@.len() == i,
            forall|t: int| 0 <= t < i ==> #[trigger] out@[t] == ring@[t].0,
        decreases ring@.len() - i,
    {
        out.push(ring[i].0);
        i = i + 1;
    }
    assert(point_views(out@) =~= ring_points(
        response_views(ring@),
    ));
    out
}

impl Signature {
    /// Signs `message` with the secret `k`, in a ring made of `others` and the point of `k`,
    /// sorted by encoding. The responses of the other members and the nonce are drawn at
    /// random.
    pub fn sign(message: &[u8], k: &Scalar, others: &[RistrettoPoint]) -> (r: Signature)
        ensures
            exists|rs: Seq<Seq<u8>>, a: Seq<u8>, pi: nat|
                {
                    &&& pi < others@.len() + 1
                    &&& rs.len() == others@.len() + 1
                    &&& sorted_ring(point_views(others@), base_mul_of(k@))[pi as int]
                        == base_mul_of(k@)
                    &&& r@ == #[trigger] sag_sign(
                        message@,
                        k@,
                        sorted_ring(point_views(others@), base_mul_of(k@)),
                        pi,
                        rs,
                        a,
                    )
                },
    {
        let mine = RistrettoPoint::mul_base(k);
        let (ring, pi) = make_point_ring(others, &mine);
        let mut responses: Vec<Scalar> = Vec::new();
        let mut i: usize = 0;
        while i < ring.len()
            invariant
                i <= ring@.len(),
                responses@.len() == i,
            decreases ring@.len() - i,
        {
            responses.push(Scalar::random());
            i = i + 1;
        }
        let a = Scalar::random();
        let r = Signature::sign_with(message, k, &ring, pi, &responses, &a);
        assert(point_views(ring@)[pi as int] == mine@);
        proof {
            lemma_sort_len(point_views(others@).push(mine@));
            let ring_v = sorted_ring(point_views(others@), mine@);
            assert(point_views(ring@) == ring_v);
            assert(r@ == sag_sign(message@, k@, ring_v, pi as nat, scalar_views(responses@), a@));
            assert(ring_v[pi as int] == base_mul_of(k@));
        }
        r
    }

    /// Whether this is a valid signature of `message`: the ring is not empty, and recomputing
    /// each member's challenge from the stored one comes back to it.
    pub fn verify(&self, message: &[u8]) -> (r: bool)
        ensures
            r == sag_verifies(message@, self@),
    {
        let ghost ring = self@.ring;
        let n = self.ring_responses.len();
        if n == 0 {
            return false;
        }
        let points = points_of(&self.ring_responses);
        let prefix = hash_prefix(message, &points);
        let ghost pre = prefix@;
        let mut c = self.challenge;
        let mut i: usize = 0;
        assert(ring.subrange(0, n as int) =~= ring);
        while i < n
            invariant
                i <= n,
                n == self.ring_responses@.len(),
                ring == self@.ring,
                pre == prefix@,
                pre == ring_prefix(message@, ring_points(ring)),
                sag_chain(pre, self@.challenge, ring) == sag_chain(pre, c@, ring.subrange(i as int, n as int)),
            decreases n - i,
        {
            let (k, s) = self.ring_responses[i];
            let u = RistrettoPoint::mul_base(&s).add(&c.mul_point(&k));
            assert(ring.subrange(i as int, n as int).drop_first() =~= ring.subrange(i + 1, n as int));
            c = challenge_after(&prefix, &u);
            i = i + 1;
        }
        assert(ring.subrange(n as int, n as int) =~= Seq::<(Seq<u8>, Seq<u8>)>::empty());
        let same = bytes_eq(&c.to_bytes(), &self.challenge.to_bytes());
        proof {
            crate::curve::lemma_scalar_view_eq(c, self.challenge);
        }
        same
    }
}

} // verus!
