//! The contents of the key database: the user's private keys and the public keys of others
//! with their verification state, each kept under its public key, and the part of it that is
//! kept in memory (no private keys).

use vstd::prelude::*;
use vstd::string::StringSliceAdditionalSpecFns;
use crate::codec::{at, lemma_at_concat, lemma_le_bytes_len, lemma_le_bytes_mod, pow256, read_u32, u32_le, write_u32};
use crate::keys::{PrivateKey, PrivateKeyView, PublicKey, PublicKeyView, private_key_encodable, public_key_encodable, public_of, ser_private_key, ser_public_key};

verus! {

/// When a public key was verified out of band, as Unix seconds; `None` if it was not.
#[derive(Clone, Copy, Debug, PartialEq, Eq)]
pub struct VerificationInfo {
    verified_date: Option<i64>,
}

impl View for VerificationInfo {
    type V = Option<i64>;

    closed spec fn view(&self) -> Option<i64> {
        self.verified_date
    }
}

/// Relies on `time::OffsetDateTime::now_utc`: the current time, in Unix seconds.
#[verifier::external_body]
fn unix_now() -> (r: i64) {
    time::OffsetDateTime::now_utc().unix_timestamp()
}

/// The `time` crate's date and time with a UTC offset.
#[verifier::external_type_specification]
#[verifier::external_body]
pub struct ExOffsetDateTime(time::OffsetDateTime);

/// Relies on `time::OffsetDateTime::from_unix_timestamp`: every Unix time from the start of
/// year -9999 to the end of year 9999 is in its range.
#[verifier::external_body]
fn date_time_from_unix(seconds: i64) -> (r: Option<time::OffsetDateTime>)
    ensures
        -377705116800 <= seconds <= 253402300799 ==> r.is_some(),
{
    time::OffsetDateTime::from_unix_timestamp(seconds).ok()
}

impl VerificationInfo {
    /// When the key was verified, as a date and time in UTC; `None` when it was not verified.
    pub fn verified_time(&self) -> (r: Option<time::OffsetDateTime>)
        ensures
            self@.is_none() ==> r.is_none(),
            self@.is_some() && -377705116800 <= self@.unwrap() <= 253402300799 ==> r.is_some(),
    {
        match self.verified_date {
            Some(s) => date_time_from_unix(s),
            None => None,
        }
    }

    /// Not verified.
    pub fn unverified() -> (r: VerificationInfo)
        ensures
            r@ == None::<i64>,
    {
        VerificationInfo { verified_date: None }
    }

    /// Verified at the Unix time `seconds`.
    pub fn verified_at(seconds: i64) -> (r: VerificationInfo)
        ensures
            r@ == Some(seconds),
    {
        VerificationInfo { verified_date: Some(seconds) }
    }

    /// Verified now.
    pub fn now() -> (r: VerificationInfo)
        ensures
            r@.is_some(),
    {
        VerificationInfo::verified_at(unix_now())
    }

    /// Whether the key was verified.
    pub fn is_verified(&self) -> (r: bool)
        ensures
            r == self@.is_some(),
    {
        self.verified_date.is_some()
    }

    /// When the key was verified, in Unix seconds.
    pub fn verified_date(&self) -> (r: Option<i64>)
        ensures
            r == self@,
    {
        self.verified_date
    }
}

/// The index of the first entry under key `k`, or -1.
pub open spec fn find_index<V>(s: Seq<(PublicKeyView, V)>, k: PublicKeyView) -> int
    decreases s.len(),
{
    if s.len() == 0 {
        -1
    } else if s[0].0 == k {
        0
    } else {
        let i = find_index(s.drop_first(), k);
        if i < 0 {
            -1
        } else {
            i + 1
        }
    }
}

/// The keys of a sequence of entries.
pub open spec fn entry_keys<V>(s: Seq<(PublicKeyView, V)>) -> Seq<PublicKeyView> {
    s.map_values(|e: (PublicKeyView, V)| e.0)
}

/// Whether no key occurs twice.
pub open spec fn keys_unique<V>(s: Seq<(PublicKeyView, V)>) -> bool {
    forall|i: int, j: int| 0 <= i < j < s.len() ==> s[i].0 != s[j].0
}

/// `s` with the value under `k` set to `v`: replaced where `k` is present, otherwise a new
/// entry placed after every entry whose point is not above `k`'s.
pub open spec fn upsert<V>(s: Seq<(PublicKeyView, V)>, k: PublicKeyView, v: V) -> Seq<(PublicKeyView, V)> {
    let i = find_index(s, k);
    if i >= 0 {
        s.update(i, (k, v))
    } else {
        s.insert(crate::sag::insert_pos(entry_keys(s), k) as int, (k, v))
    }
}

/// `s` without the entry under `k`.
pub open spec fn remove_key<V>(s: Seq<(PublicKeyView, V)>, k: PublicKeyView) -> Seq<(PublicKeyView, V)> {
    let i = find_index(s, k);
    if i >= 0 {
        s.remove(i)
    } else {
        s
    }
}

/// The value under `k`, if any.
pub open spec fn lookup<V>(s: Seq<(PublicKeyView, V)>, k: PublicKeyView) -> Option<V> {
    let i = find_index(s, k);
    if i >= 0 {
        Some(s[i].1)
    } else {
        None
    }
}

/// What `find_index` finds.
pub proof fn lemma_find_index<V>(s: Seq<(PublicKeyView, V)>, k: PublicKeyView)
    ensures
        -1 <= find_index(s, k) < s.len(),
        find_index(s, k) >= 0 ==> s[find_index(s, k)].0 == k,
        find_index(s, k) >= 0 ==> forall|j: int| 0 <= j < find_index(s, k) ==> s[j].0 != k,
        find_index(s, k) < 0 ==> forall|j: int| 0 <= j < s.len() ==> s[j].0 != k,
    decreases s.len(),
{
    if s.len() > 0 {
        lemma_find_index(s.drop_first(), k);
        assert forall|j: int| 1 <= j < s.len() implies s[j] == s.drop_first()[j - 1] by {}
    }
}

/// Setting a value keeps keys unique.
pub proof fn lemma_upsert_unique<V>(s: Seq<(PublicKeyView, V)>, k: PublicKeyView, v: V)
    requires
        keys_unique(s),
    ensures
        keys_unique(upsert(s, k, v)),
        lookup(upsert(s, k, v), k) == Some(v),
{
    lemma_find_index(s, k);
    let i = find_index(s, k);
    let r = upsert(s, k, v);
    if i < 0 {
        let p = crate::sag::insert_pos(entry_keys(s), k) as int;
        crate::sag::lemma_insert_pos_bound(entry_keys(s), k);
        assert forall|a: int, b: int| 0 <= a < b < r.len() implies r[a].0 != r[b].0 by {
            if a < p && b < p {
            } else if a < p && b == p {
            } else if a < p {
                assert(r[b] == s[b - 1]);
            } else if a == p {
                assert(r[b] == s[b - 1]);
            } else {
                assert(r[a] == s[a - 1]);
                assert(r[b] == s[b - 1]);
            }
        }
        assert forall|j: int| 0 <= j < r.len() && j != p implies r[j].0 != k by {
            if j < p {
                assert(r[j] == s[j]);
            } else {
                assert(r[j] == s[j - 1]);
            }
        }
        assert(r[p].0 == k);
        lemma_find_index(r, k);
        let f = find_index(r, k);
        if f < 0 {
            assert(r[p].0 != k);
        }
        if f != p {
            assert(r[f].0 == k);
        }
        assert(f == p);
    } else {
        assert forall|j: int| 0 <= j < r.len() && j != i implies r[j].0 != k by {
            assert(r[j] == s[j]);
        }
        lemma_find_index(r, k);
        let f = find_index(r, k);
        if f < 0 {
            assert(r[i].0 != k);
        }
        if f != i {
            assert(r[f].0 == k);
        }
        assert(f == i);
    }
}

/// Removing an entry keeps keys unique, and the key is gone.
pub proof fn lemma_remove_unique<V>(s: Seq<(PublicKeyView, V)>, k: PublicKeyView)
    requires
        keys_unique(s),
    ensures
        keys_unique(remove_key(s, k)),
        lookup(remove_key(s, k), k) == None::<V>,
{
    lemma_find_index(s, k);
    let i = find_index(s, k);
    let r = remove_key(s, k);
    if i >= 0 {
        assert forall|a: int, b: int| 0 <= a < b < r.len() implies r[a].0 != r[b].0 by {
            let a2 = if a < i { a } else { a + 1 };
            let b2 = if b < i { b } else { b + 1 };
            assert(r[a] == s[a2]);
            assert(r[b] == s[b2]);
        }
        lemma_find_index(r, k);
        assert forall|j: int| 0 <= j < r.len() implies r[j].0 != k by {
            let j2 = if j < i { j } else { j + 1 };
            assert(r[j] == s[j2]);
        }
    }
    lemma_find_index(r, k);
}

/// The encodings of the entries of a store.
pub open spec fn views_of<V: View>(s: Seq<(PublicKey, V)>) -> Seq<(PublicKeyView, V::V)> {
    s.map_values(|e: (PublicKey, V)| (e.0@, e.1@))
}

/// Finds the entry under `k`.
fn find_entry<V: View>(s: &Vec<(PublicKey, V)>, k: &PublicKey) -> (r: Option<usize>)
    ensures
        match r {
            Some(i) => i as int == find_index(views_of(s@), k@),
            None => find_index(views_of(s@), k@) < 0,
        },
        r.is_some() ==> r.unwrap() < s@.len(),
{
    let ghost sv = views_of(s@);
    let mut i: usize = 0;
    proof {
        lemma_find_index(sv, k@);
    }
    while i < s.len()
        invariant
            i <= s@.len(),
            sv == views_of(s@),
            -1 <= find_index(sv, k@) < sv.len(),
            find_index(sv, k@) >= 0 ==> sv[find_index(sv, k@)].0 == k@ && forall|j: int| 0 <= j < find_index(sv, k@) ==> sv[j].0 != k@,
            find_index(sv, k@) < 0 ==> forall|j: int| 0 <= j < sv.len() ==> sv[j].0 != k@,
            forall|j: int| 0 <= j < i ==> sv[j].0 != k@,
        decreases s@.len() - i,
    {
        assert(sv[i as int].0 == s@[i as int].0@);
        if s[i].0.equals(k) {
            return Some(i);
        }
        i = i + 1;
    }
    None
}

/// Sets the value under `k`.
fn upsert_entry<V: View>(s: &mut Vec<(PublicKey, V)>, k: PublicKey, v: V)
    ensures
        views_of(final(s)@) == upsert(views_of(old(s)@), k@, v@),
{
    let ghost before = views_of(s@);
    match find_entry(s, &k) {
        Some(i) => {
            s.set(i, (k, v));
            assert(views_of(s@) =~= before.update(i as int, (k@, v@)));
        },
        None => {
            let ghost keys = entry_keys(before);
            let mut j: usize = 0;
            let ghost kv = k@;
            assert(keys.subrange(0, keys.len() as int) =~= keys);
            while j < s.len() && !k.keypoint().lt(&s[j].0.keypoint())
                invariant
                    j <= s@.len(),
                    before == views_of(s@),
                    keys == entry_keys(before),
                    kv == k@,
                    crate::sag::insert_pos(keys, kv) == j + crate::sag::insert_pos(keys.subrange(j as int, keys.len() as int), kv),
                decreases s@.len() - j,
            {
                let ghost rest = keys.subrange(j as int, keys.len() as int);
                assert(rest.drop_first() =~= keys.subrange(j + 1, keys.len() as int));
                assert(rest[0] == s@[j as int].0@);
                j = j + 1;
            }
            proof {
                crate::sag::lemma_insert_pos_bound(keys, kv);
                if j == s@.len() {
                    assert(keys.subrange(j as int, keys.len() as int) =~= Seq::<PublicKeyView>::empty());
                } else {
                    let rest = keys.subrange(j as int, keys.len() as int);
                    assert(rest[0] == s@[j as int].0@);
                }
            }
            s.insert(j, (k, v));
            assert(views_of(s@) =~= before.insert(j as int, (kv, v@)));
        },
    }
}

/// Removes the entry under `k`, if any.
fn remove_entry<V: View>(s: &mut Vec<(PublicKey, V)>, k: &PublicKey)
    ensures
        views_of(final(s)@) == remove_key(views_of(old(s)@), k@),
{
    let ghost before = views_of(s@);
    match find_entry(s, k) {
        Some(i) => {
            let _ = s.remove(i);
            assert(views_of(s@) =~= before.remove(i as int));
        },
        None => {},
    }
}

/// The encodings of the database contents.
pub struct StoreView {
    pub private_keys: Seq<(PublicKeyView, PrivateKeyView)>,
    pub public_keys: Seq<(PublicKeyView, Option<i64>)>,
}

/// The part of the database kept in memory: the public keys of the user's own keys, and the
/// public keys of others with their verification state.
pub struct VisibleView {
    pub my_public_keys: Seq<PublicKeyView>,
    pub their_public_keys: Seq<(PublicKeyView, Option<i64>)>,
}

/// The part of the contents kept in memory.
pub open spec fn visible_of(v: StoreView) -> VisibleView {
    VisibleView { my_public_keys: entry_keys(v.private_keys), their_public_keys: v.public_keys }
}

/// The empty contents.
pub open spec fn empty_store() -> StoreView {
    StoreView { private_keys: Seq::empty(), public_keys: Seq::empty() }
}

/// The public entries after adding each of `ks`, unverified, in order.
pub open spec fn add_all(s: Seq<(PublicKeyView, Option<i64>)>, ks: Seq<PublicKeyView>) -> Seq<(PublicKeyView, Option<i64>)>
    decreases ks.len(),
{
    if ks.len() == 0 {
        s
    } else {
        upsert(add_all(s, ks.drop_last()), ks.last(), None)
    }
}

/// Why a database operation failed.
#[derive(Clone, Copy, Debug, PartialEq, Eq)]
pub enum DatabaseError {
    /// A name with a control code, or an email address with a byte outside printable,
    /// non-whitespace ASCII.
    InvalidInput,
    /// No private key is stored under the given public key.
    UnknownKey,
    /// The stored bytes do not decrypt, or are not the encoding of any contents.
    Corrupted,
    /// Another process holds the database's lock.
    ConcurrentInstance,
    /// The operating system's credential store could not be reached.
    KeychainUnavailable,
    /// The operating system's credential store refused access.
    KeychainDenied,
    /// A file operation failed.
    Io,
}

/// The in-memory view of the database: no private keys, only their public keys.
pub struct VisibleDatabaseContents {
    pub my_public_keys: Vec<PublicKey>,
    pub their_public_keys: Vec<(PublicKey, VerificationInfo)>,
}

impl View for VisibleDatabaseContents {
    type V = VisibleView;

    open spec fn view(&self) -> VisibleView {
        VisibleView {
            my_public_keys: crate::message::key_views(self.my_public_keys@),
            their_public_keys: views_of(self.their_public_keys@),
        }
    }
}

/// The database contents: private keys and public keys, each under its public key.
pub struct DatabaseContents {
    private_keys: Vec<(PublicKey, PrivateKey)>,
    public_keys: Vec<(PublicKey, VerificationInfo)>,
}

impl View for DatabaseContents {
    type V = StoreView;

    closed spec fn view(&self) -> StoreView {
        StoreView { private_keys: views_of(self.private_keys@), public_keys: views_of(self.public_keys@) }
    }
}

/// Whether the contents are well formed: no key occurs twice in either part.
pub open spec fn store_wf(v: StoreView) -> bool {
    keys_unique(v.private_keys) && keys_unique(v.public_keys)
}

/// Whether no key occurs twice among the entries.
fn entries_unique<V: View>(s: &Vec<(PublicKey, V)>) -> (r: bool)
    ensures
        r == keys_unique(views_of(s@)),
{
    let ghost sv = views_of(s@);
    let mut i: usize = 0;
    while i < s.len()
        invariant
            i <= s@.len(),
            sv == views_of(s@),
            forall|a: int, b: int| 0 <= a < b < sv.len() && a < i ==> sv[a].0 != sv[b].0,
        decreases s@.len() - i,
    {
        let mut j: usize = i + 1;
        while j < s.len()
            invariant
                i < s@.len(),
                i + 1 <= j <= s@.len(),
                sv == views_of(s@),
                forall|a: int, b: int| 0 <= a < b < sv.len() && a < i ==> sv[a].0 != sv[b].0,
                forall|b: int| i < b < j ==> sv[i as int].0 != sv[b].0,
            decreases s@.len() - j,
        {
            assert(sv[i as int].0 == s@[i as int].0@ && sv[j as int].0 == s@[j as int].0@);
            if s[i].0.equals(&s[j].0) {
                return false;
            }
            j = j + 1;
        }
        i = i + 1;
    }
    true
}

impl DatabaseContents {
    /// Whether the contents are well formed: no key occurs twice in either part.
    pub fn is_wf(&self) -> (r: bool)
        ensures
            r == store_wf(self@),
    {
        entries_unique(&self.private_keys) && entries_unique(&self.public_keys)
    }

    /// Empty contents.
    pub fn new() -> (r: DatabaseContents)
        ensures
            r@ == empty_store(),
            store_wf(r@),
    {
        let r = DatabaseContents { private_keys: Vec::new(), public_keys: Vec::new() };
        assert(r@.private_keys =~= Seq::<(PublicKeyView, PrivateKeyView)>::empty());
        assert(r@.public_keys =~= Seq::<(PublicKeyView, Option<i64>)>::empty());
        r
    }

    /// Stores `key` under its public key, replacing any key stored there.
    pub fn insert_private_key(&mut self, key: PrivateKey)
        requires
            store_wf(old(self)@),
        ensures
            store_wf(final(self)@),
            final(self)@ == (StoreView {
                private_keys: upsert(old(self)@.private_keys, public_of(key@), key@),
                public_keys: old(self)@.public_keys,
            }),
    {
        proof {
            lemma_upsert_unique(self@.private_keys, public_of(key@), key@);
        }
        let pk = key.public();
        upsert_entry(&mut self.private_keys, pk, key);
    }

    /// Removes the private key stored under `public_key`, if any.
    pub fn delete_private_key(&mut self, public_key: &PublicKey)
        requires
            store_wf(old(self)@),
        ensures
            store_wf(final(self)@),
            final(self)@ == (StoreView {
                private_keys: remove_key(old(self)@.private_keys, public_key@),
                public_keys: old(self)@.public_keys,
            }),
    {
        proof {
            lemma_remove_unique(self@.private_keys, public_key@);
        }
        remove_entry(&mut self.private_keys, public_key);
    }

    /// The private key stored under `public_key`.
    pub fn private_key(&self, public_key: &PublicKey) -> (r: Option<PrivateKey>)
        ensures
            r.is_some() <==> lookup(self@.private_keys, public_key@).is_some(),
            r.is_some() ==> lookup(self@.private_keys, public_key@) == Some(r.unwrap()@),
    {
        match find_entry(&self.private_keys, public_key) {
            Some(i) => Some(self.private_keys[i].1.copy()),
            None => None,
        }
    }

    /// Sets the verification state of `public_key`, adding the key if it is not there.
    pub fn set_verification(&mut self, public_key: &PublicKey, info: VerificationInfo)
        requires
            store_wf(old(self)@),
        ensures
            store_wf(final(self)@),
            final(self)@ == (StoreView {
                private_keys: old(self)@.private_keys,
                public_keys: upsert(old(self)@.public_keys, public_key@, info@),
            }),
    {
        proof {
            lemma_upsert_unique(self@.public_keys, public_key@, info@);
        }
        upsert_entry(&mut self.public_keys, public_key.copy(), info);
    }

    /// Adds each of `public_keys` as unverified (a key already there becomes unverified).
    pub fn add_public_keys(&mut self, public_keys: &[PublicKey])
        requires
            store_wf(old(self)@),
        ensures
            store_wf(final(self)@),
            final(self)@ == (StoreView {
                private_keys: old(self)@.private_keys,
                public_keys: add_all(old(self)@.public_keys, crate::message::key_views(public_keys@)),
            }),
    {
        let ghost start = self@;
        let ghost ks = crate::message::key_views(public_keys@);
        let mut i: usize = 0;
        while i < public_keys.len()
            invariant
                i <= public_keys@.len(),
                ks == crate::message::key_views(public_keys@),
                self@.private_keys == start.private_keys,
                self@.public_keys == add_all(start.public_keys, ks.subrange(0, i as int)),
                store_wf(self@),
            decreases public_keys@.len() - i,
        {
            proof {
                let sub = ks.subrange(0, i + 1);
                assert(sub.drop_last() =~= ks.subrange(0, i as int));
                assert(sub.last() == public_keys@[i as int]@);
            }
            self.set_verification(&public_keys[i], VerificationInfo::unverified());
            i = i + 1;
        }
        assert(ks.subrange(0, public_keys@.len() as int) =~= ks);
    }

    /// Removes `public_key` and its verification state, if there.
    pub fn delete_public_key(&mut self, public_key: &PublicKey)
        requires
            store_wf(old(self)@),
        ensures
            store_wf(final(self)@),
            final(self)@ == (StoreView {
                private_keys: old(self)@.private_keys,
                public_keys: remove_key(old(self)@.public_keys, public_key@),
            }),
    {
        proof {
            lemma_remove_unique(self@.public_keys, public_key@);
        }
        remove_entry(&mut self.public_keys, public_key);
    }

    /// The part of the contents kept in memory.
    pub fn visible(&self) -> (r: VisibleDatabaseContents)
        ensures
            r@ == visible_of(self@),
    {
        let mut mine: Vec<PublicKey> = Vec::new();
        let mut i: usize = 0;
        while i < self.private_keys.len()
            invariant
                i <= self.private_keys@.len(),
                mine@.len() == i,
                forall|t: int| 0 <= t < i ==> (#[trigger] mine@[t])@ == self.private_keys@[t].0@,
            decreases self.private_keys@.len() - i,
        {
            mine.push(self.private_keys[i].0.copy());
            i = i + 1;
        }
        let mut theirs: Vec<(PublicKey, VerificationInfo)> = Vec::new();
        let mut j: usize = 0;
        while j < self.public_keys.len()
            invariant
                j <= self.public_keys@.len(),
                theirs@.len() == j,
                forall|t: int| 0 <= t < j ==> (#[trigger] theirs@[t]).0@ == self.public_keys@[t].0@ && theirs@[t].1 == self.public_keys@[t].1,
            decreases self.public_keys@.len() - j,
        {
            theirs.push((self.public_keys[j].0.copy(), self.public_keys[j].1));
            j = j + 1;
        }
        let r = VisibleDatabaseContents { my_public_keys: mine, their_public_keys: theirs };
        assert(r@.my_public_keys =~= visible_of(self@).my_public_keys);
        assert(r@.their_public_keys =~= visible_of(self@).their_public_keys);
        r
    }

    /// Makes a new private key for `name` and `email` and stores it.
    pub fn new_private_key(&mut self, name: &str, email: &str) -> (r: Result<(), DatabaseError>)
        requires
            store_wf(old(self)@),
        ensures
            store_wf(final(self)@),
            r.is_err() <==> !(crate::identity::has_no_control(name@) && crate::ascii::is_boring(email.spec_bytes())),
            r.is_err() ==> r == Err::<(), DatabaseError>(DatabaseError::InvalidInput) && final(self)@ == old(self)@,
            r.is_ok() ==> exists|k: PrivateKeyView|
                k.holder == (crate::identity::IdentityView { name: name@, email: email.spec_bytes() })
                && crate::keys::fresh_attestation(k)
                && #[trigger] upsert(old(self)@.private_keys, public_of(k), k) == final(self)@.private_keys
                && final(self)@.public_keys == old(self)@.public_keys,
    {
        match crate::identity::Identity::new(name, email) {
            Some(id) => {
                let key = PrivateKey::new(id);
                let ghost kv = key@;
                self.insert_private_key(key);
                Ok(())
            },
            None => Err(DatabaseError::InvalidInput),
        }
    }

    /// Signs `message` with the private key stored under `my_key`, in a ring with `others`;
    /// `UnknownKey` when no private key is stored there.
    pub fn sign(&self, message: &str, my_key: &PublicKey, others: &[PublicKey]) -> (r: Result<crate::message::SignedMessage, DatabaseError>)
        ensures
            r.is_err() <==> lookup(self@.private_keys, my_key@).is_none(),
            r.is_err() ==> r == Err::<crate::message::SignedMessage, DatabaseError>(DatabaseError::UnknownKey),
            r.is_ok() ==> crate::message::signed_by(r.unwrap()@, message@, lookup(self@.private_keys, my_key@).unwrap(), crate::message::key_views(others@)),
    {
        match self.private_key(my_key) {
            Some(k) => {
                let m = crate::message::SignedMessage::sign(message, &k, others);
                Ok(m)
            },
            None => Err(DatabaseError::UnknownKey),
        }
    }
}

/// A Unix time as an unsigned 64-bit number (two's complement).
pub open spec fn unsigned64(t: i64) -> nat {
    if t >= 0 {
        t as nat
    } else {
        (t + 18446744073709551616int) as nat
    }
}

/// The encoding of a verification state: 0 for none; 1 then the time as a little-endian
/// 64-bit number.
pub open spec fn ser_info(x: Option<i64>) -> Seq<u8> {
    match x {
        None => seq![0u8],
        Some(t) => seq![1u8] + u32_le(unsigned64(t) % 4294967296) + u32_le(unsigned64(t) / 4294967296),
    }
}

/// The private part in binary: each public key followed by its private key.
pub open spec fn private_bytes(s: Seq<(PublicKeyView, PrivateKeyView)>) -> Seq<u8>
    decreases s.len(),
{
    if s.len() == 0 {
        Seq::empty()
    } else {
        private_bytes(s.drop_last()) + (ser_public_key(s.last().0) + ser_private_key(s.last().1))
    }
}

/// The public part in binary: each public key followed by its verification state.
pub open spec fn public_bytes(s: Seq<(PublicKeyView, Option<i64>)>) -> Seq<u8>
    decreases s.len(),
{
    if s.len() == 0 {
        Seq::empty()
    } else {
        public_bytes(s.drop_last()) + (ser_public_key(s.last().0) + ser_info(s.last().1))
    }
}

/// The binary encoding of the contents: the format tag 0, then the private part and the
/// public part, each preceded by its number of entries.
pub open spec fn ser_store(v: StoreView) -> Seq<u8> {
    seq![0u8] + (u32_le(v.private_keys.len()) + private_bytes(v.private_keys)) + (u32_le(v.public_keys.len())
        + public_bytes(v.public_keys))
}

/// Whether contents can be written and read back.
pub open spec fn store_encodable(v: StoreView) -> bool {
    &&& store_wf(v)
    &&& v.private_keys.len() < pow256(4)
    &&& v.public_keys.len() < pow256(4)
    &&& forall|i: int| 0 <= i < v.private_keys.len() ==> public_key_encodable(#[trigger] v.private_keys[i].0) && private_key_encodable(v.private_keys[i].1)
    &&& forall|i: int| 0 <= i < v.public_keys.len() ==> public_key_encodable(#[trigger] v.public_keys[i].0)
}

/// Appends the encoding of a verification state.
fn write_info(out: &mut Vec<u8>, info: &VerificationInfo)
    ensures
        final(out)@ == old(out)@ + ser_info(info@),
{
    let ghost start = out@;
    match info.verified_date() {
        None => {
            out.push(0u8);
            assert(out@ =~= start + ser_info(info@));
        },
        Some(t) => {
            out.push(1u8);
            let u: u64 = if t >= 0 {
                t as u64
            } else {
                ((t + 9223372036854775807i64 + 1) as u64) + 9223372036854775808u64
            };
            assert(u as nat == unsigned64(t));
            write_u32(out, (u % 4294967296u64) as u32);
            write_u32(out, (u / 4294967296u64) as u32);
            assert(out@ =~= start + ser_info(info@));
        },
    }
}

/// Reads a verification state at `pos`.
fn read_info(b: &[u8], pos: usize) -> (r: Option<(VerificationInfo, usize)>)
    ensures
        r.is_some() ==> r.unwrap().1 == pos + ser_info(r.unwrap().0@).len() && at(b@, pos as int, ser_info(r.unwrap().0@)),
        forall|x: Option<i64>| #[trigger] at(b@, pos as int, ser_info(x)) ==> r.is_some() && r.unwrap().0@ == x,
{
    proof {
        assert(pow256(4) == 4294967296) by {
            reveal_with_fuel(pow256, 5);
        }
        assert forall|x: Option<i64>| #[trigger] at(b@, pos as int, ser_info(x)) implies pos < b@.len() && b@[pos as int] == (if x.is_some() { 1u8 } else { 0u8 }) by {
            assert(b@.subrange(pos as int, pos + ser_info(x).len())[0] == b@[pos as int]);
        }
    }
    if pos >= b.len() {
        return None;
    }
    let tag = b[pos];
    if tag == 0 {
        let r = VerificationInfo::unverified();
        proof {
            assert(b@.subrange(pos as int, pos + 1) =~= seq![0u8]);
        }
        return Some((r, pos + 1));
    }
    if tag != 1 {
        return None;
    }
    let (lo, p) = match read_u32(b, pos + 1) {
        Some(v) => v,
        None => {
            proof {
                assert forall|x: Option<i64>| #[trigger] at(b@, pos as int, ser_info(x)) implies false by {
                    let t = x.unwrap();
                    lemma_le_bytes_len(unsigned64(t) % 4294967296, 4);
                    lemma_le_bytes_len(unsigned64(t) / 4294967296, 4);
                    assert(ser_info(x).len() == 9);
                }
            }
            return None;
        },
    };
    let (hi, q) = match read_u32(b, p) {
        Some(v) => v,
        None => {
            proof {
                assert forall|x: Option<i64>| #[trigger] at(b@, pos as int, ser_info(x)) implies false by {
                    let t = x.unwrap();
                    lemma_le_bytes_len(unsigned64(t) % 4294967296, 4);
                    lemma_le_bytes_len(unsigned64(t) / 4294967296, 4);
                    assert(ser_info(x).len() == 9);
                }
            }
            return None;
        },
    };
    let u: u64 = lo as u64 + (hi as u64) * 4294967296u64;
    let t: i64 = if u <= 9223372036854775807u64 {
        u as i64
    } else {
        -((18446744073709551615u64 - u) as i64) - 1
    };
    let r = VerificationInfo::verified_at(t);
    proof {
        assert(unsigned64(t) == u as nat);
        assert(u as nat % 4294967296 == lo as nat && u as nat / 4294967296 == hi as nat) by {
            vstd::arithmetic::div_mod::lemma_fundamental_div_mod_converse(u as int, 4294967296, hi as int, lo as int);
        }
        lemma_le_bytes_len(lo as nat, 4);
        lemma_le_bytes_len(hi as nat, 4);
        lemma_at_concat(b@, pos as int, seq![1u8], u32_le(lo as nat));
        assert(b@.subrange(pos as int, pos + 1) =~= seq![1u8]);
        lemma_at_concat(b@, pos as int, seq![1u8] + u32_le(lo as nat), u32_le(hi as nat));
        assert forall|x: Option<i64>| #[trigger] at(b@, pos as int, ser_info(x)) implies r@ == x by {
            let t2 = x.unwrap();
            let u2 = unsigned64(t2);
            lemma_at_concat(b@, pos as int, seq![1u8] + u32_le(u2 % 4294967296), u32_le(u2 / 4294967296));
            lemma_at_concat(b@, pos as int, seq![1u8], u32_le(u2 % 4294967296));
            lemma_le_bytes_len(u2 % 4294967296, 4);
            assert(u2 / 4294967296 < 4294967296);
            assert(u2 == (u2 / 4294967296) * 4294967296 + u2 % 4294967296) by {
                vstd::arithmetic::div_mod::lemma_fundamental_div_mod(u2 as int, 4294967296);
            }
            assert(u2 == u as nat);
        }
    }
    Some((r, q))
}

/// Where a list of entries occurs, so does each of its prefixes.
pub proof fn lemma_private_bytes_prefix(b: Seq<u8>, q: int, r: Seq<(PublicKeyView, PrivateKeyView)>, i: int)
    requires
        0 <= i <= r.len(),
        at(b, q, private_bytes(r)),
    ensures
        at(b, q, private_bytes(r.subrange(0, i))),
    decreases r.len(),
{
    if i == r.len() {
        assert(r.subrange(0, i) =~= r);
    } else {
        lemma_at_concat(b, q, private_bytes(r.drop_last()), ser_public_key(r.last().0) + ser_private_key(r.last().1));
        lemma_private_bytes_prefix(b, q, r.drop_last(), i);
        assert(r.drop_last().subrange(0, i) =~= r.subrange(0, i));
    }
}

/// Whether each entry can be written and read back.
pub open spec fn private_bytes_encodable(x: Seq<(PublicKeyView, PrivateKeyView)>) -> bool {
    &&& x.len() < pow256(4)
    &&& forall|i: int| 0 <= i < x.len() ==> public_key_encodable(#[trigger] x[i].0) && private_key_encodable(x[i].1)
}

/// Appends the number of entries and the entries.
fn write_private_bytes(out: &mut Vec<u8>, s: &Vec<(PublicKey, PrivateKey)>)
    ensures
        final(out)@ == old(out)@ + (u32_le(s@.len()) + private_bytes(views_of(s@))),
{
    let ghost start = out@;
    let n = s.len();
    write_u32(out, ((n as u64) % 4294967296u64) as u32);
    proof {
        lemma_le_bytes_mod(n as nat, 4);
        assert(pow256(4) == 4294967296) by {
            reveal_with_fuel(pow256, 5);
        }
    }
    let ghost mid = out@;
    let ghost ring = views_of(s@);
    let mut i: usize = 0;
    assert(ring.subrange(0, 0) =~= Seq::<(PublicKeyView, PrivateKeyView)>::empty());
    assert(out@ =~= mid + private_bytes(ring.subrange(0, 0)));
    while i < n
        invariant
            i <= n,
            n == s@.len(),
            ring == views_of(s@),
            out@ == mid + private_bytes(ring.subrange(0, i as int)),
        decreases n - i,
    {
        s[i].0.write_to(out);
        s[i].1.write_to(out);
        proof {
            let sub = ring.subrange(0, i + 1);
            assert(sub.drop_last() =~= ring.subrange(0, i as int));
            assert(sub.last() == (s@[i as int].0@, s@[i as int].1@));
        }
        i = i + 1;
        assert(out@ =~= mid + private_bytes(ring.subrange(0, i as int)));
    }
    assert(ring.subrange(0, n as int) =~= ring);
    assert(out@ =~= start + (u32_le(s@.len()) + private_bytes(views_of(s@))));
}

/// Reads a number of entries and the entries at `pos`.
fn read_private_bytes(b: &[u8], pos: usize) -> (r: Option<(Vec<(PublicKey, PrivateKey)>, usize)>)
    ensures
        r.is_some() ==> ({
            let (ring, end) = r.unwrap();
            end == pos + (u32_le(ring@.len()) + private_bytes(views_of(ring@))).len() && at(b@, pos as int, u32_le(ring@.len()) + private_bytes(views_of(ring@)))
        }),
        forall|x: Seq<(PublicKeyView, PrivateKeyView)>| private_bytes_encodable(x) && #[trigger] at(b@, pos as int, u32_le(x.len()) + private_bytes(x)) ==> r.is_some() && views_of(r.unwrap().0@) == x,
{
    proof {
        assert forall|x: Seq<(PublicKeyView, PrivateKeyView)>| private_bytes_encodable(x) && #[trigger] at(b@, pos as int, u32_le(x.len()) + private_bytes(x)) implies at(
            b@,
            pos as int,
            u32_le(x.len()),
        ) && at(b@, pos + 4, private_bytes(x)) by {
            lemma_le_bytes_len(x.len(), 4);
            lemma_at_concat(b@, pos as int, u32_le(x.len()), private_bytes(x));
        }
    }
    let (n, q) = match read_u32(b, pos) {
        Some(v) => v,
        None => return None,
    };
    proof {
        lemma_le_bytes_len(n as nat, 4);
    }
    let ghost head = u32_le(n as nat);
    let mut ring: Vec<(PublicKey, PrivateKey)> = Vec::new();
    let mut cur: usize = q;
    let mut i: u32 = 0;
    assert(views_of(ring@) =~= Seq::<(PublicKeyView, PrivateKeyView)>::empty());
    assert(head + private_bytes(views_of(ring@)) =~= head);
    while i < n
        invariant
            i <= n,
            q == pos + 4,
            head == u32_le(n as nat),
            head.len() == 4,
            ring@.len() == i,
            at(b@, pos as int, head + private_bytes(views_of(ring@))),
            cur == pos + 4 + private_bytes(views_of(ring@)).len(),
            forall|x: Seq<(PublicKeyView, PrivateKeyView)>| private_bytes_encodable(x) && #[trigger] at(b@, pos as int, u32_le(x.len()) + private_bytes(x)) ==> {
                &&& x.len() == n
                &&& views_of(ring@) == x.subrange(0, i as int)
                &&& at(b@, pos + 4, private_bytes(x))
            },
        decreases n - i,
    {
        let ghost before = views_of(ring@);
        proof {
            assert forall|x: Seq<(PublicKeyView, PrivateKeyView)>| private_bytes_encodable(x) && #[trigger] at(b@, pos as int, u32_le(x.len()) + private_bytes(x)) implies at(
                b@,
                cur as int,
                ser_public_key(x[i as int].0),
            ) && at(b@, cur + ser_public_key(x[i as int].0).len(), ser_private_key(x[i as int].1)) by {
                lemma_private_bytes_prefix(b@, pos + 4, x, i + 1);
                let sub = x.subrange(0, i + 1);
                assert(sub.drop_last() =~= x.subrange(0, i as int));
                lemma_at_concat(b@, pos + 4, private_bytes(sub.drop_last()), ser_public_key(sub.last().0) + ser_private_key(sub.last().1));
                lemma_at_concat(b@, cur as int, ser_public_key(x[i as int].0), ser_private_key(x[i as int].1));
            }
        }
        let (k, c1) = match PublicKey::read_from(b, cur) {
            Some(v) => v,
            None => return None,
        };
        let (v, c2) = match PrivateKey::read_from(b, c1) {
            Some(v) => v,
            None => return None,
        };
        let ghost kv = k@;
        let ghost vv = v@;
        ring.push((k, v));
        proof {
            let after = views_of(ring@);
            assert(after.drop_last() =~= before);
            assert(after.last() == (kv, vv));
            lemma_at_concat(b@, cur as int, ser_public_key(kv), ser_private_key(vv));
            lemma_at_concat(b@, pos as int, head + private_bytes(before), ser_public_key(kv) + ser_private_key(vv));
            assert(head + private_bytes(after) =~= head + private_bytes(before) + (ser_public_key(kv) + ser_private_key(vv)));
            assert forall|x: Seq<(PublicKeyView, PrivateKeyView)>| private_bytes_encodable(x) && #[trigger] at(b@, pos as int, u32_le(x.len()) + private_bytes(x)) implies views_of(ring@)
                == x.subrange(0, i + 1) by {
                assert(x.subrange(0, i + 1) =~= x.subrange(0, i as int).push(x[i as int]));
            }
        }
        cur = c2;
        i = i + 1;
    }
    proof {
        assert forall|x: Seq<(PublicKeyView, PrivateKeyView)>| private_bytes_encodable(x) && #[trigger] at(b@, pos as int, u32_le(x.len()) + private_bytes(x)) implies views_of(ring@) == x by {
            assert(x.subrange(0, n as int) =~= x);
        }
    }
    Some((ring, cur))
}

/// Where a list of entries occurs, so does each of its prefixes.
pub proof fn lemma_public_bytes_prefix(b: Seq<u8>, q: int, r: Seq<(PublicKeyView, Option<i64>)>, i: int)
    requires
        0 <= i <= r.len(),
        at(b, q, public_bytes(r)),
    ensures
        at(b, q, public_bytes(r.subrange(0, i))),
    decreases r.len(),
{
    if i == r.len() {
        assert(r.subrange(0, i) =~= r);
    } else {
        lemma_at_concat(b, q, public_bytes(r.drop_last()), ser_public_key(r.last().0) + ser_info(r.last().1));
        lemma_public_bytes_prefix(b, q, r.drop_last(), i);
        assert(r.drop_last().subrange(0, i) =~= r.subrange(0, i));
    }
}

/// Whether each entry can be written and read back.
pub open spec fn public_bytes_encodable(x: Seq<(PublicKeyView, Option<i64>)>) -> bool {
    &&& x.len() < pow256(4)
    &&& forall|i: int| 0 <= i < x.len() ==> public_key_encodable(#[trigger] x[i].0) && true
}

/// Appends the number of entries and the entries.
fn write_public_bytes(out: &mut Vec<u8>, s: &Vec<(PublicKey, VerificationInfo)>)
    ensures
        final(out)@ == old(out)@ + (u32_le(s@.len()) + public_bytes(views_of(s@))),
{
    let ghost start = out@;
    let n = s.len();
    write_u32(out, ((n as u64) % 4294967296u64) as u32);
    proof {
        lemma_le_bytes_mod(n as nat, 4);
        assert(pow256(4) == 4294967296) by {
            reveal_with_fuel(pow256, 5);
        }
    }
    let ghost mid = out@;
    let ghost ring = views_of(s@);
    let mut i: usize = 0;
    assert(ring.subrange(0, 0) =~= Seq::<(PublicKeyView, Option<i64>)>::empty());
    assert(out@ =~= mid + public_bytes(ring.subrange(0, 0)));
    while i < n
        invariant
            i <= n,
            n == s@.len(),
            ring == views_of(s@),
            out@ == mid + public_bytes(ring.subrange(0, i as int)),
        decreases n - i,
    {
        s[i].0.write_to(out);
        write_info(out, &s[i].1);
        proof {
            let sub = ring.subrange(0, i + 1);
            assert(sub.drop_last() =~= ring.subrange(0, i as int));
            assert(sub.last() == (s@[i as int].0@, s@[i as int].1@));
        }
        i = i + 1;
        assert(out@ =~= mid + public_bytes(ring.subrange(0, i as int)));
    }
    assert(ring.subrange(0, n as int) =~= ring);
    assert(out@ =~= start + (u32_le(s@.len()) + public_bytes(views_of(s@))));
}

/// Reads a number of entries and the entries at `pos`.
fn read_public_bytes(b: &[u8], pos: usize) -> (r: Option<(Vec<(PublicKey, VerificationInfo)>, usize)>)
    ensures
        r.is_some() ==> ({
            let (ring, end) = r.unwrap();
            end == pos + (u32_le(ring@.len()) + public_bytes(views_of(ring@))).len() && at(b@, pos as int, u32_le(ring@.len()) + public_bytes(views_of(ring@)))
        }),
        forall|x: Seq<(PublicKeyView, Option<i64>)>| public_bytes_encodable(x) && #[trigger] at(b@, pos as int, u32_le(x.len()) + public_bytes(x)) ==> r.is_some() && views_of(r.unwrap().0@) == x,
{
    proof {
        assert forall|x: Seq<(PublicKeyView, Option<i64>)>| public_bytes_encodable(x) && #[trigger] at(b@, pos as int, u32_le(x.len()) + public_bytes(x)) implies at(
            b@,
            pos as int,
            u32_le(x.len()),
        ) && at(b@, pos + 4, public_bytes(x)) by {
            lemma_le_bytes_len(x.len(), 4);
            lemma_at_concat(b@, pos as int, u32_le(x.len()), public_bytes(x));
        }
    }
    let (n, q) = match read_u32(b, pos) {
        Some(v) => v,
        None => return None,
    };
    proof {
        lemma_le_bytes_len(n as nat, 4);
    }
    let ghost head = u32_le(n as nat);
    let mut ring: Vec<(PublicKey, VerificationInfo)> = Vec::new();
    let mut cur: usize = q;
    let mut i: u32 = 0;
    assert(views_of(ring@) =~= Seq::<(PublicKeyView, Option<i64>)>::empty());
    assert(head + public_bytes(views_of(ring@)) =~= head);
    while i < n
        invariant
            i <= n,
            q == pos + 4,
            head == u32_le(n as nat),
            head.len() == 4,
            ring@.len() == i,
            at(b@, pos as int, head + public_bytes(views_of(ring@))),
            cur == pos + 4 + public_bytes(views_of(ring@)).len(),
            forall|x: Seq<(PublicKeyView, Option<i64>)>| public_bytes_encodable(x) && #[trigger] at(b@, pos as int, u32_le(x.len()) + public_bytes(x)) ==> {
                &&& x.len() == n
                &&& views_of(ring@) == x.subrange(0, i as int)
                &&& at(b@, pos + 4, public_bytes(x))
            },
        decreases n - i,
    {
        let ghost before = views_of(ring@);
        proof {
            assert forall|x: Seq<(PublicKeyView, Option<i64>)>| public_bytes_encodable(x) && #[trigger] at(b@, pos as int, u32_le(x.len()) + public_bytes(x)) implies at(
                b@,
                cur as int,
                ser_public_key(x[i as int].0),
            ) && at(b@, cur + ser_public_key(x[i as int].0).len(), ser_info(x[i as int].1)) by {
                lemma_public_bytes_prefix(b@, pos + 4, x, i + 1);
                let sub = x.subrange(0, i + 1);
                assert(sub.drop_last() =~= x.subrange(0, i as int));
                lemma_at_concat(b@, pos + 4, public_bytes(sub.drop_last()), ser_public_key(sub.last().0) + ser_info(sub.last().1));
                lemma_at_concat(b@, cur as int, ser_public_key(x[i as int].0), ser_info(x[i as int].1));
            }
        }
        let (k, c1) = match PublicKey::read_from(b, cur) {
            Some(v) => v,
            None => return None,
        };
        let (v, c2) = match read_info(b, c1) {
            Some(v) => v,
            None => return None,
        };
        let ghost kv = k@;
        let ghost vv = v@;
        ring.push((k, v));
        proof {
            let after = views_of(ring@);
            assert(after.drop_last() =~= before);
            assert(after.last() == (kv, vv));
            lemma_at_concat(b@, cur as int, ser_public_key(kv), ser_info(vv));
            lemma_at_concat(b@, pos as int, head + public_bytes(before), ser_public_key(kv) + ser_info(vv));
            assert(head + public_bytes(after) =~= head + public_bytes(before) + (ser_public_key(kv) + ser_info(vv)));
            assert forall|x: Seq<(PublicKeyView, Option<i64>)>| public_bytes_encodable(x) && #[trigger] at(b@, pos as int, u32_le(x.len()) + public_bytes(x)) implies views_of(ring@)
                == x.subrange(0, i + 1) by {
                assert(x.subrange(0, i + 1) =~= x.subrange(0, i as int).push(x[i as int]));
            }
        }
        cur = c2;
        i = i + 1;
    }
    proof {
        assert forall|x: Seq<(PublicKeyView, Option<i64>)>| public_bytes_encodable(x) && #[trigger] at(b@, pos as int, u32_le(x.len()) + public_bytes(x)) implies views_of(ring@) == x by {
            assert(x.subrange(0, n as int) =~= x);
        }
    }
    Some((ring, cur))
}

impl DatabaseContents {
    /// The binary encoding of the contents.
    pub fn to_bytes(&self) -> (r: Vec<u8>)
        ensures
            r@ == ser_store(self@),
    {
        let mut out: Vec<u8> = vec![0u8];
        write_private_bytes(&mut out, &self.private_keys);
        write_public_bytes(&mut out, &self.public_keys);
        assert(out@ =~= ser_store(self@));
        out
    }

    /// Reads contents from their binary encoding; no bytes at all stand for empty contents.
    /// `Corrupted` when the bytes are not the encoding of well-formed contents.
    pub fn from_bytes(b: &[u8]) -> (r: Result<DatabaseContents, DatabaseError>)
        ensures
            r.is_ok() ==> store_wf(r.unwrap()@),
            r.is_ok() ==> (b@.len() == 0 && r.unwrap()@ == empty_store()) || ser_store(r.unwrap()@) == b@,
            r.is_err() ==> r == Err::<DatabaseContents, DatabaseError>(DatabaseError::Corrupted),
            b@.len() == 0 ==> r.is_ok(),
            forall|v: StoreView| store_encodable(v) && #[trigger] ser_store(v) == b@ ==> r.is_ok() && r.unwrap()@ == v,
    {
        if b.len() == 0 {
            let r = DatabaseContents::new();
            proof {
                assert forall|v: StoreView| store_encodable(v) && #[trigger] ser_store(v) == b@ implies false by {
                    assert(ser_store(v).len() > 0);
                }
            }
            return Ok(r);
        }
        proof {
            assert forall|v: StoreView| store_encodable(v) && #[trigger] ser_store(v) == b@ implies {
                let a = u32_le(v.private_keys.len()) + private_bytes(v.private_keys);
                &&& b@[0] == 0u8
                &&& at(b@, 1, a)
                &&& private_bytes_encodable(v.private_keys)
                &&& public_bytes_encodable(v.public_keys)
                &&& at(b@, 1 + a.len() as int, u32_le(v.public_keys.len()) + public_bytes(v.public_keys))
            } by {
                let a = u32_le(v.private_keys.len()) + private_bytes(v.private_keys);
                let c = u32_le(v.public_keys.len()) + public_bytes(v.public_keys);
                assert(b@.subrange(0, b@.len() as int) =~= b@);
                lemma_at_concat(b@, 0, seq![0u8] + a, c);
                lemma_at_concat(b@, 0, seq![0u8], a);
                assert(b@.subrange(0, 1)[0] == b@[0]);
            }
        }
        if b[0] != 0u8 {
            return Err(DatabaseError::Corrupted);
        }
        let (private_keys, p) = match read_private_bytes(b, 1) {
            Some(v) => v,
            None => return Err(DatabaseError::Corrupted),
        };
        let (public_keys, q) = match read_public_bytes(b, p) {
            Some(v) => v,
            None => return Err(DatabaseError::Corrupted),
        };
        let c = DatabaseContents { private_keys, public_keys };
        proof {
            let a = u32_le(c@.private_keys.len()) + private_bytes(c@.private_keys);
            let d = u32_le(c@.public_keys.len()) + public_bytes(c@.public_keys);
            assert(b@.subrange(0, 1) =~= seq![0u8]);
            lemma_at_concat(b@, 0, seq![0u8], a);
            lemma_at_concat(b@, 0, seq![0u8] + a, d);
            assert(c@.private_keys.len() == c.private_keys@.len());
            assert(c@.public_keys.len() == c.public_keys@.len());
        }
        if q != b.len() {
            proof {
                assert forall|v: StoreView| store_encodable(v) && #[trigger] ser_store(v) == b@ implies false by {
                    assert(c@.private_keys == v.private_keys);
                    assert(c@.public_keys == v.public_keys);
                }
            }
            return Err(DatabaseError::Corrupted);
        }
        proof {
            assert(b@.subrange(0, q as int) =~= b@);
            assert(ser_store(c@) =~= seq![0u8] + (u32_le(c@.private_keys.len()) + private_bytes(c@.private_keys)) + (u32_le(c@.public_keys.len()) + public_bytes(c@.public_keys)));
        }
        if !c.is_wf() {
            return Err(DatabaseError::Corrupted);
        }
        proof {
            assert forall|v: StoreView| store_encodable(v) && #[trigger] ser_store(v) == b@ implies c@ == v by {
                assert(c@.private_keys == v.private_keys);
                assert(c@.public_keys == v.public_keys);
            }
        }
        Ok(c)
    }
}

} // verus!

verus! {

/// The name under which the database passphrase is kept in the credential store.
pub const SERVICE_NAME: &'static str = "ZebraSign";

/// The user name used in the credential store when the system's is blank.
pub const DEFAULT_USER: &'static str = "zebra_user";

/// The user under which the database passphrase is kept: the system's user name, or
/// `zebra_user` when that is blank.
pub fn keychain_user(os_user: &str) -> (r: String)
    ensures
        os_user@.len() > 0 ==> r@ == os_user@,
        os_user@.len() == 0 ==> r@ == DEFAULT_USER@,
{
    if os_user.is_empty() {
        DEFAULT_USER.to_string()
    } else {
        os_user.to_string()
    }
}

} // verus!

verus! {

/// What the credential store answered when asked for the database passphrase.
pub enum KeychainLookup {
    /// The stored passphrase.
    Found(String),
    /// Nothing is stored for this service and user.
    Missing,
    /// The store refused access.
    Denied,
    /// The store could not be reached.
    Unavailable,
}

/// What to do with the credential store's answer.
pub enum KeychainAction {
    /// Use this passphrase.
    Use(String),
    /// Draw a new random passphrase, store it, and use it.
    CreateAndStore,
    /// Give up with this error.
    Fail(DatabaseError),
}

/// Decides what to do with the credential store's answer: use a stored passphrase, make one
/// when there is none, and fail when the store refuses or cannot be reached.
pub fn keychain_decision(lookup: KeychainLookup) -> (r: KeychainAction)
    ensures
        lookup is Found ==> r is Use && r->Use_0@ == lookup->Found_0@,
        lookup is Missing ==> r is CreateAndStore,
        lookup is Denied ==> r == KeychainAction::Fail(DatabaseError::KeychainDenied),
        lookup is Unavailable ==> r == KeychainAction::Fail(DatabaseError::KeychainUnavailable),
{
    match lookup {
        KeychainLookup::Found(pw) => KeychainAction::Use(pw),
        KeychainLookup::Missing => KeychainAction::CreateAndStore,
        KeychainLookup::Denied => KeychainAction::Fail(DatabaseError::KeychainDenied),
        KeychainLookup::Unavailable => KeychainAction::Fail(DatabaseError::KeychainUnavailable),
    }
}

} // verus!
