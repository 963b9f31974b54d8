use zebrasign::store::{keychain_decision, KeychainAction, KeychainLookup};
use zebrasign::{
    keychain_user, DatabaseContents, DatabaseError, Identity, PrivateKey, VerificationInfo,
};

fn fresh_public(name: &str, email: &str) -> zebrasign::PublicKey {
    PrivateKey::new(Identity::new(name, email).unwrap()).public()
}

#[test]
fn database_crud_and_round_trip() {
    let mut db = DatabaseContents::new();
    db.new_private_key("A", "a@a").unwrap();
    let pk_b = fresh_public("B", "b@b");
    db.add_public_keys(&[pk_b.clone()]);
    db.set_verification(&pk_b, VerificationInfo::verified_at(1_700_000_000));

    let bytes = db.to_bytes();
    assert_eq!(bytes[0], 0);
    let back = DatabaseContents::from_bytes(&bytes).unwrap();
    let view = back.visible();
    assert_eq!(view.my_public_keys.len(), 1);
    assert_eq!(view.my_public_keys[0].holder().name(), "A");
    assert_eq!(view.their_public_keys.len(), 1);
    assert!(view.their_public_keys[0].0 == pk_b);
    assert!(view.their_public_keys[0].1.is_verified());
    assert_eq!(view.their_public_keys[0].1.verified_date(), Some(1_700_000_000));
    assert_eq!(back.to_bytes(), bytes);
}

#[test]
fn negative_times_round_trip() {
    let mut db = DatabaseContents::new();
    let pk = fresh_public("B", "b@b");
    db.set_verification(&pk, VerificationInfo::verified_at(-5));
    let back = DatabaseContents::from_bytes(&db.to_bytes()).unwrap();
    assert_eq!(back.visible().their_public_keys[0].1.verified_date(), Some(-5));
}

#[test]
fn database_rejects_bad_input() {
    let mut db = DatabaseContents::new();
    assert_eq!(db.new_private_key("A\n", "a@a"), Err(DatabaseError::InvalidInput));
    assert_eq!(db.new_private_key("A", "a a"), Err(DatabaseError::InvalidInput));
    assert_eq!(db.visible().my_public_keys.len(), 0);
    assert_eq!(DatabaseContents::from_bytes(&[1]).err(), Some(DatabaseError::Corrupted));
    assert_eq!(DatabaseContents::from_bytes(&[0, 0, 0]).err(), Some(DatabaseError::Corrupted));
    assert!(DatabaseContents::from_bytes(&[]).unwrap().visible().my_public_keys.is_empty());
}

#[test]
fn database_sign_needs_a_stored_key() {
    let mut db = DatabaseContents::new();
    db.new_private_key("A", "a@a").unwrap();
    let mine = db.visible().my_public_keys[0].clone();
    let stranger = fresh_public("S", "s@s");
    assert_eq!(db.sign("m", &stranger, &[]).err(), Some(DatabaseError::UnknownKey));
    let signed = db.sign("m", &mine, &[stranger]).unwrap();
    assert!(signed.verify());
}

#[test]
fn database_deletes_and_updates() {
    let mut db = DatabaseContents::new();
    let pk = fresh_public("B", "b@b");
    db.add_public_keys(&[pk.clone(), pk.clone()]);
    assert_eq!(db.visible().their_public_keys.len(), 1);
    db.set_verification(&pk, VerificationInfo::verified_at(7));
    db.add_public_keys(&[pk.clone()]);
    assert!(!db.visible().their_public_keys[0].1.is_verified());
    db.delete_public_key(&pk);
    assert!(db.visible().their_public_keys.is_empty());

    let key = PrivateKey::new(Identity::new("A", "a@a").unwrap());
    db.insert_private_key(key.clone());
    assert!(db.private_key(&key.public()).is_some());
    db.delete_private_key(&key.public());
    assert!(db.private_key(&key.public()).is_none());
}

#[test]
fn keychain_user_defaults_when_blank() {
    assert_eq!(keychain_user(""), "zebra_user");
    assert_eq!(keychain_user("alice"), "alice");
}

#[test]
fn verification_info_states() {
    assert!(!VerificationInfo::unverified().is_verified());
    assert_eq!(VerificationInfo::unverified().verified_date(), None);
    assert!(VerificationInfo::now().is_verified());
}

#[test]
fn verified_time_reads_the_timestamp() {
    let t = VerificationInfo::verified_at(86_400).verified_time().unwrap();
    assert_eq!(t.unix_timestamp(), 86_400);
    assert!(VerificationInfo::unverified().verified_time().is_none());
}

#[test]
fn empty_database_encoding_is_exact() {
    let db = DatabaseContents::new();
    assert_eq!(db.to_bytes(), vec![0u8, 0, 0, 0, 0, 0, 0, 0, 0]);
}

#[test]
fn verification_time_encoding_is_little_endian() {
    let mut db = DatabaseContents::new();
    let pk = fresh_public("B", "b@b");
    db.set_verification(&pk, VerificationInfo::verified_at(0x0102030405060708));
    let bytes = db.to_bytes();
    let tail = &bytes[bytes.len() - 9..];
    assert_eq!(tail, &[1u8, 8, 7, 6, 5, 4, 3, 2, 1]);
    let mut db2 = DatabaseContents::new();
    db2.set_verification(&pk, VerificationInfo::unverified());
    assert_eq!(*db2.to_bytes().last().unwrap(), 0u8);
}

#[test]
fn keychain_answers_are_decided() {
    assert!(matches!(
        keychain_decision(KeychainLookup::Found("pw".to_string())),
        KeychainAction::Use(p) if p == "pw"
    ));
    assert!(matches!(keychain_decision(KeychainLookup::Missing), KeychainAction::CreateAndStore));
    assert!(matches!(
        keychain_decision(KeychainLookup::Denied),
        KeychainAction::Fail(DatabaseError::KeychainDenied)
    ));
    assert!(matches!(
        keychain_decision(KeychainLookup::Unavailable),
        KeychainAction::Fail(DatabaseError::KeychainUnavailable)
    ));
}
