use zebrasign::{
    BoringAscii, Identity, KeyParseError, PrintableAsciiString, PrivateKey, PublicKey,
    RistrettoPoint, Scalar, Signature, SignatureParseError, SignedMessage,
};

#[test]
fn basic_signatures_work() {
    let message = b"Message";
    let my_key = Scalar::random();
    let signature = Signature::sign(message, &my_key, &[]);
    assert!(
        signature.verify(message),
        "Failed to verify one-key signature"
    );

    let message_a = b"Message A";
    let otherkey_a = RistrettoPoint::random();
    let signature_a = Signature::sign(message_a, &my_key, &[otherkey_a.clone()]);
    assert!(
        signature_a.verify(message_a),
        "Failed to verify two-key signature"
    );

    let message_b = b"Message B";
    let otherkey_b = RistrettoPoint::random();
    let signature_b = Signature::sign(message_b, &my_key, &[otherkey_a.clone(), otherkey_b]);
    assert!(
        signature_b.verify(message_b),
        "Failed to verify three-key signature"
    );

    assert!(!Signature {
        ring_responses: signature_a.ring_responses.clone(),
        challenge: signature_b.challenge.clone(),
    }
    .verify(message_b));
    assert!(!signature_b.verify(message_a));
    assert!(!Signature {
        challenge: signature_a.challenge.clone(),
        ring_responses: signature_b.ring_responses.clone(),
    }
    .verify(message_b));
}

#[test]
fn lib_basic_signatures_work() {
    let message = b"Message";
    let my_key = Scalar::random();
    let signature = Signature::sign(message, &my_key, &[]);
    assert!(
        signature.verify(message),
        "Failed to verify one-key signature"
    );
    assert!(!signature.verify(b"Other"));

    let message_a = b"Message A";
    let otherkey_a = RistrettoPoint::random();
    let signature_a = Signature::sign(message_a, &my_key, &[otherkey_a.clone()]);
    assert!(
        signature_a.verify(message_a),
        "Failed to verify two-key signature"
    );

    let message_b = b"Message B";
    let otherkey_b = RistrettoPoint::random();
    let signature_b = Signature::sign(message_b, &my_key, &[otherkey_a.clone(), otherkey_b]);
    assert!(
        signature_b.verify(message_b),
        "Failed to verify three-key signature"
    );

    assert!(!Signature {
        ring_responses: signature_a.ring_responses.clone(),
        challenge: signature_b.challenge.clone(),
    }
    .verify(message_b));
    assert!(!signature_b.verify(message_a));
    assert!(!Signature {
        challenge: signature_a.challenge.clone(),
        ring_responses: signature_b.ring_responses.clone(),
    }
    .verify(message_b));
}

#[test]
fn full_signatures_work() {
    let message = "SPARTACVSSVM";
    let my_email = BoringAscii::from_bytes(b"zebra@example.com").unwrap();
    let my_name = "ZebraSign";
    let my_id = Identity::new(my_name, my_email.as_str()).unwrap();
    let my_key = PrivateKey::new(my_id.clone());

    let other_email = BoringAscii::from_bytes(b"notzebra@example.com").unwrap();
    let other_name = "Gaius";
    let other_id = Identity::new(other_name, other_email.as_str()).unwrap();
    let other_key = PrivateKey::new(other_id.clone());
    let other_public = other_key.public();

    let mut signed = SignedMessage::sign(message, &my_key, &[other_public]);
    assert!(signed.verify());

    signed.set_message("SPARTACVSEST");
    assert!(!signed.verify());
}

#[test]
fn lib_full_signatures_work() {
    let message = "SPARTACVSSVM";
    let my_email = PrintableAsciiString::from_bytes(b"spartacus@example.com").unwrap();
    let my_name = "Spartacus";
    let my_id = Identity::new(my_name, my_email.as_str()).unwrap();
    let my_key = PrivateKey::new(my_id.clone());

    let other_email = PrintableAsciiString::from_bytes(b"notspartacus@example.com").unwrap();
    let other_name = "Gaius";
    let other_id = Identity::new(other_name, other_email.as_str()).unwrap();
    let other_key = PrivateKey::new(other_id.clone());
    let other_public = other_key.public();

    let mut signed = SignedMessage::sign(message, &my_key, &[other_public]);
    assert!(signed.verify());

    signed.set_message("SPARTACVSEST");
    assert!(!signed.verify());
}

#[test]
fn export_and_import_work() {
    let my_email = BoringAscii::from_bytes(b"zebra@example.com").unwrap();
    let my_name = "ZebraSign";
    let my_id = Identity::new(my_name, my_email.as_str()).unwrap();
    let my_key = PrivateKey::new(my_id.clone());
    let export = my_key.public().format();
    let import = PublicKey::parse(&export).unwrap();

    assert!(import.holder() == my_key.holder());
    assert!(import.version() == my_key.public().version());
    assert!(import.keypoint() == my_key.public().keypoint());
    assert!(import.holder_attestation() == my_key.public().holder_attestation());
    assert!(import.validate_attestation());
}

#[test]
fn lib_export_and_import_work() {
    let my_email = PrintableAsciiString::from_bytes(b"spartacus@example.com").unwrap();
    let my_name = "Spartacus";
    let my_id = Identity::new(my_name, my_email.as_str()).unwrap();
    let my_key = PrivateKey::new(my_id.clone());
    let export = my_key.public().format();
    let import = PublicKey::parse(&export).unwrap();

    assert!(import.holder() == my_key.holder());
    assert!(import.keypoint() == my_key.public().keypoint());
    assert!(import == my_key.public());
}

#[test]
fn serialization_of_signed_message() {
    let message = "SPARTACVSSVM";
    let my_email = BoringAscii::from_bytes(b"zebra@example.com").unwrap();
    let my_name = "ZebraSign";
    let my_id = Identity::new(my_name, my_email.as_str()).unwrap();
    let my_key = PrivateKey::new(my_id.clone());

    let other_email = BoringAscii::from_bytes(b"notzebra@example.com").unwrap();
    let other_name = "Gaius";
    let other_id = Identity::new(other_name, other_email.as_str()).unwrap();
    let other_key = PrivateKey::new(other_id.clone());
    let other_public = other_key.public();

    let signed = SignedMessage::sign(message, &my_key, &[other_public]);
    let signed_text = signed.format();
    assert!(SignedMessage::parse(&signed_text) == Ok(signed));
}

fn identity(name: &str, email: &str) -> Identity {
    Identity::new(name, email).unwrap()
}

#[test]
fn fresh_keys_attest_their_identity() {
    let key = PrivateKey::new(identity("ZebraSign", "zebra@example.com"));
    let public = key.public();
    assert!(public.validate_attestation());
    assert_eq!(public.holder_attestation().ring_responses.len(), 1);
    assert!(public.holder_attestation().ring_responses[0].0 == public.keypoint());
}

#[test]
fn public_key_text_has_the_documented_shape() {
    let key = PrivateKey::new(identity("Zebra <Sign>", "zebra@example.com"));
    let text = key.public().format();
    assert!(text.starts_with("[Zebra <Sign> <zebra@example.com> <ZebraSign 1.0 Beta> "));
    assert!(text.ends_with(']'));
    let parts: Vec<&str> = text[..text.len() - 1].rsplitn(3, ' ').collect();
    assert_eq!(parts[0].len(), 200);
    assert_eq!(parts[1].len(), 64);
    assert!(parts[0].chars().all(|c| c.is_ascii_digit() || ('A'..='F').contains(&c)));
    assert!(parts[1].chars().all(|c| c.is_ascii_digit() || ('A'..='F').contains(&c)));
    let back = PublicKey::parse(&text).unwrap();
    assert!(back == key.public());
    assert_eq!(back.format(), text);
}

#[test]
fn public_key_text_errors() {
    let key = PrivateKey::new(identity("ZebraSign", "zebra@example.com"));
    let text = key.public().format();
    assert_eq!(PublicKey::parse("").unwrap_err(), KeyParseError::Malformed);
    assert_eq!(PublicKey::parse(&text[1..]).unwrap_err(), KeyParseError::Malformed);
    let lower = text.replace('A', "a");
    if lower != text {
        assert_eq!(PublicKey::parse(&lower).unwrap_err(), KeyParseError::Malformed);
    }
    let other = PrivateKey::new(identity("ZebraSign", "zebra@example.com")).public();
    let forged = text.replacen("ZebraSign <", "Zebrasign <", 1);
    assert_eq!(PublicKey::parse(&forged).unwrap_err(), KeyParseError::InvalidAttestation);
    assert!(PublicKey::parse(&other.format()).is_ok());
}

#[test]
fn fingerprint_shape_and_determinism() {
    let key = PrivateKey::new(identity("ZebraSign", "zebra@example.com")).public();
    let f = key.fingerprint();
    assert_eq!(f.len(), 43);
    let groups: Vec<&str> = f.split(' ').collect();
    assert_eq!(groups.len(), 4);
    assert!(groups.iter().all(|g| g.len() == 10));
    let copy = PublicKey::parse(&key.format()).unwrap();
    assert_eq!(copy.fingerprint(), f);
    let other = PrivateKey::new(identity("ZebraSign", "zebra@example.com")).public();
    assert_ne!(other.fingerprint(), f);
}

#[test]
fn signed_message_round_trip_is_identity() {
    let me = PrivateKey::new(identity("ZebraSign", "zebra@example.com"));
    let gaius = PrivateKey::new(identity("Gaius", "notzebra@example.com")).public();
    let signed = SignedMessage::sign("SPARTACVSSVM\n\nsecond line", &me, &[gaius]);
    let text = signed.format();
    let parsed = SignedMessage::parse(&text).unwrap();
    assert!(parsed.verify());
    assert_eq!(parsed.format(), text);
    assert_eq!(parsed.message(), "SPARTACVSSVM\n\nsecond line".to_string());
    let lines: Vec<&str> = text.split('\n').collect();
    assert_eq!(lines[0], "The following message has been signed using ZebraSign 1.0 Beta:");
    assert_eq!(lines[1], "\"\"\"");
    assert_eq!(lines.len(), 15);
}

#[test]
fn signed_message_tamper_detection() {
    let me = PrivateKey::new(identity("ZebraSign", "zebra@example.com"));
    let gaius = PrivateKey::new(identity("Gaius", "notzebra@example.com")).public();
    let signed = SignedMessage::sign("SPARTACVSSVM", &me, &[gaius]);
    let text = signed.format();
    let mut parsed = SignedMessage::parse(&text).unwrap();
    parsed.set_message("SPARTACVSEST");
    assert!(!parsed.verify());
    let altered = text.replace("SPARTACVSSVM", "SPARTACVSEST");
    let reparsed = SignedMessage::parse(&altered).unwrap();
    assert!(!reparsed.verify());
    let renamed = text.replace("Gaius <", "Gaiux <");
    assert_eq!(SignedMessage::parse(&renamed), Err(SignatureParseError::ParseError()));
}

#[test]
fn signed_message_parse_errors() {
    assert_eq!(SignedMessage::parse(""), Err(SignatureParseError::ParseError()));
    assert_eq!(
        SignedMessage::parse("The following message has been signed using ZebraSign 1.0 Beta:"),
        Err(SignatureParseError::ParseError())
    );
}

#[test]
fn signer_key_among_others_appears_once() {
    let me = PrivateKey::new(identity("ZebraSign", "zebra@example.com"));
    let gaius = PrivateKey::new(identity("Gaius", "notzebra@example.com")).public();
    let signed = SignedMessage::sign("m", &me, &[me.public(), gaius.clone(), me.public()]);
    assert_eq!(signed.ring().len(), 2);
    assert!(signed.verify());
}

#[test]
fn ring_order_does_not_depend_on_input_order() {
    let me = PrivateKey::new(identity("A", "a@a"));
    let b = PrivateKey::new(identity("B", "b@b")).public();
    let c = PrivateKey::new(identity("C", "c@c")).public();
    let s1 = SignedMessage::sign("m", &me, &[b.clone(), c.clone()]);
    let s2 = SignedMessage::sign("m", &me, &[c.clone(), b.clone()]);
    assert!(s1.ring() == s2.ring());
    let points: Vec<[u8; 32]> = s1.ring().iter().map(|k| k.keypoint().compress()).collect();
    let mut sorted = points.clone();
    sorted.sort();
    assert_eq!(points, sorted);
}

#[test]
fn signature_with_empty_ring_is_rejected() {
    let sig = Signature { challenge: Scalar::zero(), ring_responses: vec![] };
    assert!(!sig.verify(b"anything"));
}

#[test]
fn verify_signature_of_text() {
    let me = PrivateKey::new(identity("ZebraSign", "zebra@example.com"));
    let signed = SignedMessage::sign("hello", &me, &[]);
    let text = signed.format();
    assert!(zebrasign::verify_signature(&text));
    assert!(!zebrasign::verify_signature(&text.replace("hello", "hullo")));
    assert!(!zebrasign::verify_signature("not a signed message"));
}

#[test]
fn public_key_text_carries_the_point_in_upper_hex() {
    let key = PrivateKey::new(identity("Z", "z@z")).public();
    let hex: String = key.keypoint().compress().iter().map(|b| format!("{b:02X}")).collect();
    assert!(key.format().contains(&format!("> {hex} ")));
    let att = key.to_bytes();
    assert_eq!(att.len(), 4 + 1 + 4 + 3 + 1 + 32 + 100);
}
