use zebrasign::{BoringAscii, Identity, PrintableAsciiString};

#[test]
fn it_works() {
    assert!(BoringAscii::from_bytes("😊".as_bytes()) == None);
    assert!(BoringAscii::from_bytes(&[b'\0']) == None);
    assert!(BoringAscii::from_bytes(&[b'\x7f']) == None);
    assert!(BoringAscii::from_bytes(&[b'\x1f']) == None);
    assert!(BoringAscii::from_bytes(&[b' ']) == None);
    assert!(BoringAscii::from_bytes(&[b'\n']) == None);
    assert!(BoringAscii::from_bytes("Hi".as_bytes()).map(|s| s.as_bytes().to_vec()) == Some(b"Hi".to_vec()));
    assert!(BoringAscii::from_bytes(&[b'!']).map(|s| s.as_bytes().to_vec()) == Some(b"!".to_vec()));
}

#[test]
fn lib_it_works() {
    assert!(PrintableAsciiString::from_bytes("😊".as_bytes()) == None);
    assert!(PrintableAsciiString::from_bytes(&[b'\0']) == None);
    assert!(PrintableAsciiString::from_bytes(&[b'\x7f']) == None);
    assert!(PrintableAsciiString::from_bytes(&[b'\x1f']) == None);
    assert!(PrintableAsciiString::from_bytes(&[b' ']) == None);
    assert!(PrintableAsciiString::from_bytes(&[b'\n']) == None);
    assert!(
        PrintableAsciiString::from_bytes("Hi".as_bytes()).map(|s| s.as_bytes().to_vec())
            == Some(b"Hi".to_vec())
    );
    assert!(
        PrintableAsciiString::from_bytes(&[b'!']).map(|s| s.as_bytes().to_vec())
            == Some(b"!".to_vec())
    );
}

#[test]
fn boring_ascii_rejects_every_byte_outside_the_printable_range() {
    for b in [0x00u8, 0x1f, 0x20, 0x7f, 0x80, 0xff] {
        assert!(BoringAscii::from_bytes(&[b'a', b, b'z']).is_none(), "byte {b:#x} accepted");
    }
    assert!(BoringAscii::from_bytes("aé".as_bytes()).is_none());
    assert!(BoringAscii::from_bytes(&[0x21, 0x7e]).is_some());
    assert!(BoringAscii::from_bytes(&[]).is_some());
}

#[test]
fn boring_ascii_reads_back_as_text() {
    let s = BoringAscii::from_text("zebra@example.com").unwrap();
    assert_eq!(s.as_str(), "zebra@example.com");
    assert_eq!(s.to_text(), "zebra@example.com".to_string());
    assert_eq!(s.as_bytes(), b"zebra@example.com");
    assert!(BoringAscii::from_text("zebra example").is_none());
}

#[test]
fn identity_rejects_control_characters() {
    assert!(Identity::new("a\nb", "x@y").is_none());
    assert!(Identity::new("a\tb", "x@y").is_none());
    assert!(Identity::new("a\u{0}b", "x@y").is_none());
    assert!(Identity::new("a\u{7f}", "x@y").is_none());
    assert!(Identity::new("a\u{85}", "x@y").is_none());
    let id = Identity::new("Zebra <Sign> ü", "x@y").unwrap();
    assert_eq!(id.name(), "Zebra <Sign> ü");
    assert_eq!(id.email(), "x@y");
}

#[test]
fn identity_rejects_homoglyph_email() {
    assert!(Identity::new("x", "zebraːexample.com").is_none());
    assert!(Identity::new("x", "zebra example.com").is_none());
    assert!(Identity::new("x", "zebra@example.com").is_some());
}
