//! Who holds a key: a name and a constrained email address.

use vstd::prelude::*;
use vstd::string::StringSliceAdditionalSpecFns;
use crate::ascii::{BoringAscii, ascii_chars, is_boring};
use crate::bytes::append_bytes;

verus! {

/// Whether a character is a control code (Unicode general category Cc: U+0000 through U+001F
/// and U+007F through U+009F), as `char::is_control` decides.
pub open spec fn is_control(c: char) -> bool {
    (c as u32) < 0x20 || (0x7f <= (c as u32) && (c as u32) <= 0x9f)
}

/// Whether a string holds no control code (so neither a newline nor a tab).
pub open spec fn has_no_control(s: Seq<char>) -> bool {
    forall|i: int| 0 <= i < s.len() ==> !is_control(#[trigger] s[i])
}

/// Whether `name` holds no control code.
pub fn name_is_valid(name: &str) -> (r: bool)
    ensures
        r == has_no_control(name@),
{
    let mut ok = true;
    for c in it: name.chars()
        invariant
            it.seq() == name@,
            ok == (forall|j: int| 0 <= j < it.index() ==> !is_control(#[trigger] name@[j])),
    {
        let code = c as u32;
        if code < 0x20 || (0x7f <= code && code <= 0x9f) {
            ok = false;
        }
    }
    ok
}

/// The warning that starts every attestation image, so that nobody is tricked into signing
/// one by accident.
pub const ATTESTATION_BANNER: &'static str = "!!!DO NOT SIGN THE FOLLOWING MESSAGE. DOING SO IS A SECURITY RISK. SOMEONE IS PROBABLY TRYING TO TRICK YOU!!!";

/// The bytes of the attestation banner.
pub open spec fn banner_bytes() -> Seq<u8> {
    ATTESTATION_BANNER.spec_bytes()
}

/// The encodings of an identity: its name and its email address.
pub struct IdentityView {
    pub name: Seq<char>,
    pub email: Seq<u8>,
}

/// Whether an identity is well formed: a name without control codes and an email address of
/// printable, non-whitespace ASCII.
pub open spec fn identity_valid(id: IdentityView) -> bool {
    has_no_control(id.name) && is_boring(id.email)
}

/// What the holder of a key signs to attest that the key is theirs: the banner, the name's
/// UTF-8 bytes, the byte 0xFF (which never occurs in UTF-8 text), the email address and the
/// compressed point.
pub open spec fn attestation_image(id: IdentityView, keypoint: Seq<u8>) -> Seq<u8> {
    banner_bytes() + vstd::utf8::encode_utf8(id.name) + seq![0xffu8] + id.email + keypoint
}

/// An identity: a name (any text without control codes) and an email address (printable,
/// non-whitespace ASCII, so that no homoglyph can pass for a familiar address).
#[derive(Debug, PartialEq, Eq, Hash)]
pub struct Identity {
    name: String,
    email: BoringAscii,
}

impl View for Identity {
    type V = IdentityView;

    closed spec fn view(&self) -> IdentityView {
        IdentityView { name: self.name@, email: self.email@ }
    }
}

impl Clone for Identity {
    fn clone(&self) -> (r: Self)
        ensures
            r@ == self@,
    {
        proof {
            use_type_invariant(self);
        }
        Identity { name: self.name.clone(), email: self.email.clone() }
    }
}

impl Identity {
    #[verifier::type_invariant]
    spec fn inv(&self) -> bool {
        has_no_control(self.name@)
    }

    /// Every identity is well formed.
    pub(crate) fn is_valid(&self) -> (r: bool)
        ensures
            r,
            identity_valid(self@),
    {
        proof {
            use_type_invariant(self);
        }
        let _ = self.email.as_bytes();
        true
    }

    /// An identity with this name and email address; `None` if the name holds a control code
    /// or the email address a byte outside printable, non-whitespace ASCII.
    pub fn new(name: &str, email: &str) -> (r: Option<Identity>)
        ensures
            r.is_some() <==> has_no_control(name@) && is_boring(email.spec_bytes()),
            r.is_some() ==> r.unwrap()@ == (IdentityView { name: name@, email: email.spec_bytes() }),
    {
        if !name_is_valid(name) {
            return None;
        }
        match BoringAscii::from_text(email) {
            Some(e) => Some(Identity { name: name.to_string(), email: e }),
            None => None,
        }
    }

    /// An identity with this name and email address; `None` if the name holds a control code.
    pub fn with_email(name: &str, email: BoringAscii) -> (r: Option<Identity>)
        ensures
            r.is_some() <==> has_no_control(name@),
            r.is_some() ==> r.unwrap()@ == (IdentityView { name: name@, email: email@ }),
    {
        if !name_is_valid(name) {
            return None;
        }
        Some(Identity { name: name.to_string(), email })
    }

    /// The name.
    pub fn name(&self) -> (r: String)
        ensures
            r@ == self@.name,
    {
        self.name.clone()
    }

    /// The email address, as text.
    pub fn email(&self) -> (r: String)
        ensures
            r@ == ascii_chars(self@.email),
    {
        self.email.to_text()
    }

    /// The name's UTF-8 bytes.
    pub fn name_bytes(&self) -> (r: &[u8])
        ensures
            r@ == vstd::utf8::encode_utf8(self@.name),
    {
        self.name.as_str().as_bytes()
    }

    /// The email address's bytes.
    pub fn email_bytes(&self) -> (r: &[u8])
        ensures
            r@ == self@.email,
            is_boring(r@),
    {
        self.email.as_bytes()
    }

    /// The bytes that the holder of `keypoint` signs to claim this identity.
    pub fn attestation_bytes(&self, keypoint: &[u8; 32]) -> (r: Vec<u8>)
        ensures
            r@ == attestation_image(self@, keypoint@),
    {
        let mut out: Vec<u8> = Vec::new();
        append_bytes(&mut out, ATTESTATION_BANNER.as_bytes());
        append_bytes(&mut out, self.name_bytes());
        out.push(0xffu8);
        append_bytes(&mut out, self.email.as_bytes());
        append_bytes(&mut out, keypoint);
        assert(out@ =~= attestation_image(self@, keypoint@));
        out
    }
}

} // verus!
