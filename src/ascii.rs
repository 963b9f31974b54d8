//! Strings of printable, non-whitespace ASCII bytes (0x21 through 0x7E). Used for email
//! addresses, so that a value that looks like a familiar address really is that address.

use vstd::prelude::*;
use vstd::string::StringSliceAdditionalSpecFns;
use vstd::utf8::*;

verus! {

/// Whether a byte is printable ASCII and not whitespace.
pub open spec fn is_boring_byte(b: u8) -> bool {
    0x21 <= b && b <= 0x7e
}

/// Whether every byte of `s` is printable ASCII and not whitespace.
pub open spec fn is_boring(s: Seq<u8>) -> bool {
    forall|i: int| 0 <= i < s.len() ==> is_boring_byte(#[trigger] s[i])
}

/// The characters that an all-ASCII byte string stands for.
pub open spec fn ascii_chars(s: Seq<u8>) -> Seq<char> {
    s.map_values(|b: u8| b as char)
}

/// A printable ASCII string with no whitespace.
#[derive(Debug, PartialEq, Eq, Hash, PartialOrd, Ord)]
pub struct BoringAscii {
    bytes: Vec<u8>,
}

/// Another name for [`BoringAscii`].
pub type PrintableAsciiString = BoringAscii;

impl View for BoringAscii {
    type V = Seq<u8>;

    closed spec fn view(&self) -> Seq<u8> {
        self.bytes@
    }
}

/// An ASCII byte string is valid UTF-8 and decodes to one character per byte.
pub proof fn lemma_ascii_utf8(s: Seq<u8>)
    requires
        forall|i: int| 0 <= i < s.len() ==> #[trigger] s[i] < 128,
    ensures
        encode_utf8(ascii_chars(s)) == s,
        valid_utf8(s),
        decode_utf8(s) == ascii_chars(s),
{
    let c = ascii_chars(s);
    assert(is_ascii_chars(c)) by {
        assert forall|i: int| 0 <= i < c.len() implies (#[trigger] c[i]) as u32 <= 127 by {
            assert(s[i] < 128);
        }
    }
    is_ascii_chars_encode_utf8(c);
    assert(encode_utf8(c) =~= s);
    encode_utf8_valid_utf8(c);
    encode_utf8_decode_utf8(c);
}

/// Relies on `std::str::from_utf8`: it accepts exactly the valid UTF-8 byte strings and reads
/// them as the characters they encode.
#[verifier::external_body]
fn str_from_utf8(b: &[u8]) -> (r: Option<&str>)
    ensures
        r.is_some() <==> valid_utf8(b@),
        r.is_some() ==> r.unwrap()@ == decode_utf8(b@),
{
    std::str::from_utf8(b).ok()
}

impl Clone for BoringAscii {
    fn clone(&self) -> (r: Self)
        ensures
            r@ == self@,
    {
        proof {
            use_type_invariant(self);
        }
        let bytes = self.bytes.clone();
        assert(bytes@ =~= self.bytes@);
        BoringAscii { bytes }
    }
}

impl BoringAscii {
    #[verifier::type_invariant]
    spec fn inv(&self) -> bool {
        is_boring(self.bytes@)
    }

    /// The bytes of the string.
    pub fn as_bytes(&self) -> (r: &[u8])
        ensures
            r@ == self@,
            is_boring(r@),
    {
        proof {
            use_type_invariant(self);
        }
        self.bytes.as_slice()
    }

    /// The string itself; always valid, since every byte is ASCII.
    pub fn as_str(&self) -> (r: &str)
        ensures
            r@ == ascii_chars(self@),
    {
        proof {
            use_type_invariant(self);
            lemma_ascii_utf8(self@);
        }
        match str_from_utf8(self.bytes.as_slice()) {
            Some(s) => s,
            None => "",
        }
    }

    /// Accepts `bytes` exactly when each of them lies in 0x21 through 0x7E.
    pub fn from_bytes(bytes: &[u8]) -> (r: Option<Self>)
        ensures
            r.is_some() <==> is_boring(bytes@),
            r.is_some() ==> r.unwrap()@ == bytes@,
    {
        let mut i: usize = 0;
        while i < bytes.len()
            invariant
                0 <= i <= bytes@.len(),
                forall|j: int| 0 <= j < i ==> is_boring_byte(#[trigger] bytes@[j]),
            decreases bytes@.len() - i,
        {
            let b = bytes[i];
            if b < 0x21 || b > 0x7e {
                return None;
            }
            i = i + 1;
        }
        Some(BoringAscii { bytes: vstd::slice::slice_to_vec(bytes) })
    }

    /// Accepts `s` exactly when its UTF-8 bytes are all printable, non-whitespace ASCII.
    pub fn from_text(s: &str) -> (r: Option<Self>)
        ensures
            r.is_some() <==> is_boring(s.spec_bytes()),
            r.is_some() ==> r.unwrap()@ == s.spec_bytes(),
    {
        BoringAscii::from_bytes(s.as_bytes())
    }

    /// The string, as an owned `String`.
    pub fn to_text(&self) -> (r: String)
        ensures
            r@ == ascii_chars(self@),
    {
        self.as_str().to_string()
    }
}

} // verus!
