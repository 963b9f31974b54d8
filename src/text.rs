//! The one-line text form of a public key:
//! `[<name> <<email>> <<version>> <point hex> <attestation hex>]`.
//! The name may hold spaces and angle brackets, but the email address holds no space, so the
//! text is read from the right and its split is unique.

use vstd::prelude::*;
use vstd::string::StringSliceAdditionalSpecFns;
use vstd::utf8::{decode_utf8, encode_utf8, encode_utf8_decode_utf8, encode_utf8_valid_utf8, valid_utf8, valid_utf8_concat};
use crate::ascii::{BoringAscii, is_boring, lemma_ascii_utf8};
use crate::bytes::{append_bytes, bytes_eq, copy_range, read_array32, string_from_utf8};
use crate::codec::{read_signature, ser_signature, write_signature};
use crate::curve::RistrettoPoint;
use crate::hex::{hex_decode, hex_encode, hex_upper, lemma_hex_upper_len};
use crate::identity::Identity;
use crate::keys::{PublicKey, PublicKeyView, VERSION_TEXT, attestation_valid, public_key_encodable, ser_public_key};
use crate::hash::{sha3_256, sha3_256_of, z85_encode, z85_of};

verus! {

/// The bytes of the version text.
pub open spec fn version_bytes() -> Seq<u8> {
    VERSION_TEXT.spec_bytes()
}

/// The UTF-8 bytes of a public key's text.
pub open spec fn public_key_text(k: PublicKeyView) -> Seq<u8> {
    seq![0x5bu8] + encode_utf8(k.holder.name) + seq![0x20u8, 0x3cu8] + k.holder.email + seq![
        0x3eu8,
        0x20u8,
        0x3cu8,
    ] + version_bytes() + seq![0x3eu8, 0x20u8] + hex_upper(k.keypoint) + seq![0x20u8] + hex_upper(
        ser_signature(k.attestation),
    ) + seq![0x5du8]
}

/// Whether a public key has a text form that reads back: it can be encoded, and its
/// attestation is a one-member ring.
pub open spec fn public_key_text_form(k: PublicKeyView) -> bool {
    public_key_encodable(k) && k.attestation.ring.len() == 1
}

/// Why a public key's text was refused.
#[derive(Clone, Copy, Debug, PartialEq, Eq)]
pub enum KeyParseError {
    /// The text is not the text of any public key.
    Malformed,
    /// The text is well formed, but the key's attestation does not hold.
    InvalidAttestation,
}

/// ASCII bytes are valid UTF-8.
pub proof fn lemma_ascii_valid(s: Seq<u8>)
    requires
        forall|i: int| 0 <= i < s.len() ==> #[trigger] s[i] < 128,
    ensures
        valid_utf8(s),
{
    lemma_ascii_utf8(s);
}

/// The text of a public key is valid UTF-8.
pub proof fn lemma_public_key_text_valid(k: PublicKeyView)
    requires
        is_boring(k.holder.email),
    ensures
        valid_utf8(public_key_text(k)),
{
    broadcast use valid_utf8_concat;

    lemma_hex_upper_len(k.keypoint);
    lemma_hex_upper_len(ser_signature(k.attestation));
    lemma_ascii_valid(seq![0x5bu8]);
    lemma_ascii_valid(seq![0x20u8, 0x3cu8]);
    lemma_ascii_valid(seq![0x3eu8, 0x20u8, 0x3cu8]);
    lemma_ascii_valid(seq![0x3eu8, 0x20u8]);
    lemma_ascii_valid(seq![0x20u8]);
    lemma_ascii_valid(seq![0x5du8]);
    assert forall|i: int| 0 <= i < k.holder.email.len() implies #[trigger] k.holder.email[i] < 128 by {
        assert(crate::ascii::is_boring_byte(k.holder.email[i]));
    }
    lemma_ascii_valid(k.holder.email);
    lemma_ascii_valid(hex_upper(k.keypoint));
    lemma_ascii_valid(hex_upper(ser_signature(k.attestation)));
    encode_utf8_valid_utf8(k.holder.name);
    encode_utf8_valid_utf8(VERSION_TEXT@);
    let t1 = seq![0x5bu8] + encode_utf8(k.holder.name);
    assert(valid_utf8(t1));
    let t2 = t1 + seq![0x20u8, 0x3cu8];
    assert(valid_utf8(t2));
    let t3 = t2 + k.holder.email;
    assert(valid_utf8(t3));
    let t4 = t3 + seq![0x3eu8, 0x20u8, 0x3cu8];
    assert(valid_utf8(t4));
    let t5 = t4 + version_bytes();
    assert(valid_utf8(t5));
    let t6 = t5 + seq![0x3eu8, 0x20u8];
    assert(valid_utf8(t6));
    let t7 = t6 + hex_upper(k.keypoint);
    assert(valid_utf8(t7));
    let t8 = t7 + seq![0x20u8];
    assert(valid_utf8(t8));
    let t9 = t8 + hex_upper(ser_signature(k.attestation));
    assert(valid_utf8(t9));
    let t10 = t9 + seq![0x5du8];
    assert(valid_utf8(t10));
}

impl PublicKey {
    /// The UTF-8 bytes of this key's text.
    pub fn text_bytes(&self) -> (r: Vec<u8>)
        ensures
            r@ == public_key_text(self@),
    {
        let holder = self.holder();
        let mut out: Vec<u8> = Vec::new();
        out.push(0x5bu8);
        append_bytes(&mut out, holder.name_bytes());
        out.push(0x20u8);
        out.push(0x3cu8);
        append_bytes(&mut out, holder.email_bytes());
        out.push(0x3eu8);
        out.push(0x20u8);
        out.push(0x3cu8);
        append_bytes(&mut out, VERSION_TEXT.as_bytes());
        out.push(0x3eu8);
        out.push(0x20u8);
        let kp = hex_encode(&self.keypoint().compress());
        append_bytes(&mut out, kp.as_slice());
        out.push(0x20u8);
        let mut att: Vec<u8> = Vec::new();
        write_signature(&mut att, &self.holder_attestation());
        let ah = hex_encode(att.as_slice());
        append_bytes(&mut out, ah.as_slice());
        out.push(0x5du8);
        assert(out@ =~= public_key_text(self@));
        out
    }

    /// This key's text: `[<name> <<email>> <<version>> <point hex> <attestation hex>]`, with
    /// upper-case hexadecimal.
    pub fn format(&self) -> (r: String)
        ensures
            valid_utf8(public_key_text(self@)),
            r@ == decode_utf8(public_key_text(self@)),
    {
        let holder = self.holder();
        let _ = holder.is_valid();
        proof {
            lemma_public_key_text_valid(self@);
        }
        match string_from_utf8(self.text_bytes()) {
            Some(s) => s,
            None => String::new(),
        }
    }
}

/// Where the parts of a key's text lie, counted from its ends.
pub proof fn lemma_text_layout(k: PublicKeyView, b: Seq<u8>)
    requires
        public_key_text_form(k),
        b == public_key_text(k),
    ensures
        ({
            let nn = encode_utf8(k.holder.name).len() as int;
            let e = k.holder.email.len() as int;
            let v = version_bytes().len() as int;
            let n = b.len() as int;
            &&& n == nn + e + v + 274
            &&& ser_signature(k.attestation).len() == 100
            &&& k.keypoint.len() == 32
            &&& b.subrange(n - 201, n - 1) == hex_upper(ser_signature(k.attestation))
            &&& b.subrange(n - 266, n - 202) == hex_upper(k.keypoint)
            &&& b[1 + nn] == 0x20
            &&& b[2 + nn] == 0x3c
            &&& (forall|j: int| 3 + nn <= j < 3 + nn + e ==> b[j] != 0x20)
            &&& b.subrange(1, 1 + nn) == encode_utf8(k.holder.name)
            &&& b.subrange(3 + nn, 3 + nn + e) == k.holder.email
        }),
{
    let name = encode_utf8(k.holder.name);
    let nn = name.len() as int;
    let e = k.holder.email.len() as int;
    let v = version_bytes().len() as int;
    let att = hex_upper(ser_signature(k.attestation));
    let kp = hex_upper(k.keypoint);
    lemma_hex_upper_len(k.keypoint);
    lemma_hex_upper_len(ser_signature(k.attestation));
    crate::codec::lemma_le_bytes_len(k.attestation.ring.len(), 4);
    let r = k.attestation.ring;
    assert(r.drop_last() =~= Seq::<(Seq<u8>, Seq<u8>)>::empty());
    assert(r.last() == r[0]);
    assert(r[0].0.len() == 32);
    assert(crate::curve::is_canonical_scalar(r[0].1));
    assert(crate::codec::ring_bytes(r.drop_last()) =~= Seq::<u8>::empty());
    assert(crate::codec::ring_bytes(r) =~= r[0].0 + r[0].1);
    assert(ser_signature(k.attestation).len() == 100);
    let n = b.len() as int;
    let lead = seq![0x5bu8] + name + seq![0x20u8, 0x3cu8] + k.holder.email + seq![0x3eu8, 0x20u8, 0x3cu8]
        + version_bytes() + seq![0x3eu8, 0x20u8];
    assert(b == lead + kp + seq![0x20u8] + att + seq![0x5du8]);
    assert(b.subrange(n - 201, n - 1) =~= att);
    assert(b.subrange(n - 266, n - 202) =~= kp);
    let front = seq![0x5bu8] + name + seq![0x20u8, 0x3cu8] + k.holder.email;
    assert(b.subrange(0, front.len() as int) =~= front);
    assert(b.subrange(1, 1 + nn) =~= name);
    assert(b.subrange(3 + nn, 3 + nn + e) =~= k.holder.email);
    assert(b[1 + nn] == front[1 + nn]);
    assert(b[2 + nn] == front[2 + nn]);
    assert forall|j: int| 3 + nn <= j < 3 + nn + e implies b[j] != 0x20 by {
        assert(b[j] == front[j]);
        assert(front[j] == k.holder.email[j - 3 - nn]);
        assert(crate::ascii::is_boring_byte(k.holder.email[j - 3 - nn]));
    }
}

impl PublicKey {
    /// Reads a key's text. A text that is not the text of any key (with a one-member
    /// attestation) is `Malformed`; a well-formed text whose attestation does not hold is
    /// `InvalidAttestation`.
    pub fn parse(text: &str) -> (r: Result<PublicKey, KeyParseError>)
        ensures
            r.is_ok() ==> public_key_text(r.unwrap()@) == text.spec_bytes() && attestation_valid(r.unwrap()@),
            r == Err::<PublicKey, KeyParseError>(KeyParseError::InvalidAttestation) ==> exists|k: PublicKeyView|
                public_key_text(k) == text.spec_bytes() && !attestation_valid(k),
            forall|k: PublicKeyView| public_key_text_form(k) && #[trigger] public_key_text(k) == text.spec_bytes() ==> {
                &&& attestation_valid(k) ==> r.is_ok() && r.unwrap()@ == k
                &&& !attestation_valid(k) ==> r == Err::<PublicKey, KeyParseError>(KeyParseError::InvalidAttestation)
            },
    {
        let b = text.as_bytes();
        let n = b.len();
        let v = VERSION_TEXT.as_bytes().len();
        if n < 274 || n - 274 < v {
            proof {
                assert forall|k: PublicKeyView| public_key_text_form(k) && #[trigger] public_key_text(k) == text.spec_bytes() implies false by {
                    lemma_text_layout(k, b@);
                }
            }
            return Err(KeyParseError::Malformed);
        }
        let att_bytes = match hex_decode(b, n - 201, 100) {
            Some(x) => x,
            None => {
                proof {
                    assert forall|k: PublicKeyView| public_key_text_form(k) && #[trigger] public_key_text(k) == text.spec_bytes() implies false by {
                        lemma_text_layout(k, b@);
                    }
                }
                return Err(KeyParseError::Malformed);
            },
        };
        let kp_bytes = match hex_decode(b, n - 266, 32) {
            Some(x) => x,
            None => {
                proof {
                    assert forall|k: PublicKeyView| public_key_text_form(k) && #[trigger] public_key_text(k) == text.spec_bytes() implies false by {
                        lemma_text_layout(k, b@);
                    }
                }
                return Err(KeyParseError::Malformed);
            },
        };
        let e_end = n - 271 - v;
        proof {
            assert forall|k: PublicKeyView| public_key_text_form(k) && #[trigger] public_key_text(k) == b@ implies 2 + encode_utf8(k.holder.name).len() <= e_end by {
                lemma_text_layout(k, b@);
            }
        }
        let mut j: usize = e_end;
        while j > 1 && b[j - 1] != 0x20
            invariant
                j <= e_end,
                e_end == n - 271 - v,
                n == b@.len(),
                v == version_bytes().len(),
                forall|k: PublicKeyView| public_key_text_form(k) && #[trigger] public_key_text(k) == b@ ==> 2 + encode_utf8(k.holder.name).len() <= j,
            decreases j,
        {
            proof {
                assert forall|k: PublicKeyView| public_key_text_form(k) && #[trigger] public_key_text(k) == b@ implies 2 + encode_utf8(k.holder.name).len() <= j - 1 by {
                    lemma_text_layout(k, b@);
                }
            }
            j = j - 1;
        }
        if j <= 1 || j + 1 > e_end {
            proof {
                assert forall|k: PublicKeyView| public_key_text_form(k) && #[trigger] public_key_text(k) == text.spec_bytes() implies false by {
                    lemma_text_layout(k, b@);
                }
            }
            return Err(KeyParseError::Malformed);
        }
        let sp = j - 1;
        proof {
            assert forall|k: PublicKeyView| public_key_text_form(k) && #[trigger] public_key_text(k) == b@ implies sp == 1 + encode_utf8(k.holder.name).len() by {
                lemma_text_layout(k, b@);
            }
        }
        let name_bytes = copy_range(b, 1, sp);
        let email_bytes = copy_range(b, sp + 2, e_end);
        let ghost nb = name_bytes@;
        let name = match string_from_utf8(name_bytes) {
            Some(x) => x,
            None => {
                proof {
                    assert forall|k: PublicKeyView| public_key_text_form(k) && #[trigger] public_key_text(k) == text.spec_bytes() implies false by {
                        lemma_text_layout(k, b@);
                        encode_utf8_valid_utf8(k.holder.name);
                    }
                }
                return Err(KeyParseError::Malformed);
            },
        };
        let email = match BoringAscii::from_bytes(email_bytes.as_slice()) {
            Some(x) => x,
            None => {
                proof {
                    assert forall|k: PublicKeyView| public_key_text_form(k) && #[trigger] public_key_text(k) == text.spec_bytes() implies false by {
                        lemma_text_layout(k, b@);
                    }
                }
                return Err(KeyParseError::Malformed);
            },
        };
        let holder = match Identity::with_email(name.as_str(), email) {
            Some(x) => x,
            None => {
                proof {
                    assert forall|k: PublicKeyView| public_key_text_form(k) && #[trigger] public_key_text(k) == text.spec_bytes() implies false by {
                        lemma_text_layout(k, b@);
                        encode_utf8_decode_utf8(k.holder.name);
                    }
                }
                return Err(KeyParseError::Malformed);
            },
        };
        let keypoint = match read_array32(kp_bytes.as_slice(), 0) {
            Some((arr, _)) => match RistrettoPoint::from_compressed(arr) {
                Some(p) => p,
                None => {
                    proof {
                        assert forall|k: PublicKeyView| public_key_text_form(k) && #[trigger] public_key_text(k) == text.spec_bytes() implies false by {
                            lemma_text_layout(k, b@);
                            assert(kp_bytes@.subrange(0, 32) =~= kp_bytes@);
                        }
                    }
                    return Err(KeyParseError::Malformed);
                },
            },
            None => return Err(KeyParseError::Malformed),
        };
        let att = match read_signature(att_bytes.as_slice(), 0) {
            Some((x, _)) => x,
            None => {
                proof {
                    assert forall|k: PublicKeyView| public_key_text_form(k) && #[trigger] public_key_text(k) == text.spec_bytes() implies false by {
                        lemma_text_layout(k, b@);
                        assert(att_bytes@.subrange(0, ser_signature(k.attestation).len() as int) =~= att_bytes@);
                        assert(crate::codec::at(att_bytes@, 0, ser_signature(k.attestation)));
                    }
                }
                return Err(KeyParseError::Malformed);
            },
        };
        let candidate = PublicKey::from_parts(holder, keypoint, att);
        proof {
            assert forall|k: PublicKeyView| public_key_text_form(k) && #[trigger] public_key_text(k) == text.spec_bytes() implies candidate@ == k by {
                lemma_text_layout(k, b@);
                encode_utf8_decode_utf8(k.holder.name);
                assert(kp_bytes@.subrange(0, 32) =~= kp_bytes@);
                assert(att_bytes@.subrange(0, ser_signature(k.attestation).len() as int) =~= att_bytes@);
                assert(crate::codec::at(att_bytes@, 0, ser_signature(k.attestation)));
                assert(candidate@.holder == k.holder);
            }
        }
        if !bytes_eq(candidate.text_bytes().as_slice(), b) {
            return Err(KeyParseError::Malformed);
        }
        if !candidate.validate_attestation() {
            return Err(KeyParseError::InvalidAttestation);
        }
        Ok(candidate)
    }
}

/// A printable ASCII character is ASCII.
pub proof fn lemma_printable_char(c: char)
    requires
        0x21 <= c as u32 <= 0x7e,
    ensures
        '\0' <= c <= '\u{7f}',
        0x21 <= (c as u8) <= 0x7e,
        ((c as u8) as char) == c,
{
    vstd::utf8::char_u32_cast(c, c as u32);
}

/// A key's fingerprint: the Z85 text of the SHA3-256 digest of its binary encoding, in four
/// groups of ten letters separated by single spaces.
pub open spec fn fingerprint_chars(k: PublicKeyView) -> Seq<char> {
    let z = z85_of(sha3_256_of(ser_public_key(k)));
    z.subrange(0, 10) + seq![' '] + z.subrange(10, 20) + seq![' '] + z.subrange(20, 30) + seq![' ']
        + z.subrange(30, 40)
}

impl PublicKey {
    /// This key's fingerprint, 43 characters: four groups of ten Z85 letters of the SHA3-256
    /// digest of the key's binary encoding, separated by spaces.
    pub fn fingerprint(&self) -> (r: String)
        ensures
            r@ == fingerprint_chars(self@),
            r@.len() == 43,
            z85_of(sha3_256_of(ser_public_key(self@))).len() == 40,
    {
        let digest = sha3_256(self.to_bytes().as_slice());
        let z = z85_encode(&digest);
        let zb = z.as_str().as_bytes();
        let ghost zc = z@;
        proof {
            assert forall|t: int| 0 <= t < zc.len() implies '\0' <= #[trigger] zc[t] && zc[t] <= '\u{7f}' by {
                lemma_printable_char(zc[t]);
            }
            assert(vstd::utf8::is_ascii_chars(zc));
            vstd::utf8::is_ascii_chars_encode_utf8(zc);
        }
        let mut out: Vec<u8> = Vec::new();
        let mut i: usize = 0;
        while i < 40
            invariant
                i <= 40,
                zc.len() == 40,
                zb@ == encode_utf8(zc),
                zb@.len() == 40,
                forall|t: int| 0 <= t < 40 ==> 0x21 <= (#[trigger] zc[t]) as u32 <= 0x7e,
                forall|t: int| 0 <= t < 40 ==> #[trigger] zb@[t] == zc[t] as u8,
                out@.len() == i + (if i > 30 { 3int } else if i > 20 { 2int } else if i > 10 { 1int } else { 0int }),
                forall|t: int| 0 <= t < i ==> out@[t + (if t >= 30 { 3int } else if t >= 20 { 2int } else if t >= 10 { 1int } else { 0int })] == zb@[t],
                forall|t: int| 0 <= t < out@.len() && (t == 10 || t == 21 || t == 32) ==> out@[t] == 0x20,
                forall|t: int| 0 <= t < out@.len() ==> out@[t] < 128,
            decreases 40 - i,
        {
            if i == 10 || i == 20 || i == 30 {
                out.push(0x20u8);
            }
            let c = zb[i];
            proof {
                assert(zb@[i as int] == zc[i as int] as u8);
                lemma_printable_char(zc[i as int]);
            }
            out.push(c);
            i = i + 1;
        }
        let ghost ob = out@;
        proof {
            lemma_ascii_utf8(ob);
        }
        let r = match string_from_utf8(out) {
            Some(s) => s,
            None => String::new(),
        };
        proof {
            let f = fingerprint_chars(self@);
            assert(f.len() == 43);
            assert forall|t: int| 0 <= t < 43 implies #[trigger] r@[t] == f[t] by {
                assert(r@[t] == ob[t] as char);
                if t == 10 || t == 21 || t == 32 {
                } else {
                    let u = if t > 32 { t - 3 } else if t > 21 { t - 2 } else if t > 10 { t - 1 } else { t };
                    assert(ob[t] == zb@[u]);
                    assert(zb@[u] == zc[u] as u8);
                    assert(0x21 <= zc[u] as u32 <= 0x7e);
                    vstd::utf8::char_u32_cast(zc[u], zc[u] as u32);
                    assert((zc[u] as u8) as char == zc[u]);
                }
            }
            assert(r@ =~= f);
        }
        r
    }
}

} // verus!
