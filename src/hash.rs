//! Digests and the Z85 text encoding, as provided by the `sha3` and `z85` crates.

use vstd::prelude::*;
use sha3::Digest;

verus! {

/// The SHA3-512 digest of a byte string.
pub uninterp spec fn sha3_512_of(data: Seq<u8>) -> Seq<u8>;

/// The SHA3-256 digest of a byte string.
pub uninterp spec fn sha3_256_of(data: Seq<u8>) -> Seq<u8>;

/// The Z85 text that the `z85` crate produces for a byte string (full four-byte groups become
/// five letters; a shorter final group is left-padded with zero bytes and its leading letters
/// are replaced by `#`).
pub uninterp spec fn z85_of(data: Seq<u8>) -> Seq<char>;

/// Relies on `sha3::Sha3_512::digest`: the 64-byte digest of the input.
#[verifier::external_body]
pub(crate) fn sha3_512(data: &[u8]) -> (r: [u8; 64])
    ensures
        r@ == sha3_512_of(data@),
{
    sha3::Sha3_512::digest(data).into()
}

/// Relies on `sha3::Sha3_256::digest`: the 32-byte digest of the input.
#[verifier::external_body]
pub(crate) fn sha3_256(data: &[u8]) -> (r: [u8; 32])
    ensures
        r@ == sha3_256_of(data@),
{
    sha3::Sha3_256::digest(data).into()
}

/// Relies on `z85::encode`: the Z85 text of the input, whose letters are all printable ASCII
/// and never a space.
#[verifier::external_body]
pub(crate) fn z85_encode(data: &[u8]) -> (r: String)
    ensures
        r@ == z85_of(data@),
        r@.len() == (data@.len() + 3) / 4 * 5,
        forall|i: int| 0 <= i < r@.len() ==> 0x21 <= (#[trigger] r@[i]) as u32 <= 0x7e,
{
    z85::encode(data)
}

/// Relies on `z85::decode`: it inverts `z85::encode`, so that it gives back `b` on the text of
/// `b`, and what it accepts is the text of what it returns.
#[verifier::external_body]
pub(crate) fn z85_decode(text: &str) -> (r: Option<Vec<u8>>)
    ensures
        forall|b: Seq<u8>| z85_of(b) == text@ ==> r.is_some() && r.unwrap()@ == b,
        r.is_some() ==> z85_of(r.unwrap()@) == text@,
{
    z85::decode(text).ok()
}

} // verus!
