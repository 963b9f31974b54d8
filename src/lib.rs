//! Ring signatures over identity-bound keys, with a bijective text encoding for keys and
//! signed messages, and the pure logic of an encrypted key database.

pub mod ascii;
pub mod bytes;
pub mod codec;
pub mod curve;
pub mod hash;
pub mod hex;
pub mod identity;
pub mod keys;
pub mod laws;
pub mod message;
pub mod sag;
pub mod store;
pub mod text;

pub use ascii::{BoringAscii, PrintableAsciiString};
pub use curve::{RistrettoPoint, Scalar};
pub use identity::Identity;
pub use keys::{PrivateKey, PublicKey, Version};
pub use message::{verify_signature, SignatureParseError, SignedMessage};
pub use sag::Signature;
pub use store::{
    DatabaseContents, DatabaseError, VerificationInfo, VisibleDatabaseContents, keychain_user,
};
pub use text::KeyParseError;
