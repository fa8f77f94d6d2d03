//! Creation and verification of authenticity signatures for PBO archives,
//! the container format of the Real Virtuality engine family.
//!
//! Given an RSA keypair the library derives three SHA-1 based digests from a
//! PBO's stored checksum, file name set and selected file bodies, signs them
//! with the private key, and emits a signature blob in the engine's binary
//! layout. Given a public key, a PBO and such a blob it reproduces the
//! digests and checks them against the RSA-recovered values.

use vstd::prelude::*;

pub mod bignum;
pub mod commands;
pub mod crypto;
pub mod hashes;
pub mod hex;
pub mod pbo;
pub mod private_key;
pub mod public_key;
pub mod signature;
pub mod wire;

pub use commands::Sign;
pub use commands::Verify;
pub use pbo::Pbo;
pub use pbo::PboEntry;
pub use private_key::BIPrivateKey;
pub use public_key::BIPublicKey;
pub use signature::BISign;

verus! {

/// The two signature scheme versions, differing only in which files the
/// body digest covers.
#[derive(Copy, Clone, Debug, PartialEq, Eq, Structural)]
pub enum BISignVersion {
    V2,
    V3,
}

impl BISignVersion {
    /// The integer stored in the signature wire format for this version.
    pub fn to_u32(&self) -> (v: u32)
        ensures
            v == self.spec_u32(),
    {
        match self {
            BISignVersion::V2 => 2,
            BISignVersion::V3 => 3,
        }
    }

    pub open spec fn spec_u32(&self) -> u32 {
        match self {
            BISignVersion::V2 => 2u32,
            BISignVersion::V3 => 3u32,
        }
    }

    /// The version a wire integer denotes: 2 and 3 name a version, every
    /// other value is unknown.
    pub fn try_from_u32(v: u32) -> (r: Option<BISignVersion>)
        ensures
            v == 2 ==> r == Some(BISignVersion::V2),
            v == 3 ==> r == Some(BISignVersion::V3),
            v != 2 && v != 3 ==> r is None,
    {
        if v == 2 {
            Some(BISignVersion::V2)
        } else if v == 3 {
            Some(BISignVersion::V3)
        } else {
            None
        }
    }

    /// The version's display name.
    pub fn to_string(&self) -> (s: String)
        ensures
            self is V2 ==> s@ == "V2"@,
            self is V3 ==> s@ == "V3"@,
    {
        match self {
            BISignVersion::V2 => String::from_str("V2"),
            BISignVersion::V3 => String::from_str("V3"),
        }
    }
}

/// The failures signing and verification surface.
#[derive(Debug)]
pub enum BISignError {
    /// An underlying read or write failed; the caller supplies the cause.
    IOError(String),
    /// A blob's magic, size prefix or layout does not fit the format.
    MalformedBlob,
    /// A signature names a version other than 2 or 3.
    UnknownVersion(u32),
    /// The signature's authority is not the public key's.
    AuthorityMismatch { expected: String, actual: String },
    /// An RSA-recovered digest differs from the locally computed one.
    HashMismatch { signed: String, real: String },
}

} // verus!
