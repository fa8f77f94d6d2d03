//! The cores of the two archive-facing commands: producing a signature
//! blob for an archive, and checking one against it. File handling stays
//! with the caller; these take and return plain values.

use vstd::prelude::*;
use crate::crypto::mod_exp_spec;
use crate::pbo::Pbo;
use crate::private_key::BIPrivateKey;
use crate::public_key::{sig_matches, spec_hash1, spec_hash2, spec_hash3, BIPublicKey};
use crate::signature::{no_sign_matches, no_sign_shape, sign_bytes, sign_shape_with_version, BISign};
use crate::BISignError;
use crate::BISignVersion;

verus! {

/// The signing command.
pub struct Sign;

impl Sign {
    /// Signs an archive with a private key and returns the serialized
    /// `.bisign` blob.
    pub fn run(key: &BIPrivateKey, pbo: &Pbo, version: BISignVersion) -> (out: Vec<u8>)
        requires
            key.wf(),
            pbo@.wf(),
        ensures
            out@ == sign_bytes(
                key.name@,
                version,
                key.length,
                key.exponent,
                key.n@,
                mod_exp_spec(spec_hash1(pbo@, key.length), key.d@, key.n@),
                mod_exp_spec(spec_hash2(pbo@, key.length), key.d@, key.n@),
                mod_exp_spec(spec_hash3(pbo@, version, key.length), key.d@, key.n@),
            ),
    {
        let sig = key.sign(pbo, version);
        sig.write()
    }
}

/// The verifying command.
pub struct Verify;

impl Verify {
    /// Parses a signature blob and checks it against an archive under a
    /// public key: parse failures pass through, then the authority and
    /// the three digests decide.
    pub fn run(key: &BIPublicKey, pbo: &Pbo, sig_bytes: &Vec<u8>) -> (r: Result<
        (),
        BISignError,
    >)
        requires
            key.wf(),
            pbo@.wf(),
        ensures
            r matches Err(BISignError::MalformedBlob) ==> no_sign_matches(sig_bytes@)
                && no_sign_shape(sig_bytes@),
            r matches Err(BISignError::UnknownVersion(v)) ==> v != 2 && v != 3 && no_sign_matches(
                sig_bytes@,
            ) && sign_shape_with_version(sig_bytes@, v),
            r is Ok ==> exists|s: BISign|
                s.wf() && #[trigger] s.spec_serialize() == sig_bytes@ && s.name@ == key.name@
                    && sig_matches(s.sig1@, key.exponent, key.n@, spec_hash1(pbo@, key.length))
                    && sig_matches(s.sig2@, key.exponent, key.n@, spec_hash2(pbo@, key.length))
                    && sig_matches(
                    s.sig3@,
                    key.exponent,
                    key.n@,
                    spec_hash3(pbo@, s.version, key.length),
                ),
            r matches Err(BISignError::AuthorityMismatch { expected, actual }) ==> expected@
                == key.name@ && exists|s: BISign|
                s.wf() && #[trigger] s.spec_serialize() == sig_bytes@ && s.name@ != key.name@
                    && actual@ == s.name@,
            r matches Err(BISignError::HashMismatch { signed, real: shown }) ==> exists|s: BISign|
                s.wf() && #[trigger] s.spec_serialize() == sig_bytes@ && s.name@ == key.name@ && !(
                sig_matches(s.sig1@, key.exponent, key.n@, spec_hash1(pbo@, key.length))
                    && sig_matches(s.sig2@, key.exponent, key.n@, spec_hash2(pbo@, key.length))
                    && sig_matches(
                    s.sig3@,
                    key.exponent,
                    key.n@,
                    spec_hash3(pbo@, s.version, key.length),
                )),
            r matches Err(BISignError::IOError(m)) ==> false,
    {
        let sig = match BISign::read(sig_bytes) {
            Ok(s) => s,
            Err(e) => {
                return Err(e);
            },
        };
        let r = key.verify(pbo, &sig);
        proof {
            assert(sig.spec_serialize() == sig_bytes@);
        }
        r
    }
}

} // verus!
