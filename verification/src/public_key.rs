//! The BI public key blob, and verification of signatures against it.

use vstd::prelude::*;
use crate::bignum::{
    be_val, bignum_eq, is_minimal_be, le_encode, lemma_be_val_lower, lemma_bignum_roundtrip,
    lemma_le_encode_decode, read_bignum, u32_be_min, u32_to_be_min, write_bignum,
};
use crate::crypto::{mod_exp, mod_exp_spec, sha1_of};
use crate::hashes::{generate_hashes, hash2_input, hash3_input, padded};
use crate::hex::{display_hashes, display_hashes_spec};
use crate::pbo::Pbo;
use crate::signature::BISign;
use crate::wire::{
    ascii_name, header_bytes, header_candidate, lemma_header_fields, push_cstring, push_u32_le,
    read_header,
};
use crate::BISignError;

verus! {

/// The public half of a BI signing key.
pub struct BIPublicKey {
    /// The authority: the name the key signs under.
    pub name: String,
    /// The modulus bit length.
    pub length: u32,
    /// The public exponent.
    pub exponent: u32,
    /// The modulus, minimal big-endian bytes.
    pub n: Vec<u8>,
}

/// Well-formed public-key fields.
pub open spec fn pubkey_fields_wf(name: Seq<char>, length: u32, n: Seq<u8>) -> bool {
    &&& ascii_name(name)
    &&& length % 8 == 0
    &&& 368 <= length
    &&& is_minimal_be(n)
    &&& n.len() <= length as int / 8
    &&& be_val(n) > 0
}

/// The public key blob layout: the common header, then the modulus.
pub open spec fn pubkey_bytes(name: Seq<char>, length: u32, exponent: u32, n: Seq<u8>) -> Seq<u8> {
    header_bytes(name, 6u8, 0x31u8, ((length / 8 + 20) as u32), length, exponent) + le_encode(
        n,
        length as int / 8,
    )
}

/// Whether `whole` is exactly the public key blob with these fields.
pub open spec fn pubkey_candidate(
    whole: Seq<u8>,
    name: Seq<char>,
    length: u32,
    exponent: u32,
    n: Seq<u8>,
) -> bool {
    whole == pubkey_bytes(name, length, exponent, n)
}

/// No well-formed public key serializes to these bytes.
pub open spec fn no_pubkey_matches(whole: Seq<u8>) -> bool {
    forall|name: Seq<char>, length: u32, exponent: u32, n: Seq<u8>|
        pubkey_fields_wf(name, length, n) ==> !#[trigger] pubkey_candidate(
            whole,
            name,
            length,
            exponent,
            n,
        )
}

/// The value a verifier recovers from one signature integer.
pub open spec fn recovered(sig: Seq<u8>, exponent: u32, n: Seq<u8>) -> Seq<u8> {
    mod_exp_spec(sig, u32_be_min(exponent), n)
}

/// Whether a signature integer carries the given padded digest under this
/// key: the recovered value equals the digest's value.
pub open spec fn sig_matches(sig: Seq<u8>, exponent: u32, n: Seq<u8>, h: Seq<u8>) -> bool {
    be_val(recovered(sig, exponent, n)) == be_val(h)
}

/// The three padded digests verification reproduces for an archive.
pub open spec fn spec_hash1(pbo: crate::pbo::PboView, length: u32) -> Seq<u8> {
    padded(pbo.checksum, length as int / 8)
}

pub open spec fn spec_hash2(pbo: crate::pbo::PboView, length: u32) -> Seq<u8> {
    padded(sha1_of(hash2_input(pbo)), length as int / 8)
}

pub open spec fn spec_hash3(
    pbo: crate::pbo::PboView,
    version: crate::BISignVersion,
    length: u32,
) -> Seq<u8> {
    padded(sha1_of(hash3_input(pbo, version)), length as int / 8)
}

/// Every candidate public key blob over `whole` carries the parsed header
/// fields, and its modulus section is the remainder.
proof fn lemma_pubkey_candidate_aligns(
    whole: Seq<u8>,
    hname: Seq<char>,
    hlength: u32,
    hexponent: u32,
    pos: int,
)
    requires
        ascii_name(hname),
        hlength % 8 == 0,
        368 <= hlength,
        pos == hname.len() + 25,
        pos <= whole.len(),
        whole.subrange(0, pos) == header_bytes(
            hname,
            6u8,
            0x31u8,
            ((hlength / 8 + 20) as u32),
            hlength,
            hexponent,
        ),
    ensures
        forall|name: Seq<char>, length: u32, exponent: u32, n: Seq<u8>|
            (pubkey_fields_wf(name, length, n) && #[trigger] pubkey_candidate(
                whole,
                name,
                length,
                exponent,
                n,
            )) ==> name == hname && length == hlength && exponent == hexponent && whole.len() == pos
                + hlength as int / 8 && whole.skip(pos) == le_encode(n, hlength as int / 8),
{
    assert forall|name: Seq<char>, length: u32, exponent: u32, n: Seq<u8>|
        (pubkey_fields_wf(name, length, n) && #[trigger] pubkey_candidate(
            whole,
            name,
            length,
            exponent,
            n,
        )) implies name == hname && length == hlength && exponent == hexponent && whole.len() == pos
        + hlength as int / 8 && whole.skip(pos) == le_encode(n, hlength as int / 8) by {
        let tail = le_encode(n, length as int / 8);
        assert(header_candidate(whole, 6u8, 0x31u8, false, name, length, exponent, tail));
        assert(whole =~= header_bytes(
            hname,
            6u8,
            0x31u8,
            ((hlength / 8 + 20) as u32),
            hlength,
            hexponent,
        ) + whole.skip(pos));
        lemma_header_fields(
            whole,
            6u8,
            0x31u8,
            name,
            ((length / 8 + 20) as u32),
            length,
            exponent,
            tail,
            hname,
            ((hlength / 8 + 20) as u32),
            hlength,
            hexponent,
            whole.skip(pos),
        );
    }
}

impl BIPublicKey {
    pub open spec fn wf(&self) -> bool {
        pubkey_fields_wf(self.name@, self.length, self.n@)
    }

    pub open spec fn spec_serialize(&self) -> Seq<u8> {
        pubkey_bytes(self.name@, self.length, self.exponent, self.n@)
    }

    /// Serializes the public key blob.
    pub fn write(&self) -> (out: Vec<u8>)
        requires
            self.wf(),
        ensures
            out@ == self.spec_serialize(),
    {
        let width = (self.length / 8) as usize;
        let mut out: Vec<u8> = Vec::new();
        push_cstring(&mut out, &self.name);
        push_u32_le(&mut out, self.length / 8 + 20);
        out.push(6);
        out.push(2);
        out.push(0);
        out.push(0);
        out.push(0);
        out.push(0x24);
        out.push(0);
        out.push(0);
        out.push(0x52);
        out.push(0x53);
        out.push(0x41);
        out.push(0x31);
        push_u32_le(&mut out, self.length);
        push_u32_le(&mut out, self.exponent);
        assert(out@ =~= header_bytes(
            self.name@,
            6u8,
            0x31u8,
            ((self.length / 8 + 20) as u32),
            self.length,
            self.exponent,
        ));
        write_bignum(&mut out, &self.n, width);
        out
    }

    /// Parses a public key blob. The whole buffer must be one key; on
    /// failure no well-formed public key serializes to the buffer.
    pub fn read(bytes: &Vec<u8>) -> (r: Result<BIPublicKey, BISignError>)
        ensures
            r matches Ok(k) ==> k.wf() && k.spec_serialize() == bytes@,
            r is Err ==> (r matches Err(BISignError::MalformedBlob)) && no_pubkey_matches(bytes@),
    {
        let ghost whole = bytes@;
        let hdr = match read_header(bytes, 6, 0x31, false) {
            Some(h) => h,
            None => {
                proof {
                    assert forall|name: Seq<char>, length: u32, exponent: u32, n: Seq<u8>|
                        pubkey_fields_wf(name, length, n) implies !#[trigger] pubkey_candidate(
                        whole,
                        name,
                        length,
                        exponent,
                        n,
                    ) by {
                        if pubkey_candidate(whole, name, length, exponent, n) {
                            assert(header_candidate(
                                whole,
                                6u8,
                                0x31u8,
                                false,
                                name,
                                length,
                                exponent,
                                le_encode(n, length as int / 8),
                            ));
                            assert(false);
                        }
                    }
                }
                return Err(BISignError::MalformedBlob);
            },
        };
        let (name, length, exponent, pos) = hdr;
        proof {
            lemma_pubkey_candidate_aligns(whole, name@, length, exponent, pos as int);
        }
        let width = (length / 8) as usize;
        if bytes.len() - pos != width {
            return Err(BISignError::MalformedBlob);
        }
        let n = read_bignum(bytes, pos, width);
        if n.len() == 0 {
            proof {
                assert(n@ =~= Seq::<u8>::empty());
                assert forall|cname: Seq<char>, clength: u32, cexp: u32, cn: Seq<u8>|
                    pubkey_fields_wf(cname, clength, cn) implies !#[trigger] pubkey_candidate(
                    whole,
                    cname,
                    clength,
                    cexp,
                    cn,
                ) by {
                    if pubkey_candidate(whole, cname, clength, cexp, cn) {
                        let w = length as int / 8;
                        lemma_bignum_roundtrip(cn, w);
                        assert(whole.subrange(pos as int, pos as int + w) =~= whole.skip(
                            pos as int,
                        ));
                        assert(cn == n@);
                        assert(be_val(cn) == 0);
                        assert(false);
                    }
                }
            }
            return Err(BISignError::MalformedBlob);
        }
        proof {
            lemma_be_val_lower(n@);
            vstd::arithmetic::power::lemma_pow_positive(256, (n@.len() - 1) as nat);
            let w = length as int / 8;
            lemma_le_encode_decode(whole.skip(pos as int));
            assert(whole.subrange(pos as int, pos as int + w) =~= whole.skip(pos as int));
            assert(le_encode(n@, w) == whole.skip(pos as int));
            assert(whole =~= whole.subrange(0, pos as int) + whole.skip(pos as int));
        }
        Ok(BIPublicKey { name, length, exponent, n })
    }

    /// Checks the three signature integers of `signature` against the
    /// digests this archive yields under this key. The authority must
    /// match first; then each RSA-recovered value must equal the locally
    /// computed padded digest, and the first difference is reported.
    pub fn verify(&self, pbo: &Pbo, signature: &BISign) -> (r: Result<(), BISignError>)
        requires
            self.wf(),
            pbo@.wf(),
        ensures
            ({
                let w = self.length as int / 8;
                let h1 = spec_hash1(pbo@, self.length);
                let h2 = spec_hash2(pbo@, self.length);
                let h3 = spec_hash3(pbo@, signature.version, self.length);
                let m1 = sig_matches(signature.sig1@, self.exponent, self.n@, h1);
                let m2 = sig_matches(signature.sig2@, self.exponent, self.n@, h2);
                let m3 = sig_matches(signature.sig3@, self.exponent, self.n@, h3);
                match r {
                    Ok(()) => self.name@ == signature.name@ && m1 && m2 && m3,
                    Err(BISignError::AuthorityMismatch { expected, actual }) => self.name@
                        != signature.name@ && expected@ == self.name@ && actual@
                        == signature.name@,
                    Err(BISignError::HashMismatch { signed, real: shown }) => self.name@
                        == signature.name@ && {
                        ||| (!m1 && (signed@, shown@) == display_hashes_spec(
                            recovered(signature.sig1@, self.exponent, self.n@),
                            h1,
                        ))
                        ||| (m1 && !m2 && (signed@, shown@) == display_hashes_spec(
                            recovered(signature.sig2@, self.exponent, self.n@),
                            h2,
                        ))
                        ||| (m1 && m2 && !m3 && (signed@, shown@) == display_hashes_spec(
                            recovered(signature.sig3@, self.exponent, self.n@),
                            h3,
                        ))
                    },
                    _ => false,
                }
            }),
    {
        if !(self.name == signature.name) {
            return Err(
                BISignError::AuthorityMismatch {
                    expected: self.name.clone(),
                    actual: signature.name.clone(),
                },
            );
        }
        let (h1, h2, h3) = generate_hashes(pbo, signature.version, self.length);
        let e = u32_to_be_min(self.exponent);
        let r1 = mod_exp(&signature.sig1, &e, &self.n);
        if !bignum_eq(&r1, &h1) {
            let (signed, shown) = display_hashes(&r1, &h1);
            return Err(BISignError::HashMismatch { signed, real: shown });
        }
        let r2 = mod_exp(&signature.sig2, &e, &self.n);
        if !bignum_eq(&r2, &h2) {
            let (signed, shown) = display_hashes(&r2, &h2);
            return Err(BISignError::HashMismatch { signed, real: shown });
        }
        let r3 = mod_exp(&signature.sig3, &e, &self.n);
        if !bignum_eq(&r3, &h3) {
            let (signed, shown) = display_hashes(&r3, &h3);
            return Err(BISignError::HashMismatch { signed, real: shown });
        }
        Ok(())
    }
}

/// Law: a signature integer produced by raising a digest to the private
/// exponent verifies under the public exponent, provided the provider's
/// arithmetic satisfies the RSA identity for that digest value —
/// recovering the signed value returns the value. The identity is the
/// provider's number theory; this crate does not prove it.
pub proof fn lemma_sign_then_verify(h: Seq<u8>, d: Seq<u8>, exponent: u32, n: Seq<u8>)
    requires
        be_val(mod_exp_spec(mod_exp_spec(h, d, n), u32_be_min(exponent), n)) == be_val(h),
    ensures
        sig_matches(mod_exp_spec(h, d, n), exponent, n, h),
{
}

/// Two well-formed public keys with one serialization are one key: the
/// blob determines the fields.
pub proof fn lemma_pubkey_serialize_injective(
    name1: Seq<char>,
    length1: u32,
    exponent1: u32,
    n1: Seq<u8>,
    name2: Seq<char>,
    length2: u32,
    exponent2: u32,
    n2: Seq<u8>,
)
    requires
        pubkey_fields_wf(name1, length1, n1),
        pubkey_fields_wf(name2, length2, n2),
        pubkey_bytes(name1, length1, exponent1, n1) == pubkey_bytes(name2, length2, exponent2, n2),
    ensures
        name1 == name2,
        length1 == length2,
        exponent1 == exponent2,
        n1 == n2,
{
    let whole = pubkey_bytes(name1, length1, exponent1, n1);
    lemma_header_fields(
        whole,
        6u8,
        0x31u8,
        name1,
        ((length1 / 8 + 20) as u32),
        length1,
        exponent1,
        le_encode(n1, length1 as int / 8),
        name2,
        ((length2 / 8 + 20) as u32),
        length2,
        exponent2,
        le_encode(n2, length2 as int / 8),
    );
    lemma_bignum_roundtrip(n1, length1 as int / 8);
    lemma_bignum_roundtrip(n2, length2 as int / 8);
}

} // verus!
