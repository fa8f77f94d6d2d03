//! Trusted boundary to the cryptographic provider.
//!
//! Everything here is a thin wrapper whose contract Verus believes: the SHA-1
//! digest, modular exponentiation over big integers, RSA key generation, and
//! one byte-to-string conversion. All other logic of the crate is verified
//! against these contracts.

use vstd::prelude::*;
use vstd::arithmetic::power::pow;
use crate::bignum::{be_val, is_minimal_be, lemma_min_be_bytes, min_be_bytes};

verus! {

/// The SHA-1 digest of a byte string, named but not defined: the digest
/// function is the provider's.
pub uninterp spec fn sha1_of(data: Seq<u8>) -> Seq<u8>;

/// Relies on openssl's `sha::sha1`: the SHA-1 digest, 20 bytes, a function
/// of the input bytes alone.
#[verifier::external_body]
pub fn sha1(data: &Vec<u8>) -> (r: Vec<u8>)
    ensures
        r@ == sha1_of(data@),
        r@.len() == 20,
{
    openssl::sha::sha1(data.as_slice()).to_vec()
}

/// The result of `base ^ exp mod modulus` over big-endian byte strings:
/// the minimal bytes of the reduced power.
pub open spec fn mod_exp_spec(base: Seq<u8>, exp: Seq<u8>, modulus: Seq<u8>) -> Seq<u8> {
    min_be_bytes((pow(be_val(base) as int, be_val(exp)) % (be_val(modulus) as int)) as nat)
}

/// The mod-exp result is reduced below the modulus and minimal.
pub proof fn lemma_mod_exp_spec_below(base: Seq<u8>, exp: Seq<u8>, modulus: Seq<u8>)
    requires
        be_val(modulus) > 0,
    ensures
        be_val(mod_exp_spec(base, exp, modulus)) < be_val(modulus),
        is_minimal_be(mod_exp_spec(base, exp, modulus)),
{
    let x = pow(be_val(base) as int, be_val(exp));
    let m = be_val(modulus) as int;
    vstd::arithmetic::div_mod::lemma_mod_division_less_than_divisor(x, m);
    lemma_min_be_bytes((x % m) as nat);
}

/// Relies on openssl's `BigNumRef::mod_exp` (the result placed is
/// `base ^ exp mod modulus`), `BigNum::from_slice` (big-endian bytes in)
/// and `BigNum::to_vec` (big-endian bytes out, no leading zeros).
#[verifier::external_body]
pub fn mod_exp(base: &Vec<u8>, exp: &Vec<u8>, modulus: &Vec<u8>) -> (r: Vec<u8>)
    requires
        be_val(modulus@) > 0,
    ensures
        r@ == mod_exp_spec(base@, exp@, modulus@),
{
    let a = openssl::bn::BigNum::from_slice(base).unwrap();
    let p = openssl::bn::BigNum::from_slice(exp).unwrap();
    let m = openssl::bn::BigNum::from_slice(modulus).unwrap();
    let mut ctx = openssl::bn::BigNumContext::new().unwrap();
    let mut r = openssl::bn::BigNum::new().unwrap();
    r.mod_exp(&a, &p, &m, &mut ctx).unwrap();
    r.to_vec()
}

/// The raw material of a fresh RSA key, every component as minimal
/// big-endian bytes.
pub struct RsaComponents {
    pub n: Vec<u8>,
    pub e: Vec<u8>,
    pub d: Vec<u8>,
    pub p: Vec<u8>,
    pub q: Vec<u8>,
    pub dp: Vec<u8>,
    pub dq: Vec<u8>,
    pub qinv: Vec<u8>,
}

/// Relies on openssl's `Rsa::generate`: a fresh key of the asked bit size
/// whose public exponent is 65537, components read back through `to_vec`
/// (big-endian, no leading zeros). Nothing more is promised: the key is
/// random.
#[verifier::external_body]
pub fn rsa_generate_components(bits: u32) -> (r: Option<RsaComponents>)
    ensures
        r matches Some(c) ==> {
            &&& is_minimal_be(c.n@)
            &&& is_minimal_be(c.d@)
            &&& is_minimal_be(c.p@)
            &&& is_minimal_be(c.q@)
            &&& is_minimal_be(c.dp@)
            &&& is_minimal_be(c.dq@)
            &&& is_minimal_be(c.qinv@)
            &&& c.e@ == seq![1u8, 0u8, 1u8]
            &&& be_val(c.n@) > 0
            &&& bits % 8 == 0 ==> c.n@.len() == bits / 8
        },
{
    let rsa = openssl::rsa::Rsa::generate(bits).ok()?;
    Some(RsaComponents {
        n: rsa.n().to_vec(),
        e: rsa.e().to_vec(),
        d: rsa.d().to_vec(),
        p: rsa.p()?.to_vec(),
        q: rsa.q()?.to_vec(),
        dp: rsa.dmp1()?.to_vec(),
        dq: rsa.dmq1()?.to_vec(),
        qinv: rsa.iqmp()?.to_vec(),
    })
}

/// Relies on std's `String::from_utf8`: ASCII bytes decode to the string
/// whose characters are those bytes, one for one.
#[verifier::external_body]
pub fn ascii_to_string(b: &Vec<u8>) -> (r: String)
    requires
        forall|i: int| 0 <= i < b@.len() ==> b@[i] < 128,
    ensures
        r@.len() == b@.len(),
        forall|i: int| 0 <= i < b@.len() ==> r@[i] == b@[i] as char,
{
    String::from_utf8(b.clone()).unwrap()
}

} // verus!
