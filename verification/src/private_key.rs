//! The BI private key blob, signing, and key generation.

use vstd::prelude::*;
use crate::bignum::{
    be_val, is_minimal_be, le_encode, lemma_be_val_lower, lemma_bignum_roundtrip,
    lemma_le_encode_decode, lemma_smaller_fits, read_bignum, write_bignum,
};
use crate::crypto::{mod_exp, mod_exp_spec, rsa_generate_components, RsaComponents};
use crate::hashes::generate_hashes;
use crate::pbo::Pbo;
use crate::public_key::{spec_hash1, spec_hash2, spec_hash3, BIPublicKey};
use crate::signature::BISign;
use crate::wire::{
    ascii_name, header_bytes, header_candidate, lemma_concat_parts_eq, lemma_header_fields,
    lemma_subrange_split, push_cstring, push_u32_le, read_header,
};
use crate::{BISignError, BISignVersion};

verus! {

/// The private half of a BI signing key: the public fields plus the CRT
/// parameters and the private exponent, each as minimal big-endian bytes.
pub struct BIPrivateKey {
    pub name: String,
    pub length: u32,
    pub exponent: u32,
    pub n: Vec<u8>,
    pub p: Vec<u8>,
    pub q: Vec<u8>,
    pub dp: Vec<u8>,
    pub dq: Vec<u8>,
    pub qinv: Vec<u8>,
    pub d: Vec<u8>,
}

/// Well-formed private-key fields: the CRT components fit half the
/// modulus width, the private exponent the full width.
pub open spec fn privkey_fields_wf(
    name: Seq<char>,
    length: u32,
    n: Seq<u8>,
    p: Seq<u8>,
    q: Seq<u8>,
    dp: Seq<u8>,
    dq: Seq<u8>,
    qinv: Seq<u8>,
    d: Seq<u8>,
) -> bool {
    &&& ascii_name(name)
    &&& length % 16 == 0
    &&& 368 <= length
    &&& is_minimal_be(n)
    &&& n.len() <= length as int / 8
    &&& be_val(n) > 0
    &&& is_minimal_be(p) && p.len() <= length as int / 16
    &&& is_minimal_be(q) && q.len() <= length as int / 16
    &&& is_minimal_be(dp) && dp.len() <= length as int / 16
    &&& is_minimal_be(dq) && dq.len() <= length as int / 16
    &&& is_minimal_be(qinv) && qinv.len() <= length as int / 16
    &&& is_minimal_be(d) && d.len() <= length as int / 8
}

/// What follows the private header: the modulus, the five CRT components
/// at half width, the private exponent at full width.
pub open spec fn privkey_tail(
    length: u32,
    n: Seq<u8>,
    p: Seq<u8>,
    q: Seq<u8>,
    dp: Seq<u8>,
    dq: Seq<u8>,
    qinv: Seq<u8>,
    d: Seq<u8>,
) -> Seq<u8> {
    let w = length as int / 8;
    let h = length as int / 16;
    le_encode(n, w) + le_encode(p, h) + le_encode(q, h) + le_encode(dp, h) + le_encode(dq, h)
        + le_encode(qinv, h) + le_encode(d, w)
}

/// The private key blob layout: as the public one, with the private blob
/// type, the `RSA2` tag, a size prefix of `length/16*9 + 20`, and the
/// private numbers behind the modulus.
pub open spec fn privkey_bytes(
    name: Seq<char>,
    length: u32,
    exponent: u32,
    n: Seq<u8>,
    p: Seq<u8>,
    q: Seq<u8>,
    dp: Seq<u8>,
    dq: Seq<u8>,
    qinv: Seq<u8>,
    d: Seq<u8>,
) -> Seq<u8> {
    header_bytes(name, 7u8, 0x32u8, ((length / 16 * 9 + 20) as u32), length, exponent)
        + privkey_tail(length, n, p, q, dp, dq, qinv, d)
}

/// Whether `whole` is exactly the private key blob with these fields.
pub open spec fn privkey_candidate(
    whole: Seq<u8>,
    name: Seq<char>,
    length: u32,
    exponent: u32,
    n: Seq<u8>,
    p: Seq<u8>,
    q: Seq<u8>,
    dp: Seq<u8>,
    dq: Seq<u8>,
    qinv: Seq<u8>,
    d: Seq<u8>,
) -> bool {
    whole == privkey_bytes(name, length, exponent, n, p, q, dp, dq, qinv, d)
}

/// No well-formed private key serializes to these bytes.
pub open spec fn no_privkey_matches(whole: Seq<u8>) -> bool {
    forall|
        name: Seq<char>,
        length: u32,
        exponent: u32,
        n: Seq<u8>,
        p: Seq<u8>,
        q: Seq<u8>,
        dp: Seq<u8>,
        dq: Seq<u8>,
        qinv: Seq<u8>,
        d: Seq<u8>,
    |
        privkey_fields_wf(name, length, n, p, q, dp, dq, qinv, d) ==> !#[trigger] privkey_candidate(
            whole,
            name,
            length,
            exponent,
            n,
            p,
            q,
            dp,
            dq,
            qinv,
            d,
        )
}

/// The facts a private key read relies on for every candidate blob, once
/// the header of `whole` is known.
pub open spec fn privkey_aligned(
    whole: Seq<u8>,
    hname: Seq<char>,
    hlength: u32,
    hexponent: u32,
    pos: int,
) -> bool {
    forall|
        name: Seq<char>,
        length: u32,
        exponent: u32,
        n: Seq<u8>,
        p: Seq<u8>,
        q: Seq<u8>,
        dp: Seq<u8>,
        dq: Seq<u8>,
        qinv: Seq<u8>,
        d: Seq<u8>,
    |
        (privkey_fields_wf(name, length, n, p, q, dp, dq, qinv, d) && #[trigger] privkey_candidate(
            whole,
            name,
            length,
            exponent,
            n,
            p,
            q,
            dp,
            dq,
            qinv,
            d,
        )) ==> {
            let w = hlength as int / 8;
            let h = hlength as int / 16;
            &&& name == hname
            &&& length == hlength
            &&& exponent == hexponent
            &&& whole.len() == pos + 2 * w + 5 * h
            &&& whole.subrange(pos, pos + w) == le_encode(n, w)
            &&& whole.subrange(pos + w, pos + w + h) == le_encode(p, h)
            &&& whole.subrange(pos + w + h, pos + w + 2 * h) == le_encode(q, h)
            &&& whole.subrange(pos + w + 2 * h, pos + w + 3 * h) == le_encode(dp, h)
            &&& whole.subrange(pos + w + 3 * h, pos + w + 4 * h) == le_encode(dq, h)
            &&& whole.subrange(pos + w + 4 * h, pos + w + 5 * h) == le_encode(qinv, h)
            &&& whole.subrange(pos + w + 5 * h, pos + 2 * w + 5 * h) == le_encode(d, w)
        }
}

/// Splits a private key tail standing at `pos` in `whole` into its seven
/// sections.
proof fn lemma_priv_tail_sections(
    whole: Seq<u8>,
    pos: int,
    length: u32,
    n: Seq<u8>,
    p: Seq<u8>,
    q: Seq<u8>,
    dp: Seq<u8>,
    dq: Seq<u8>,
    qinv: Seq<u8>,
    d: Seq<u8>,
)
    requires
        0 <= pos <= whole.len(),
        whole.skip(pos) == privkey_tail(length, n, p, q, dp, dq, qinv, d),
    ensures
        ({
            let w = length as int / 8;
            let h = length as int / 16;
            &&& whole.len() == pos + 2 * w + 5 * h
            &&& whole.subrange(pos, pos + w) == le_encode(n, w)
            &&& whole.subrange(pos + w, pos + w + h) == le_encode(p, h)
            &&& whole.subrange(pos + w + h, pos + w + 2 * h) == le_encode(q, h)
            &&& whole.subrange(pos + w + 2 * h, pos + w + 3 * h) == le_encode(dp, h)
            &&& whole.subrange(pos + w + 3 * h, pos + w + 4 * h) == le_encode(dq, h)
            &&& whole.subrange(pos + w + 4 * h, pos + w + 5 * h) == le_encode(qinv, h)
            &&& whole.subrange(pos + w + 5 * h, pos + 2 * w + 5 * h) == le_encode(d, w)
        }),
{
    let w = length as int / 8;
    let h = length as int / 16;
    let a1 = le_encode(n, w);
    let a2 = le_encode(p, h);
    let a3 = le_encode(q, h);
    let a4 = le_encode(dp, h);
    let a5 = le_encode(dq, h);
    let a6 = le_encode(qinv, h);
    let a7 = le_encode(d, w);
    let tail = privkey_tail(length, n, p, q, dp, dq, qinv, d);
    assert(tail.len() == 2 * w + 5 * h);
    assert(whole.len() == pos + 2 * w + 5 * h);
    let q7 = whole.subrange(pos + w + 5 * h, pos + 2 * w + 5 * h);
    let q6 = whole.subrange(pos + w + 4 * h, pos + w + 5 * h);
    let q5 = whole.subrange(pos + w + 3 * h, pos + w + 4 * h);
    let q4 = whole.subrange(pos + w + 2 * h, pos + w + 3 * h);
    let q3 = whole.subrange(pos + w + h, pos + w + 2 * h);
    let q2 = whole.subrange(pos + w, pos + w + h);
    let c7 = whole.subrange(pos, pos + 2 * w + 5 * h);
    let c6 = whole.subrange(pos, pos + w + 5 * h);
    let c5 = whole.subrange(pos, pos + w + 4 * h);
    let c4 = whole.subrange(pos, pos + w + 3 * h);
    let c3 = whole.subrange(pos, pos + w + 2 * h);
    let c2 = whole.subrange(pos, pos + w + h);
    let c1 = whole.subrange(pos, pos + w);
    assert(c7 =~= whole.skip(pos));
    lemma_subrange_split(whole, pos, pos + w + 5 * h, pos + 2 * w + 5 * h);
    lemma_concat_parts_eq(c6, q7, a1 + a2 + a3 + a4 + a5 + a6, a7);
    lemma_subrange_split(whole, pos, pos + w + 4 * h, pos + w + 5 * h);
    lemma_concat_parts_eq(c5, q6, a1 + a2 + a3 + a4 + a5, a6);
    lemma_subrange_split(whole, pos, pos + w + 3 * h, pos + w + 4 * h);
    lemma_concat_parts_eq(c4, q5, a1 + a2 + a3 + a4, a5);
    lemma_subrange_split(whole, pos, pos + w + 2 * h, pos + w + 3 * h);
    lemma_concat_parts_eq(c3, q4, a1 + a2 + a3, a4);
    lemma_subrange_split(whole, pos, pos + w + h, pos + w + 2 * h);
    lemma_concat_parts_eq(c2, q3, a1 + a2, a3);
    lemma_subrange_split(whole, pos, pos + w, pos + w + h);
    lemma_concat_parts_eq(c1, q2, a1, a2);
}

/// What any candidate private key blob over `whole` must look like, once
/// the header of `whole` has been read.
proof fn lemma_privkey_candidate_aligns(
    whole: Seq<u8>,
    hname: Seq<char>,
    hlength: u32,
    hexponent: u32,
    pos: int,
)
    requires
        ascii_name(hname),
        hlength % 8 == 0,
        368 <= hlength,
        pos == hname.len() + 25,
        pos <= whole.len(),
        whole.subrange(0, pos) == header_bytes(
            hname,
            7u8,
            0x32u8,
            crate::wire::blob_size(hlength, true),
            hlength,
            hexponent,
        ),
    ensures
        privkey_aligned(whole, hname, hlength, hexponent, pos),
{
    assert forall|
        name: Seq<char>,
        length: u32,
        exponent: u32,
        n: Seq<u8>,
        p: Seq<u8>,
        q: Seq<u8>,
        dp: Seq<u8>,
        dq: Seq<u8>,
        qinv: Seq<u8>,
        d: Seq<u8>,
    |
        (privkey_fields_wf(name, length, n, p, q, dp, dq, qinv, d) && #[trigger] privkey_candidate(
            whole,
            name,
            length,
            exponent,
            n,
            p,
            q,
            dp,
            dq,
            qinv,
            d,
        )) implies {
        let w = hlength as int / 8;
        let h = hlength as int / 16;
        &&& name == hname
        &&& length == hlength
        &&& exponent == hexponent
        &&& whole.len() == pos + 2 * w + 5 * h
        &&& whole.subrange(pos, pos + w) == le_encode(n, w)
        &&& whole.subrange(pos + w, pos + w + h) == le_encode(p, h)
        &&& whole.subrange(pos + w + h, pos + w + 2 * h) == le_encode(q, h)
        &&& whole.subrange(pos + w + 2 * h, pos + w + 3 * h) == le_encode(dp, h)
        &&& whole.subrange(pos + w + 3 * h, pos + w + 4 * h) == le_encode(dq, h)
        &&& whole.subrange(pos + w + 4 * h, pos + w + 5 * h) == le_encode(qinv, h)
        &&& whole.subrange(pos + w + 5 * h, pos + 2 * w + 5 * h) == le_encode(d, w)
    } by {
        let tail = privkey_tail(length, n, p, q, dp, dq, qinv, d);
        assert(header_candidate(whole, 7u8, 0x32u8, true, name, length, exponent, tail));
        assert(whole =~= header_bytes(
            hname,
            7u8,
            0x32u8,
            crate::wire::blob_size(hlength, true),
            hlength,
            hexponent,
        ) + whole.skip(pos));
        lemma_header_fields(
            whole,
            7u8,
            0x32u8,
            name,
            crate::wire::blob_size(length, true),
            length,
            exponent,
            tail,
            hname,
            crate::wire::blob_size(hlength, true),
            hlength,
            hexponent,
            whole.skip(pos),
        );
        lemma_priv_tail_sections(whole, pos, length, n, p, q, dp, dq, qinv, d);
    }
}

/// When no private blob header begins the buffer, no private key matches.
proof fn no_header_no_privkey(whole: Seq<u8>)
    requires
        forall|name: Seq<char>, length: u32, exponent: u32, rest: Seq<u8>|
            (ascii_name(name) && length % 8 == 0 && 368 <= length) ==> !#[trigger] header_candidate(
                whole,
                7u8,
                0x32u8,
                true,
                name,
                length,
                exponent,
                rest,
            ),
    ensures
        no_privkey_matches(whole),
{
    assert forall|
        name: Seq<char>,
        length: u32,
        exponent: u32,
        n: Seq<u8>,
        p: Seq<u8>,
        q: Seq<u8>,
        dp: Seq<u8>,
        dq: Seq<u8>,
        qinv: Seq<u8>,
        d: Seq<u8>,
    |
        privkey_fields_wf(name, length, n, p, q, dp, dq, qinv, d) implies !#[trigger] privkey_candidate(
        whole,
        name,
        length,
        exponent,
        n,
        p,
        q,
        dp,
        dq,
        qinv,
        d,
    ) by {
        if privkey_candidate(whole, name, length, exponent, n, p, q, dp, dq, qinv, d) {
            assert(header_candidate(
                whole,
                7u8,
                0x32u8,
                true,
                name,
                length,
                exponent,
                privkey_tail(length, n, p, q, dp, dq, qinv, d),
            ));
            assert(false);
        }
    }
}

/// Contradiction helper: every candidate's bit length is a multiple of
/// sixteen, but the parsed one is not.
proof fn privkey_contra_mod16(
    whole: Seq<u8>,
    hname: Seq<char>,
    hlength: u32,
    hexponent: u32,
    pos: int,
)
    requires
        privkey_aligned(whole, hname, hlength, hexponent, pos),
        hlength % 16 != 0,
    ensures
        no_privkey_matches(whole),
{
}

/// Contradiction helper: every candidate's modulus is nonzero, but the
/// modulus section decodes to zero.
proof fn privkey_contra_zero_modulus(
    whole: Seq<u8>,
    hname: Seq<char>,
    hlength: u32,
    hexponent: u32,
    pos: int,
)
    requires
        privkey_aligned(whole, hname, hlength, hexponent, pos),
        0 <= pos,
        pos + hlength as int / 8 <= whole.len(),
        crate::bignum::be_decode(whole.subrange(pos, pos + hlength as int / 8))
            == Seq::<u8>::empty(),
    ensures
        no_privkey_matches(whole),
{
    assert forall|
        name: Seq<char>,
        length: u32,
        exponent: u32,
        n: Seq<u8>,
        p: Seq<u8>,
        q: Seq<u8>,
        dp: Seq<u8>,
        dq: Seq<u8>,
        qinv: Seq<u8>,
        d: Seq<u8>,
    |
        privkey_fields_wf(name, length, n, p, q, dp, dq, qinv, d) implies !#[trigger] privkey_candidate(
        whole,
        name,
        length,
        exponent,
        n,
        p,
        q,
        dp,
        dq,
        qinv,
        d,
    ) by {
        if privkey_candidate(whole, name, length, exponent, n, p, q, dp, dq, qinv, d) {
            lemma_bignum_roundtrip(n, hlength as int / 8);
            assert(n == Seq::<u8>::empty());
            assert(be_val(n) == 0);
            assert(false);
        }
    }
}

impl BIPrivateKey {
    pub open spec fn wf(&self) -> bool {
        privkey_fields_wf(
            self.name@,
            self.length,
            self.n@,
            self.p@,
            self.q@,
            self.dp@,
            self.dq@,
            self.qinv@,
            self.d@,
        )
    }

    pub open spec fn spec_serialize(&self) -> Seq<u8> {
        privkey_bytes(
            self.name@,
            self.length,
            self.exponent,
            self.n@,
            self.p@,
            self.q@,
            self.dp@,
            self.dq@,
            self.qinv@,
            self.d@,
        )
    }

    /// Serializes the private key blob.
    pub fn write(&self) -> (out: Vec<u8>)
        requires
            self.wf(),
        ensures
            out@ == self.spec_serialize(),
    {
        let width = (self.length / 8) as usize;
        let half = (self.length / 16) as usize;
        let mut out: Vec<u8> = Vec::new();
        push_cstring(&mut out, &self.name);
        push_u32_le(&mut out, self.length / 16 * 9 + 20);
        out.push(7);
        out.push(2);
        out.push(0);
        out.push(0);
        out.push(0);
        out.push(0x24);
        out.push(0);
        out.push(0);
        out.push(0x52);
        out.push(0x53);
        out.push(0x41);
        out.push(0x32);
        push_u32_le(&mut out, self.length);
        push_u32_le(&mut out, self.exponent);
        assert(out@ =~= header_bytes(
            self.name@,
            7u8,
            0x32u8,
            ((self.length / 16 * 9 + 20) as u32),
            self.length,
            self.exponent,
        ));
        let mut tail: Vec<u8> = Vec::new();
        write_bignum(&mut tail, &self.n, width);
        write_bignum(&mut tail, &self.p, half);
        write_bignum(&mut tail, &self.q, half);
        write_bignum(&mut tail, &self.dp, half);
        write_bignum(&mut tail, &self.dq, half);
        write_bignum(&mut tail, &self.qinv, half);
        write_bignum(&mut tail, &self.d, width);
        assert(tail@ == privkey_tail(
            self.length,
            self.n@,
            self.p@,
            self.q@,
            self.dp@,
            self.dq@,
            self.qinv@,
            self.d@,
        ));
        crate::hashes::append_bytes(&mut out, &tail);
        out
    }

    /// Parses a private key blob. The whole buffer must be one key; on
    /// failure no well-formed private key serializes to the buffer.
    #[verifier::rlimit(100)]
    pub fn read(bytes: &Vec<u8>) -> (r: Result<BIPrivateKey, BISignError>)
        ensures
            r matches Ok(k) ==> k.wf() && k.spec_serialize() == bytes@,
            r is Err ==> (r matches Err(BISignError::MalformedBlob)) && no_privkey_matches(bytes@),
    {
        let ghost whole = bytes@;
        let hdr = match read_header(bytes, 7, 0x32, true) {
            Some(h) => h,
            None => {
                proof {
                    no_header_no_privkey(whole);
                }
                return Err(BISignError::MalformedBlob);
            },
        };
        let (name, length, exponent, pos) = hdr;
        proof {
            lemma_privkey_candidate_aligns(whole, name@, length, exponent, pos as int);
        }
        if length % 16 != 0 {
            proof {
                privkey_contra_mod16(whole, name@, length, exponent, pos as int);
            }
            return Err(BISignError::MalformedBlob);
        }
        let width = (length / 8) as usize;
        let half = (length / 16) as usize;
        if bytes.len() - pos != 2 * width + 5 * half {
            return Err(BISignError::MalformedBlob);
        }
        let n = read_bignum(bytes, pos, width);
        if n.len() == 0 {
            proof {
                assert(n@ =~= Seq::<u8>::empty());
                assert(crate::bignum::be_decode(whole.subrange(pos as int, pos as int
                    + length as int / 8)) == n@);
                privkey_contra_zero_modulus(whole, name@, length, exponent, pos as int);
            }
            return Err(BISignError::MalformedBlob);
        }
        proof {
            lemma_be_val_lower(n@);
            vstd::arithmetic::power::lemma_pow_positive(256, (n@.len() - 1) as nat);
        }
        let o2 = pos + width;
        let p = read_bignum(bytes, o2, half);
        let o3 = o2 + half;
        let q = read_bignum(bytes, o3, half);
        let o4 = o3 + half;
        let dp = read_bignum(bytes, o4, half);
        let o5 = o4 + half;
        let dq = read_bignum(bytes, o5, half);
        let o6 = o5 + half;
        let qinv = read_bignum(bytes, o6, half);
        let o7 = o6 + half;
        let d = read_bignum(bytes, o7, width);
        let key = BIPrivateKey { name, length, exponent, n, p, q, dp, dq, qinv, d };
        proof {
            let w = length as int / 8;
            let h = length as int / 16;
            let b = pos as int;
            lemma_le_encode_decode(whole.subrange(b, b + w));
            lemma_le_encode_decode(whole.subrange(b + w, b + w + h));
            lemma_le_encode_decode(whole.subrange(b + w + h, b + w + 2 * h));
            lemma_le_encode_decode(whole.subrange(b + w + 2 * h, b + w + 3 * h));
            lemma_le_encode_decode(whole.subrange(b + w + 3 * h, b + w + 4 * h));
            lemma_le_encode_decode(whole.subrange(b + w + 4 * h, b + w + 5 * h));
            lemma_le_encode_decode(whole.subrange(b + w + 5 * h, b + 2 * w + 5 * h));
            assert(le_encode(key.n@, w) == whole.subrange(b, b + w));
            assert(le_encode(key.p@, h) == whole.subrange(b + w, b + w + h));
            assert(le_encode(key.q@, h) == whole.subrange(b + w + h, b + w + 2 * h));
            assert(le_encode(key.dp@, h) == whole.subrange(b + w + 2 * h, b + w + 3 * h));
            assert(le_encode(key.dq@, h) == whole.subrange(b + w + 3 * h, b + w + 4 * h));
            assert(le_encode(key.qinv@, h) == whole.subrange(b + w + 4 * h, b + w + 5 * h));
            assert(le_encode(key.d@, w) == whole.subrange(b + w + 5 * h, b + 2 * w + 5 * h));
            lemma_subrange_split(whole, b, b + w, b + w + h);
            lemma_subrange_split(whole, b, b + w + h, b + w + 2 * h);
            lemma_subrange_split(whole, b, b + w + 2 * h, b + w + 3 * h);
            lemma_subrange_split(whole, b, b + w + 3 * h, b + w + 4 * h);
            lemma_subrange_split(whole, b, b + w + 4 * h, b + w + 5 * h);
            lemma_subrange_split(whole, b, b + w + 5 * h, b + 2 * w + 5 * h);
            assert(whole.subrange(b, b + 2 * w + 5 * h) == privkey_tail(
                length,
                key.n@,
                key.p@,
                key.q@,
                key.dp@,
                key.dq@,
                key.qinv@,
                key.d@,
            ));
            assert(whole.subrange(b, b + 2 * w + 5 * h) =~= whole.skip(b));
            assert(whole =~= whole.subrange(0, b) + whole.skip(b));
            assert(key.spec_serialize() == whole);
        }
        Ok(key)
    }

    /// The public half of this key.
    pub fn to_public_key(&self) -> (k: BIPublicKey)
        requires
            self.wf(),
        ensures
            k.wf(),
            k.name@ == self.name@,
            k.length == self.length,
            k.exponent == self.exponent,
            k.n@ == self.n@,
    {
        BIPublicKey {
            name: self.name.clone(),
            length: self.length,
            exponent: self.exponent,
            n: clone_bytes(&self.n),
        }
    }

    /// Signs an archive: derives the three padded digests for this key's
    /// modulus width and raises each to the private exponent. Each
    /// signature integer is below the modulus.
    pub fn sign(&self, pbo: &Pbo, version: BISignVersion) -> (s: BISign)
        requires
            self.wf(),
            pbo@.wf(),
        ensures
            s.wf(),
            s.version == version,
            s.name@ == self.name@,
            s.length == self.length,
            s.exponent == self.exponent,
            s.n@ == self.n@,
            s.sig1@ == mod_exp_spec(spec_hash1(pbo@, self.length), self.d@, self.n@),
            s.sig2@ == mod_exp_spec(spec_hash2(pbo@, self.length), self.d@, self.n@),
            s.sig3@ == mod_exp_spec(spec_hash3(pbo@, version, self.length), self.d@, self.n@),
            be_val(s.sig1@) < be_val(self.n@),
            be_val(s.sig2@) < be_val(self.n@),
            be_val(s.sig3@) < be_val(self.n@),
    {
        let (h1, h2, h3) = generate_hashes(pbo, version, self.length);
        let sig1 = mod_exp(&h1, &self.d, &self.n);
        let sig2 = mod_exp(&h2, &self.d, &self.n);
        let sig3 = mod_exp(&h3, &self.d, &self.n);
        proof {
            crate::crypto::lemma_mod_exp_spec_below(h1@, self.d@, self.n@);
            crate::crypto::lemma_mod_exp_spec_below(h2@, self.d@, self.n@);
            crate::crypto::lemma_mod_exp_spec_below(h3@, self.d@, self.n@);
            lemma_smaller_fits(sig1@, self.n@);
            lemma_smaller_fits(sig2@, self.n@);
            lemma_smaller_fits(sig3@, self.n@);
        }
        BISign {
            version,
            name: self.name.clone(),
            length: self.length,
            exponent: self.exponent,
            n: clone_bytes(&self.n),
            sig1,
            sig2,
            sig3,
        }
    }

    /// Assembles a private key from freshly drawn RSA components,
    /// admitting them exactly when every number fits the blob layout:
    /// the modulus filling the full width, the five CRT components at
    /// most half of it, the private exponent at most the full width.
    pub fn assemble_generated(name: String, length: u32, c: RsaComponents) -> (r: Option<
        BIPrivateKey,
    >)
        requires
            ascii_name(name@),
            length % 16 == 0,
            368 <= length,
            is_minimal_be(c.n@),
            is_minimal_be(c.p@),
            is_minimal_be(c.q@),
            is_minimal_be(c.dp@),
            is_minimal_be(c.dq@),
            is_minimal_be(c.qinv@),
            is_minimal_be(c.d@),
        ensures
            r is Some <==> {
                &&& c.n@.len() == length as int / 8
                &&& c.p@.len() <= length as int / 16
                &&& c.q@.len() <= length as int / 16
                &&& c.dp@.len() <= length as int / 16
                &&& c.dq@.len() <= length as int / 16
                &&& c.qinv@.len() <= length as int / 16
                &&& c.d@.len() <= length as int / 8
            },
            r matches Some(k) ==> {
                &&& k.wf()
                &&& k.name@ == name@
                &&& k.length == length
                &&& k.exponent == 65537
                &&& k.n@ == c.n@
                &&& k.n@.len() == length as int / 8
                &&& k.p@ == c.p@
                &&& k.q@ == c.q@
                &&& k.dp@ == c.dp@
                &&& k.dq@ == c.dq@
                &&& k.qinv@ == c.qinv@
                &&& k.d@ == c.d@
            },
    {
        let width = (length / 8) as usize;
        let half = (length / 16) as usize;
        if c.n.len() != width {
            return None;
        }
        if c.p.len() > half || c.q.len() > half || c.dp.len() > half || c.dq.len() > half
            || c.qinv.len() > half || c.d.len() > width {
            return None;
        }
        proof {
            lemma_be_val_lower(c.n@);
            vstd::arithmetic::power::lemma_pow_positive(256, (c.n@.len() - 1) as nat);
        }
        Some(
            BIPrivateKey {
                name,
                length,
                exponent: 65537,
                n: c.n,
                p: c.p,
                q: c.q,
                dp: c.dp,
                dq: c.dq,
                qinv: c.qinv,
                d: c.d,
            },
        )
    }

    /// Draws a fresh RSA key of the asked bit length from the provider
    /// and assembles it. `None` only when the provider fails or hands
    /// back a component that does not fit the blob layout.
    pub fn generate(name: String, length: u32) -> (r: Option<BIPrivateKey>)
        requires
            ascii_name(name@),
            length % 16 == 0,
            368 <= length,
        ensures
            r matches Some(k) ==> k.wf() && k.name@ == name@ && k.length == length && k.exponent
                == 65537 && k.n@.len() == length as int / 8,
    {
        let c = match rsa_generate_components(length) {
            Some(c) => c,
            None => {
                return None;
            },
        };
        Self::assemble_generated(name, length, c)
    }
}

/// Two well-formed private keys with one serialization are one key: the
/// blob determines every field.
pub proof fn lemma_privkey_serialize_injective(
    name1: Seq<char>,
    length1: u32,
    exponent1: u32,
    n1: Seq<u8>,
    p1: Seq<u8>,
    q1: Seq<u8>,
    dp1: Seq<u8>,
    dq1: Seq<u8>,
    qinv1: Seq<u8>,
    d1: Seq<u8>,
    name2: Seq<char>,
    length2: u32,
    exponent2: u32,
    n2: Seq<u8>,
    p2: Seq<u8>,
    q2: Seq<u8>,
    dp2: Seq<u8>,
    dq2: Seq<u8>,
    qinv2: Seq<u8>,
    d2: Seq<u8>,
)
    requires
        privkey_fields_wf(name1, length1, n1, p1, q1, dp1, dq1, qinv1, d1),
        privkey_fields_wf(name2, length2, n2, p2, q2, dp2, dq2, qinv2, d2),
        privkey_bytes(name1, length1, exponent1, n1, p1, q1, dp1, dq1, qinv1, d1) == privkey_bytes(
            name2,
            length2,
            exponent2,
            n2,
            p2,
            q2,
            dp2,
            dq2,
            qinv2,
            d2,
        ),
    ensures
        name1 == name2,
        length1 == length2,
        exponent1 == exponent2,
        n1 == n2,
        p1 == p2,
        q1 == q2,
        dp1 == dp2,
        dq1 == dq2,
        qinv1 == qinv2,
        d1 == d2,
{
    let whole = privkey_bytes(name1, length1, exponent1, n1, p1, q1, dp1, dq1, qinv1, d1);
    let t1 = privkey_tail(length1, n1, p1, q1, dp1, dq1, qinv1, d1);
    let t2 = privkey_tail(length2, n2, p2, q2, dp2, dq2, qinv2, d2);
    crate::wire::lemma_header_fields(
        whole,
        7u8,
        0x32u8,
        name1,
        ((length1 / 16 * 9 + 20) as u32),
        length1,
        exponent1,
        t1,
        name2,
        ((length2 / 16 * 9 + 20) as u32),
        length2,
        exponent2,
        t2,
    );
    let w = length1 as int / 8;
    let h = length1 as int / 16;
    let a1 = le_encode(n1, w);
    let a2 = le_encode(p1, h);
    let a3 = le_encode(q1, h);
    let a4 = le_encode(dp1, h);
    let a5 = le_encode(dq1, h);
    let a6 = le_encode(qinv1, h);
    let a7 = le_encode(d1, w);
    let b1 = le_encode(n2, w);
    let b2 = le_encode(p2, h);
    let b3 = le_encode(q2, h);
    let b4 = le_encode(dp2, h);
    let b5 = le_encode(dq2, h);
    let b6 = le_encode(qinv2, h);
    let b7 = le_encode(d2, w);
    crate::wire::lemma_concat_parts_eq(
        a1 + a2 + a3 + a4 + a5 + a6,
        a7,
        b1 + b2 + b3 + b4 + b5 + b6,
        b7,
    );
    crate::wire::lemma_concat_parts_eq(a1 + a2 + a3 + a4 + a5, a6, b1 + b2 + b3 + b4 + b5, b6);
    crate::wire::lemma_concat_parts_eq(a1 + a2 + a3 + a4, a5, b1 + b2 + b3 + b4, b5);
    crate::wire::lemma_concat_parts_eq(a1 + a2 + a3, a4, b1 + b2 + b3, b4);
    crate::wire::lemma_concat_parts_eq(a1 + a2, a3, b1 + b2, b3);
    crate::wire::lemma_concat_parts_eq(a1, a2, b1, b2);
    crate::bignum::lemma_bignum_roundtrip(n1, w);
    crate::bignum::lemma_bignum_roundtrip(n2, w);
    crate::bignum::lemma_bignum_roundtrip(p1, h);
    crate::bignum::lemma_bignum_roundtrip(p2, h);
    crate::bignum::lemma_bignum_roundtrip(q1, h);
    crate::bignum::lemma_bignum_roundtrip(q2, h);
    crate::bignum::lemma_bignum_roundtrip(dp1, h);
    crate::bignum::lemma_bignum_roundtrip(dp2, h);
    crate::bignum::lemma_bignum_roundtrip(dq1, h);
    crate::bignum::lemma_bignum_roundtrip(dq2, h);
    crate::bignum::lemma_bignum_roundtrip(qinv1, h);
    crate::bignum::lemma_bignum_roundtrip(qinv2, h);
    crate::bignum::lemma_bignum_roundtrip(d1, w);
    crate::bignum::lemma_bignum_roundtrip(d2, w);
}

/// Copies a byte vector.
pub fn clone_bytes(v: &Vec<u8>) -> (r: Vec<u8>)
    ensures
        r@ == v@,
{
    let mut r: Vec<u8> = Vec::new();
    let mut i: usize = 0;
    while i < v.len()
        invariant
            i <= v@.len(),
            r@ == v@.take(i as int),
        decreases v@.len() - i,
    {
        let b = v[i];
        r.push(b);
        assert(r@ =~= v@.take(i + 1));
        i = i + 1;
    }
    assert(v@.take(v@.len() as int) =~= v@);
    r
}

} // verus!
