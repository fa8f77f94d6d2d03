//! The `.bisign` signature blob.

use vstd::prelude::*;
use crate::bignum::{
    be_val, is_minimal_be, le_encode, lemma_bignum_roundtrip, lemma_le_encode_decode, read_bignum,
    write_bignum,
};
use crate::wire::{
    ascii_name, header_bytes, header_candidate, lemma_concat_parts_eq, lemma_header_fields,
    lemma_subrange_split, lemma_u32_le_injective, push_cstring, push_u32_le, read_header,
    read_u32_le, u32_le_bytes,
};
use crate::{BISignError, BISignVersion};

verus! {

/// A BI signature: the signing key's public half and the three signature
/// integers, each as minimal big-endian bytes.
pub struct BISign {
    pub version: BISignVersion,
    pub name: String,
    pub length: u32,
    pub exponent: u32,
    pub n: Vec<u8>,
    pub sig1: Vec<u8>,
    pub sig2: Vec<u8>,
    pub sig3: Vec<u8>,
}

/// Well-formed signature fields: an ASCII authority, a plausible bit
/// length, and numbers that fit the modulus width.
pub open spec fn sign_fields_wf(
    name: Seq<char>,
    length: u32,
    n: Seq<u8>,
    s1: Seq<u8>,
    s2: Seq<u8>,
    s3: Seq<u8>,
) -> bool {
    &&& ascii_name(name)
    &&& length % 8 == 0
    &&& 368 <= length
    &&& is_minimal_be(n)
    &&& n.len() <= length as int / 8
    &&& be_val(n) > 0
    &&& is_minimal_be(s1)
    &&& s1.len() <= length as int / 8
    &&& is_minimal_be(s2)
    &&& s2.len() <= length as int / 8
    &&& is_minimal_be(s3)
    &&& s3.len() <= length as int / 8
}

/// What follows the header: the modulus, then each signature integer at
/// the modulus width behind its own four-byte width prefix, with the raw
/// version integer between the first and the second signature.
pub open spec fn sign_tail_v(
    v: u32,
    length: u32,
    n: Seq<u8>,
    s1: Seq<u8>,
    s2: Seq<u8>,
    s3: Seq<u8>,
) -> Seq<u8> {
    let w = length as int / 8;
    le_encode(n, w) + u32_le_bytes((length / 8) as u32) + le_encode(s1, w) + u32_le_bytes(v)
        + u32_le_bytes((length / 8) as u32) + le_encode(s2, w) + u32_le_bytes((length / 8) as u32)
        + le_encode(s3, w)
}

/// The tail of a signature of a known scheme version.
pub open spec fn sign_tail(
    version: BISignVersion,
    length: u32,
    n: Seq<u8>,
    s1: Seq<u8>,
    s2: Seq<u8>,
    s3: Seq<u8>,
) -> Seq<u8> {
    sign_tail_v(version.spec_u32(), length, n, s1, s2, s3)
}

/// The signature file layout.
pub open spec fn sign_bytes(
    name: Seq<char>,
    version: BISignVersion,
    length: u32,
    exponent: u32,
    n: Seq<u8>,
    s1: Seq<u8>,
    s2: Seq<u8>,
    s3: Seq<u8>,
) -> Seq<u8> {
    header_bytes(name, 6u8, 0x31u8, ((length / 8 + 20) as u32), length, exponent) + sign_tail(
        version,
        length,
        n,
        s1,
        s2,
        s3,
    )
}

/// Whether `whole` is laid out as a signature blob with these fields and
/// the raw integer `v` in the version slot, whatever `v` is.
pub open spec fn sign_shape(
    whole: Seq<u8>,
    name: Seq<char>,
    v: u32,
    length: u32,
    exponent: u32,
    n: Seq<u8>,
    s1: Seq<u8>,
    s2: Seq<u8>,
    s3: Seq<u8>,
) -> bool {
    whole == header_bytes(name, 6u8, 0x31u8, ((length / 8 + 20) as u32), length, exponent)
        + sign_tail_v(v, length, n, s1, s2, s3)
}

/// Whether `whole` is a well-formed signature blob in every respect except
/// that its version slot holds the raw integer `v`.
pub open spec fn sign_shape_with_version(whole: Seq<u8>, v: u32) -> bool {
    exists|name: Seq<char>, length: u32, exponent: u32, n: Seq<u8>, s1: Seq<u8>, s2: Seq<u8>, s3: Seq<u8>|
        sign_fields_wf(name, length, n, s1, s2, s3) && #[trigger] sign_shape(
            whole,
            name,
            v,
            length,
            exponent,
            n,
            s1,
            s2,
            s3,
        )
}

/// The bytes are not a signature blob under any version integer at all.
pub open spec fn no_sign_shape(whole: Seq<u8>) -> bool {
    forall|v: u32| !#[trigger] sign_shape_with_version(whole, v)
}

/// Whether `whole` is exactly the signature blob with these fields.
pub open spec fn sign_candidate(
    whole: Seq<u8>,
    name: Seq<char>,
    version: BISignVersion,
    length: u32,
    exponent: u32,
    n: Seq<u8>,
    s1: Seq<u8>,
    s2: Seq<u8>,
    s3: Seq<u8>,
) -> bool {
    whole == sign_bytes(name, version, length, exponent, n, s1, s2, s3)
}

/// No well-formed signature serializes to these bytes.
pub open spec fn no_sign_matches(whole: Seq<u8>) -> bool {
    forall|
        name: Seq<char>,
        version: BISignVersion,
        length: u32,
        exponent: u32,
        n: Seq<u8>,
        s1: Seq<u8>,
        s2: Seq<u8>,
        s3: Seq<u8>,
    |
        sign_fields_wf(name, length, n, s1, s2, s3) ==> !#[trigger] sign_candidate(
            whole,
            name,
            version,
            length,
            exponent,
            n,
            s1,
            s2,
            s3,
        )
}

/// Bytes no version integer can shape into a signature match no signature.
proof fn lemma_no_shape_no_sign(whole: Seq<u8>)
    requires
        no_sign_shape(whole),
    ensures
        no_sign_matches(whole),
{
    assert forall|
        name: Seq<char>,
        version: BISignVersion,
        length: u32,
        exponent: u32,
        n: Seq<u8>,
        s1: Seq<u8>,
        s2: Seq<u8>,
        s3: Seq<u8>,
    |
        sign_fields_wf(name, length, n, s1, s2, s3) implies !#[trigger] sign_candidate(
        whole,
        name,
        version,
        length,
        exponent,
        n,
        s1,
        s2,
        s3,
    ) by {
        if sign_candidate(whole, name, version, length, exponent, n, s1, s2, s3) {
            assert(sign_shape(
                whole,
                name,
                version.spec_u32(),
                length,
                exponent,
                n,
                s1,
                s2,
                s3,
            ));
            assert(sign_shape_with_version(whole, version.spec_u32()));
            assert(false);
        }
    }
}

/// The facts a signature read relies on for every blob shaped over
/// `whole`, once the header of `whole` is known: the shape carries the
/// header's fields and its number sections stand at fixed offsets.
pub open spec fn sign_aligned(
    whole: Seq<u8>,
    hname: Seq<char>,
    hlength: u32,
    hexponent: u32,
    pos: int,
) -> bool {
    forall|
        name: Seq<char>,
        v: u32,
        length: u32,
        exponent: u32,
        n: Seq<u8>,
        s1: Seq<u8>,
        s2: Seq<u8>,
        s3: Seq<u8>,
    |
        (sign_fields_wf(name, length, n, s1, s2, s3) && #[trigger] sign_shape(
            whole,
            name,
            v,
            length,
            exponent,
            n,
            s1,
            s2,
            s3,
        )) ==> {
            let w = hlength as int / 8;
            &&& name == hname
            &&& length == hlength
            &&& exponent == hexponent
            &&& whole.len() == pos + 4 * w + 16
            &&& whole.subrange(pos, pos + w) == le_encode(n, w)
            &&& whole.subrange(pos + w, pos + w + 4) == u32_le_bytes((hlength / 8) as u32)
            &&& whole.subrange(pos + w + 4, pos + 2 * w + 4) == le_encode(s1, w)
            &&& whole.subrange(pos + 2 * w + 4, pos + 2 * w + 8) == u32_le_bytes(v)
            &&& whole.subrange(pos + 2 * w + 8, pos + 2 * w + 12) == u32_le_bytes(
                (hlength / 8) as u32,
            )
            &&& whole.subrange(pos + 2 * w + 12, pos + 3 * w + 12) == le_encode(s2, w)
            &&& whole.subrange(pos + 3 * w + 12, pos + 3 * w + 16) == u32_le_bytes(
                (hlength / 8) as u32,
            )
            &&& whole.subrange(pos + 3 * w + 16, pos + 4 * w + 16) == le_encode(s3, w)
        }
}

/// Splits a signature tail standing at `pos` in `whole` into its eight
/// sections.
proof fn lemma_tail_sections(
    whole: Seq<u8>,
    pos: int,
    v: u32,
    length: u32,
    n: Seq<u8>,
    s1: Seq<u8>,
    s2: Seq<u8>,
    s3: Seq<u8>,
)
    requires
        0 <= pos <= whole.len(),
        whole.skip(pos) == sign_tail_v(v, length, n, s1, s2, s3),
    ensures
        ({
            let w = length as int / 8;
            &&& whole.len() == pos + 4 * w + 16
            &&& whole.subrange(pos, pos + w) == le_encode(n, w)
            &&& whole.subrange(pos + w, pos + w + 4) == u32_le_bytes((length / 8) as u32)
            &&& whole.subrange(pos + w + 4, pos + 2 * w + 4) == le_encode(s1, w)
            &&& whole.subrange(pos + 2 * w + 4, pos + 2 * w + 8) == u32_le_bytes(v)
            &&& whole.subrange(pos + 2 * w + 8, pos + 2 * w + 12) == u32_le_bytes(
                (length / 8) as u32,
            )
            &&& whole.subrange(pos + 2 * w + 12, pos + 3 * w + 12) == le_encode(s2, w)
            &&& whole.subrange(pos + 3 * w + 12, pos + 3 * w + 16) == u32_le_bytes(
                (length / 8) as u32,
            )
            &&& whole.subrange(pos + 3 * w + 16, pos + 4 * w + 16) == le_encode(s3, w)
        }),
{
    let w = length as int / 8;
    let tail = sign_tail_v(v, length, n, s1, s2, s3);
    let a1 = le_encode(n, w);
    let a2 = u32_le_bytes((length / 8) as u32);
    let a3 = le_encode(s1, w);
    let a4 = u32_le_bytes(v);
    let a5 = u32_le_bytes((length / 8) as u32);
    let a6 = le_encode(s2, w);
    let a7 = u32_le_bytes((length / 8) as u32);
    let a8 = le_encode(s3, w);
    assert(a1.len() == w && a3.len() == w && a6.len() == w && a8.len() == w);
    assert(a2.len() == 4 && a4.len() == 4 && a5.len() == 4 && a7.len() == 4);
    assert(tail.len() == 4 * w + 16);
    assert(whole.len() == pos + 4 * w + 16);
    let q8 = whole.subrange(pos + 3 * w + 16, pos + 4 * w + 16);
    let q7 = whole.subrange(pos + 3 * w + 12, pos + 3 * w + 16);
    let q6 = whole.subrange(pos + 2 * w + 12, pos + 3 * w + 12);
    let q5 = whole.subrange(pos + 2 * w + 8, pos + 2 * w + 12);
    let q4 = whole.subrange(pos + 2 * w + 4, pos + 2 * w + 8);
    let q3 = whole.subrange(pos + w + 4, pos + 2 * w + 4);
    let q2 = whole.subrange(pos + w, pos + w + 4);
    let c8 = whole.subrange(pos, pos + 4 * w + 16);
    let c7 = whole.subrange(pos, pos + 3 * w + 16);
    let c6 = whole.subrange(pos, pos + 3 * w + 12);
    let c5 = whole.subrange(pos, pos + 2 * w + 12);
    let c4 = whole.subrange(pos, pos + 2 * w + 8);
    let c3 = whole.subrange(pos, pos + 2 * w + 4);
    let c2 = whole.subrange(pos, pos + w + 4);
    let c1 = whole.subrange(pos, pos + w);
    assert(c8 =~= whole.skip(pos));
    lemma_subrange_split(whole, pos, pos + 3 * w + 16, pos + 4 * w + 16);
    lemma_concat_parts_eq(c7, q8, a1 + a2 + a3 + a4 + a5 + a6 + a7, a8);
    lemma_subrange_split(whole, pos, pos + 3 * w + 12, pos + 3 * w + 16);
    lemma_concat_parts_eq(c6, q7, a1 + a2 + a3 + a4 + a5 + a6, a7);
    lemma_subrange_split(whole, pos, pos + 2 * w + 12, pos + 3 * w + 12);
    lemma_concat_parts_eq(c5, q6, a1 + a2 + a3 + a4 + a5, a6);
    lemma_subrange_split(whole, pos, pos + 2 * w + 8, pos + 2 * w + 12);
    lemma_concat_parts_eq(c4, q5, a1 + a2 + a3 + a4, a5);
    lemma_subrange_split(whole, pos, pos + 2 * w + 4, pos + 2 * w + 8);
    lemma_concat_parts_eq(c3, q4, a1 + a2 + a3, a4);
    lemma_subrange_split(whole, pos, pos + w + 4, pos + 2 * w + 4);
    lemma_concat_parts_eq(c2, q3, a1 + a2, a3);
    lemma_subrange_split(whole, pos, pos + w, pos + w + 4);
    lemma_concat_parts_eq(c1, q2, a1, a2);
}

/// What any blob shaped as a signature over `whole` must look like, once
/// the header of `whole` has been read.
proof fn lemma_sign_shape_aligns(
    whole: Seq<u8>,
    hname: Seq<char>,
    hlength: u32,
    hexponent: u32,
    pos: int,
)
    requires
        ascii_name(hname),
        hlength % 8 == 0,
        368 <= hlength,
        pos == hname.len() + 25,
        pos <= whole.len(),
        whole.subrange(0, pos) == header_bytes(
            hname,
            6u8,
            0x31u8,
            ((hlength / 8 + 20) as u32),
            hlength,
            hexponent,
        ),
    ensures
        sign_aligned(whole, hname, hlength, hexponent, pos),
{
    assert forall|
        name: Seq<char>,
        v: u32,
        length: u32,
        exponent: u32,
        n: Seq<u8>,
        s1: Seq<u8>,
        s2: Seq<u8>,
        s3: Seq<u8>,
    |
        (sign_fields_wf(name, length, n, s1, s2, s3) && #[trigger] sign_shape(
            whole,
            name,
            v,
            length,
            exponent,
            n,
            s1,
            s2,
            s3,
        )) implies {
        let w = hlength as int / 8;
        &&& name == hname
        &&& length == hlength
        &&& exponent == hexponent
        &&& whole.len() == pos + 4 * w + 16
        &&& whole.subrange(pos, pos + w) == le_encode(n, w)
        &&& whole.subrange(pos + w, pos + w + 4) == u32_le_bytes((hlength / 8) as u32)
        &&& whole.subrange(pos + w + 4, pos + 2 * w + 4) == le_encode(s1, w)
        &&& whole.subrange(pos + 2 * w + 4, pos + 2 * w + 8) == u32_le_bytes(v)
        &&& whole.subrange(pos + 2 * w + 8, pos + 2 * w + 12) == u32_le_bytes((hlength / 8) as u32)
        &&& whole.subrange(pos + 2 * w + 12, pos + 3 * w + 12) == le_encode(s2, w)
        &&& whole.subrange(pos + 3 * w + 12, pos + 3 * w + 16) == u32_le_bytes((hlength / 8) as u32)
        &&& whole.subrange(pos + 3 * w + 16, pos + 4 * w + 16) == le_encode(s3, w)
    } by {
        let tail = sign_tail_v(v, length, n, s1, s2, s3);
        assert(header_candidate(whole, 6u8, 0x31u8, false, name, length, exponent, tail));
        assert(whole =~= header_bytes(
            hname,
            6u8,
            0x31u8,
            ((hlength / 8 + 20) as u32),
            hlength,
            hexponent,
        ) + whole.skip(pos));
        lemma_header_fields(
            whole,
            6u8,
            0x31u8,
            name,
            ((length / 8 + 20) as u32),
            length,
            exponent,
            tail,
            hname,
            ((hlength / 8 + 20) as u32),
            hlength,
            hexponent,
            whole.skip(pos),
        );
        lemma_tail_sections(whole, pos, v, length, n, s1, s2, s3);
    }
}

impl BISign {
    pub open spec fn wf(&self) -> bool {
        sign_fields_wf(self.name@, self.length, self.n@, self.sig1@, self.sig2@, self.sig3@)
    }

    pub open spec fn spec_serialize(&self) -> Seq<u8> {
        sign_bytes(
            self.name@,
            self.version,
            self.length,
            self.exponent,
            self.n@,
            self.sig1@,
            self.sig2@,
            self.sig3@,
        )
    }

    /// Serializes the signature into the `.bisign` layout.
    pub fn write(&self) -> (out: Vec<u8>)
        requires
            self.wf(),
        ensures
            out@ == self.spec_serialize(),
    {
        let width = (self.length / 8) as usize;
        let mut out: Vec<u8> = Vec::new();
        push_cstring(&mut out, &self.name);
        push_u32_le(&mut out, self.length / 8 + 20);
        out.push(6);
        out.push(2);
        out.push(0);
        out.push(0);
        out.push(0);
        out.push(0x24);
        out.push(0);
        out.push(0);
        out.push(0x52);
        out.push(0x53);
        out.push(0x41);
        out.push(0x31);
        push_u32_le(&mut out, self.length);
        push_u32_le(&mut out, self.exponent);
        assert(out@ =~= header_bytes(
            self.name@,
            6u8,
            0x31u8,
            ((self.length / 8 + 20) as u32),
            self.length,
            self.exponent,
        ));
        let mut tail: Vec<u8> = Vec::new();
        write_bignum(&mut tail, &self.n, width);
        push_u32_le(&mut tail, self.length / 8);
        write_bignum(&mut tail, &self.sig1, width);
        push_u32_le(&mut tail, self.version.to_u32());
        push_u32_le(&mut tail, self.length / 8);
        write_bignum(&mut tail, &self.sig2, width);
        push_u32_le(&mut tail, self.length / 8);
        write_bignum(&mut tail, &self.sig3, width);
        assert(tail@ == sign_tail(
            self.version,
            self.length,
            self.n@,
            self.sig1@,
            self.sig2@,
            self.sig3@,
        ));
        crate::hashes::append_bytes(&mut out, &tail);
        out
    }

    /// Parses a `.bisign` blob. The whole buffer must be one signature.
    /// An unknown version integer is reported as such exactly when the
    /// rest of the blob is sound; every other defect is a malformed blob,
    /// and on any failure no well-formed signature serializes to the
    /// buffer.
    #[verifier::rlimit(100)]
    pub fn read(bytes: &Vec<u8>) -> (r: Result<BISign, BISignError>)
        ensures
            r matches Ok(s) ==> s.wf() && s.spec_serialize() == bytes@,
            r is Err ==> no_sign_matches(bytes@),
            r matches Err(BISignError::UnknownVersion(v)) ==> v != 2 && v != 3
                && sign_shape_with_version(bytes@, v),
            forall|v: u32|
                (v != 2 && v != 3 && #[trigger] sign_shape_with_version(bytes@, v)) ==> r
                    == Result::<BISign, BISignError>::Err(BISignError::UnknownVersion(v)),
            r matches Err(BISignError::MalformedBlob) ==> no_sign_shape(bytes@),
            match r {
                Ok(_) => true,
                Err(e) => match e {
                    BISignError::MalformedBlob => true,
                    BISignError::UnknownVersion(v) => v != 2 && v != 3,
                    _ => false,
                },
            },
    {
        let ghost whole = bytes@;
        let hdr = match read_header(bytes, 6, 0x31, false) {
            Some(h) => h,
            None => {
                proof {
                    no_header_no_sign(whole);
                    lemma_no_shape_no_sign(whole);
                }
                return Err(BISignError::MalformedBlob);
            },
        };
        let (name, length, exponent, pos) = hdr;
        proof {
            lemma_sign_shape_aligns(whole, name@, length, exponent, pos as int);
        }
        let width = (length / 8) as usize;
        if bytes.len() - pos != 4 * width + 16 {
            proof {
                sign_contra_whole(whole, name@, length, exponent, pos as int);
            }
            return Err(BISignError::MalformedBlob);
        }
        let n = read_bignum(bytes, pos, width);
        if n.len() == 0 {
            proof {
                assert(n@ =~= Seq::<u8>::empty());
                assert(crate::bignum::be_decode(
                    whole.subrange(pos as int, pos as int + length as int / 8),
                ) == n@);
                sign_contra_zero_modulus(whole, name@, length, exponent, pos as int);
            }
            return Err(BISignError::MalformedBlob);
        }
        let p1 = pos + width;
        let len1 = read_u32_le(bytes, p1).unwrap();
        if len1 != length / 8 {
            proof {
                sign_contra_u32(whole, name@, length, exponent, pos as int, len1, pos as int
                    + (length as int / 8));
            }
            return Err(BISignError::MalformedBlob);
        }
        let s1 = read_bignum(bytes, p1 + 4, width);
        let pv = p1 + 4 + width;
        let p2 = pv + 4;
        let len2 = read_u32_le(bytes, p2).unwrap();
        if len2 != length / 8 {
            proof {
                sign_contra_u32(whole, name@, length, exponent, pos as int, len2, pos as int + 2
                    * (length as int / 8) + 8);
            }
            return Err(BISignError::MalformedBlob);
        }
        let s2 = read_bignum(bytes, p2 + 4, width);
        let p3 = p2 + 4 + width;
        let len3 = read_u32_le(bytes, p3).unwrap();
        if len3 != length / 8 {
            proof {
                sign_contra_u32(whole, name@, length, exponent, pos as int, len3, pos as int + 3
                    * (length as int / 8) + 12);
            }
            return Err(BISignError::MalformedBlob);
        }
        let s3 = read_bignum(bytes, p3 + 4, width);
        let vnum = read_u32_le(bytes, pv).unwrap();
        proof {
            // the buffer is, at this point, a signature blob in shape,
            // with vnum in the version slot and the decoded numbers
            let w = length as int / 8;
            let p = pos as int;
            crate::bignum::lemma_be_val_lower(n@);
            vstd::arithmetic::power::lemma_pow_positive(256, (n@.len() - 1) as nat);
            lemma_le_encode_decode(whole.subrange(p, p + w));
            lemma_le_encode_decode(whole.subrange(p + w + 4, p + 2 * w + 4));
            lemma_le_encode_decode(whole.subrange(p + 2 * w + 12, p + 3 * w + 12));
            lemma_le_encode_decode(whole.subrange(p + 3 * w + 16, p + 4 * w + 16));
            assert(le_encode(n@, w) == whole.subrange(p, p + w));
            assert(le_encode(s1@, w) == whole.subrange(p + w + 4, p + 2 * w + 4));
            assert(le_encode(s2@, w) == whole.subrange(p + 2 * w + 12, p + 3 * w + 12));
            assert(le_encode(s3@, w) == whole.subrange(p + 3 * w + 16, p + 4 * w + 16));
            assert(u32_le_bytes((length / 8) as u32) == whole.subrange(p + w, p + w + 4));
            assert(u32_le_bytes(vnum) == whole.subrange(p + 2 * w + 4, p + 2 * w + 8));
            assert(u32_le_bytes((length / 8) as u32) == whole.subrange(
                p + 2 * w + 8,
                p + 2 * w + 12,
            ));
            assert(u32_le_bytes((length / 8) as u32) == whole.subrange(
                p + 3 * w + 12,
                p + 3 * w + 16,
            ));
            lemma_subrange_split(whole, p, p + w, p + w + 4);
            lemma_subrange_split(whole, p, p + w + 4, p + 2 * w + 4);
            lemma_subrange_split(whole, p, p + 2 * w + 4, p + 2 * w + 8);
            lemma_subrange_split(whole, p, p + 2 * w + 8, p + 2 * w + 12);
            lemma_subrange_split(whole, p, p + 2 * w + 12, p + 3 * w + 12);
            lemma_subrange_split(whole, p, p + 3 * w + 12, p + 3 * w + 16);
            lemma_subrange_split(whole, p, p + 3 * w + 16, p + 4 * w + 16);
            assert(whole.subrange(p, p + 4 * w + 16) == sign_tail_v(
                vnum,
                length,
                n@,
                s1@,
                s2@,
                s3@,
            ));
            assert(whole.subrange(p, p + 4 * w + 16) =~= whole.skip(p));
            assert(whole =~= whole.subrange(0, p) + whole.skip(p));
            assert(sign_shape(whole, name@, vnum, length, exponent, n@, s1@, s2@, s3@));
            assert(sign_shape_with_version(whole, vnum));
            lemma_shape_version_pinned(whole, name@, length, exponent, pos as int, vnum);
        }
        let version = match BISignVersion::try_from_u32(vnum) {
            Some(v) => v,
            None => {
                proof {
                    sign_contra_version(whole, name@, length, exponent, pos as int, vnum);
                }
                return Err(BISignError::UnknownVersion(vnum));
            },
        };
        let sig = BISign { version, name, length, exponent, n, sig1: s1, sig2: s2, sig3: s3 };
        proof {
            assert(sig.spec_serialize() == whole);
        }
        Ok(sig)
    }
}

/// When no blob header begins the buffer, no signature shape matches it.
proof fn no_header_no_sign(whole: Seq<u8>)
    requires
        forall|name: Seq<char>, length: u32, exponent: u32, rest: Seq<u8>|
            (ascii_name(name) && length % 8 == 0 && 368 <= length) ==> !#[trigger] header_candidate(
                whole,
                6u8,
                0x31u8,
                false,
                name,
                length,
                exponent,
                rest,
            ),
    ensures
        no_sign_shape(whole),
{
    assert forall|v: u32| !#[trigger] sign_shape_with_version(whole, v) by {
        if sign_shape_with_version(whole, v) {
            let (name, length, exponent, n, s1, s2, s3) = choose|
                name: Seq<char>,
                length: u32,
                exponent: u32,
                n: Seq<u8>,
                s1: Seq<u8>,
                s2: Seq<u8>,
                s3: Seq<u8>,
            |
                sign_fields_wf(name, length, n, s1, s2, s3) && #[trigger] sign_shape(
                    whole,
                    name,
                    v,
                    length,
                    exponent,
                    n,
                    s1,
                    s2,
                    s3,
                );
            assert(header_candidate(
                whole,
                6u8,
                0x31u8,
                false,
                name,
                length,
                exponent,
                sign_tail_v(v, length, n, s1, s2, s3),
            ));
            assert(false);
        }
    }
}

/// Contradiction helper: every shaped blob has the aligned total length,
/// but the buffer's differs.
proof fn sign_contra_whole(whole: Seq<u8>, hname: Seq<char>, hlength: u32, hexponent: u32, pos: int)
    requires
        sign_aligned(whole, hname, hlength, hexponent, pos),
        whole.len() != pos + 4 * (hlength as int / 8) + 16,
    ensures
        no_sign_shape(whole),
        no_sign_matches(whole),
{
    assert forall|v: u32| !#[trigger] sign_shape_with_version(whole, v) by {
        if sign_shape_with_version(whole, v) {
            let (name, length, exponent, n, s1, s2, s3) = choose|
                name: Seq<char>,
                length: u32,
                exponent: u32,
                n: Seq<u8>,
                s1: Seq<u8>,
                s2: Seq<u8>,
                s3: Seq<u8>,
            |
                sign_fields_wf(name, length, n, s1, s2, s3) && #[trigger] sign_shape(
                    whole,
                    name,
                    v,
                    length,
                    exponent,
                    n,
                    s1,
                    s2,
                    s3,
                );
            assert(false);
        }
    }
    lemma_no_shape_no_sign(whole);
}

/// Contradiction helper: every shaped blob carries a nonzero modulus, but
/// the modulus section decodes to zero.
proof fn sign_contra_zero_modulus(
    whole: Seq<u8>,
    hname: Seq<char>,
    hlength: u32,
    hexponent: u32,
    pos: int,
)
    requires
        sign_aligned(whole, hname, hlength, hexponent, pos),
        0 <= pos,
        pos + hlength as int / 8 <= whole.len(),
        crate::bignum::be_decode(whole.subrange(pos, pos + hlength as int / 8))
            == Seq::<u8>::empty(),
    ensures
        no_sign_shape(whole),
        no_sign_matches(whole),
{
    assert forall|v: u32| !#[trigger] sign_shape_with_version(whole, v) by {
        if sign_shape_with_version(whole, v) {
            let (name, length, exponent, n, s1, s2, s3) = choose|
                name: Seq<char>,
                length: u32,
                exponent: u32,
                n: Seq<u8>,
                s1: Seq<u8>,
                s2: Seq<u8>,
                s3: Seq<u8>,
            |
                sign_fields_wf(name, length, n, s1, s2, s3) && #[trigger] sign_shape(
                    whole,
                    name,
                    v,
                    length,
                    exponent,
                    n,
                    s1,
                    s2,
                    s3,
                );
            let w = hlength as int / 8;
            lemma_bignum_roundtrip(n, w);
            assert(n == Seq::<u8>::empty());
            assert(be_val(n) == 0);
            assert(false);
        }
    }
    lemma_no_shape_no_sign(whole);
}

/// Contradiction helper: every shaped blob writes `length / 8` in each
/// width prefix, but the scan read `seen` at one of them.
proof fn sign_contra_u32(
    whole: Seq<u8>,
    hname: Seq<char>,
    hlength: u32,
    hexponent: u32,
    pos: int,
    seen: u32,
    off: int,
)
    requires
        sign_aligned(whole, hname, hlength, hexponent, pos),
        seen != hlength / 8,
        0 <= off,
        off + 4 <= whole.len(),
        whole.subrange(off, off + 4) == u32_le_bytes(seen),
        off == pos + (hlength as int / 8) || off == pos + 2 * (hlength as int / 8) + 8 || off == pos
            + 3 * (hlength as int / 8) + 12,
    ensures
        no_sign_shape(whole),
        no_sign_matches(whole),
{
    assert forall|v: u32| !#[trigger] sign_shape_with_version(whole, v) by {
        if sign_shape_with_version(whole, v) {
            let (name, length, exponent, n, s1, s2, s3) = choose|
                name: Seq<char>,
                length: u32,
                exponent: u32,
                n: Seq<u8>,
                s1: Seq<u8>,
                s2: Seq<u8>,
                s3: Seq<u8>,
            |
                sign_fields_wf(name, length, n, s1, s2, s3) && #[trigger] sign_shape(
                    whole,
                    name,
                    v,
                    length,
                    exponent,
                    n,
                    s1,
                    s2,
                    s3,
                );
            lemma_u32_le_injective(seen, (hlength / 8) as u32);
            assert(false);
        }
    }
    lemma_no_shape_no_sign(whole);
}

/// Every shape over a buffer whose version slot spells `vnum` carries
/// exactly `vnum`.
proof fn lemma_shape_version_pinned(
    whole: Seq<u8>,
    hname: Seq<char>,
    hlength: u32,
    hexponent: u32,
    pos: int,
    vnum: u32,
)
    requires
        sign_aligned(whole, hname, hlength, hexponent, pos),
        0 <= pos,
        pos + 2 * (hlength as int / 8) + 8 <= whole.len(),
        whole.subrange(pos + 2 * (hlength as int / 8) + 4, pos + 2 * (hlength as int / 8) + 8)
            == u32_le_bytes(vnum),
    ensures
        forall|v: u32| #[trigger] sign_shape_with_version(whole, v) ==> v == vnum,
{
    assert forall|v: u32| #[trigger] sign_shape_with_version(whole, v) implies v == vnum by {
        let (name, length, exponent, n, s1, s2, s3) = choose|
            name: Seq<char>,
            length: u32,
            exponent: u32,
            n: Seq<u8>,
            s1: Seq<u8>,
            s2: Seq<u8>,
            s3: Seq<u8>,
        |
            sign_fields_wf(name, length, n, s1, s2, s3) && #[trigger] sign_shape(
                whole,
                name,
                v,
                length,
                exponent,
                n,
                s1,
                s2,
                s3,
            );
        lemma_u32_le_injective(v, vnum);
    }
}

/// Contradiction helper: every candidate signature writes its version, 2
/// or 3, where the scan read `seen`.
proof fn sign_contra_version(
    whole: Seq<u8>,
    hname: Seq<char>,
    hlength: u32,
    hexponent: u32,
    pos: int,
    seen: u32,
)
    requires
        sign_aligned(whole, hname, hlength, hexponent, pos),
        seen != 2 && seen != 3,
        0 <= pos,
        pos + 2 * (hlength as int / 8) + 8 <= whole.len(),
        whole.subrange(pos + 2 * (hlength as int / 8) + 4, pos + 2 * (hlength as int / 8) + 8)
            == u32_le_bytes(seen),
    ensures
        no_sign_matches(whole),
{
    assert forall|
        name: Seq<char>,
        version: BISignVersion,
        length: u32,
        exponent: u32,
        n: Seq<u8>,
        s1: Seq<u8>,
        s2: Seq<u8>,
        s3: Seq<u8>,
    |
        sign_fields_wf(name, length, n, s1, s2, s3) implies !#[trigger] sign_candidate(
        whole,
        name,
        version,
        length,
        exponent,
        n,
        s1,
        s2,
        s3,
    ) by {
        if sign_candidate(whole, name, version, length, exponent, n, s1, s2, s3) {
            assert(sign_shape(
                whole,
                name,
                version.spec_u32(),
                length,
                exponent,
                n,
                s1,
                s2,
                s3,
            ));
            lemma_u32_le_injective(version.spec_u32(), seen);
            assert(false);
        }
    }
}

/// Two well-formed signatures with one serialization are one signature:
/// the blob determines every field.
pub proof fn lemma_sign_serialize_injective(
    name1: Seq<char>,
    version1: BISignVersion,
    length1: u32,
    exponent1: u32,
    n1: Seq<u8>,
    s11: Seq<u8>,
    s12: Seq<u8>,
    s13: Seq<u8>,
    name2: Seq<char>,
    version2: BISignVersion,
    length2: u32,
    exponent2: u32,
    n2: Seq<u8>,
    s21: Seq<u8>,
    s22: Seq<u8>,
    s23: Seq<u8>,
)
    requires
        sign_fields_wf(name1, length1, n1, s11, s12, s13),
        sign_fields_wf(name2, length2, n2, s21, s22, s23),
        sign_bytes(name1, version1, length1, exponent1, n1, s11, s12, s13) == sign_bytes(
            name2,
            version2,
            length2,
            exponent2,
            n2,
            s21,
            s22,
            s23,
        ),
    ensures
        name1 == name2,
        version1 == version2,
        length1 == length2,
        exponent1 == exponent2,
        n1 == n2,
        s11 == s21,
        s12 == s22,
        s13 == s23,
{
    let whole = sign_bytes(name1, version1, length1, exponent1, n1, s11, s12, s13);
    let header = header_bytes(
        name1,
        6u8,
        0x31u8,
        ((length1 / 8 + 20) as u32),
        length1,
        exponent1,
    );
    let pos = name1.len() + 25;
    assert(header.len() == pos);
    assert(whole.subrange(0, pos as int) =~= header);
    lemma_sign_shape_aligns(whole, name1, length1, exponent1, pos as int);
    assert(sign_shape(whole, name1, version1.spec_u32(), length1, exponent1, n1, s11, s12, s13));
    assert(sign_shape(whole, name2, version2.spec_u32(), length2, exponent2, n2, s21, s22, s23));
    let w = length1 as int / 8;
    lemma_u32_le_injective(version1.spec_u32(), version2.spec_u32());
    assert(version1 == version2);
    lemma_bignum_roundtrip(n1, w);
    lemma_bignum_roundtrip(n2, w);
    lemma_bignum_roundtrip(s11, w);
    lemma_bignum_roundtrip(s21, w);
    lemma_bignum_roundtrip(s12, w);
    lemma_bignum_roundtrip(s22, w);
    lemma_bignum_roundtrip(s13, w);
    lemma_bignum_roundtrip(s23, w);
}

} // verus!
