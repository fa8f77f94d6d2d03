//! The digest construction protocol.
//!
//! Three digests are derived from an archive: `hash1` is its stored
//! checksum; `hash2` is the SHA-1 of checksum, name hash and prefix;
//! `hash3` is the SHA-1 of body hash, name hash and prefix. Each is wrapped
//! in PKCS#1 v1.5 block-type-01 padding to the width of the key's modulus.

use vstd::prelude::*;
use crate::BISignVersion;
use crate::crypto::{sha1, sha1_of};
use crate::pbo::{
    ascii_lower, included, is_included, insert_lex, lower_bytes, sort_bytes, sort_lex, views, Pbo,
    PboEntryView, PboView,
};

verus! {

/// The lowercased names of the non-empty files, in the archive's order.
pub open spec fn lowered_names(files: Seq<PboEntryView>) -> Seq<Seq<u8>>
    decreases files.len(),
{
    if files.len() == 0 {
        Seq::empty()
    } else {
        let rest = lowered_names(files.drop_last());
        if files.last().data.len() > 0 {
            rest.push(ascii_lower(files.last().filename))
        } else {
            rest
        }
    }
}

/// The concatenation of a sequence of byte strings.
pub open spec fn concat_all(s: Seq<Seq<u8>>) -> Seq<u8>
    decreases s.len(),
{
    if s.len() == 0 {
        Seq::empty()
    } else {
        concat_all(s.drop_last()) + s.last()
    }
}

/// The bytes hashed into the name hash: the lowercased names of all
/// non-empty files, sorted, concatenated without separators.
pub open spec fn name_hash_input(files: Seq<PboEntryView>) -> Seq<u8> {
    concat_all(sort_lex(lowered_names(files)))
}

/// The concatenation of the bodies the version filter admits, in the
/// archive's natural order.
pub open spec fn bodies_concat(files: Seq<PboEntryView>, version: BISignVersion) -> Seq<u8>
    decreases files.len(),
{
    if files.len() == 0 {
        Seq::empty()
    } else {
        bodies_concat(files.drop_last(), version) + if included(files.last().filename, version) {
            files.last().data
        } else {
            Seq::empty()
        }
    }
}

/// Whether the version filter admits no file at all.
pub open spec fn none_included(files: Seq<PboEntryView>, version: BISignVersion) -> bool {
    forall|i: int| 0 <= i < files.len() ==> !included(#[trigger] files[i].filename, version)
}

/// The literal hashed in place of an empty file selection: `nothing` for
/// V2, `gnihton` for V3.
pub open spec fn sentinel(version: BISignVersion) -> Seq<u8> {
    match version {
        BISignVersion::V2 => seq![110u8, 111, 116, 104, 105, 110, 103],
        BISignVersion::V3 => seq![103u8, 110, 105, 104, 116, 111, 110],
    }
}

/// The bytes hashed into the body hash.
pub open spec fn file_hash_input(files: Seq<PboEntryView>, version: BISignVersion) -> Seq<u8> {
    if none_included(files, version) {
        sentinel(version)
    } else {
        bodies_concat(files, version)
    }
}

/// The prefix bytes fed into `hash2` and `hash3`: nothing when the archive
/// declares no prefix; otherwise the prefix with a single trailing
/// backslash added if it does not already end with one.
pub open spec fn prefix_bytes(prefix: Option<Seq<u8>>) -> Seq<u8> {
    match prefix {
        None => Seq::empty(),
        Some(s) => if s.len() > 0 && s.last() == 92 {
            s
        } else {
            s + seq![92u8]
        },
    }
}

/// The bytes whose SHA-1 is `hash2`.
pub open spec fn hash2_input(pbo: PboView) -> Seq<u8> {
    pbo.checksum + sha1_of(name_hash_input(pbo.files)) + prefix_bytes(pbo.prefix)
}

/// The bytes whose SHA-1 is `hash3`.
pub open spec fn hash3_input(pbo: PboView, version: BISignVersion) -> Seq<u8> {
    sha1_of(file_hash_input(pbo.files, version)) + sha1_of(name_hash_input(pbo.files))
        + prefix_bytes(pbo.prefix)
}

/// The SHA-1 `AlgorithmIdentifier` and octet-string tag preceding the
/// digest inside the padding.
pub open spec fn asn1_sha1_prefix() -> Seq<u8> {
    seq![0u8, 0x30, 0x21, 0x30, 0x09, 0x06, 0x05, 0x2b, 0x0e, 0x03, 0x02, 0x1a, 0x05, 0x00, 0x04, 0x14]
}

/// PKCS#1 v1.5 block-type-01 padding of a 20-byte digest to `width` bytes,
/// before the little-endian byte reversal.
pub open spec fn padded(digest: Seq<u8>, width: int) -> Seq<u8> {
    seq![0u8, 1u8] + Seq::new((width - 38) as nat, |i: int| 255u8) + asn1_sha1_prefix() + digest
}

/// A padded digest fills its width exactly and starts `00 01 FF`.
pub proof fn lemma_padded_shape(digest: Seq<u8>, width: int)
    requires
        digest.len() == 20,
        width >= 46,
    ensures
        padded(digest, width).len() == width,
        padded(digest, width)[0] == 0u8,
        padded(digest, width)[1] == 1u8,
        padded(digest, width)[2] == 255u8,
{
}

/// When the version filter admits no file, the body hash covers exactly
/// the sentinel literal.
pub proof fn lemma_empty_filter_sentinel(files: Seq<PboEntryView>, version: BISignVersion)
    requires
        none_included(files, version),
    ensures
        file_hash_input(files, version) == sentinel(version),
{
}

/// The prefix bytes equal the prefix itself when it ends with a backslash,
/// and the prefix followed by one backslash otherwise.
pub proof fn lemma_prefix_canonical(s: Seq<u8>)
    ensures
        s.len() > 0 && s.last() == 92 ==> prefix_bytes(Some(s)) == s,
        !(s.len() > 0 && s.last() == 92) ==> prefix_bytes(Some(s)) == s + seq![92u8],
{
}

/// Appends a copy of `src` to `out`.
pub fn append_bytes(out: &mut Vec<u8>, src: &Vec<u8>)
    ensures
        final(out)@ == old(out)@ + src@,
{
    let ghost start = out@;
    let mut i: usize = 0;
    while i < src.len()
        invariant
            i <= src@.len(),
            out@ == start + src@.take(i as int),
        decreases src@.len() - i,
    {
        let b = src[i];
        out.push(b);
        assert(out@ =~= start + src@.take(i + 1));
        i = i + 1;
    }
    assert(start + src@.take(src@.len() as int) =~= start + src@);
}

/// Appends the canonical prefix bytes.
fn append_prefix(out: &mut Vec<u8>, prefix: &Option<Vec<u8>>)
    ensures
        final(out)@ == old(out)@ + prefix_bytes(
            match *prefix {
                Some(ref p) => Some(p@),
                None => None,
            },
        ),
{
    match prefix {
        None => {
            assert(out@ =~= out@ + Seq::<u8>::empty());
        },
        Some(p) => {
            append_bytes(out, p);
            if !(p.len() > 0 && p[p.len() - 1] == 92) {
                out.push(92);
                assert(out@ =~= old(out)@ + (p@ + seq![92u8]));
            }
        },
    }
}

/// SHA-1 over the sorted, lowercased names of all non-empty files.
pub fn namehash(pbo: &Pbo) -> (r: Vec<u8>)
    ensures
        r@ == sha1_of(name_hash_input(pbo@.files)),
        r@.len() == 20,
{
    let ghost fv = pbo@.files;
    let mut names: Vec<Vec<u8>> = Vec::new();
    let mut i: usize = 0;
    while i < pbo.files.len()
        invariant
            i <= pbo.files@.len(),
            fv == pbo@.files,
            fv.len() == pbo.files@.len(),
            views(names@) == lowered_names(fv.take(i as int)),
        decreases pbo.files@.len() - i,
    {
        let ghost pre = views(names@);
        if pbo.files[i].data.len() > 0 {
            let lowered = lower_bytes(&pbo.files[i].filename);
            names.push(lowered);
            assert(views(names@) =~= pre.push(ascii_lower(fv[i as int].filename)));
        }
        proof {
            assert(fv.take(i + 1).drop_last() =~= fv.take(i as int));
            assert(fv.take(i + 1).last() == fv[i as int]);
        }
        i = i + 1;
    }
    assert(fv.take(fv.len() as int) =~= fv);
    let sorted = sort_bytes(names);
    let mut input: Vec<u8> = Vec::new();
    let ghost sv = views(sorted@);
    let mut j: usize = 0;
    while j < sorted.len()
        invariant
            j <= sorted@.len(),
            sv == views(sorted@),
            sv.len() == sorted@.len(),
            input@ == concat_all(sv.take(j as int)),
        decreases sorted@.len() - j,
    {
        append_bytes(&mut input, &sorted[j]);
        proof {
            assert(sv.take(j + 1).drop_last() =~= sv.take(j as int));
            assert(sv.take(j + 1).last() == sv[j as int]);
            assert(sv[j as int] == sorted@[j as int]@);
        }
        j = j + 1;
    }
    assert(sv.take(sv.len() as int) =~= sv);
    sha1(&input)
}

proof fn lemma_none_included_bodies_empty(files: Seq<PboEntryView>, version: BISignVersion)
    requires
        none_included(files, version),
    ensures
        bodies_concat(files, version) == Seq::<u8>::empty(),
    decreases files.len(),
{
    if files.len() > 0 {
        assert(!included(files[files.len() - 1].filename, version));
        assert(none_included(files.drop_last(), version)) by {
            assert(forall|i: int|
                0 <= i < files.len() - 1 ==> files.drop_last()[i] == files[i]);
        }
        lemma_none_included_bodies_empty(files.drop_last(), version);
        assert(bodies_concat(files, version) =~= Seq::<u8>::empty());
    }
}

/// SHA-1 over the bodies the version filter admits, in natural order, or
/// over the sentinel literal when it admits none.
pub fn filehash(pbo: &Pbo, version: BISignVersion) -> (r: Vec<u8>)
    ensures
        r@ == sha1_of(file_hash_input(pbo@.files, version)),
        r@.len() == 20,
{
    let ghost fv = pbo@.files;
    let mut input: Vec<u8> = Vec::new();
    let mut nothing = true;
    let mut i: usize = 0;
    while i < pbo.files.len()
        invariant
            i <= pbo.files@.len(),
            fv == pbo@.files,
            fv.len() == pbo.files@.len(),
            input@ == bodies_concat(fv.take(i as int), version),
            nothing == none_included(fv.take(i as int), version),
        decreases pbo.files@.len() - i,
    {
        let ghost pre = input@;
        let inc = is_included(&pbo.files[i].filename, version);
        if inc {
            append_bytes(&mut input, &pbo.files[i].data);
            nothing = false;
        }
        proof {
            assert(fv.take(i + 1).drop_last() =~= fv.take(i as int));
            assert(fv.take(i + 1).last() == fv[i as int]);
            if inc {
                assert(included(fv.take(i + 1)[i as int].filename, version));
                assert(!none_included(fv.take(i + 1), version));
                assert(input@ =~= bodies_concat(fv.take(i + 1), version));
            } else {
                assert(input@ =~= pre + Seq::<u8>::empty());
                assert(none_included(fv.take(i + 1), version) == none_included(
                    fv.take(i as int),
                    version,
                )) by {
                    assert(forall|k: int|
                        0 <= k < i ==> fv.take(i + 1)[k] == fv.take(i as int)[k]);
                    if none_included(fv.take(i as int), version) {
                        assert(forall|k: int|
                            0 <= k < i + 1 ==> !included(
                                #[trigger] fv.take(i + 1)[k].filename,
                                version,
                            ));
                    } else {
                        let w = choose|k: int|
                            0 <= k < i && included(#[trigger] fv.take(i as int)[k].filename, version);
                        assert(included(fv.take(i + 1)[w].filename, version));
                    }
                }
            }
        }
        i = i + 1;
    }
    assert(fv.take(fv.len() as int) =~= fv);
    if nothing {
        proof {
            lemma_none_included_bodies_empty(fv, version);
        }
        match version {
            BISignVersion::V2 => {
                input.push(110);
                input.push(111);
                input.push(116);
                input.push(104);
                input.push(105);
                input.push(110);
                input.push(103);
            },
            BISignVersion::V3 => {
                input.push(103);
                input.push(110);
                input.push(105);
                input.push(104);
                input.push(116);
                input.push(111);
                input.push(110);
            },
        }
        assert(input@ =~= sentinel(version));
    }
    sha1(&input)
}

/// Wraps a 20-byte digest in the scheme's padding: `00 01`, a run of `FF`
/// filling to `size - 36`, the SHA-1 algorithm identifier, the digest.
pub fn pad_hash(hash: &Vec<u8>, size: usize) -> (r: Vec<u8>)
    requires
        hash@.len() == 20,
        size >= 46,
    ensures
        r@ == padded(hash@, size as int),
{
    let mut r: Vec<u8> = Vec::new();
    r.push(0);
    r.push(1);
    assert(r@ =~= seq![0u8, 1u8] + Seq::new(0, |i: int| 255u8));
    while r.len() < size - 36
        invariant
            2 <= r@.len() <= size - 36,
            size >= 46,
            r@ == seq![0u8, 1u8] + Seq::new((r@.len() - 2) as nat, |i: int| 255u8),
        decreases size - 36 - r@.len(),
    {
        r.push(255);
        assert(r@ =~= seq![0u8, 1u8] + Seq::new((r@.len() - 2) as nat, |i: int| 255u8));
    }
    r.push(0x00);
    r.push(0x30);
    r.push(0x21);
    r.push(0x30);
    r.push(0x09);
    r.push(0x06);
    r.push(0x05);
    r.push(0x2b);
    r.push(0x0e);
    r.push(0x03);
    r.push(0x02);
    r.push(0x1a);
    r.push(0x05);
    r.push(0x00);
    r.push(0x04);
    r.push(0x14);
    append_bytes(&mut r, hash);
    assert(r@ =~= padded(hash@, size as int));
    r
}

/// Derives the three padded digests of an archive for a scheme version and
/// a modulus bit length.
pub fn generate_hashes(pbo: &Pbo, version: BISignVersion, length: u32) -> (r: (
    Vec<u8>,
    Vec<u8>,
    Vec<u8>,
))
    requires
        pbo@.wf(),
        length % 8 == 0,
        length >= 368,
    ensures
        r.0@ == padded(pbo@.checksum, length as int / 8),
        r.1@ == padded(sha1_of(hash2_input(pbo@)), length as int / 8),
        r.2@ == padded(sha1_of(hash3_input(pbo@, version)), length as int / 8),
{
    let width = (length / 8) as usize;
    let nh = namehash(pbo);
    let fh = filehash(pbo, version);

    let mut in2: Vec<u8> = Vec::new();
    append_bytes(&mut in2, &pbo.checksum);
    append_bytes(&mut in2, &nh);
    append_prefix(&mut in2, &pbo.prefix);
    assert(in2@ =~= hash2_input(pbo@));
    let h2 = sha1(&in2);

    let mut in3: Vec<u8> = Vec::new();
    append_bytes(&mut in3, &fh);
    append_bytes(&mut in3, &nh);
    append_prefix(&mut in3, &pbo.prefix);
    assert(in3@ =~= hash3_input(pbo@, version));
    let h3 = sha1(&in3);

    let p1 = pad_hash(&pbo.checksum, width);
    let p2 = pad_hash(&h2, width);
    let p3 = pad_hash(&h3, width);
    (p1, p2, p3)
}

} // verus!
