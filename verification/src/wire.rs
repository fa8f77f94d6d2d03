//! Primitives of the blob wire format: little-endian 32-bit integers and
//! null-terminated ASCII strings, over plain byte buffers.

use vstd::prelude::*;
use crate::crypto::ascii_to_string;

verus! {

/// The four little-endian bytes of a 32-bit integer.
pub open spec fn u32_le_bytes(v: u32) -> Seq<u8> {
    seq![
        (v & 0xff) as u8,
        ((v >> 8) & 0xff) as u8,
        ((v >> 16) & 0xff) as u8,
        ((v >> 24) & 0xff) as u8,
    ]
}

pub proof fn lemma_u32_le_injective(a: u32, b: u32)
    requires
        u32_le_bytes(a) == u32_le_bytes(b),
    ensures
        a == b,
{
    assert((a & 0xff) as u8 == (b & 0xff) as u8);
    assert(((a >> 8) & 0xff) as u8 == ((b >> 8) & 0xff) as u8);
    assert(((a >> 16) & 0xff) as u8 == ((b >> 16) & 0xff) as u8);
    assert(((a >> 24) & 0xff) as u8 == ((b >> 24) & 0xff) as u8);
    assert(a == b) by (bit_vector)
        requires
            (a & 0xff) as u8 == (b & 0xff) as u8,
            ((a >> 8) & 0xff) as u8 == ((b >> 8) & 0xff) as u8,
            ((a >> 16) & 0xff) as u8 == ((b >> 16) & 0xff) as u8,
            ((a >> 24) & 0xff) as u8 == ((b >> 24) & 0xff) as u8,
    ;
}

/// Appends a 32-bit integer in little-endian order.
pub fn push_u32_le(out: &mut Vec<u8>, v: u32)
    ensures
        final(out)@ == old(out)@ + u32_le_bytes(v),
{
    out.push((v & 0xff) as u8);
    out.push(((v >> 8) & 0xff) as u8);
    out.push(((v >> 16) & 0xff) as u8);
    out.push(((v >> 24) & 0xff) as u8);
    assert(out@ =~= old(out)@ + u32_le_bytes(v));
}

/// Reads a little-endian 32-bit integer; fails only when fewer than four
/// bytes remain.
pub fn read_u32_le(bytes: &Vec<u8>, pos: usize) -> (r: Option<u32>)
    ensures
        r matches Some(v) ==> pos + 4 <= bytes@.len() && bytes@.subrange(pos as int, pos + 4)
            == u32_le_bytes(v),
        r is None ==> bytes@.len() < pos + 4,
{
    if pos >= bytes.len() || bytes.len() - pos < 4 {
        return None;
    }
    let b0 = bytes[pos];
    let b1 = bytes[pos + 1];
    let b2 = bytes[pos + 2];
    let b3 = bytes[pos + 3];
    let v = b0 as u32 | (b1 as u32) << 8 | (b2 as u32) << 16 | (b3 as u32) << 24;
    proof {
        let v0 = b0 as u32 | (b1 as u32) << 8 | (b2 as u32) << 16 | (b3 as u32) << 24;
        assert((v0 & 0xff) as u8 == b0 && ((v0 >> 8) & 0xff) as u8 == b1 && ((v0 >> 16) & 0xff)
            as u8 == b2 && ((v0 >> 24) & 0xff) as u8 == b3) by (bit_vector)
            requires
                v0 == b0 as u32 | (b1 as u32) << 8 | (b2 as u32) << 16 | (b3 as u32) << 24,
        ;
        assert(bytes@.subrange(pos as int, pos + 4) =~= u32_le_bytes(v0));
    }
    Some(v)
}

/// An authority name the wire format can carry: printable ASCII, no NUL.
pub open spec fn ascii_name(s: Seq<char>) -> bool {
    forall|i: int| 0 <= i < s.len() ==> '\x01' <= #[trigger] s[i] <= '\x7f'
}

/// The bytes of an ASCII string.
pub open spec fn str_bytes(s: Seq<char>) -> Seq<u8> {
    Seq::new(s.len(), |i: int| s[i] as u8)
}

/// A null-terminated ASCII string on the wire.
pub open spec fn cstring_bytes(s: Seq<char>) -> Seq<u8> {
    str_bytes(s) + seq![0u8]
}

/// Equal C-string prefixes carry equal names and equal tails.
pub proof fn lemma_cstring_prefix_injective(a: Seq<char>, b: Seq<char>, x: Seq<u8>, y: Seq<u8>)
    requires
        ascii_name(a),
        ascii_name(b),
        cstring_bytes(a) + x == cstring_bytes(b) + y,
    ensures
        a == b,
        x == y,
{
    let sa = cstring_bytes(a) + x;
    let sb = cstring_bytes(b) + y;
    if a.len() < b.len() {
        let c = b[a.len() as int];
        assert('\x01' <= c <= '\x7f');
        assert(c as u8 as u32 == c as u32);
        assert(sa[a.len() as int] == 0u8);
        assert(sb[a.len() as int] == c as u8);
        assert(false);
    }
    if b.len() < a.len() {
        let c = a[b.len() as int];
        assert('\x01' <= c <= '\x7f');
        assert(c as u8 as u32 == c as u32);
        assert(sb[b.len() as int] == 0u8);
        assert(sa[b.len() as int] == c as u8);
        assert(false);
    }
    assert forall|i: int| 0 <= i < a.len() implies a[i] == b[i] by {
        let ca = a[i];
        let cb = b[i];
        assert('\x01' <= ca <= '\x7f' && '\x01' <= cb <= '\x7f');
        assert(sa[i] == ca as u8);
        assert(sb[i] == cb as u8);
        assert(ca as u8 == cb as u8);
        assert(ca as u8 as u32 == ca as u32);
        assert(cb as u8 as u32 == cb as u32);
        assert(ca as u32 == cb as u32);
        assert(ca == cb);
    }
    assert(a =~= b);
    assert(cstring_bytes(a).len() == a.len() + 1);
    assert(cstring_bytes(b).len() == b.len() + 1);
    assert(sa.len() == a.len() + 1 + x.len());
    assert(sb.len() == b.len() + 1 + y.len());
    assert(x.len() == y.len());
    assert forall|i: int| 0 <= i < x.len() implies x[i] == y[i] by {
        assert(sa[a.len() + 1 + i] == x[i]);
        assert(sb[b.len() + 1 + i] == y[i]);
    }
    assert(x =~= y);
}

/// Appends a name as a null-terminated ASCII string.
pub fn push_cstring(out: &mut Vec<u8>, name: &String)
    requires
        ascii_name(name@),
    ensures
        final(out)@ == old(out)@ + cstring_bytes(name@),
{
    let s = name.as_str();
    proof {
        vstd::string::is_ascii_spec_bytes(s);
        assert forall|i: int| 0 <= i < s@.len() implies '\0' <= #[trigger] s@[i] <= '\u{7f}' by {
            assert('\x01' <= name@[i] <= '\x7f');
        }
        assert(vstd::string::is_ascii(s));
    }
    let bytes = s.as_bytes_vec();
    assert(bytes@ =~= str_bytes(name@));
    crate::hashes::append_bytes(out, &bytes);
    out.push(0u8);
    assert(out@ =~= old(out)@ + cstring_bytes(name@));
}

/// Reads a null-terminated ASCII string. Fails when no NUL terminator
/// follows, or a non-ASCII byte stands before it; on success no other
/// name could begin the same bytes.
pub fn read_cstring(bytes: &Vec<u8>, pos: usize) -> (r: Option<(String, usize)>)
    requires
        pos <= bytes@.len(),
    ensures
        r matches Some((s, end)) ==> {
            &&& pos < end <= bytes@.len()
            &&& ascii_name(s@)
            &&& bytes@.subrange(pos as int, end as int) == cstring_bytes(s@)
            &&& end - pos == s@.len() + 1
        },
        r is None ==> forall|name: Seq<char>, rest: Seq<u8>|
            ascii_name(name) ==> bytes@.skip(pos as int) != cstring_bytes(name) + rest,
{
    let mut i: usize = pos;
    while i < bytes.len()
        invariant_except_break
            pos <= i <= bytes@.len(),
            forall|j: int| pos <= j < i ==> 1 <= #[trigger] bytes@[j] <= 127,
        ensures
            pos <= i <= bytes@.len(),
            forall|j: int| pos <= j < i ==> 1 <= #[trigger] bytes@[j] <= 127,
            i < bytes@.len() ==> (bytes@[i as int] == 0 || bytes@[i as int] >= 128),
        decreases bytes@.len() - i,
    {
        let b = bytes[i];
        if b == 0 || b >= 128 {
            break;
        }
        i = i + 1;
    }
    if i == bytes.len() || bytes[i] >= 128 {
        // Either the buffer ended before a terminator, or a byte no ASCII
        // name can hold stands before the first terminator.
        proof {
            let tail = bytes@.skip(pos as int);
            assert forall|name: Seq<char>, rest: Seq<u8>| ascii_name(name) implies tail
                != cstring_bytes(name) + rest by {
                if tail == cstring_bytes(name) + rest {
                    let nl = name.len() as int;
                    assert(tail.len() == nl + 1 + rest.len());
                    assert(tail[nl] == 0u8);
                    assert forall|j: int| 0 <= j < nl implies 1 <= #[trigger] tail[j] <= 127 by {
                        let c = name[j];
                        assert('\x01' <= c <= '\x7f');
                        assert(c as u8 as u32 == c as u32);
                        assert(tail[j] == c as u8);
                    }
                    if i < bytes@.len() {
                        // the scan stopped on a byte that is 0 or >= 128
                        let stop = i - pos;
                        if stop < nl {
                            assert(tail[stop] == bytes@[i as int]);
                            assert(1 <= tail[stop] <= 127);
                            assert(false);
                        } else if stop == nl {
                            assert(bytes@[i as int] == 0u8);
                            assert(false);
                        } else {
                            assert(pos <= pos + nl < i);
                            assert(bytes@[pos + nl] == tail[nl]);
                            assert(false);
                        }
                    } else {
                        // no terminator until the end of the buffer
                        assert(pos + nl < bytes@.len());
                        assert(bytes@[pos + nl] == tail[nl]);
                        assert(1 <= bytes@[pos + nl] <= 127);
                        assert(false);
                    }
                }
            }
        }
        return None;
    }
    // bytes[i] == 0: the name is bytes[pos .. i]
    let mut namebytes: Vec<u8> = Vec::new();
    let mut j: usize = pos;
    while j < i
        invariant
            pos <= j <= i <= bytes@.len(),
            namebytes@ == bytes@.subrange(pos as int, j as int),
        decreases i - j,
    {
        let b = bytes[j];
        namebytes.push(b);
        assert(namebytes@ =~= bytes@.subrange(pos as int, j + 1));
        j = j + 1;
    }
    assert(forall|k: int| 0 <= k < namebytes@.len() ==> 1 <= #[trigger] namebytes@[k] <= 127);
    let s = ascii_to_string(&namebytes);
    proof {
        assert forall|k: int| 0 <= k < s@.len() implies ('\x01' <= #[trigger] s@[k] <= '\x7f')
            && s@[k] as u8 == namebytes@[k] by {
            let b = namebytes@[k];
            assert(s@[k] == b as char);
            assert(1 <= b <= 127);
            assert((b as char) as u8 == b);
            assert('\x01' <= (b as char) <= '\x7f');
        }
        assert(bytes@.subrange(pos as int, i + 1) =~= cstring_bytes(s@)) by {
            assert(forall|k: int|
                0 <= k < s@.len() ==> (#[trigger] str_bytes(s@)[k]) == s@[k] as u8);
        }
    }
    Some((s, i + 1))
}

/// A subrange splits at any midpoint.
pub proof fn lemma_subrange_split(s: Seq<u8>, a: int, b: int, c: int)
    requires
        0 <= a <= b <= c <= s.len(),
    ensures
        s.subrange(a, c) == s.subrange(a, b) + s.subrange(b, c),
{
    assert(s.subrange(a, c) =~= s.subrange(a, b) + s.subrange(b, c));
}

/// Equal concatenations with equally long second parts have equal parts.
pub proof fn lemma_concat_parts_eq(x1: Seq<u8>, y1: Seq<u8>, x2: Seq<u8>, y2: Seq<u8>)
    requires
        x1 + y1 == x2 + y2,
        y1.len() == y2.len(),
    ensures
        x1 == x2,
        y1 == y2,
{
    assert((x1 + y1).len() == x1.len() + y1.len());
    assert((x2 + y2).len() == x2.len() + y2.len());
    assert(x1.len() == x2.len());
    assert forall|i: int| 0 <= i < x1.len() implies x1[i] == x2[i] by {
        assert((x1 + y1)[i] == x1[i]);
        assert((x2 + y2)[i] == x2[i]);
    }
    assert(x1 =~= x2);
    assert forall|i: int| 0 <= i < y1.len() implies y1[i] == y2[i] by {
        assert((x1 + y1)[x1.len() + i] == y1[i]);
        assert((x2 + y2)[x2.len() + i] == y2[i]);
    }
    assert(y1 =~= y2);
}

/// The common blob header: the authority name, the size prefix, the blob
/// type magic, the `RSA1`/`RSA2` tag, the modulus bit length and the public
/// exponent. `blob_type` is 6 for public material and 7 for private; `tag`
/// is the last byte of the four-byte tag.
pub open spec fn header_bytes(
    name: Seq<char>,
    blob_type: u8,
    tag: u8,
    size: u32,
    length: u32,
    exponent: u32,
) -> Seq<u8> {
    cstring_bytes(name) + u32_le_bytes(size) + seq![blob_type, 2u8, 0u8, 0u8, 0u8, 0x24u8, 0u8, 0u8]
        + seq![0x52u8, 0x53u8, 0x41u8, tag] + u32_le_bytes(length) + u32_le_bytes(exponent)
}

/// The size prefix a blob of the given kind declares: the byte count of
/// everything after the prefix. Private blobs count nine half-width
/// numbers, public ones a single full-width modulus.
pub open spec fn blob_size(length: u32, private: bool) -> u32 {
    if private {
        ((length / 16 * 9 + 20) as u32)
    } else {
        ((length / 8 + 20) as u32)
    }
}

/// Whether `whole` is a header with the given fields followed by `rest`.
pub open spec fn header_candidate(
    whole: Seq<u8>,
    blob_type: u8,
    tag: u8,
    private: bool,
    cname: Seq<char>,
    length: u32,
    exponent: u32,
    rest: Seq<u8>,
) -> bool {
    whole == header_bytes(cname, blob_type, tag, blob_size(length, private), length, exponent)
        + rest
}

/// Two headers over the same bytes carry the same fields and tails.
pub proof fn lemma_header_fields(
    bytes: Seq<u8>,
    blob_type: u8,
    tag: u8,
    a_name: Seq<char>,
    a_size: u32,
    a_len: u32,
    a_exp: u32,
    ra: Seq<u8>,
    b_name: Seq<char>,
    b_size: u32,
    b_len: u32,
    b_exp: u32,
    rb: Seq<u8>,
)
    requires
        ascii_name(a_name),
        ascii_name(b_name),
        bytes == header_bytes(a_name, blob_type, tag, a_size, a_len, a_exp) + ra,
        bytes == header_bytes(b_name, blob_type, tag, b_size, b_len, b_exp) + rb,
    ensures
        a_name == b_name,
        a_size == b_size,
        a_len == b_len,
        a_exp == b_exp,
        ra == rb,
{
    let ta = u32_le_bytes(a_size) + seq![blob_type, 2u8, 0u8, 0u8, 0u8, 0x24u8, 0u8, 0u8]
        + seq![0x52u8, 0x53u8, 0x41u8, tag] + u32_le_bytes(a_len) + u32_le_bytes(a_exp) + ra;
    let tb = u32_le_bytes(b_size) + seq![blob_type, 2u8, 0u8, 0u8, 0u8, 0x24u8, 0u8, 0u8]
        + seq![0x52u8, 0x53u8, 0x41u8, tag] + u32_le_bytes(b_len) + u32_le_bytes(b_exp) + rb;
    assert(cstring_bytes(a_name) + ta =~= bytes);
    assert(cstring_bytes(b_name) + tb =~= bytes);
    lemma_cstring_prefix_injective(a_name, b_name, ta, tb);
    assert(u32_le_bytes(a_size) =~= ta.subrange(0, 4));
    assert(u32_le_bytes(b_size) =~= tb.subrange(0, 4));
    lemma_u32_le_injective(a_size, b_size);
    assert(u32_le_bytes(a_len) =~= ta.subrange(16, 20));
    assert(u32_le_bytes(b_len) =~= tb.subrange(16, 20));
    lemma_u32_le_injective(a_len, b_len);
    assert(u32_le_bytes(a_exp) =~= ta.subrange(20, 24));
    assert(u32_le_bytes(b_exp) =~= tb.subrange(20, 24));
    lemma_u32_le_injective(a_exp, b_exp);
    assert(ra =~= ta.skip(24));
    assert(rb =~= tb.skip(24));
}

/// Reads the common blob header; checks the magic, the tag, the size
/// prefix against the bit length, and the bit length itself. On failure no
/// well-formed header of this blob type begins the buffer.
pub fn read_header(bytes: &Vec<u8>, blob_type: u8, tag: u8, private: bool) -> (r: Option<(
    String,
    u32,
    u32,
    usize,
)>)
    ensures
        r matches Some((name, length, exponent, pos)) ==> {
            &&& ascii_name(name@)
            &&& length % 8 == 0
            &&& 368 <= length
            &&& pos == name@.len() + 25
            &&& pos <= bytes@.len()
            &&& bytes@.subrange(0, pos as int) == header_bytes(
                name@,
                blob_type,
                tag,
                blob_size(length, private),
                length,
                exponent,
            )
        },
        r is None ==> forall|name: Seq<char>, length: u32, exponent: u32, rest: Seq<u8>|
            (ascii_name(name) && length % 8 == 0 && 368 <= length) ==> !#[trigger] header_candidate(
                bytes@,
                blob_type,
                tag,
                private,
                name,
                length,
                exponent,
                rest,
            ),
{
    let ghost whole = bytes@;
    proof {
        assert(whole.skip(0) =~= whole);
    }
    let name_read = read_cstring(bytes, 0);
    match name_read {
        None => {
            proof {
                assert forall|name: Seq<char>, length: u32, exponent: u32, rest: Seq<u8>|
                    (ascii_name(name) && length % 8 == 0 && 368 <= length) implies !#[trigger] header_candidate(
                    whole,
                    blob_type,
                    tag,
                    private,
                    name,
                    length,
                    exponent,
                    rest,
                ) by {
                    let t = u32_le_bytes(blob_size(length, private)) + seq![blob_type, 2u8, 0u8, 0u8, 0u8, 0x24u8, 0u8, 0u8]
                        + seq![0x52u8, 0x53u8, 0x41u8, tag] + u32_le_bytes(length)
                        + u32_le_bytes(exponent) + rest;
                    if header_candidate(whole, blob_type, tag, private, name, length, exponent, rest) {
                        assert(whole =~= cstring_bytes(name) + t);
                        assert(false);
                    }
                }
            }
            None
        },
        Some((name, pos)) => {
            let r = read_header_tail(bytes, blob_type, tag, private, name, pos);
            r
        },
    }
}

/// The fixed 24 bytes after the name, shared by every blob layout.
fn read_header_tail(
    bytes: &Vec<u8>,
    blob_type: u8,
    tag: u8,
    private: bool,
    name: String,
    pos: usize,
) -> (r: Option<(String, u32, u32, usize)>)
    requires
        0 < pos <= bytes@.len(),
        ascii_name(name@),
        bytes@.subrange(0, pos as int) == cstring_bytes(name@),
        pos == name@.len() + 1,
    ensures
        r matches Some((rname, length, exponent, rpos)) ==> {
            &&& rname == name
            &&& ascii_name(rname@)
            &&& length % 8 == 0
            &&& 368 <= length
            &&& rpos == rname@.len() + 25
            &&& rpos <= bytes@.len()
            &&& bytes@.subrange(0, rpos as int) == header_bytes(
                rname@,
                blob_type,
                tag,
                blob_size(length, private),
                length,
                exponent,
            )
        },
        r is None ==> forall|cname: Seq<char>, length: u32, exponent: u32, rest: Seq<u8>|
            (ascii_name(cname) && length % 8 == 0 && 368 <= length) ==> !#[trigger] header_candidate(
                bytes@,
                blob_type,
                tag,
                private,
                cname,
                length,
                exponent,
                rest,
            ),
{
    let ghost whole = bytes@;
    // Any candidate header over these bytes must carry this very name, and
    // its fixed fields then sit at the same offsets.
    proof {
        lemma_candidate_aligns(whole, blob_type, tag, private, name@, pos as int);
    }
    let size = match read_u32_le(bytes, pos) {
        Some(v) => v,
        None => {
            proof {
                candidate_contra(whole, blob_type, tag, private, name@, pos as int);
            }
            return None;
        },
    };
    if bytes.len() - pos < 24 {
        proof {
            candidate_contra(whole, blob_type, tag, private, name@, pos as int);
        }
        return None;
    }
    let m0 = bytes[pos + 4];
    let m1 = bytes[pos + 5];
    let m2 = bytes[pos + 6];
    let m3 = bytes[pos + 7];
    let m4 = bytes[pos + 8];
    let m5 = bytes[pos + 9];
    let m6 = bytes[pos + 10];
    let m7 = bytes[pos + 11];
    if !(m0 == blob_type && m1 == 2 && m2 == 0 && m3 == 0 && m4 == 0 && m5 == 0x24 && m6 == 0 && m7
        == 0) {
        proof {
            candidate_contra(whole, blob_type, tag, private, name@, pos as int);
        }
        return None;
    }
    let t0 = bytes[pos + 12];
    let t1 = bytes[pos + 13];
    let t2 = bytes[pos + 14];
    let t3 = bytes[pos + 15];
    if !(t0 == 0x52 && t1 == 0x53 && t2 == 0x41 && t3 == tag) {
        proof {
            candidate_contra(whole, blob_type, tag, private, name@, pos as int);
        }
        return None;
    }
    let length = match read_u32_le(bytes, pos + 16) {
        Some(v) => v,
        None => {
            proof {
                candidate_contra(whole, blob_type, tag, private, name@, pos as int);
            }
            return None;
        },
    };
    let exponent = match read_u32_le(bytes, pos + 20) {
        Some(v) => v,
        None => {
            proof {
                candidate_contra(whole, blob_type, tag, private, name@, pos as int);
            }
            return None;
        },
    };
    let expected_size = if private {
        length / 16 * 9 + 20
    } else {
        length / 8 + 20
    };
    if length % 8 != 0 || length < 368 || size != expected_size {
        proof {
            candidate_vals(whole, blob_type, tag, private, name@, pos as int, size, length, exponent);
        }
        return None;
    }
    proof {
        assert(bytes@.subrange(0, pos + 24) =~= header_bytes(
            name@,
            blob_type,
            tag,
            blob_size(length, private),
            length,
            exponent,
        )) by {
            assert(bytes@.subrange(0, pos as int) == cstring_bytes(name@));
            assert(bytes@.subrange(pos as int, pos + 4) == u32_le_bytes(size));
            assert(bytes@.subrange(pos + 16, pos + 20) == u32_le_bytes(length));
            assert(bytes@.subrange(pos + 20, pos + 24) == u32_le_bytes(exponent));
        }
    }
    Some((name, length, exponent, pos + 24))
}

proof fn lemma_candidate_aligns(
    whole: Seq<u8>,
    blob_type: u8,
    tag: u8,
    private: bool,
    name: Seq<char>,
    pos: int,
)
    requires
        0 < pos <= whole.len(),
        ascii_name(name),
        whole.subrange(0, pos) == cstring_bytes(name),
        pos == name.len() + 1,
    ensures
        forall|cname: Seq<char>, length: u32, exponent: u32, rest: Seq<u8>|
            (ascii_name(cname) && #[trigger] header_candidate(
                whole,
                blob_type,
                tag,
                private,
                cname,
                length,
                exponent,
                rest,
            )) ==> cname == name && whole.len() == pos + 24 + rest.len() && whole.subrange(
                pos,
                pos + 4,
            ) == u32_le_bytes(blob_size(length, private)) && whole.subrange(pos + 4, pos + 12)
                == seq![blob_type, 2u8, 0u8, 0u8, 0u8, 0x24u8, 0u8, 0u8] && whole.subrange(
                pos + 12,
                pos + 16,
            ) == seq![0x52u8, 0x53u8, 0x41u8, tag] && whole.subrange(pos + 16, pos + 20)
                == u32_le_bytes(length) && whole.subrange(pos + 20, pos + 24) == u32_le_bytes(
                exponent,
            ),
{
    assert forall|cname: Seq<char>, length: u32, exponent: u32, rest: Seq<u8>|
        (ascii_name(cname) && #[trigger] header_candidate(
            whole,
            blob_type,
            tag,
            private,
            cname,
            length,
            exponent,
            rest,
        )) implies cname == name && whole.len() == pos + 24 + rest.len() && whole.subrange(
        pos,
        pos + 4,
    ) == u32_le_bytes(blob_size(length, private)) && whole.subrange(pos + 4, pos + 12)
        == seq![blob_type, 2u8, 0u8, 0u8, 0u8, 0x24u8, 0u8, 0u8] && whole.subrange(pos + 12, pos + 16)
        == seq![0x52u8, 0x53u8, 0x41u8, tag] && whole.subrange(pos + 16, pos + 20) == u32_le_bytes(
        length,
    ) && whole.subrange(pos + 20, pos + 24) == u32_le_bytes(exponent) by {
        let t = u32_le_bytes(blob_size(length, private)) + seq![blob_type, 2u8, 0u8, 0u8, 0u8, 0x24u8, 0u8, 0u8]
            + seq![0x52u8, 0x53u8, 0x41u8, tag] + u32_le_bytes(length) + u32_le_bytes(exponent)
            + rest;
        assert(whole =~= cstring_bytes(cname) + t);
        assert(whole =~= cstring_bytes(name) + whole.skip(pos));
        lemma_cstring_prefix_injective(cname, name, t, whole.skip(pos));
        assert(whole.subrange(pos, pos + 4) =~= t.subrange(0, 4));
        assert(whole.subrange(pos + 4, pos + 12) =~= t.subrange(4, 12));
        assert(whole.subrange(pos + 12, pos + 16) =~= t.subrange(12, 16));
        assert(whole.subrange(pos + 16, pos + 20) =~= t.subrange(16, 20));
        assert(whole.subrange(pos + 20, pos + 24) =~= t.subrange(20, 24));
        assert(t.subrange(0, 4) =~= u32_le_bytes(blob_size(length, private)));
        assert(t.subrange(4, 12) =~= seq![blob_type, 2u8, 0u8, 0u8, 0u8, 0x24u8, 0u8, 0u8]);
        assert(t.subrange(12, 16) =~= seq![0x52u8, 0x53u8, 0x41u8, tag]);
        assert(t.subrange(16, 20) =~= u32_le_bytes(length));
        assert(t.subrange(20, 24) =~= u32_le_bytes(exponent));
    }
}

/// Any candidate header over these bytes has the already-read field
/// values.
proof fn candidate_vals(
    whole: Seq<u8>,
    blob_type: u8,
    tag: u8,
    private: bool,
    name: Seq<char>,
    pos: int,
    size: u32,
    length: u32,
    exponent: u32,
)
    requires
        0 < pos <= whole.len(),
        ascii_name(name),
        whole.subrange(0, pos) == cstring_bytes(name),
        pos == name.len() + 1,
        pos + 24 <= whole.len(),
        whole.subrange(pos, pos + 4) == u32_le_bytes(size),
        whole.subrange(pos + 16, pos + 20) == u32_le_bytes(length),
        whole.subrange(pos + 20, pos + 24) == u32_le_bytes(exponent),
    ensures
        forall|cname: Seq<char>, clength: u32, cexp: u32, rest: Seq<u8>|
            (ascii_name(cname) && #[trigger] header_candidate(
                whole,
                blob_type,
                tag,
                private,
                cname,
                clength,
                cexp,
                rest,
            )) ==> cname == name && clength == length && cexp == exponent && blob_size(
                clength,
                private,
            ) == size && whole.len() == pos + 24 + rest.len(),
{
    lemma_candidate_aligns(whole, blob_type, tag, private, name, pos);
    assert forall|cname: Seq<char>, clength: u32, cexp: u32, rest: Seq<u8>|
        (ascii_name(cname) && #[trigger] header_candidate(
            whole,
            blob_type,
            tag,
            private,
            cname,
            clength,
            cexp,
            rest,
        )) implies cname == name && clength == length && cexp == exponent && blob_size(
        clength,
        private,
    ) == size && whole.len() == pos + 24 + rest.len() by {
        lemma_u32_le_injective(size, blob_size(clength, private));
        lemma_u32_le_injective(length, clength);
        lemma_u32_le_injective(exponent, cexp);
    }
}

/// Shows that no candidate header can match the bytes, given that one of
/// the checks along the scan has just failed. The failed check stands in
/// the calling context; this lemma only packages the alignment facts and
/// leaves the contradiction to the solver.
proof fn candidate_contra(
    whole: Seq<u8>,
    blob_type: u8,
    tag: u8,
    private: bool,
    name: Seq<char>,
    pos: int,
)
    requires
        0 < pos <= whole.len(),
        ascii_name(name),
        whole.subrange(0, pos) == cstring_bytes(name),
        pos == name.len() + 1,
    ensures
        forall|cname: Seq<char>, length: u32, exponent: u32, rest: Seq<u8>|
            (ascii_name(cname) && #[trigger] header_candidate(
                whole,
                blob_type,
                tag,
                private,
                cname,
                length,
                exponent,
                rest,
            )) ==> cname == name && whole.len() == pos + 24 + rest.len() && whole.subrange(
                pos,
                pos + 4,
            ) == u32_le_bytes(blob_size(length, private)) && whole.subrange(pos + 4, pos + 12)
                == seq![blob_type, 2u8, 0u8, 0u8, 0u8, 0x24u8, 0u8, 0u8] && whole.subrange(
                pos + 12,
                pos + 16,
            ) == seq![0x52u8, 0x53u8, 0x41u8, tag] && whole.subrange(pos + 16, pos + 20)
                == u32_le_bytes(length) && whole.subrange(pos + 20, pos + 24) == u32_le_bytes(
                exponent,
            ),
{
    lemma_candidate_aligns(whole, blob_type, tag, private, name, pos);
}

} // verus!
