//! Big-integer byte codec.
//!
//! Big integers are carried as minimal big-endian byte strings (no leading
//! zero byte; the empty string is zero). The wire format stores them as
//! fixed-width little-endian strings, zero-padded at the high end: encoding
//! reverses the bytes and pads, decoding reverses and strips leading zeros.

use vstd::prelude::*;
use vstd::arithmetic::power::pow;

verus! {

/// The value of a big-endian byte string.
pub open spec fn be_val(s: Seq<u8>) -> nat
    decreases s.len(),
{
    if s.len() == 0 {
        0
    } else {
        (be_val(s.drop_last()) * 256 + s.last()) as nat
    }
}

/// A minimal big-endian string has no leading zero byte.
pub open spec fn is_minimal_be(s: Seq<u8>) -> bool {
    s.len() > 0 ==> s[0] != 0
}

/// Fixed-width little-endian encoding of a big-endian byte string.
pub open spec fn le_encode(b: Seq<u8>, width: int) -> Seq<u8> {
    Seq::new(width as nat, |i: int| if i < b.len() { b[b.len() - 1 - i] } else { 0u8 })
}

pub open spec fn strip_leading_zeros(s: Seq<u8>) -> Seq<u8>
    decreases s.len(),
{
    if s.len() > 0 && s[0] == 0 {
        strip_leading_zeros(s.skip(1))
    } else {
        s
    }
}

pub open spec fn reverse_bytes(s: Seq<u8>) -> Seq<u8> {
    Seq::new(s.len(), |i: int| s[s.len() - 1 - i])
}

/// The minimal big-endian string held by a little-endian wire field.
pub open spec fn be_decode(le: Seq<u8>) -> Seq<u8> {
    strip_leading_zeros(reverse_bytes(le))
}

/// Decomposition of `be_val` from the front.
pub proof fn lemma_be_val_first(s: Seq<u8>)
    requires
        s.len() > 0,
    ensures
        be_val(s) == s[0] * pow(256, (s.len() - 1) as nat) + be_val(s.skip(1)),
    decreases s.len(),
{
    vstd::arithmetic::power::lemma_pow0(256);
    if s.len() == 1 {
        assert(s.drop_last() =~= Seq::<u8>::empty());
        assert(s.skip(1) =~= Seq::<u8>::empty());
        assert(be_val(s) == be_val(s.drop_last()) * 256 + s.last());
    } else {
        lemma_be_val_first(s.drop_last());
        assert(s.drop_last().skip(1) =~= s.skip(1).drop_last());
        assert(s.drop_last()[0] == s[0]);
        assert(be_val(s) == be_val(s.drop_last()) * 256 + s.last());
        assert(be_val(s.skip(1)) == be_val(s.skip(1).drop_last()) * 256 + s.skip(1).last());
        assert(s.skip(1).last() == s.last());
        assert(be_val(s.drop_last()) == s[0] * pow(256, (s.len() - 2) as nat) + be_val(
            s.drop_last().skip(1),
        ));
        assert(s[0] * pow(256, (s.len() - 2) as nat) * 256 == s[0] * pow(
            256,
            (s.len() - 1) as nat,
        )) by {
            assert(pow(256, (s.len() - 2) as nat) * 256 == pow(256, (s.len() - 1) as nat)) by {
                vstd::arithmetic::power::lemma_pow1(256);
                vstd::arithmetic::power::lemma_pow_adds(256, (s.len() - 2) as nat, 1);
            }
            vstd::arithmetic::mul::lemma_mul_is_associative(
                s[0] as int,
                pow(256, (s.len() - 2) as nat),
                256,
            );
        }
    }
}

/// A byte string's value is below 256 to its length.
pub proof fn lemma_be_val_upper(s: Seq<u8>)
    ensures
        be_val(s) < pow(256, s.len()),
    decreases s.len(),
{
    vstd::arithmetic::power::lemma_pow_positive(256, s.len());
    if s.len() == 0 {
    } else {
        lemma_be_val_upper(s.drop_last());
        assert(pow(256, s.len()) == pow(256, (s.len() - 1) as nat) * 256) by {
            vstd::arithmetic::power::lemma_pow1(256);
            vstd::arithmetic::power::lemma_pow_adds(256, (s.len() - 1) as nat, 1);
        }
    }
}

/// A string with a nonzero leading byte reaches 256 to its length less one.
pub proof fn lemma_be_val_lower(s: Seq<u8>)
    requires
        s.len() > 0,
        s[0] != 0,
    ensures
        be_val(s) >= pow(256, (s.len() - 1) as nat),
    decreases s.len(),
{
    lemma_be_val_first(s);
    assert(s[0] >= 1);
    vstd::arithmetic::power::lemma_pow_positive(256, (s.len() - 1) as nat);
    assert(s[0] * pow(256, (s.len() - 1) as nat) >= 1 * pow(256, (s.len() - 1) as nat)) by {
        vstd::arithmetic::mul::lemma_mul_inequality(1, s[0] as int, pow(256, (s.len() - 1) as nat));
    }
}

/// Stripping leading zeros keeps the value.
pub proof fn lemma_strip_preserves_val(s: Seq<u8>)
    ensures
        be_val(strip_leading_zeros(s)) == be_val(s),
        is_minimal_be(strip_leading_zeros(s)),
        strip_leading_zeros(s).len() <= s.len(),
    decreases s.len(),
{
    if s.len() > 0 && s[0] == 0 {
        lemma_be_val_first(s);
        lemma_strip_preserves_val(s.skip(1));
    }
}

/// On minimal strings the value determines the bytes.
pub proof fn lemma_be_val_injective(a: Seq<u8>, b: Seq<u8>)
    requires
        is_minimal_be(a),
        is_minimal_be(b),
        be_val(a) == be_val(b),
    ensures
        a == b,
    decreases a.len(),
{
    if a.len() == 0 || b.len() == 0 {
        if a.len() > 0 {
            lemma_be_val_lower(a);
            vstd::arithmetic::power::lemma_pow_positive(256, (a.len() - 1) as nat);
            assert(false);
        }
        if b.len() > 0 {
            lemma_be_val_lower(b);
            vstd::arithmetic::power::lemma_pow_positive(256, (b.len() - 1) as nat);
            assert(false);
        }
        assert(a =~= b);
    } else {
        if a.len() != b.len() {
            if a.len() < b.len() {
                lemma_be_val_upper(a);
                lemma_be_val_lower(b);
                vstd::arithmetic::power::lemma_pow_increases(256, a.len(), (b.len() - 1) as nat);
                assert(false);
            } else {
                lemma_be_val_upper(b);
                lemma_be_val_lower(a);
                vstd::arithmetic::power::lemma_pow_increases(256, b.len(), (a.len() - 1) as nat);
                assert(false);
            }
        }
        assert(be_val(a.drop_last()) * 256 + a.last() == be_val(b.drop_last()) * 256 + b.last());
        assert(be_val(a.drop_last()) == be_val(b.drop_last()) && a.last() == b.last()) by {
            vstd::arithmetic::div_mod::lemma_fundamental_div_mod_converse(
                be_val(a) as int,
                256,
                be_val(a.drop_last()) as int,
                a.last() as int,
            );
            vstd::arithmetic::div_mod::lemma_fundamental_div_mod_converse(
                be_val(b) as int,
                256,
                be_val(b.drop_last()) as int,
                b.last() as int,
            );
        }
        if a.len() == 1 {
            assert(a =~= seq![a.last()]);
            assert(b =~= seq![b.last()]);
        } else {
            lemma_be_val_injective(a.drop_last(), b.drop_last());
            assert(a =~= a.drop_last() + seq![a.last()]);
            assert(b =~= b.drop_last() + seq![b.last()]);
        }
    }
}

/// A value below the one of a minimal string of width `w` fits in `w` bytes.
pub proof fn lemma_smaller_fits(r: Seq<u8>, n: Seq<u8>)
    requires
        is_minimal_be(r),
        be_val(r) < be_val(n),
    ensures
        r.len() <= n.len(),
{
    if r.len() > n.len() {
        lemma_be_val_lower(r);
        lemma_be_val_upper(n);
        vstd::arithmetic::power::lemma_pow_increases(256, n.len(), (r.len() - 1) as nat);
        assert(false);
    }
}

/// Decoding undoes encoding: the round trip over the wire format returns
/// the minimal big-endian string it started from.
pub proof fn lemma_bignum_roundtrip(b: Seq<u8>, width: int)
    requires
        is_minimal_be(b),
        b.len() <= width,
    ensures
        be_decode(le_encode(b, width)) == b,
{
    let le = le_encode(b, width);
    let rev = reverse_bytes(le);
    assert(rev =~= Seq::new(width as nat, |i: int| if width - 1 - i < b.len() { b[b.len() - 1 - (width - 1 - i)] } else { 0u8 }));
    let pad = (width - b.len()) as int;
    assert(forall|i: int| 0 <= i < pad ==> rev[i] == 0u8);
    assert(forall|i: int| pad <= i < width ==> rev[i] == b[i - pad]);
    lemma_strip_skips_zeros(rev, pad);
    assert(rev.skip(pad) =~= b);
}

/// Re-encoding a decoded wire field gives the field back.
pub proof fn lemma_le_encode_decode(le: Seq<u8>)
    ensures
        le_encode(be_decode(le), le.len() as int) == le,
{
    let w = le.len() as int;
    let rev = reverse_bytes(le);
    let b = be_decode(le);
    let mut k: int = 0;
    // find the first nonzero of rev by scanning ghost-style
    assert(b == strip_leading_zeros(rev));
    lemma_strip_is_skip(rev);
    let j = choose|j: int|
        0 <= j <= rev.len() && b == rev.skip(j) && (forall|i: int| 0 <= i < j ==> rev[i] == 0u8);
    assert(b.len() == w - j);
    assert forall|i: int| 0 <= i < w implies le_encode(b, w)[i] == le[i] by {
        assert(rev[w - 1 - i] == le[i]);
        if i < b.len() {
            assert(le_encode(b, w)[i] == b[b.len() - 1 - i]);
            assert(b[b.len() - 1 - i] == rev[j + (b.len() - 1 - i)]);
            assert(j + (b.len() - 1 - i) == w - 1 - i);
        } else {
            assert(le_encode(b, w)[i] == 0u8);
            assert(0 <= w - 1 - i < j);
            assert(rev[w - 1 - i] == 0u8);
        }
    }
    assert(le_encode(b, w) =~= le);
}

/// The stripped string is a suffix of the original, preceded by zeros.
proof fn lemma_strip_is_skip(s: Seq<u8>)
    ensures
        exists|j: int|
            0 <= j <= s.len() && strip_leading_zeros(s) == s.skip(j) && (forall|i: int|
                0 <= i < j ==> s[i] == 0u8),
    decreases s.len(),
{
    if s.len() > 0 && s[0] == 0 {
        lemma_strip_is_skip(s.skip(1));
        let j0 = choose|j: int|
            0 <= j <= s.skip(1).len() && strip_leading_zeros(s.skip(1)) == s.skip(1).skip(j) && (
            forall|i: int| 0 <= i < j ==> s.skip(1)[i] == 0u8);
        assert(s.skip(1).skip(j0) =~= s.skip(j0 + 1));
        assert forall|i: int| 0 <= i < j0 + 1 implies s[i] == 0u8 by {
            if i > 0 {
                assert(s.skip(1)[i - 1] == 0u8);
            }
        }
        assert(strip_leading_zeros(s) == s.skip(j0 + 1));
    } else {
        assert(strip_leading_zeros(s) == s.skip(0));
        assert(s.skip(0) =~= s);
    }
}

/// Stripping leading zeros drops exactly the leading zero prefix.
pub proof fn lemma_strip_skips_zeros(s: Seq<u8>, k: int)
    requires
        0 <= k <= s.len(),
        forall|i: int| 0 <= i < k ==> s[i] == 0u8,
        k < s.len() ==> s[k] != 0u8,
    ensures
        strip_leading_zeros(s) == s.skip(k),
    decreases k,
{
    if k == 0 {
        if s.len() > 0 {
            assert(s[0] != 0);
        }
        assert(s.skip(0) =~= s);
    } else {
        assert(s[0] == 0);
        lemma_strip_skips_zeros(s.skip(1), k - 1);
        assert(s.skip(1).skip(k - 1) =~= s.skip(k));
    }
}

/// Appends the fixed-width little-endian encoding of a big integer:
/// the bytes reversed, zero-padded to exactly `size` bytes.
pub fn write_bignum(output: &mut Vec<u8>, bn: &Vec<u8>, size: usize)
    requires
        bn@.len() <= size,
    ensures
        final(output)@ == old(output)@ + le_encode(bn@, size as int),
{
    let ghost start = output@;
    let mut i: usize = 0;
    while i < size
        invariant
            i <= size,
            bn@.len() <= size,
            output@ == start + le_encode(bn@, size as int).take(i as int),
        decreases size - i,
    {
        let byte: u8 = if i < bn.len() {
            bn[bn.len() - 1 - i]
        } else {
            0
        };
        output.push(byte);
        assert(le_encode(bn@, size as int).take(i + 1) =~= le_encode(bn@, size as int).take(
            i as int,
        ) + seq![le_encode(bn@, size as int)[i as int]]);
        i = i + 1;
    }
    assert(le_encode(bn@, size as int).take(size as int) =~= le_encode(bn@, size as int));
}

/// Appends the fixed-width little-endian encoding when the number fits
/// the width, and reports the oversized number otherwise, leaving the
/// output untouched: a number of more than `size` bytes has no `size`-byte
/// encoding.
pub fn write_bignum_checked(output: &mut Vec<u8>, bn: &Vec<u8>, size: usize) -> (r: Result<
    (),
    crate::BISignError,
>)
    ensures
        r is Ok <==> bn@.len() <= size,
        r is Ok ==> final(output)@ == old(output)@ + le_encode(bn@, size as int),
        r is Err ==> final(output)@ == old(output)@ && r matches Err(
            crate::BISignError::MalformedBlob,
        ),
{
    if bn.len() > size {
        return Err(crate::BISignError::MalformedBlob);
    }
    write_bignum(output, bn, size);
    Ok(())
}

/// Reads a big integer out of a fixed-width little-endian wire field,
/// returning its minimal big-endian bytes.
pub fn read_bignum(bytes: &Vec<u8>, pos: usize, width: usize) -> (r: Vec<u8>)
    requires
        pos + width <= bytes@.len(),
    ensures
        r@ == be_decode(bytes@.subrange(pos as int, pos + width)),
        is_minimal_be(r@),
        r@.len() <= width,
{
    let ghost le = bytes@.subrange(pos as int, pos + width);
    let ghost rev = reverse_bytes(le);
    let blen = bytes.len();
    let mut end: usize = width;
    while end > 0 && bytes[pos + (end - 1)] == 0
        invariant
            end <= width,
            pos + width <= bytes@.len(),
            bytes@.len() <= usize::MAX,
            le == bytes@.subrange(pos as int, pos + width),
            forall|j: int| end <= j < width ==> le[j] == 0u8,
        decreases end,
    {
        end = end - 1;
    }
    let mut r: Vec<u8> = Vec::new();
    let mut i: usize = end;
    while i > 0
        invariant
            i <= end <= width,
            pos + width <= bytes@.len(),
            bytes@.len() <= usize::MAX,
            le == bytes@.subrange(pos as int, pos + width),
            r@ == Seq::new((end - i) as nat, |j: int| le[end - 1 - j]),
        decreases i,
    {
        let b = bytes[pos + (i - 1)];
        r.push(b);
        assert(r@ =~= Seq::new((end - i + 1) as nat, |j: int| le[end - 1 - j]));
        i = i - 1;
    }
    proof {
        let k = (width - end) as int;
        assert(forall|j: int| 0 <= j < k ==> rev[j] == le[width - 1 - j] && rev[j] == 0u8);
        if k < width {
            assert(rev[k] == le[end - 1]);
        }
        lemma_strip_skips_zeros(rev, k);
        assert(r@ =~= rev.skip(k));
        if r@.len() > 0 {
            assert(r@[0] == le[end - 1]);
        }
    }
    r
}

/// The minimal big-endian byte string of a value: empty for zero, no
/// leading zero byte otherwise.
pub open spec fn min_be_bytes(v: nat) -> Seq<u8>
    decreases v,
{
    if v == 0 {
        Seq::empty()
    } else {
        min_be_bytes(v / 256).push((v % 256) as u8)
    }
}

/// `min_be_bytes` inverts `be_val` on minimal strings.
pub proof fn lemma_min_be_bytes(v: nat)
    ensures
        be_val(min_be_bytes(v)) == v,
        is_minimal_be(min_be_bytes(v)),
    decreases v,
{
    if v > 0 {
        lemma_min_be_bytes(v / 256);
        let s = min_be_bytes(v);
        let pre = min_be_bytes(v / 256);
        assert(s == pre.push((v % 256) as u8));
        assert(s.drop_last() =~= pre);
        assert(s.last() == (v % 256) as u8);
        assert(be_val(s) == (be_val(pre) * 256 + s.last()) as nat);
        vstd::arithmetic::div_mod::lemma_fundamental_div_mod(v as int, 256);
        if pre.len() == 0 {
            assert(v / 256 == 0);
            assert(s[0] == (v % 256) as u8);
            assert(v % 256 != 0);
        } else {
            assert(s[0] == pre[0]);
        }
    }
}

/// The minimal big-endian bytes of a 32-bit value.
pub open spec fn u32_be_min(v: u32) -> Seq<u8> {
    strip_leading_zeros(
        seq![
            ((v >> 24) & 0xff) as u8,
            ((v >> 16) & 0xff) as u8,
            ((v >> 8) & 0xff) as u8,
            (v & 0xff) as u8,
        ],
    )
}

/// Encodes a 32-bit value as minimal big-endian bytes.
pub fn u32_to_be_min(v: u32) -> (r: Vec<u8>)
    ensures
        r@ == u32_be_min(v),
        is_minimal_be(r@),
{
    let mut s: Vec<u8> = Vec::new();
    s.push(((v >> 24) & 0xff) as u8);
    s.push(((v >> 16) & 0xff) as u8);
    s.push(((v >> 8) & 0xff) as u8);
    s.push((v & 0xff) as u8);
    assert(s@ =~= seq![
        ((v >> 24) & 0xff) as u8,
        ((v >> 16) & 0xff) as u8,
        ((v >> 8) & 0xff) as u8,
        (v & 0xff) as u8,
    ]);
    let r = trim_leading_zeros(&s);
    proof {
        lemma_strip_preserves_val(s@);
    }
    r
}

/// Compares two byte strings as big integers, ignoring leading zeros.
pub fn bignum_eq(a: &Vec<u8>, b: &Vec<u8>) -> (r: bool)
    ensures
        r == (be_val(a@) == be_val(b@)),
{
    let ta = trim_leading_zeros(a);
    let tb = trim_leading_zeros(b);
    let r = bytes_eq(&ta, &tb);
    proof {
        lemma_strip_preserves_val(a@);
        lemma_strip_preserves_val(b@);
        if r {
            assert(be_val(ta@) == be_val(tb@));
        } else {
            if be_val(a@) == be_val(b@) {
                lemma_be_val_injective(ta@, tb@);
                assert(false);
            }
        }
    }
    r
}

/// Copies a byte string without its leading zero bytes.
pub fn trim_leading_zeros(s: &Vec<u8>) -> (r: Vec<u8>)
    ensures
        r@ == strip_leading_zeros(s@),
{
    let mut k: usize = 0;
    while k < s.len() && s[k] == 0
        invariant
            k <= s@.len(),
            forall|j: int| 0 <= j < k ==> s@[j] == 0u8,
        decreases s@.len() - k,
    {
        k = k + 1;
    }
    proof {
        lemma_strip_skips_zeros(s@, k as int);
    }
    let mut r: Vec<u8> = Vec::new();
    let mut i: usize = k;
    while i < s.len()
        invariant
            k <= i <= s@.len(),
            r@ == s@.subrange(k as int, i as int),
        decreases s@.len() - i,
    {
        let b = s[i];
        r.push(b);
        assert(r@ =~= s@.subrange(k as int, i + 1));
        i = i + 1;
    }
    assert(s@.subrange(k as int, s@.len() as int) =~= s@.skip(k as int));
    r
}

/// Byte-for-byte equality of two byte vectors.
pub fn bytes_eq(a: &Vec<u8>, b: &Vec<u8>) -> (r: bool)
    ensures
        r == (a@ == b@),
{
    if a.len() != b.len() {
        assert(a@ != b@);
        return false;
    }
    let mut i: usize = 0;
    while i < a.len()
        invariant
            i <= a@.len(),
            a@.len() == b@.len(),
            forall|j: int| 0 <= j < i ==> a@[j] == b@[j],
        decreases a@.len() - i,
    {
        if a[i] != b[i] {
            return false;
        }
        i = i + 1;
    }
    assert(a@ =~= b@);
    true
}

} // verus!
