//! Lowercase hexadecimal rendering of big integers, as verification
//! failure reports show them: two digits for every byte from the first
//! nonzero one, `0` for zero.

use vstd::prelude::*;
use crate::bignum::strip_leading_zeros;
use crate::crypto::ascii_to_string;

verus! {

pub open spec fn hex_digit(d: int) -> char {
    if d == 0 {
        '0'
    } else if d == 1 {
        '1'
    } else if d == 2 {
        '2'
    } else if d == 3 {
        '3'
    } else if d == 4 {
        '4'
    } else if d == 5 {
        '5'
    } else if d == 6 {
        '6'
    } else if d == 7 {
        '7'
    } else if d == 8 {
        '8'
    } else if d == 9 {
        '9'
    } else if d == 10 {
        'a'
    } else if d == 11 {
        'b'
    } else if d == 12 {
        'c'
    } else if d == 13 {
        'd'
    } else if d == 14 {
        'e'
    } else {
        'f'
    }
}

/// Two hex digits for every byte.
pub open spec fn hex_pairs(s: Seq<u8>) -> Seq<char>
    decreases s.len(),
{
    if s.len() == 0 {
        Seq::empty()
    } else {
        hex_pairs(s.drop_last()) + seq![
            hex_digit(s.last() as int / 16),
            hex_digit(s.last() as int % 16),
        ]
    }
}

/// The hex digits of a minimal big-endian byte string: two digits for
/// every byte from the first nonzero one, `0` for zero.
pub open spec fn hex_min(s: Seq<u8>) -> Seq<char> {
    if s.len() == 0 {
        seq!['0']
    } else {
        hex_pairs(s)
    }
}

/// The lowercase hex rendering of a big integer given by any big-endian
/// byte string.
pub open spec fn hex_of(s: Seq<u8>) -> Seq<char> {
    hex_min(strip_leading_zeros(s))
}

/// What a hash mismatch reports for a recovered and a computed value:
/// both hex strings whole, unless they have one length beyond 40 digits
/// and agree on everything before the last 40 — then only the last 40
/// digits, the SHA-1 part, of each.
pub open spec fn display_hashes_spec(a: Seq<u8>, b: Seq<u8>) -> (Seq<char>, Seq<char>) {
    let ha = hex_of(a);
    let hb = hex_of(b);
    if ha.len() != hb.len() || ha.len() <= 40 {
        (ha, hb)
    } else if ha.take(ha.len() - 40) == hb.take(hb.len() - 40) {
        (ha.skip(ha.len() - 40), hb.skip(hb.len() - 40))
    } else {
        (ha, hb)
    }
}

pub proof fn lemma_hex_pairs_len(s: Seq<u8>)
    ensures
        hex_pairs(s).len() == 2 * s.len(),
    decreases s.len(),
{
    if s.len() > 0 {
        lemma_hex_pairs_len(s.drop_last());
    }
}

/// Hex digits distribute over concatenation.
pub proof fn lemma_hex_pairs_concat(a: Seq<u8>, b: Seq<u8>)
    ensures
        hex_pairs(a + b) == hex_pairs(a) + hex_pairs(b),
    decreases b.len(),
{
    if b.len() == 0 {
        assert(a + b =~= a);
        assert(hex_pairs(a) + hex_pairs(b) =~= hex_pairs(a));
    } else {
        lemma_hex_pairs_concat(a, b.drop_last());
        assert((a + b).drop_last() =~= a + b.drop_last());
        assert((a + b).last() == b.last());
        assert(hex_pairs(a + b) =~= hex_pairs(a) + hex_pairs(b));
    }
}

/// What a mismatch report shows when a recovered value carries one
/// padded digest and the local computation another of the same width:
/// exactly the two digests' own hex digits, forty lowercase characters
/// each — the identical padding prefix is stripped.
pub proof fn lemma_display_recovered(r: Seq<u8>, d1: Seq<u8>, d2: Seq<u8>, w: int)
    requires
        crate::bignum::is_minimal_be(r),
        crate::bignum::be_val(r) == crate::bignum::be_val(crate::hashes::padded(d1, w)),
        d1.len() == 20,
        d2.len() == 20,
        w >= 46,
    ensures
        display_hashes_spec(r, crate::hashes::padded(d2, w)).0 == hex_pairs(d1),
        display_hashes_spec(r, crate::hashes::padded(d2, w)).1 == hex_pairs(d2),
        hex_pairs(d1).len() == 40,
        hex_pairs(d2).len() == 40,
{
    let p1 = crate::hashes::padded(d1, w);
    let p2 = crate::hashes::padded(d2, w);
    let pre = seq![1u8] + Seq::new((w - 38) as nat, |i: int| 255u8)
        + crate::hashes::asn1_sha1_prefix();
    assert(p1.len() == w && p2.len() == w);
    assert(p1[0] == 0u8 && p1[1] == 1u8);
    assert(p2[0] == 0u8 && p2[1] == 1u8);
    assert(strip_leading_zeros(p1) == p1.skip(1)) by {
        crate::bignum::lemma_strip_skips_zeros(p1, 1);
    }
    assert(strip_leading_zeros(p2) == p2.skip(1)) by {
        crate::bignum::lemma_strip_skips_zeros(p2, 1);
    }
    crate::bignum::lemma_strip_preserves_val(p1);
    crate::bignum::lemma_be_val_injective(r, p1.skip(1));
    assert(r == p1.skip(1));
    assert(strip_leading_zeros(r) == r);
    assert(p1.skip(1) =~= pre + d1);
    assert(p2.skip(1) =~= pre + d2);
    lemma_hex_pairs_concat(pre, d1);
    lemma_hex_pairs_concat(pre, d2);
    lemma_hex_pairs_len(pre);
    lemma_hex_pairs_len(d1);
    lemma_hex_pairs_len(d2);
    lemma_hex_pairs_len(pre + d1);
    lemma_hex_pairs_len(pre + d2);
    let h1 = hex_of(r);
    let h2 = hex_of(p2);
    assert(h1 == hex_pairs(pre) + hex_pairs(d1));
    assert(h2 == hex_pairs(pre) + hex_pairs(d2));
    assert(h1.len() == h2.len());
    assert(h1.len() == 2 * (w - 1));
    assert(h1.len() > 40);
    assert(h1.take(h1.len() - 40) =~= hex_pairs(pre));
    assert(h2.take(h2.len() - 40) =~= hex_pairs(pre));
    assert(h1.skip(h1.len() - 40) =~= hex_pairs(d1));
    assert(h2.skip(h2.len() - 40) =~= hex_pairs(d2));
}

/// The characters that a run of ASCII bytes spells.
pub open spec fn chars_of_bytes(b: Seq<u8>) -> Seq<char> {
    Seq::new(b.len(), |i: int| b[i] as char)
}

/// The ASCII code of one lowercase hex digit.
fn hex_digit_byte(d: u8) -> (r: u8)
    requires
        d < 16,
    ensures
        r < 128,
        r as char == hex_digit(d as int),
{
    if d < 10 {
        48 + d
    } else {
        87 + d
    }
}

/// The lowercase hex digits of a big integer, as ASCII bytes.
fn hex_bytes(s: &Vec<u8>) -> (r: Vec<u8>)
    ensures
        chars_of_bytes(r@) == hex_of(s@),
        forall|i: int| 0 <= i < r@.len() ==> #[trigger] r@[i] < 128,
{
    let t = crate::bignum::trim_leading_zeros(s);
    let mut r: Vec<u8> = Vec::new();
    if t.len() == 0 {
        r.push(hex_digit_byte(0));
        assert(chars_of_bytes(r@) =~= hex_of(s@));
        return r;
    }
    assert(chars_of_bytes(r@) =~= hex_pairs(t@.subrange(0, 0)));
    let mut i: usize = 0;
    while i < t.len()
        invariant
            i <= t@.len(),
            chars_of_bytes(r@) == hex_pairs(t@.subrange(0, i as int)),
            forall|k: int| 0 <= k < r@.len() ==> #[trigger] r@[k] < 128,
        decreases t@.len() - i,
    {
        let b = t[i];
        let ghost old_r = r@;
        let d1 = hex_digit_byte(b / 16);
        let d2 = hex_digit_byte(b % 16);
        r.push(d1);
        r.push(d2);
        proof {
            let sub = t@.subrange(0, i + 1);
            let prev = t@.subrange(0, i as int);
            assert(sub.drop_last() =~= prev);
            assert(sub.last() == t@[i as int]);
            lemma_hex_pairs_len(sub);
            lemma_hex_pairs_len(prev);
            assert(hex_pairs(sub) == hex_pairs(prev) + seq![
                hex_digit(sub.last() as int / 16),
                hex_digit(sub.last() as int % 16),
            ]);
            assert(chars_of_bytes(old_r) == hex_pairs(prev));
            assert(chars_of_bytes(old_r).len() == old_r.len());
            assert(old_r.len() == hex_pairs(prev).len());
            assert(r@ == old_r.push(d1).push(d2));
            assert forall|k: int| 0 <= k < r@.len() implies #[trigger] chars_of_bytes(r@)[k]
                == hex_pairs(sub)[k] by {
                if k < old_r.len() {
                    assert(r@[k] == old_r[k]);
                    assert(chars_of_bytes(r@)[k] == r@[k] as char);
                    assert(chars_of_bytes(old_r)[k] == old_r[k] as char);
                    assert(chars_of_bytes(old_r)[k] == hex_pairs(prev)[k]);
                    assert(hex_pairs(sub)[k] == hex_pairs(prev)[k]);
                } else if k == old_r.len() {
                    assert(r@[k] == d1);
                    assert(hex_pairs(sub)[k] == hex_digit(sub.last() as int / 16));
                    assert(d1 as char == hex_digit(b as int / 16));
                } else {
                    assert(r@[k] == d2);
                    assert(hex_pairs(sub)[k] == hex_digit(sub.last() as int % 16));
                    assert(d2 as char == hex_digit(b as int % 16));
                }
            }
            assert(chars_of_bytes(r@) =~= hex_pairs(sub));
        }
        i = i + 1;
    }
    proof {
        assert(t@.subrange(0, t@.len() as int) =~= t@);
        assert(chars_of_bytes(r@) =~= hex_min(t@));
    }
    r
}

/// Renders a big integer, given as big-endian bytes, in lowercase hex.
pub fn hex_string(s: &Vec<u8>) -> (r: String)
    ensures
        r@ == hex_of(s@),
{
    let bytes = hex_bytes(s);
    let r = ascii_to_string(&bytes);
    assert(r@ =~= chars_of_bytes(bytes@));
    r
}

/// Copies a range out of a byte vector.
fn copy_range(s: &Vec<u8>, from: usize, to: usize) -> (r: Vec<u8>)
    requires
        from <= to <= s@.len(),
    ensures
        r@ == s@.subrange(from as int, to as int),
{
    let mut r: Vec<u8> = Vec::new();
    let mut i: usize = from;
    while i < to
        invariant
            from <= i <= to <= s@.len(),
            r@ == s@.subrange(from as int, i as int),
        decreases to - i,
    {
        let b = s[i];
        r.push(b);
        assert(r@ =~= s@.subrange(from as int, i + 1));
        i = i + 1;
    }
    r
}

/// Renders the two values of a failed comparison, stripping a shared
/// padding prefix down to the 40-digit SHA-1 part when both allow it.
pub fn display_hashes(a: &Vec<u8>, b: &Vec<u8>) -> (r: (String, String))
    ensures
        (r.0@, r.1@) == display_hashes_spec(a@, b@),
{
    let ha = hex_bytes(a);
    let hb = hex_bytes(b);
    proof {
        lemma_chars_of_bytes_eq(ha@, hb@);
    }
    if ha.len() != hb.len() || ha.len() <= 40 {
        let sa = ascii_to_string(&ha);
        let sb = ascii_to_string(&hb);
        assert(sa@ =~= chars_of_bytes(ha@));
        assert(sb@ =~= chars_of_bytes(hb@));
        return (sa, sb);
    }
    let cut = ha.len() - 40;
    let pada = copy_range(&ha, 0, cut);
    let padb = copy_range(&hb, 0, cut);
    proof {
        lemma_chars_of_bytes_eq(pada@, padb@);
        assert(chars_of_bytes(pada@) =~= chars_of_bytes(ha@).take(cut as int));
        assert(chars_of_bytes(padb@) =~= chars_of_bytes(hb@).take(cut as int));
    }
    if crate::bignum::bytes_eq(&pada, &padb) {
        let taila = copy_range(&ha, cut, ha.len());
        let tailb = copy_range(&hb, cut, hb.len());
        let sa = ascii_to_string(&taila);
        let sb = ascii_to_string(&tailb);
        proof {
            assert(sa@ =~= chars_of_bytes(taila@));
            assert(sb@ =~= chars_of_bytes(tailb@));
            assert(chars_of_bytes(taila@) =~= chars_of_bytes(ha@).skip(cut as int));
            assert(chars_of_bytes(tailb@) =~= chars_of_bytes(hb@).skip(cut as int));
        }
        (sa, sb)
    } else {
        let sa = ascii_to_string(&ha);
        let sb = ascii_to_string(&hb);
        assert(sa@ =~= chars_of_bytes(ha@));
        assert(sb@ =~= chars_of_bytes(hb@));
        (sa, sb)
    }
}

/// ASCII byte runs spell the same characters exactly when they are equal.
proof fn lemma_chars_of_bytes_eq(x: Seq<u8>, y: Seq<u8>)
    requires
        forall|i: int| 0 <= i < x.len() ==> #[trigger] x[i] < 128,
        forall|i: int| 0 <= i < y.len() ==> #[trigger] y[i] < 128,
    ensures
        (chars_of_bytes(x) == chars_of_bytes(y)) == (x == y),
{
    if chars_of_bytes(x) == chars_of_bytes(y) {
        assert(chars_of_bytes(x).len() == x.len());
        assert(chars_of_bytes(y).len() == y.len());
        assert(x.len() == y.len());
        assert forall|i: int| 0 <= i < x.len() implies x[i] == y[i] by {
            assert(chars_of_bytes(x)[i] == chars_of_bytes(y)[i]);
            assert((x[i] as char) as u8 == x[i]);
            assert((y[i] as char) as u8 == y[i]);
        }
        assert(x =~= y);
    } else {
        if x == y {
            assert(chars_of_bytes(x) =~= chars_of_bytes(y));
        }
    }
}

} // verus!
