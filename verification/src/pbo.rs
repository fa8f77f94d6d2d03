//! The archive as the signature scheme sees it.
//!
//! A [`Pbo`] holds exactly what the digest protocol reads of an archive: the
//! stored checksum, the file entries in their natural order (each a file
//! name, as bytes, with its raw body), and the optional `prefix` extension.
//! File names are treated as byte strings; ASCII letters are lowercased
//! where the protocol asks for lowercasing.

use vstd::prelude::*;
use crate::BISignVersion;

verus! {

/// One file of the archive: its name and its raw body.
pub struct PboEntry {
    pub filename: Vec<u8>,
    pub data: Vec<u8>,
}

pub struct PboEntryView {
    pub filename: Seq<u8>,
    pub data: Seq<u8>,
}

impl View for PboEntry {
    type V = PboEntryView;

    open spec fn view(&self) -> PboEntryView {
        PboEntryView { filename: self.filename@, data: self.data@ }
    }
}

/// The read-only view of an archive that signing and verification consult.
pub struct Pbo {
    /// The archive's stored SHA-1 checksum, 20 bytes.
    pub checksum: Vec<u8>,
    /// The file entries, in the archive's natural order.
    pub files: Vec<PboEntry>,
    /// The `prefix` extension, if the archive declares one.
    pub prefix: Option<Vec<u8>>,
}

pub struct PboView {
    pub checksum: Seq<u8>,
    pub files: Seq<PboEntryView>,
    pub prefix: Option<Seq<u8>>,
}

impl View for Pbo {
    type V = PboView;

    open spec fn view(&self) -> PboView {
        PboView {
            checksum: self.checksum@,
            files: self.files@.map_values(|e: PboEntry| e@),
            prefix: match self.prefix {
                Some(ref p) => Some(p@),
                None => None,
            },
        }
    }
}

impl PboView {
    pub open spec fn wf(&self) -> bool {
        self.checksum.len() == 20
    }
}

/// ASCII lowercasing of one byte.
pub open spec fn lower_byte(b: u8) -> u8 {
    if 65 <= b <= 90 {
        (b + 32) as u8
    } else {
        b
    }
}

/// ASCII lowercasing of a byte string.
pub open spec fn ascii_lower(s: Seq<u8>) -> Seq<u8> {
    s.map_values(|b: u8| lower_byte(b))
}

/// Lowercases the ASCII letters of a byte string.
pub fn lower_bytes(s: &Vec<u8>) -> (r: Vec<u8>)
    ensures
        r@ == ascii_lower(s@),
{
    let mut r: Vec<u8> = Vec::new();
    let mut i: usize = 0;
    while i < s.len()
        invariant
            i <= s@.len(),
            r@ == ascii_lower(s@.take(i as int)),
        decreases s@.len() - i,
    {
        let b = s[i];
        if 65 <= b && b <= 90 {
            r.push(b + 32);
        } else {
            r.push(b);
        }
        assert(r@ =~= ascii_lower(s@.take(i + 1)));
        i = i + 1;
    }
    assert(s@.take(s@.len() as int) =~= s@);
    r
}

/// The final dot-separated component of a file name; the whole name when it
/// holds no dot.
pub open spec fn ext_of(name: Seq<u8>) -> Seq<u8>
    decreases name.len(),
{
    if name.len() == 0 {
        name
    } else if name.last() == 46 {
        Seq::empty()
    } else {
        ext_of(name.drop_last()).push(name.last())
    }
}

proof fn lemma_ext_of_skip(name: Seq<u8>, k: int)
    requires
        0 <= k <= name.len(),
        forall|j: int| k <= j < name.len() ==> name[j] != 46,
        k > 0 ==> name[k - 1] == 46,
    ensures
        ext_of(name) == name.skip(k),
    decreases name.len(),
{
    if name.len() == 0 {
        assert(name.skip(0) =~= name);
    } else if k == name.len() {
        if k > 0 {
            assert(name.last() == 46);
            assert(name.skip(k) =~= Seq::<u8>::empty());
        }
    } else {
        assert(name.last() != 46);
        lemma_ext_of_skip(name.drop_last(), k);
        assert(name.skip(k) =~= name.drop_last().skip(k).push(name.last()));
    }
}

/// Extracts the extension: the bytes after the last dot, or the whole name.
pub fn extension(name: &Vec<u8>) -> (r: Vec<u8>)
    ensures
        r@ == ext_of(name@),
{
    let mut start: usize = name.len();
    while start > 0
        invariant_except_break
            start <= name@.len(),
            forall|j: int| start <= j < name@.len() ==> name@[j] != 46,
        ensures
            start <= name@.len(),
            forall|j: int| start <= j < name@.len() ==> name@[j] != 46,
            start > 0 ==> name@[start - 1] == 46,
        decreases start,
    {
        if name[start - 1] == 46 {
            break;
        }
        start = start - 1;
    }
    proof {
        lemma_ext_of_skip(name@, start as int);
    }
    let mut r: Vec<u8> = Vec::new();
    let mut i: usize = start;
    while i < name.len()
        invariant
            start <= i <= name@.len(),
            r@ == name@.subrange(start as int, i as int),
        decreases name@.len() - i,
    {
        let b = name[i];
        r.push(b);
        assert(r@ =~= name@.subrange(start as int, i + 1));
        i = i + 1;
    }
    assert(name@.subrange(start as int, name@.len() as int) =~= name@.skip(start as int));
    r
}

/// The extensions the V2 scheme leaves out of the body digest.
pub open spec fn v2_excluded(ext: Seq<u8>) -> bool {
    ||| ext == seq![112u8, 97, 97]
    ||| ext == seq![106u8, 112, 103]
    ||| ext == seq![112u8, 51, 100]
    ||| ext == seq![116u8, 103, 97]
    ||| ext == seq![114u8, 118, 109, 97, 116]
    ||| ext == seq![108u8, 105, 112]
    ||| ext == seq![111u8, 103, 103]
    ||| ext == seq![119u8, 115, 115]
    ||| ext == seq![112u8, 110, 103]
    ||| ext == seq![114u8, 116, 109]
    ||| ext == seq![112u8, 97, 99]
    ||| ext == seq![102u8, 120, 121]
    ||| ext == seq![119u8, 114, 112]
}

/// The only extensions the V3 scheme takes into the body digest.
pub open spec fn v3_included(ext: Seq<u8>) -> bool {
    ||| ext == seq![115u8, 113, 102]
    ||| ext == seq![105u8, 110, 99]
    ||| ext == seq![98u8, 105, 107, 98]
    ||| ext == seq![101u8, 120, 116]
    ||| ext == seq![102u8, 115, 109]
    ||| ext == seq![115u8, 113, 109]
    ||| ext == seq![104u8, 112, 112]
    ||| ext == seq![99u8, 102, 103]
    ||| ext == seq![115u8, 113, 115]
    ||| ext == seq![104u8]
}

/// Whether the body digest of the given scheme version covers a file name.
pub open spec fn included(name: Seq<u8>, version: BISignVersion) -> bool {
    match version {
        BISignVersion::V2 => !v2_excluded(ext_of(name)),
        BISignVersion::V3 => v3_included(ext_of(name)),
    }
}

fn eq1(s: &Vec<u8>, a: u8) -> (r: bool)
    ensures
        r == (s@ == seq![a]),
{
    let r = s.len() == 1 && s[0] == a;
    proof {
        if r {
            assert(s@ =~= seq![a]);
        }
    }
    r
}

fn eq3(s: &Vec<u8>, a: u8, b: u8, c: u8) -> (r: bool)
    ensures
        r == (s@ == seq![a, b, c]),
{
    let r = s.len() == 3 && s[0] == a && s[1] == b && s[2] == c;
    proof {
        if r {
            assert(s@ =~= seq![a, b, c]);
        }
    }
    r
}

fn eq4(s: &Vec<u8>, a: u8, b: u8, c: u8, d: u8) -> (r: bool)
    ensures
        r == (s@ == seq![a, b, c, d]),
{
    let r = s.len() == 4 && s[0] == a && s[1] == b && s[2] == c && s[3] == d;
    proof {
        if r {
            assert(s@ =~= seq![a, b, c, d]);
        }
    }
    r
}

fn eq5(s: &Vec<u8>, a: u8, b: u8, c: u8, d: u8, e: u8) -> (r: bool)
    ensures
        r == (s@ == seq![a, b, c, d, e]),
{
    let r = s.len() == 5 && s[0] == a && s[1] == b && s[2] == c && s[3] == d && s[4] == e;
    proof {
        if r {
            assert(s@ =~= seq![a, b, c, d, e]);
        }
    }
    r
}

/// Decides whether the body digest covers a file, per the version's
/// extension filter.
pub fn is_included(name: &Vec<u8>, version: BISignVersion) -> (r: bool)
    ensures
        r == included(name@, version),
{
    let ext = extension(name);
    match version {
        BISignVersion::V2 => {
            let hit = eq3(&ext, 112, 97, 97) || eq3(&ext, 106, 112, 103) || eq3(
                &ext,
                112,
                51,
                100,
            ) || eq3(&ext, 116, 103, 97) || eq5(&ext, 114, 118, 109, 97, 116) || eq3(
                &ext,
                108,
                105,
                112,
            ) || eq3(&ext, 111, 103, 103) || eq3(&ext, 119, 115, 115) || eq3(
                &ext,
                112,
                110,
                103,
            ) || eq3(&ext, 114, 116, 109) || eq3(&ext, 112, 97, 99) || eq3(
                &ext,
                102,
                120,
                121,
            ) || eq3(&ext, 119, 114, 112);
            !hit
        },
        BISignVersion::V3 => {
            eq3(&ext, 115, 113, 102) || eq3(&ext, 105, 110, 99) || eq4(
                &ext,
                98,
                105,
                107,
                98,
            ) || eq3(&ext, 101, 120, 116) || eq3(&ext, 102, 115, 109) || eq3(
                &ext,
                115,
                113,
                109,
            ) || eq3(&ext, 104, 112, 112) || eq3(&ext, 99, 102, 103) || eq3(
                &ext,
                115,
                113,
                115,
            ) || eq1(&ext, 104)
        },
    }
}

/// Strict lexicographic order on byte strings.
pub open spec fn lex_lt(a: Seq<u8>, b: Seq<u8>) -> bool
    decreases a.len(),
{
    if b.len() == 0 {
        false
    } else if a.len() == 0 {
        true
    } else if a[0] < b[0] {
        true
    } else if a[0] > b[0] {
        false
    } else {
        lex_lt(a.skip(1), b.skip(1))
    }
}

proof fn lemma_lex_lt_common_prefix(a: Seq<u8>, b: Seq<u8>, i: int)
    requires
        0 <= i <= a.len(),
        i <= b.len(),
        forall|j: int| 0 <= j < i ==> a[j] == b[j],
    ensures
        lex_lt(a, b) == lex_lt(a.skip(i), b.skip(i)),
    decreases i,
{
    if i > 0 {
        assert(a.len() > 0 && b.len() > 0 && a[0] == b[0]);
        lemma_lex_lt_common_prefix(a.skip(1), b.skip(1), i - 1);
        assert(a.skip(1).skip(i - 1) =~= a.skip(i));
        assert(b.skip(1).skip(i - 1) =~= b.skip(i));
    } else {
        assert(a.skip(0) =~= a);
        assert(b.skip(0) =~= b);
    }
}

/// Compares two byte strings lexicographically.
pub fn lex_lt_bytes(a: &Vec<u8>, b: &Vec<u8>) -> (r: bool)
    ensures
        r == lex_lt(a@, b@),
{
    let mut i: usize = 0;
    loop
        invariant_except_break
            i <= a@.len(),
            i <= b@.len(),
            forall|j: int| 0 <= j < i ==> a@[j] == b@[j],
        ensures
            lex_lt(a@, b@) == {
                let r: bool = if i >= b@.len() {
                    false
                } else if i >= a@.len() {
                    true
                } else {
                    a@[i as int] < b@[i as int]
                };
                r
            },
        decreases a@.len() - i,
    {
        proof {
            lemma_lex_lt_common_prefix(a@, b@, i as int);
        }
        if i == b.len() {
            break;
        }
        if i == a.len() {
            break;
        }
        if a[i] != b[i] {
            break;
        }
        i = i + 1;
    }
    if i >= b.len() {
        false
    } else if i >= a.len() {
        true
    } else {
        a[i] < b[i]
    }
}

/// The views of a sequence of byte vectors.
pub open spec fn views(s: Seq<Vec<u8>>) -> Seq<Seq<u8>> {
    s.map_values(|v: Vec<u8>| v@)
}

/// Stable insertion into a lexicographically sorted sequence: the new
/// element lands after every element not greater than it.
pub open spec fn insert_lex(x: Seq<u8>, s: Seq<Seq<u8>>) -> Seq<Seq<u8>>
    decreases s.len(),
{
    if s.len() == 0 {
        seq![x]
    } else if lex_lt(x, s[0]) {
        seq![x] + s
    } else {
        seq![s[0]] + insert_lex(x, s.skip(1))
    }
}

/// Stable insertion sort of byte strings, in lexicographic order.
pub open spec fn sort_lex(s: Seq<Seq<u8>>) -> Seq<Seq<u8>>
    decreases s.len(),
{
    if s.len() == 0 {
        Seq::empty()
    } else {
        insert_lex(s.last(), sort_lex(s.drop_last()))
    }
}

proof fn lemma_insert_lex_at(x: Seq<u8>, s: Seq<Seq<u8>>, j: int)
    requires
        0 <= j <= s.len(),
        forall|k: int| 0 <= k < j ==> !lex_lt(x, s[k]),
        j < s.len() ==> lex_lt(x, s[j]),
    ensures
        insert_lex(x, s) == s.insert(j, x),
    decreases j,
{
    if j == 0 {
        if s.len() == 0 {
            assert(insert_lex(x, s) =~= s.insert(0, x));
        } else {
            assert(lex_lt(x, s[0]));
            assert(seq![x] + s =~= s.insert(0, x));
        }
    } else {
        assert(!lex_lt(x, s[0]));
        lemma_insert_lex_at(x, s.skip(1), j - 1);
        assert(seq![s[0]] + s.skip(1).insert(j - 1, x) =~= s.insert(j, x));
    }
}

/// Inserts a byte string into a sorted vector, keeping the order.
pub fn insert_sorted(sorted: &mut Vec<Vec<u8>>, x: Vec<u8>)
    ensures
        views(final(sorted)@) == insert_lex(x@, views(old(sorted)@)),
{
    let ghost s = views(sorted@);
    let mut j: usize = 0;
    while j < sorted.len()
        invariant_except_break
            j <= sorted@.len(),
            s == views(sorted@),
            forall|k: int| 0 <= k < j ==> !lex_lt(x@, s[k]),
        ensures
            j <= sorted@.len(),
            s == views(sorted@),
            forall|k: int| 0 <= k < j ==> !lex_lt(x@, s[k]),
            j < sorted@.len() ==> lex_lt(x@, s[j as int]),
        decreases sorted@.len() - j,
    {
        if lex_lt_bytes(&x, &sorted[j]) {
            assert(s[j as int] == sorted@[j as int]@);
            break;
        }
        assert(s[j as int] == sorted@[j as int]@);
        j = j + 1;
    }
    proof {
        lemma_insert_lex_at(x@, s, j as int);
    }
    sorted.insert(j, x);
    assert(views(sorted@) =~= s.insert(j as int, x@));
}

/// Sorts byte strings lexicographically (stable insertion sort).
pub fn sort_bytes(mut names: Vec<Vec<u8>>) -> (r: Vec<Vec<u8>>)
    ensures
        views(r@) == sort_lex(views(names@)),
{
    let ghost all = views(names@);
    let mut sorted: Vec<Vec<u8>> = Vec::new();
    let mut k: usize = 0;
    let total = names.len();
    while k < total
        invariant
            k <= total,
            total == names@.len(),
            all == views(names@),
            views(sorted@) == sort_lex(all.take(k as int)),
        decreases total - k,
    {
        let ghost pre = views(sorted@);
        let x = names[k].clone();
        assert(x@ =~= all[k as int]);
        insert_sorted(&mut sorted, x);
        proof {
            assert(all.take(k + 1).drop_last() =~= all.take(k as int));
            assert(all.take(k + 1).last() == all[k as int]);
        }
        k = k + 1;
    }
    assert(all.take(total as int) =~= all);
    sorted
}

} // verus!
