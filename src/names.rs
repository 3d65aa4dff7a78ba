//! 8.3 file names: parsing what a caller passes and reading what is stored.
use vstd::prelude::*;

use crate::error::LibBBRDBError;

verus! {

/// The byte `.`.
pub const DOT: u8 = 0x2e;

/// An ASCII letter folded to lower case; every other byte is kept.
pub open spec fn lower(b: u8) -> u8 {
    if 65 <= b <= 90 { (b + 32) as u8 } else { b }
}

/// `s` with its ASCII letters folded to lower case.
pub open spec fn lower_seq(s: Seq<u8>) -> Seq<u8> {
    s.map_values(|b: u8| lower(b))
}

/// Whether `s` holds no `.`.
pub open spec fn no_dot(s: Seq<u8>) -> bool {
    forall|j: int| 0 <= j < s.len() ==> s[j] != DOT
}

/// Whether `p` is the position of the first `.` of `s`.
pub open spec fn is_first_dot(s: Seq<u8>, p: int) -> bool {
    0 <= p < s.len() && s[p] == DOT && no_dot(s.take(p))
}

/// A name split at its first `.` into base and extension; a name without one
/// has an empty extension.
pub open spec fn name_parts(s: Seq<u8>) -> (Seq<u8>, Seq<u8>) {
    if no_dot(s) {
        (s, seq![])
    } else {
        let p = choose|p: int| is_first_dot(s, p);
        (s.take(p), s.skip(p + 1))
    }
}

/// Whether every byte of `s` is ASCII and not NUL.
pub open spec fn ascii_no_nul(s: Seq<u8>) -> bool {
    forall|j: int| 0 <= j < s.len() ==> 0 < #[trigger] s[j] < 128
}

/// Whether a name is longer than 8.3 allows.
pub open spec fn too_long(s: Seq<u8>) -> bool {
    name_parts(s).0.len() > 8 || name_parts(s).1.len() > 3
}

/// Whether a name has a base and at most one `.`.
pub open spec fn well_shaped(s: Seq<u8>) -> bool {
    name_parts(s).0.len() > 0 && no_dot(name_parts(s).1)
}

/// Whether a name can be stored: ASCII without NUL, 8.3 and well shaped.
#[verifier::opaque]
pub open spec fn name_ok(s: Seq<u8>) -> bool {
    ascii_no_nul(s) && !too_long(s) && well_shaped(s)
}

/// The stored base and extension of a name that can be stored.
#[verifier::opaque]
pub open spec fn canonical_parts(s: Seq<u8>) -> (Seq<u8>, Seq<u8>) {
    (lower_seq(name_parts(s).0), lower_seq(name_parts(s).1))
}

/// `s` padded with NUL bytes to `n` bytes.
pub open spec fn padded(s: Seq<u8>, n: nat) -> Seq<u8> {
    s + Seq::new((n - s.len()) as nat, |i: int| 0u8)
}

/// A name with a `.` in it has a first one.
pub proof fn lemma_first_dot_exists(s: Seq<u8>, q: int)
    requires
        0 <= q < s.len(),
        s[q] == DOT,
    ensures
        exists|p: int| is_first_dot(s, p),
    decreases q,
{
    if no_dot(s.take(q)) {
        assert(is_first_dot(s, q));
    } else {
        let j = choose|j: int| 0 <= j < s.take(q).len() && s.take(q)[j] == DOT;
        lemma_first_dot_exists(s, j);
    }
}

/// A byte string with a NUL in it has a first one.
pub proof fn lemma_first_nul_exists(s: Seq<u8>, q: int)
    requires
        0 <= q < s.len(),
        s[q] == 0,
    ensures
        exists|p: int| 0 <= p < s.len() && s[p] == 0 && forall|j: int| 0 <= j < p ==> s[j] != 0,
    decreases q,
{
    if forall|j: int| 0 <= j < q ==> s[j] != 0 {
    } else {
        let j = choose|j: int| 0 <= j < q && s[j] == 0;
        lemma_first_nul_exists(s, j);
    }
}

proof fn lemma_first_dot_unique(s: Seq<u8>, p: int, q: int)
    requires
        is_first_dot(s, p),
        is_first_dot(s, q),
    ensures
        p == q,
{
    if p < q {
        assert(s.take(q)[p] == DOT);
    } else if q < p {
        assert(s.take(p)[q] == DOT);
    }
}

fn copy_lower(s: &[u8], from: usize, to: usize) -> (r: Vec<u8>)
    requires
        from <= to <= s@.len(),
    ensures
        r@ == lower_seq(s@.subrange(from as int, to as int)),
{
    let mut v: Vec<u8> = Vec::new();
    let mut i: usize = from;
    while i < to
        invariant
            from <= i <= to <= s@.len(),
            v@ == lower_seq(s@.subrange(from as int, i as int)),
        decreases to - i,
    {
        let b = s[i];
        let l: u8 = if 65 <= b && b <= 90 { b + 32 } else { b };
        v.push(l);
        i = i + 1;
        assert(v@ =~= lower_seq(s@.subrange(from as int, i as int)));
    }
    v
}

/// Parses a file name: the base and the extension, folded to lower case.
///
/// A name with a byte that is not ASCII, or a NUL, is refused as invalid;
/// one with a base over 8 or an extension over 3 bytes as too long; one with
/// an empty base or a second `.` as invalid.
pub fn canonical_name(name: &[u8]) -> (r: Result<(Vec<u8>, Vec<u8>), LibBBRDBError>)
    ensures
        r is Ok <==> name_ok(name@),
        r is Ok ==> (r->Ok_0.0@, r->Ok_0.1@) == canonical_parts(name@),
        r is Ok ==> 1 <= r->Ok_0.0@.len() <= 8 && r->Ok_0.1@.len() <= 3 && name@.len() <= 12,
        r is Err ==> (r->Err_0 is FileNameTooLong <==> (ascii_no_nul(name@) && too_long(
            name@,
        ))),
        r is Err ==> (r->Err_0 is FileNameTooLong || r->Err_0 is InvalidFilename),
{
    reveal(name_ok);
    reveal(canonical_parts);
    let s = name;
    let ghost sb = name@;
    let mut i: usize = 0;
    while i < s.len()
        invariant
            i <= s@.len(),
            s@ == sb,
            sb == name@,
            ascii_no_nul(s@.take(i as int)),
        decreases s@.len() - i,
    {
        if s[i] == 0 || s[i] >= 128 {
            reveal(name_ok);
            assert(!ascii_no_nul(sb) ) by {
                assert(!(0 < sb[i as int] < 128));
            }
            return Err(LibBBRDBError::InvalidFilename(lossy_string(name)));
        }
        i = i + 1;
        assert(ascii_no_nul(s@.take(i as int))) by {
            assert forall|j: int| 0 <= j < i implies 0 < #[trigger] s@.take(i as int)[j] < 128 by {
                if j < i - 1 {
                    assert(s@.take(i as int)[j] == s@.take(i - 1)[j]);
                }
            }
        }
    }
    assert(s@.take(i as int) =~= sb);
    let mut p: usize = 0;
    while p < s.len() && s[p] != DOT
        invariant
            p <= s@.len(),
            s@ == sb,
            sb == name@,
            no_dot(sb.take(p as int)),
        decreases s@.len() - p,
    {
        p = p + 1;
        assert(no_dot(sb.take(p as int))) by {
            assert forall|j: int| 0 <= j < p implies sb.take(p as int)[j] != DOT by {
                if j < p - 1 {
                    assert(sb.take(p as int)[j] == sb.take(p - 1)[j]);
                }
            }
        }
    }
    let base_end = p;
    let ext_start: usize = if p < s.len() { p + 1 } else { p };
    proof {
        if p < sb.len() {
            assert(is_first_dot(sb, p as int));
            assert(!no_dot(sb));
            let q = choose|q: int| is_first_dot(sb, q);
            lemma_first_dot_unique(sb, p as int, q);
            assert(name_parts(sb).0 =~= sb.subrange(0, base_end as int));
            assert(name_parts(sb).1 =~= sb.subrange(ext_start as int, sb.len() as int));
        } else {
            assert(sb.take(p as int) =~= sb);
            assert(name_parts(sb).0 =~= sb.subrange(0, base_end as int));
            assert(name_parts(sb).1 =~= sb.subrange(ext_start as int, sb.len() as int));
        }
    }
    if base_end > 8 || s.len() - ext_start > 3 {
        return Err(LibBBRDBError::FileNameTooLong(lossy_string(name)));
    }
    if base_end == 0 {
        return Err(LibBBRDBError::InvalidFilename(lossy_string(name)));
    }
    let mut k: usize = ext_start;
    while k < s.len()
        invariant
            ext_start <= k <= s@.len(),
            s@ == sb,
            sb == name@,
            no_dot(sb.subrange(ext_start as int, k as int)),
            name_parts(sb).1 == sb.subrange(ext_start as int, sb.len() as int),
            ext_start <= sb.len(),
            sb.len() - ext_start <= 3,
            name_parts(sb).0.len() == base_end,
            base_end <= 8,
        decreases s@.len() - k,
    {
        if s[k] == DOT {
            assert(sb.subrange(ext_start as int, sb.len() as int)[k - ext_start] == DOT);
            reveal(name_ok);
            return Err(LibBBRDBError::InvalidFilename(lossy_string(name)));
        }
        k = k + 1;
        assert(no_dot(sb.subrange(ext_start as int, k as int))) by {
            assert forall|j: int| 0 <= j < k - ext_start implies sb.subrange(ext_start as int, k as int)[j] != DOT by {
                if j < k - 1 - ext_start {
                    assert(sb.subrange(ext_start as int, k as int)[j] == sb.subrange(ext_start as int, k - 1)[j]);
                }
            }
        }
    }
    let base = copy_lower(s, 0, base_end);
    let ext = copy_lower(s, ext_start, s.len());
    Ok((base, ext))
}

/// Pads `s` with NUL bytes to `n` bytes.
pub fn pad_to(s: &Vec<u8>, n: usize) -> (r: Vec<u8>)
    requires
        s@.len() <= n,
    ensures
        r@ == padded(s@, n as nat),
{
    let mut v: Vec<u8> = Vec::new();
    let mut i: usize = 0;
    while i < n
        invariant
            i <= n,
            s@.len() <= n,
            v@ == padded(s@, n as nat).take(i as int),
        decreases n - i,
    {
        let b: u8 = if i < s.len() { s[i] } else { 0 };
        v.push(b);
        i = i + 1;
        assert(v@ =~= padded(s@, n as nat).take(i as int));
    }
    assert(v@ =~= padded(s@, n as nat));
    v
}

/// The part of `s` before its first NUL.
pub open spec fn until_nul(s: Seq<u8>) -> Seq<u8> {
    if forall|j: int| 0 <= j < s.len() ==> s[j] != 0 {
        s
    } else {
        let p = choose|p: int| 0 <= p < s.len() && s[p] == 0 && forall|j: int| 0 <= j < p ==> s[j] != 0;
        s.take(p)
    }
}

/// Copies `s` up to its first NUL.
pub fn copy_until_nul(s: &[u8]) -> (r: Vec<u8>)
    ensures
        r@ == until_nul(s@),
{
    let mut v: Vec<u8> = Vec::new();
    let mut i: usize = 0;
    while i < s.len() && s[i] != 0
        invariant
            i <= s@.len(),
            v@ == s@.take(i as int),
            forall|j: int| 0 <= j < i ==> s@[j] != 0,
        decreases s@.len() - i,
    {
        v.push(s[i]);
        i = i + 1;
        assert(v@ =~= s@.take(i as int));
    }
    proof {
        if i < s@.len() {
            let p = choose|p: int| 0 <= p < s@.len() && s@[p] == 0 && forall|j: int| 0 <= j < p ==> s@[j] != 0;
            if p < i {
            } else if i < p {
                assert(s@[i as int] != 0);
            }
            assert(p == i);
        } else {
            assert(s@.take(i as int) =~= s@);
        }
    }
    v
}

/// Whether `s` is a stored name part: lower-case ASCII without NUL or `.`.
pub open spec fn stored_part_ok(s: Seq<u8>, max: nat) -> bool {
    &&& s.len() <= max
    &&& forall|j: int| 0 <= j < s.len() ==> 0 < #[trigger] s[j] < 128 && s[j] != DOT && !(65 <= s[j] <= 90)
}

/// Whether a name as shown to callers is 8.3 and lower-case ASCII: a base of
/// one to eight bytes, and an extension of at most three after a `.` when
/// there is one.
pub open spec fn listed_name_ok(s: Seq<u8>) -> bool {
    &&& forall|j: int| 0 <= j < s.len() ==> 0 < #[trigger] s[j] < 128 && !(65 <= s[j] <= 90)
    &&& exists|b: int|
        #![trigger s.take(b)]
        1 <= b <= 8 && b <= s.len() && no_dot(s.take(b)) && (b == s.len() || (s[b] == DOT && s.len() - b - 1 <= 3
            && no_dot(s.skip(b + 1))))
}

/// A stored part with no NUL in it reads back whole.
pub proof fn lemma_until_nul_padded(s: Seq<u8>, n: nat)
    requires
        s.len() <= n,
        forall|j: int| 0 <= j < s.len() ==> #[trigger] s[j] != 0,
    ensures
        until_nul(padded(s, n)) == s,
{
    let p = padded(s, n);
    if s.len() < n {
        assert(p[s.len() as int] == 0);
        lemma_first_nul_exists(p, s.len() as int);
        assert(!(forall|j: int| 0 <= j < p.len() ==> p[j] != 0));
        let q = choose|q: int| 0 <= q < p.len() && p[q] == 0 && forall|j: int| 0 <= j < q ==> p[j] != 0;
        if q < s.len() {
            assert(p[q] == s[q]);
        } else if q > s.len() {
            assert(p[s.len() as int] != 0);
        }
        assert(p.take(q) =~= s);
    } else {
        assert(p =~= s);
    }
}

/// Folding to lower case leaves a name part that can be stored.
pub proof fn lemma_lower_part_ok(s: Seq<u8>, max: nat)
    requires
        s.len() <= max,
        ascii_no_nul(s),
        no_dot(s),
    ensures
        stored_part_ok(lower_seq(s), max),
{
    assert forall|j: int| 0 <= j < lower_seq(s).len() implies 0 < #[trigger] lower_seq(s)[j] < 128 && lower_seq(s)[j] != DOT
        && !(65 <= lower_seq(s)[j] <= 90) by {
        assert(0 < s[j] < 128);
        assert(s[j] != DOT);
    }
}

/// The characters of an ASCII byte string.
pub open spec fn ascii_chars(b: Seq<u8>) -> Seq<char> {
    b.map_values(|c: u8| c as char)
}

/// Whether every byte is ASCII.
pub open spec fn is_ascii_bytes(b: Seq<u8>) -> bool {
    forall|i: int| 0 <= i < b.len() ==> #[trigger] b[i] < 128
}

/// Relies on `String::from_utf8_lossy`: ASCII bytes are valid UTF-8 and come
/// back as the same characters.
#[verifier::external_body]
pub(crate) fn lossy_string(b: &[u8]) -> (r: String)
    ensures
        is_ascii_bytes(b@) ==> r@ == ascii_chars(b@),
{
    String::from_utf8_lossy(b).into_owned()
}

/// The name of the file a write goes through before it is renamed.
pub open spec fn temp_name() -> Seq<u8> {
    seq![0x74u8, 0x65u8, 0x6du8, 0x70u8, DOT, 0x74u8, 0x6du8, 0x70u8]
}

/// The bytes of `temp.tmp`.
pub fn temp_file_name() -> (r: Vec<u8>)
    ensures
        r@ == temp_name(),
{
    let r = vec![0x74u8, 0x65u8, 0x6du8, 0x70u8, DOT, 0x74u8, 0x6du8, 0x70u8];
    assert(r@ =~= temp_name());
    r
}

/// `temp.tmp` can be stored, as base `temp` and extension `tmp`.
pub proof fn lemma_temp_name_ok()
    ensures
        name_ok(temp_name()),
        canonical_parts(temp_name()).0 == temp_name().take(4),
        canonical_parts(temp_name()).1 == temp_name().skip(5),
{
    reveal(name_ok);
    reveal(canonical_parts);
    let s = temp_name();
    assert(is_first_dot(s, 4));
    assert(!no_dot(s));
    let q = choose|q: int| is_first_dot(s, q);
    lemma_first_dot_unique(s, 4, q);
    assert(name_parts(s).0 =~= s.take(4));
    assert(name_parts(s).1 =~= s.skip(5));
    assert(no_dot(s.skip(5)));
    assert(lower_seq(s.take(4)) =~= s.take(4));
    assert(lower_seq(s.skip(5)) =~= s.skip(5));
}

/// Copies `s` with its ASCII letters folded to lower case.
pub fn lower_bytes(s: &[u8]) -> (r: Vec<u8>)
    ensures
        r@ == lower_seq(s@),
{
    copy_lower(s, 0, s.len())
}

/// Folding to lower case keeps a byte string ASCII.
pub proof fn lemma_lower_ascii(s: Seq<u8>)
    ensures
        is_ascii_bytes(s) ==> is_ascii_bytes(lower_seq(s)),
{
    if is_ascii_bytes(s) {
        assert forall|i: int| 0 <= i < lower_seq(s).len() implies #[trigger] lower_seq(s)[i] < 128 by {
            assert(s[i] < 128);
        }
    }
}

/// A stored name with an extension reads back, in lower case, as its base,
/// a `.` and its extension.
pub proof fn lemma_parts_join(n: Seq<u8>)
    ensures
        name_ok(n) && canonical_parts(n).1.len() > 0 ==> lower_seq(n) == canonical_parts(n).0 + seq![DOT]
            + canonical_parts(n).1,
{
    reveal(name_ok);
    reveal(canonical_parts);
    if name_ok(n) && canonical_parts(n).1.len() > 0 {
        if no_dot(n) {
            assert(name_parts(n).1 =~= Seq::<u8>::empty());
        } else {
            let q = choose|q: int| !(0 <= q < n.len() ==> n[q] != DOT);
            lemma_first_dot_exists(n, q);
            let p = choose|p: int| is_first_dot(n, p);
            assert(name_parts(n).0 == n.take(p));
            assert(name_parts(n).1 == n.skip(p + 1));
            assert(lower_seq(n) =~= lower_seq(n.take(p)) + seq![DOT] + lower_seq(n.skip(p + 1)));
        }
    }
}

} // verus!
