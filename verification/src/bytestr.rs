//! ASCII-case-insensitive operations on byte strings.
//!
//! Family names, subfamily names, and paths are UTF-8 byte strings. Lookup
//! and search compare them after ASCII lowercasing, as the cache's matching
//! rules demand.

use vstd::prelude::*;

verus! {

/// ASCII lowercase of one byte: `A`..`Z` map to `a`..`z`, all else unchanged.
pub open spec fn lower_byte(c: u8) -> u8 {
    if 65 <= c <= 90 {
        (c + 32) as u8
    } else {
        c
    }
}

/// ASCII lowercase of a whole byte string.
pub open spec fn lower_seq(s: Seq<u8>) -> Seq<u8> {
    s.map_values(|c: u8| lower_byte(c))
}

/// Two byte strings are equal up to ASCII case.
pub open spec fn eq_ignore_case_spec(a: Seq<u8>, b: Seq<u8>) -> bool {
    lower_seq(a) == lower_seq(b)
}

/// `needle` occurs at offset `k` of `hay`, up to ASCII case.
pub open spec fn match_at(hay: Seq<u8>, needle: Seq<u8>, k: int) -> bool {
    &&& 0 <= k
    &&& k + needle.len() <= hay.len()
    &&& forall|j: int|
        0 <= j < needle.len() ==> lower_byte(#[trigger] hay[k + j]) == lower_byte(needle[j])
}

/// `needle` is a substring of `hay`, up to ASCII case.
pub open spec fn contains_ignore_case_spec(hay: Seq<u8>, needle: Seq<u8>) -> bool {
    exists|k: int| match_at(hay, needle, k)
}

pub fn to_lower(c: u8) -> (r: u8)
    ensures
        r == lower_byte(c),
{
    if 65 <= c && c <= 90 {
        c + 32
    } else {
        c
    }
}

/// Lexicographic byte order: a prefix precedes its extensions.
pub open spec fn lex_le(a: Seq<u8>, b: Seq<u8>) -> bool
    decreases a.len(),
{
    if a.len() == 0 {
        true
    } else if b.len() == 0 {
        false
    } else if a[0] < b[0] {
        true
    } else if a[0] > b[0] {
        false
    } else {
        lex_le(a.drop_first(), b.drop_first())
    }
}

/// Of any two byte strings, one precedes the other.
pub proof fn lemma_lex_le_total(a: Seq<u8>, b: Seq<u8>)
    ensures
        lex_le(a, b) || lex_le(b, a),
    decreases a.len(),
{
    if a.len() > 0 && b.len() > 0 && a[0] == b[0] {
        lemma_lex_le_total(a.drop_first(), b.drop_first());
    }
}

pub proof fn lemma_lex_le_trans(a: Seq<u8>, b: Seq<u8>, c: Seq<u8>)
    requires
        lex_le(a, b),
        lex_le(b, c),
    ensures
        lex_le(a, c),
    decreases a.len(),
{
    if a.len() > 0 {
        if b.len() > 0 && c.len() > 0 && a[0] == b[0] && b[0] == c[0] {
            lemma_lex_le_trans(a.drop_first(), b.drop_first(), c.drop_first());
        }
    }
}

/// Executable form of the lexicographic order.
pub fn lex_le_exec(a: &[u8], b: &[u8]) -> (r: bool)
    ensures
        r == lex_le(a@, b@),
{
    let al = a.len();
    let bl = b.len();
    let mut i: usize = 0;
    proof {
        assert(a@.skip(0) =~= a@);
        assert(b@.skip(0) =~= b@);
    }
    while i < al && i < bl
        invariant
            i <= al,
            i <= bl,
            al == a@.len(),
            bl == b@.len(),
            lex_le(a@, b@) == lex_le(a@.skip(i as int), b@.skip(i as int)),
        decreases al - i,
    {
        proof {
            assert(a@.skip(i as int)[0] == a@[i as int]);
            assert(b@.skip(i as int)[0] == b@[i as int]);
            assert(a@.skip(i as int).drop_first() =~= a@.skip(i + 1));
            assert(b@.skip(i as int).drop_first() =~= b@.skip(i + 1));
        }
        if a[i] < b[i] {
            return true;
        }
        if a[i] > b[i] {
            return false;
        }
        i = i + 1;
    }
    i >= al
}

/// Exact byte-string equality.
pub fn bytes_eq(a: &[u8], b: &[u8]) -> (r: bool)
    ensures
        r == (a@ == b@),
{
    if a.len() != b.len() {
        return false;
    }
    let mut i: usize = 0;
    while i < a.len()
        invariant
            i <= a@.len(),
            a@.len() == b@.len(),
            forall|j: int| 0 <= j < i ==> a@[j] == b@[j],
        decreases a@.len() - i,
    {
        if a[i] != b[i] {
            return false;
        }
        i = i + 1;
    }
    assert(a@ =~= b@);
    true
}

pub fn eq_ignore_case(a: &[u8], b: &[u8]) -> (r: bool)
    ensures
        r == eq_ignore_case_spec(a@, b@),
{
    if a.len() != b.len() {
        assert(lower_seq(a@).len() != lower_seq(b@).len());
        return false;
    }
    let mut i: usize = 0;
    while i < a.len()
        invariant
            i <= a@.len(),
            a@.len() == b@.len(),
            forall|j: int| 0 <= j < i ==> lower_byte(#[trigger] a@[j]) == lower_byte(b@[j]),
        decreases a@.len() - i,
    {
        if to_lower(a[i]) != to_lower(b[i]) {
            assert(lower_seq(a@)[i as int] != lower_seq(b@)[i as int]);
            return false;
        }
        i = i + 1;
    }
    assert(lower_seq(a@) =~= lower_seq(b@));
    true
}

fn match_at_exec(hay: &[u8], needle: &[u8], k: usize) -> (r: bool)
    requires
        k + needle@.len() <= hay@.len(),
    ensures
        r == match_at(hay@, needle@, k as int),
{
    let hl: usize = hay.len();
    let mut j: usize = 0;
    while j < needle.len()
        invariant
            j <= needle@.len(),
            hl == hay@.len(),
            k + needle@.len() <= hl,
            forall|t: int|
                0 <= t < j ==> lower_byte(#[trigger] hay@[k + t]) == lower_byte(needle@[t]),
        decreases needle@.len() - j,
    {
        if to_lower(hay[k + j]) != to_lower(needle[j]) {
            return false;
        }
        j = j + 1;
    }
    true
}

pub fn contains_ignore_case(hay: &[u8], needle: &[u8]) -> (r: bool)
    ensures
        r == contains_ignore_case_spec(hay@, needle@),
{
    if needle.len() > hay.len() {
        assert(forall|k: int| !match_at(hay@, needle@, k));
        return false;
    }
    if needle.len() == 0 {
        assert(match_at(hay@, needle@, 0));
        return true;
    }
    let hl: usize = hay.len();
    let last: usize = hl - needle.len();
    let mut k: usize = 0;
    while k <= last
        invariant
            hl == hay@.len(),
            1 <= needle@.len() <= hay@.len(),
            last == hay@.len() - needle@.len(),
            k <= last + 1,
            forall|t: int| 0 <= t < k ==> !match_at(hay@, needle@, t),
        decreases last - k + 1,
    {
        if match_at_exec(hay, needle, k) {
            return true;
        }
        k = k + 1;
    }
    assert(forall|t: int| match_at(hay@, needle@, t) ==> 0 <= t <= last);
    false
}

} // verus!
