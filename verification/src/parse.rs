//! Reading per-face metadata out of raw font bytes.
//!
//! The byte format is read by the `skrifa` crate behind the trusted items
//! below. What each call returns is a function of the bytes alone, so each
//! result bears a name (`face_family_of`, `face_axes_of`, ...); the parsing
//! logic proper — which faces a file yields, which error a malformed face
//! raises, how feature tags are deduplicated and sorted — is verified here
//! against those names.

use vstd::prelude::*;

use skrifa::MetadataProvider;
use skrifa::raw::TableProvider;

use crate::meta::{
    is_extension_error, path_file_type, FaceRecord, FaceV, FontError, FontFileType,
    NamedInstanceInfo,
};

verus! {

/// Whether `skrifa` accepts the bytes as a font file (single or collection).
pub uninterp spec fn file_is_font(data: Seq<u8>) -> bool;

/// How many faces the file holds: 1 for a single font, the collection's
/// count for `ttc`/`otc`, 0 where the bytes are not a font file.
pub uninterp spec fn face_count_of(data: Seq<u8>) -> nat;

/// Whether face `index` of the file can be opened.
pub uninterp spec fn face_is_readable(data: Seq<u8>, index: int) -> bool;

/// The face's family name (UTF-8 bytes), if its name table defines one.
pub uninterp spec fn face_family_of(data: Seq<u8>, index: int) -> Option<Seq<u8>>;

/// The face's subfamily name, if its name table defines one.
pub uninterp spec fn face_subfamily_of(data: Seq<u8>, index: int) -> Option<Seq<u8>>;

/// The raw 16.16 bits of the face's `head` revision, if it has a `head`.
pub uninterp spec fn face_revision_of(data: Seq<u8>, index: int) -> Option<int>;

/// The face's variation axes as (tag, min bits, default bits, max bits).
pub uninterp spec fn face_axes_of(data: Seq<u8>, index: int) -> Seq<(u32, i32, i32, i32)>;

/// How many named instances the face declares.
pub uninterp spec fn face_instance_count_of(data: Seq<u8>, index: int) -> nat;

/// Named instance `k` of the face: its subfamily name id, its display name
/// if one resolves, and its normalized coordinates as raw 2.14 bits.
pub uninterp spec fn face_instance_of(data: Seq<u8>, index: int, k: int) -> (
    u16,
    Option<Seq<u8>>,
    Seq<i16>,
);

/// The face's OpenType feature tags, GSUB then GPOS, in record order, with
/// duplicates as they stand in the file.
pub uninterp spec fn face_feature_tags_of(data: Seq<u8>, index: int) -> Seq<u32>;

/// Relies on `read_fonts::FileRef::new`: whether the bytes parse as a font.
#[verifier::external_body]
fn read_is_font(data: &[u8]) -> (r: bool)
    ensures
        r == file_is_font(data@),
{
    skrifa::raw::FileRef::new(data).is_ok()
}

/// Relies on `read_fonts::FileRef`: a single font is one face, a collection
/// reports its count, anything else has none.
#[verifier::external_body]
fn read_face_count(data: &[u8]) -> (r: u32)
    ensures
        r as nat == face_count_of(data@),
{
    match skrifa::raw::FileRef::new(data) {
        Ok(skrifa::raw::FileRef::Font(_)) => 1,
        Ok(skrifa::raw::FileRef::Collection(c)) => c.len(),
        Err(_) => 0,
    }
}

/// Relies on `read_fonts::FontRef::from_index`: whether the face opens.
#[verifier::external_body]
fn read_face_ok(data: &[u8], index: u32) -> (r: bool)
    ensures
        r == face_is_readable(data@, index as int),
{
    skrifa::FontRef::from_index(data, index).is_ok()
}

/// Relies on `skrifa`'s `localized_strings(FAMILY_NAME).english_or_first()`:
/// the face's family name, English if present, else the first entry.
#[verifier::external_body]
fn read_family_name(data: &[u8], index: u32) -> (r: Option<Vec<u8>>)
    ensures
        match r {
            Some(v) => face_family_of(data@, index as int) == Some(v@),
            None => face_family_of(data@, index as int) is None,
        },
{
    let f = skrifa::FontRef::from_index(data, index).ok()?;
    let s = f.localized_strings(skrifa::string::StringId::FAMILY_NAME).english_or_first()?;
    Some(s.to_string().into_bytes())
}

/// Relies on `skrifa`'s `localized_strings(SUBFAMILY_NAME).english_or_first()`.
#[verifier::external_body]
fn read_subfamily_name(data: &[u8], index: u32) -> (r: Option<Vec<u8>>)
    ensures
        match r {
            Some(v) => face_subfamily_of(data@, index as int) == Some(v@),
            None => face_subfamily_of(data@, index as int) is None,
        },
{
    let f = skrifa::FontRef::from_index(data, index).ok()?;
    let s = f.localized_strings(skrifa::string::StringId::SUBFAMILY_NAME).english_or_first()?;
    Some(s.to_string().into_bytes())
}

/// Relies on `head().font_revision()`: the revision's raw fixed-point bits.
#[verifier::external_body]
fn read_revision(data: &[u8], index: u32) -> (r: Option<i32>)
    ensures
        face_revision_of(data@, index as int) == match r {
            Some(v) => Some(v as int),
            None => None::<int>,
        },
{
    let f = skrifa::FontRef::from_index(data, index).ok()?;
    let head = f.head().ok()?;
    Some(head.font_revision().to_bits())
}

/// Relies on the `fvar` axis records: each axis as its tag and the raw
/// 16.16 bits of its minimum, default, and maximum. A face without `fvar`
/// has no axes.
#[verifier::external_body]
fn read_axes(data: &[u8], index: u32) -> (r: Vec<(u32, i32, i32, i32)>)
    ensures
        r@ == face_axes_of(data@, index as int),
{
    let f = match skrifa::FontRef::from_index(data, index) {
        Ok(f) => f,
        Err(_) => return Vec::new(),
    };
    let axes = match f.fvar().and_then(|t| t.axes()) {
        Ok(a) => a,
        Err(_) => return Vec::new(),
    };
    axes.iter().map(|a| (
        u32::from_be_bytes(a.axis_tag().to_be_bytes()),
        a.min_value().to_bits(),
        a.default_value().to_bits(),
        a.max_value().to_bits(),
    )).collect()
}

/// Relies on `skrifa`'s named instance collection length.
#[verifier::external_body]
fn read_instance_count(data: &[u8], index: u32) -> (r: usize)
    ensures
        r as nat == face_instance_count_of(data@, index as int),
{
    match skrifa::FontRef::from_index(data, index) {
        Ok(f) => f.named_instances().len(),
        Err(_) => 0,
    }
}

/// Relies on `skrifa`'s named instances: instance `k`'s subfamily name id,
/// the display name that id resolves to (if any), and the instance's
/// normalized coordinates.
#[verifier::external_body]
fn read_instance(data: &[u8], index: u32, k: usize) -> (r: (u16, Option<Vec<u8>>, Vec<i16>))
    requires
        k < face_instance_count_of(data@, index as int),
    ensures
        face_instance_of(data@, index as int, k as int) == (
            r.0,
            match r.1 {
                Some(v) => Some(v@),
                None => None::<Seq<u8>>,
            },
            r.2@,
        ),
{
    let f = match skrifa::FontRef::from_index(data, index) {
        Ok(f) => f,
        Err(_) => return (0, None, Vec::new()),
    };
    let ni = match f.named_instances().get(k) {
        Some(ni) => ni,
        None => return (0, None, Vec::new()),
    };
    let name_id = ni.subfamily_name_id();
    let name = f.localized_strings(name_id).english_or_first().map(|s| s.to_string().into_bytes());
    let coords: Vec<i16> = ni.location().coords().iter().map(|c| c.to_bits()).collect();
    (name_id.to_u16(), name, coords)
}

/// Relies on the GSUB and GPOS feature lists: every feature record's tag,
/// GSUB first, in record order, duplicates kept.
#[verifier::external_body]
fn read_feature_tags(data: &[u8], index: u32) -> (r: Vec<u32>)
    ensures
        r@ == face_feature_tags_of(data@, index as int),
{
    let f = match skrifa::FontRef::from_index(data, index) {
        Ok(f) => f,
        Err(_) => return Vec::new(),
    };
    f.gsub().iter().flat_map(|g| g.feature_list()).flat_map(|fl| {
        fl.feature_records().iter().map(|fr| u32::from_be_bytes(fr.feature_tag().to_be_bytes())).collect::<Vec<u32>>()
    }).chain(f.gpos().iter().flat_map(|g| g.feature_list()).flat_map(|fl| {
        fl.feature_records().iter().map(|fr| u32::from_be_bytes(fr.feature_tag().to_be_bytes())).collect::<Vec<u32>>()
    })).collect()
}

/// `s` is strictly ascending.
pub open spec fn strictly_sorted(s: Seq<u32>) -> bool {
    forall|i: int, j: int| 0 <= i < j < s.len() ==> s[i] < s[j]
}

/// `a` and `b` hold the same values.
pub open spec fn same_members(a: Seq<u32>, b: Seq<u32>) -> bool {
    forall|t: u32| a.contains(t) <==> b.contains(t)
}

/// The one strictly ascending sequence holding `raw`'s values: how the
/// feature tags stand after deduplication and sorting.
pub open spec fn canonical_tags(raw: Seq<u32>) -> Seq<u32> {
    choose|s: Seq<u32>| strictly_sorted(s) && same_members(s, raw)
}

/// Two strictly ascending sequences with the same values are equal.
pub proof fn lemma_sorted_unique_eq(a: Seq<u32>, b: Seq<u32>)
    requires
        strictly_sorted(a),
        strictly_sorted(b),
        same_members(a, b),
    ensures
        a == b,
    decreases a.len(),
{
    if a.len() == 0 {
        if b.len() > 0 {
            assert(b.contains(b[0]));
            assert(a.contains(b[0]));
        }
        assert(a =~= b);
    } else {
        assert(a.contains(a.last()));
        assert(b.contains(a.last()));
        let wb = choose|wb: int| 0 <= wb < b.len() && b[wb] == a.last();
        assert(b.last() >= a.last());
        assert(b.contains(b.last()));
        assert(a.contains(b.last()));
        let wa = choose|wa: int| 0 <= wa < a.len() && a[wa] == b.last();
        assert(a.last() >= b.last());
        assert(a.last() == b.last());
        assert forall|t: u32| a.drop_last().contains(t) implies b.drop_last().contains(t) by {
            let w = choose|w: int| 0 <= w < a.len() - 1 && a.drop_last()[w] == t;
            assert(a[w] == t);
            assert(t < a.last());
            assert(a.contains(t));
            assert(b.contains(t));
            let v = choose|v: int| 0 <= v < b.len() && b[v] == t;
            assert(v < b.len() - 1);
            assert(b.drop_last()[v] == t);
        }
        assert forall|t: u32| b.drop_last().contains(t) implies a.drop_last().contains(t) by {
            let w = choose|w: int| 0 <= w < b.len() - 1 && b.drop_last()[w] == t;
            assert(b[w] == t);
            assert(t < b.last());
            assert(b.contains(t));
            assert(a.contains(t));
            let v = choose|v: int| 0 <= v < a.len() && a[v] == t;
            assert(v < a.len() - 1);
            assert(a.drop_last()[v] == t);
        }
        lemma_sorted_unique_eq(a.drop_last(), b.drop_last());
        assert(a.len() == b.len());
        assert forall|k: int| 0 <= k < a.len() implies a[k] == b[k] by {
            if k < a.len() - 1 {
                assert(a.drop_last()[k] == a[k]);
                assert(b.drop_last()[k] == b[k]);
                assert(a.drop_last() == b.drop_last());
            }
        }
        assert(a =~= b);
    }
}

/// A strictly ascending sequence with `raw`'s values is the canonical one.
pub proof fn lemma_canonical_tags(r: Seq<u32>, raw: Seq<u32>)
    requires
        strictly_sorted(r),
        same_members(r, raw),
    ensures
        r == canonical_tags(raw),
{
    assert(strictly_sorted(canonical_tags(raw)) && same_members(canonical_tags(raw), raw)) by {
        assert(strictly_sorted(r) && same_members(r, raw));
    }
    lemma_sorted_unique_eq(r, canonical_tags(raw));
}

/// Where `t` sits in the sorted vector `out`: whether it is present, and
/// the position where it stands or belongs.
fn sorted_position(out: &Vec<u32>, t: u32) -> (r: (bool, usize))
    requires
        strictly_sorted(out@),
    ensures
        r.0 ==> r.1 < out@.len() && out@[r.1 as int] == t,
        !r.0 ==> {
            &&& r.1 <= out@.len()
            &&& forall|q: int| 0 <= q < r.1 ==> out@[q] < t
            &&& r.1 < out@.len() ==> out@[r.1 as int] > t
            &&& !out@.contains(t)
        },
{
    let mut p: usize = 0;
    while p < out.len()
        invariant
            p <= out@.len(),
            strictly_sorted(out@),
            forall|q: int| 0 <= q < p ==> out@[q] < t,
        decreases out@.len() - p,
    {
        if out[p] == t {
            return (true, p);
        }
        if out[p] > t {
            assert forall|w: int| 0 <= w < out@.len() implies out@[w] != t by {
                if w >= p {
                    assert(out@[p as int] <= out@[w]);
                }
            }
            return (false, p);
        }
        p = p + 1;
    }
    (false, p)
}

/// Sorts the tags ascending and drops duplicates.
fn sort_dedup_tags(input: &Vec<u32>) -> (r: Vec<u32>)
    ensures
        strictly_sorted(r@),
        same_members(r@, input@),
{
    let mut out: Vec<u32> = Vec::new();
    let mut i: usize = 0;
    while i < input.len()
        invariant
            i <= input@.len(),
            strictly_sorted(out@),
            same_members(out@, input@.take(i as int)),
        decreases input@.len() - i,
    {
        let t = input[i];
        proof {
            assert(input@.take(i + 1) =~= input@.take(i as int).push(t));
            assert forall|x: u32|
                input@.take(i + 1).contains(x) implies input@.take(i as int).contains(x) || x
                == t by {
                let w = choose|w: int|
                    0 <= w < input@.take(i + 1).len() && (#[trigger] input@.take(i + 1)[w]) == x;
                if w < i {
                    assert(input@.take(i as int)[w] == x);
                }
            }
            assert forall|x: u32|
                input@.take(i as int).contains(x) || x == t implies input@.take(i + 1).contains(
                x,
            ) by {
                if input@.take(i as int).contains(x) {
                    let w = choose|w: int|
                        0 <= w < i && input@.take(i as int)[w] == x;
                    assert(input@.take(i + 1)[w] == x);
                } else {
                    assert(input@.take(i + 1)[i as int] == x);
                }
            }
        }
        let ghost old_out = out@;
        let (present, p) = sorted_position(&out, t);
        if !present {
            out.insert(p, t);
            proof {
                assert(out@ == old_out.insert(p as int, t));
                assert forall|x: u32| out@.contains(x) implies old_out.contains(x) || x == t by {
                    let w = choose|w: int| 0 <= w < out@.len() && out@[w] == x;
                    if w < p {
                        assert(old_out[w] == x);
                    } else if w > p {
                        assert(old_out[w - 1] == x);
                    }
                }
                assert forall|x: u32| old_out.contains(x) implies out@.contains(x) by {
                    let w = choose|w: int| 0 <= w < old_out.len() && old_out[w] == x;
                    if w < p {
                        assert(out@[w] == x);
                    } else {
                        assert(out@[w + 1] == x);
                    }
                }
                assert(out@[p as int] == t);
                assert(out@.contains(t));
                assert forall|a: int, b: int| 0 <= a < b < out@.len() implies out@[a]
                    < out@[b] by {
                    if a < p && b > p {
                        assert(old_out[a] == out@[a] && old_out[b - 1] == out@[b]);
                    } else if a == p && b > p {
                        assert(old_out[b - 1] == out@[b]);
                        assert(old_out[p as int] == out@[p + 1]);
                        assert(old_out[p as int] <= old_out[b - 1]);
                    } else if a < p && b == p {
                        assert(old_out[a] == out@[a]);
                    }
                }
            }
        } else {
            assert(out@.contains(t));
        }
        proof {
            assert forall|x: u32| out@.contains(x) implies input@.take(i + 1).contains(x) by {
                if x != t {
                    assert(old_out.contains(x));
                    assert(input@.take(i as int).contains(x));
                }
            }
            assert forall|x: u32| input@.take(i + 1).contains(x) implies out@.contains(x) by {
                if x != t {
                    assert(input@.take(i as int).contains(x));
                    assert(old_out.contains(x));
                }
            }
        }
        i = i + 1;
    }
    assert(input@.take(input@.len() as int) =~= input@);
    out
}

/// Face `index` of the file parses cleanly: it opens, has a family name and
/// a `head` revision, and every named instance resolves a display name.
pub open spec fn face_ok(data: Seq<u8>, index: int) -> bool {
    &&& face_is_readable(data, index)
    &&& face_family_of(data, index) is Some
    &&& face_revision_of(data, index) is Some
    &&& forall|k: int|
        0 <= k < face_instance_count_of(data, index) ==> (#[trigger] face_instance_of(
            data,
            index,
            k,
        )).1 is Some
}

/// What face `index` of the file parses to: the names, the revision bits,
/// the axes, the named instances in order, and the feature tags sorted and
/// deduplicated.
pub open spec fn face_rec_of(data: Seq<u8>, index: int) -> FaceV {
    FaceV {
        face_index: index,
        family_name: face_family_of(data, index).unwrap(),
        subfamily_name: face_subfamily_of(data, index),
        revision_bits: face_revision_of(data, index).unwrap(),
        variation_axes: Seq::new(
            face_axes_of(data, index).len(),
            |k: int|
                {
                    let t = face_axes_of(data, index)[k];
                    crate::meta::AxisInfo {
                        tag: t.0,
                        min_bits: t.1,
                        default_bits: t.2,
                        max_bits: t.3,
                    }
                },
        ),
        named_instances: Seq::new(
            face_instance_count_of(data, index),
            |k: int|
                {
                    let t = face_instance_of(data, index, k);
                    crate::meta::NamedInstanceV {
                        name: t.1.unwrap(),
                        named_instance_index: k,
                        coords: t.2,
                    }
                },
        ),
        features: canonical_tags(face_feature_tags_of(data, index)),
    }
}

/// The faces a whole file parses to, in face order.
pub open spec fn file_faces_of(data: Seq<u8>) -> Seq<FaceV> {
    Seq::new(face_count_of(data), |i: int| face_rec_of(data, i))
}

/// The error that parsing face `index` raises, tied to the reason: an
/// unreadable face, a missing family name or `head`, or the first named
/// instance whose name id resolves no display name.
pub open spec fn face_error_matches(e: FontError, path: Seq<u8>, data: Seq<u8>, index: int) -> bool {
    if !face_is_readable(data, index) {
        e matches FontError::UnreadableFont { path: p } && p@ == path
    } else if face_family_of(data, index) is None {
        &&& e matches FontError::MissingData { path: p, field }
        &&& e matches FontError::MissingData { path: p, field } ==> p@ == path && field@ =~= seq![
            70u8, 65u8, 77u8, 73u8, 76u8, 89u8, 95u8, 78u8, 65u8, 77u8, 69u8,
        ]
    } else if face_revision_of(data, index) is None {
        &&& e matches FontError::MissingData { path: p, field }
        &&& e matches FontError::MissingData { path: p, field } ==> p@ == path && field@ =~= seq![
            104u8, 101u8, 97u8, 100u8,
        ]
    } else {
        &&& e matches FontError::NamedInstanceHasNoName { path: p, name_id }
        &&& e matches FontError::NamedInstanceHasNoName { path: p, name_id } ==> {
            &&& p@ == path
            &&& exists|k: int|
                {
                    &&& 0 <= k < face_instance_count_of(data, index)
                    &&& (#[trigger] face_instance_of(data, index, k)).1 is None
                    &&& name_id == face_instance_of(data, index, k).0
                    &&& forall|j: int| 0 <= j < k ==> (#[trigger] face_instance_of(data, index, j)).1 is Some
                }
        }
    }
}

/// Parses one face of the file into a record, or reports why it cannot be.
pub fn parse_face(path: &[u8], data: &[u8], index: u32) -> (r: Result<FaceRecord, FontError>)
    ensures
        match r {
            Ok(rec) => face_ok(data@, index as int) && rec@ == face_rec_of(
                data@,
                index as int,
            ),
            Err(e) => !face_ok(data@, index as int) && face_error_matches(
                e,
                path@,
                data@,
                index as int,
            ),
        },
{
    if !read_face_ok(data, index) {
        return Err(FontError::UnreadableFont { path: vstd::slice::slice_to_vec(path) });
    }
    let family_name = match read_family_name(data, index) {
        Some(v) => v,
        None => {
            let field: Vec<u8> = vec![70, 65, 77, 73, 76, 89, 95, 78, 65, 77, 69];
            return Err(FontError::MissingData { path: vstd::slice::slice_to_vec(path), field });
        },
    };
    let subfamily_name = read_subfamily_name(data, index);
    let revision_bits = match read_revision(data, index) {
        Some(v) => v,
        None => {
            let field: Vec<u8> = vec![104, 101, 97, 100];
            return Err(FontError::MissingData { path: vstd::slice::slice_to_vec(path), field });
        },
    };
    let raw_axes = read_axes(data, index);
    let mut variation_axes: Vec<crate::meta::AxisInfo> = Vec::new();
    let mut i: usize = 0;
    while i < raw_axes.len()
        invariant
            i <= raw_axes@.len(),
            raw_axes@ == face_axes_of(data@, index as int),
            variation_axes@.len() == i,
            forall|k: int|
                0 <= k < i ==> {
                    let a = #[trigger] variation_axes@[k];
                    let t = raw_axes@[k];
                    a.tag == t.0 && a.min_bits == t.1 && a.default_bits == t.2 && a.max_bits
                        == t.3
                },
        decreases raw_axes@.len() - i,
    {
        let (tag, min_bits, default_bits, max_bits) = raw_axes[i];
        variation_axes.push(crate::meta::AxisInfo { tag, min_bits, default_bits, max_bits });
        i = i + 1;
    }
    let instance_count = read_instance_count(data, index);
    let mut named_instances: Vec<NamedInstanceInfo> = Vec::new();
    let mut k: usize = 0;
    while k < instance_count
        invariant
            k <= instance_count,
            face_is_readable(data@, index as int),
            face_family_of(data@, index as int) is Some,
            face_revision_of(data@, index as int) is Some,
            instance_count as nat == face_instance_count_of(data@, index as int),
            named_instances@.len() == k,
            forall|j: int|
                0 <= j < k ==> {
                    let n = (#[trigger] named_instances@[j])@;
                    let t = face_instance_of(data@, index as int, j);
                    n.named_instance_index == j && Some(n.name) == t.1 && n.coords == t.2
                },
            forall|j: int|
                0 <= j < k ==> (#[trigger] face_instance_of(data@, index as int, j)).1 is Some,
        decreases instance_count - k,
    {
        let (name_id, name_opt, coords) = read_instance(data, index, k);
        let name = match name_opt {
            Some(v) => v,
            None => {
                proof {
                    assert(face_instance_of(data@, index as int, k as int).1 is None);
                    assert((k as int) < face_instance_count_of(data@, index as int));
                    assert(!face_ok(data@, index as int));
                }
                return Err(FontError::NamedInstanceHasNoName {
                    path: vstd::slice::slice_to_vec(path),
                    name_id,
                });
            },
        };
        named_instances.push(NamedInstanceInfo { name, named_instance_index: k, coords });
        k = k + 1;
    }
    let raw_tags = read_feature_tags(data, index);
    let features = sort_dedup_tags(&raw_tags);
    proof {
        lemma_canonical_tags(features@, face_feature_tags_of(data@, index as int));
    }
    let rec = FaceRecord {
        face_index: index,
        family_name,
        subfamily_name,
        revision_bits,
        variation_axes,
        named_instances,
        features,
    };
    proof {
        assert(rec@.named_instances =~= rec.named_instances@.map_values(
            |n: NamedInstanceInfo| n@,
        ));
        assert(rec@.variation_axes =~= face_rec_of(data@, index as int).variation_axes);
        assert(rec@.named_instances =~= face_rec_of(data@, index as int).named_instances);
        assert(rec@ =~= face_rec_of(data@, index as int));
    }
    Ok(rec)
}

/// The whole file parses cleanly: a supported extension, font bytes, and
/// every face in it parses.
pub open spec fn file_ok(path: Seq<u8>, data: Seq<u8>) -> bool {
    &&& path_file_type(path) is Some
    &&& file_is_font(data)
    &&& forall|i: int| 0 <= i < face_count_of(data) ==> face_ok(data, i)
}

/// The error parsing the file raises: a bad extension, bytes that are not a
/// font, or the error of the first face that fails.
pub open spec fn file_error_matches(e: FontError, path: Seq<u8>, data: Seq<u8>) -> bool {
    if path_file_type(path) is None {
        is_extension_error(e, path)
    } else if !file_is_font(data) {
        e matches FontError::UnreadableFont { path: p } && p@ == path
    } else {
        exists|i: int|
            {
                &&& 0 <= i < face_count_of(data)
                &&& !(#[trigger] face_ok(data, i))
                &&& face_error_matches(e, path, data, i)
                &&& forall|j: int| 0 <= j < i ==> face_ok(data, j)
            }
    }
}

/// Parses a whole file: validates the extension, then reads every face in
/// order. The first failure is reported and nothing is returned for the
/// file; success returns the file type with one record per face.
pub fn parse_file(path: &[u8], data: &[u8]) -> (r: Result<(FontFileType, Vec<FaceRecord>), FontError>)
    ensures
        match r {
            Ok((t, faces)) => {
                &&& file_ok(path@, data@)
                &&& path_file_type(path@) == Some(t)
                &&& faces@.map_values(|f: FaceRecord| f@) == file_faces_of(data@)
            },
            Err(e) => !file_ok(path@, data@) && file_error_matches(e, path@, data@),
        },
{
    let file_type = match FontFileType::from_path(path) {
        Ok(t) => t,
        Err(e) => {
            return Err(e);
        },
    };
    if !read_is_font(data) {
        return Err(FontError::UnreadableFont { path: vstd::slice::slice_to_vec(path) });
    }
    let count = read_face_count(data);
    let mut faces: Vec<FaceRecord> = Vec::new();
    let mut i: u32 = 0;
    while i < count
        invariant
            i <= count,
            path_file_type(path@) == Some(file_type),
            file_is_font(data@),
            count as nat == face_count_of(data@),
            faces@.len() == i,
            forall|j: int| 0 <= j < i ==> face_ok(data@, j),
            forall|j: int| 0 <= j < i ==> (#[trigger] faces@[j])@ == face_rec_of(data@, j),
        decreases count - i,
    {
        match parse_face(path, data, i) {
            Ok(rec) => {
                faces.push(rec);
            },
            Err(e) => {
                proof {
                    assert(!face_ok(data@, i as int));
                    assert((i as int) < face_count_of(data@));
                }
                return Err(e);
            },
        }
        i = i + 1;
    }
    proof {
        assert(faces@.map_values(|f: FaceRecord| f@) =~= file_faces_of(data@));
    }
    Ok((file_type, faces))
}

} // verus!
