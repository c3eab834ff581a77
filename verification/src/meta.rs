//! Per-face metadata records, the errors of the library, and the rules that
//! rank two faces of the same family and subfamily.
//!
//! A face record carries what the cache reads out of a font file: names as
//! UTF-8 bytes, the revision and axis extents as raw fixed-point bits, and
//! variable-font coordinates as raw 2.14 bits.

use vstd::prelude::*;

use crate::bytestr::{
    contains_ignore_case, contains_ignore_case_spec, eq_ignore_case, eq_ignore_case_spec,
    lower_byte, lower_seq, to_lower,
};

verus! {

/// The errors this library reports. Reading files and talking to the GPU
/// happen outside the library, so their failures are not represented here.
#[derive(Debug, Clone, PartialEq, Eq)]
pub enum FontError {
    /// The path's extension is not one of `.ttf`, `.otf`, `.ttc`, `.otc`.
    FileExtension { path: Vec<u8>, extension: Option<Vec<u8>> },
    /// The bytes could not be read as a font file, or one face in a
    /// collection could not be opened.
    UnreadableFont { path: Vec<u8> },
    /// A required field or record is absent; `field` names it.
    MissingData { path: Vec<u8>, field: Vec<u8> },
    /// A named instance resolves no display name at its name id.
    NamedInstanceHasNoName { path: Vec<u8>, name_id: u16 },
    /// No cached face answers the lookup.
    NotCached { family_name: Vec<u8>, subfamily_name: Option<Vec<u8>> },
    /// The face defines no outline for the glyph, drawing it failed, or
    /// its rendered mask would not fit the renderer's byte budget.
    GlyphNotFound { glyph_id: u32 },
    /// The atlas allocator has no room left; there is no eviction.
    AtlasExhausted,
}

/// Whether a file holds one face or a collection of faces.
#[derive(Debug, Clone, Copy, PartialEq, Eq, Structural)]
pub enum FontFileType {
    Single,
    Collection,
}

/// A path separator byte (`/` or `\`).
pub open spec fn is_sep(c: u8) -> bool {
    c == 47 || c == 92
}

/// Index of the dot that starts the path's extension, or -1: the last dot of
/// the last path component, provided it is not that component's first byte.
pub open spec fn ext_dot(p: Seq<u8>) -> int
    decreases p.len(),
{
    if p.len() == 0 {
        -1
    } else if is_sep(p.last()) {
        -1
    } else if p.last() == 46 {
        if p.len() >= 2 && !is_sep(p[p.len() - 2]) {
            p.len() - 1
        } else {
            -1
        }
    } else {
        ext_dot(p.drop_last())
    }
}

/// The path's extension (bytes after the final dot), if any.
pub open spec fn extension_of(p: Seq<u8>) -> Option<Seq<u8>> {
    if ext_dot(p) >= 0 {
        Some(p.subrange(ext_dot(p) + 1, p.len() as int))
    } else {
        None
    }
}

/// The file type an extension names: `ttf`/`otf` a single face, `ttc`/`otc`
/// a collection, anything else nothing. Case-insensitive.
pub open spec fn ext_file_type(e: Seq<u8>) -> Option<FontFileType> {
    let l = lower_seq(e);
    if l == seq![116u8, 116u8, 102u8] || l == seq![111u8, 116u8, 102u8] {
        Some(FontFileType::Single)
    } else if l == seq![116u8, 116u8, 99u8] || l == seq![111u8, 116u8, 99u8] {
        Some(FontFileType::Collection)
    } else {
        None
    }
}

/// The file type of a whole path, if its extension names one.
pub open spec fn path_file_type(p: Seq<u8>) -> Option<FontFileType> {
    match extension_of(p) {
        Some(e) => ext_file_type(e),
        None => None,
    }
}

/// `e` is the `FileExtension` error for path `p`: it carries `p` itself and
/// the extension as `extension_of` finds it.
pub open spec fn is_extension_error(e: FontError, p: Seq<u8>) -> bool {
    &&& e matches FontError::FileExtension { path, extension }
    &&& e matches FontError::FileExtension { path, extension } ==> {
        &&& path@ == p
        &&& match extension {
            Some(v) => extension_of(p) == Some(v@),
            None => extension_of(p) is None,
        }
    }
}

impl FontFileType {
    /// Validates a path's extension: `.ttf`/`.otf` are single faces,
    /// `.ttc`/`.otc` collections; anything else is a `FileExtension` error
    /// carrying the path and the extension as found.
    pub fn from_path(path: &[u8]) -> (r: Result<FontFileType, FontError>)
        ensures
            match r {
                Ok(t) => path_file_type(path@) == Some(t),
                Err(e) => path_file_type(path@) is None && is_extension_error(e, path@),
            },
    {
        let mut i: usize = path.len();
        assert(path@.take(i as int) =~= path@);
        while i > 0
            invariant
                i <= path@.len(),
                ext_dot(path@) == ext_dot(path@.take(i as int)),
            decreases i,
        {
            let c = path[i - 1];
            assert(path@.take(i as int).last() == c);
            assert(path@.take(i as int).drop_last() =~= path@.take(i - 1));
            if c == 47 || c == 92 {
                return Err(FontError::FileExtension {
                    path: vstd::slice::slice_to_vec(path),
                    extension: None,
                });
            }
            if c == 46 {
                if i >= 2 && !(path[i - 2] == 47 || path[i - 2] == 92) {
                    assert(path@.take(i as int)[i - 2] == path@[i - 2]);
                    assert(ext_dot(path@) == i - 1);
                    return Self::of_extension(path, i);
                } else {
                    return Err(FontError::FileExtension {
                        path: vstd::slice::slice_to_vec(path),
                        extension: None,
                    });
                }
            }
            i = i - 1;
        }
        Err(FontError::FileExtension { path: vstd::slice::slice_to_vec(path), extension: None })
    }

    /// Classifies the extension that starts at byte `start` of `path`.
    fn of_extension(path: &[u8], start: usize) -> (r: Result<FontFileType, FontError>)
        requires
            ext_dot(path@) == start - 1,
            1 <= start <= path@.len(),
        ensures
            match r {
                Ok(t) => path_file_type(path@) == Some(t),
                Err(e) => path_file_type(path@) is None && is_extension_error(e, path@),
            },
    {
        let ghost ext = path@.subrange(start as int, path@.len() as int);
        assert(extension_of(path@) == Some(ext));
        if path.len() - start == 3 {
            let e0 = to_lower(path[start]);
            let e1 = to_lower(path[start + 1]);
            let e2 = to_lower(path[start + 2]);
            proof {
                assert(lower_seq(ext).len() == 3);
                assert(lower_seq(ext)[0] == lower_byte(path@[start as int]));
                assert(lower_seq(ext)[1] == lower_byte(path@[start + 1]));
                assert(lower_seq(ext)[2] == lower_byte(path@[start + 2]));
            }
            if e0 == 116 && e1 == 116 && e2 == 102 {
                assert(lower_seq(ext) =~= seq![116u8, 116u8, 102u8]);
                return Ok(FontFileType::Single);
            }
            if e0 == 111 && e1 == 116 && e2 == 102 {
                assert(lower_seq(ext) =~= seq![111u8, 116u8, 102u8]);
                return Ok(FontFileType::Single);
            }
            if e0 == 116 && e1 == 116 && e2 == 99 {
                assert(lower_seq(ext) =~= seq![116u8, 116u8, 99u8]);
                return Ok(FontFileType::Collection);
            }
            if e0 == 111 && e1 == 116 && e2 == 99 {
                assert(lower_seq(ext) =~= seq![111u8, 116u8, 99u8]);
                return Ok(FontFileType::Collection);
            }
        }
        proof {
            if lower_seq(ext) == seq![116u8, 116u8, 102u8] || lower_seq(ext) == seq![
                111u8,
                116u8,
                102u8,
            ] || lower_seq(ext) == seq![116u8, 116u8, 99u8] || lower_seq(ext) == seq![
                111u8,
                116u8,
                99u8,
            ] {
                assert(lower_seq(ext).len() == 3);
                assert(lower_seq(ext)[0] == lower_byte(path@[start as int]));
                assert(lower_seq(ext)[1] == lower_byte(path@[start + 1]));
                assert(lower_seq(ext)[2] == lower_byte(path@[start + 2]));
                assert(false);
            }
        }
        let mut epart: Vec<u8> = Vec::new();
        let mut j: usize = start;
        while j < path.len()
            invariant
                start <= j <= path@.len(),
                epart@ =~= path@.subrange(start as int, j as int),
            decreases path@.len() - j,
        {
            epart.push(path[j]);
            assert(epart@ =~= path@.subrange(start as int, j + 1));
            j = j + 1;
        }
        assert(epart@ =~= ext);
        Err(FontError::FileExtension {
            path: vstd::slice::slice_to_vec(path),
            extension: Some(epart),
        })
    }
}

/// One variation axis: its tag and the raw 16.16 fixed-point bits of its
/// minimum, default, and maximum values.
#[derive(Debug, Clone, Copy, PartialEq, Eq, Structural)]
pub struct AxisInfo {
    pub tag: u32,
    pub min_bits: i32,
    pub default_bits: i32,
    pub max_bits: i32,
}

/// One named instance: its display name, its index in the font's instance
/// list, and its normalized design-space coordinates as raw 2.14 bits.
#[derive(Debug, Clone, PartialEq, Eq)]
pub struct NamedInstanceInfo {
    pub name: Vec<u8>,
    pub named_instance_index: usize,
    pub coords: Vec<i16>,
}

#[verifier::ext_equal]
pub struct NamedInstanceV {
    pub name: Seq<u8>,
    pub named_instance_index: int,
    pub coords: Seq<i16>,
}

impl View for NamedInstanceInfo {
    type V = NamedInstanceV;

    open spec fn view(&self) -> NamedInstanceV {
        NamedInstanceV {
            name: self.name@,
            named_instance_index: self.named_instance_index as int,
            coords: self.coords@,
        }
    }
}

/// Everything the cache keeps of one face of one file.
#[derive(Debug, Clone, PartialEq, Eq)]
pub struct FaceRecord {
    /// Index of the face within its file (0 for single-face files).
    pub face_index: u32,
    pub family_name: Vec<u8>,
    pub subfamily_name: Option<Vec<u8>>,
    /// Raw 16.16 fixed-point bits of the font revision; the fixed-point
    /// order is the order of the bits as a signed integer.
    pub revision_bits: i32,
    pub variation_axes: Vec<AxisInfo>,
    pub named_instances: Vec<NamedInstanceInfo>,
    /// OpenType feature tags, deduplicated and sorted ascending.
    pub features: Vec<u32>,
}

#[verifier::ext_equal]
pub struct FaceV {
    pub face_index: int,
    pub family_name: Seq<u8>,
    pub subfamily_name: Option<Seq<u8>>,
    pub revision_bits: int,
    pub variation_axes: Seq<AxisInfo>,
    pub named_instances: Seq<NamedInstanceV>,
    pub features: Seq<u32>,
}

impl View for FaceRecord {
    type V = FaceV;

    open spec fn view(&self) -> FaceV {
        FaceV {
            face_index: self.face_index as int,
            family_name: self.family_name@,
            subfamily_name: match self.subfamily_name {
                Some(s) => Some(s@),
                None => None,
            },
            revision_bits: self.revision_bits as int,
            variation_axes: self.variation_axes@,
            named_instances: self.named_instances@.map_values(|n: NamedInstanceInfo| n@),
            features: self.features@,
        }
    }
}

/// Face `a` outranks face `b`: more variation axes, then more OpenType
/// features, then more named instances, then a higher revision. Anything
/// else (ties included) does not outrank, so the first seen wins.
pub open spec fn better_than(a: FaceV, b: FaceV) -> bool {
    ||| a.variation_axes.len() > b.variation_axes.len()
    ||| (a.variation_axes.len() == b.variation_axes.len() && a.features.len() > b.features.len())
    ||| (a.variation_axes.len() == b.variation_axes.len() && a.features.len() == b.features.len()
        && a.named_instances.len() > b.named_instances.len())
    ||| (a.variation_axes.len() == b.variation_axes.len() && a.features.len() == b.features.len()
        && a.named_instances.len() == b.named_instances.len() && a.revision_bits
        > b.revision_bits)
}

/// Ranking is a strict order: no face outranks itself, and of two faces at
/// most one outranks the other. With `commit`'s rule that only an outranking
/// newcomer replaces, the cache keeps the better of two rivals and a
/// re-loaded inferior changes nothing.
pub proof fn lemma_better_than_strict(a: FaceV, b: FaceV)
    ensures
        !better_than(a, a),
        better_than(a, b) ==> !better_than(b, a),
{
}

/// Executable form of the ranking.
pub fn outranks(a: &FaceRecord, b: &FaceRecord) -> (r: bool)
    ensures
        r == better_than(a@, b@),
{
    if a.variation_axes.len() != b.variation_axes.len() {
        return a.variation_axes.len() > b.variation_axes.len();
    }
    if a.features.len() != b.features.len() {
        return a.features.len() > b.features.len();
    }
    if a.named_instances.len() != b.named_instances.len() {
        assert(a@.named_instances.len() == a.named_instances@.len());
        assert(b@.named_instances.len() == b.named_instances@.len());
        return a.named_instances.len() > b.named_instances.len();
    }
    assert(a@.named_instances.len() == a.named_instances@.len());
    assert(b@.named_instances.len() == b.named_instances@.len());
    a.revision_bits > b.revision_bits
}

/// Two faces carry the same identity: equal family names and equal
/// subfamily names (both absent, or both present and equal), up to ASCII
/// case. The cache keeps at most one face per identity.
pub open spec fn same_key(a: FaceV, b: FaceV) -> bool {
    &&& eq_ignore_case_spec(a.family_name, b.family_name)
    &&& match (a.subfamily_name, b.subfamily_name) {
        (None, None) => true,
        (Some(x), Some(y)) => eq_ignore_case_spec(x, y),
        _ => false,
    }
}

/// A cached face answers a lookup for `family` and optional `subfamily`:
/// the family matches exactly up to ASCII case, and if a subfamily is asked
/// for the face's subfamily matches it the same way.
pub open spec fn lookup_matches(
    face: FaceV,
    family: Seq<u8>,
    subfamily: Option<Seq<u8>>,
) -> bool {
    &&& eq_ignore_case_spec(face.family_name, family)
    &&& match subfamily {
        None => true,
        Some(s) => match face.subfamily_name {
            Some(fs) => eq_ignore_case_spec(fs, s),
            None => false,
        },
    }
}

/// Executable form of `lookup_matches`.
pub fn lookup_match(
    face: &FaceRecord,
    family: &[u8],
    subfamily: Option<&Vec<u8>>,
) -> (r: bool)
    ensures
        r == lookup_matches(
            face@,
            family@,
            match subfamily {
                Some(s) => Some(s@),
                None => None,
            },
        ),
{
    if !eq_ignore_case(face.family_name.as_slice(), family) {
        return false;
    }
    match subfamily {
        None => true,
        Some(s) => match &face.subfamily_name {
            Some(fs) => eq_ignore_case(fs.as_slice(), s.as_slice()),
            None => false,
        },
    }
}

/// A cached face answers a free-text search for `family` and optional
/// `subfamily`: the family term occurs in the face's family name, and the
/// subfamily term, if given, occurs in the face's subfamily name; both up
/// to ASCII case.
pub open spec fn search_matches(
    face: FaceV,
    family: Seq<u8>,
    subfamily: Option<Seq<u8>>,
) -> bool {
    &&& contains_ignore_case_spec(face.family_name, family)
    &&& match subfamily {
        None => true,
        Some(s) => match face.subfamily_name {
            Some(fs) => contains_ignore_case_spec(fs, s),
            None => false,
        },
    }
}

/// Executable form of `search_matches`.
pub fn search_match(
    face: &FaceRecord,
    family: &[u8],
    subfamily: Option<&Vec<u8>>,
) -> (r: bool)
    ensures
        r == search_matches(
            face@,
            family@,
            match subfamily {
                Some(s) => Some(s@),
                None => None,
            },
        ),
{
    if !contains_ignore_case(face.family_name.as_slice(), family) {
        return false;
    }
    match subfamily {
        None => true,
        Some(s) => match &face.subfamily_name {
            Some(fs) => contains_ignore_case(fs.as_slice(), s.as_slice()),
            None => false,
        },
    }
}

} // verus!
