//! The font cache: owned raw byte storage, per-face metadata entries, and
//! the path records that link each entry to the one file it came from.
//!
//! Loading follows a two-phase discipline: a parallel, side-effect-free
//! phase hashes and parses each file on its own, and a strictly sequential
//! commit folds each file's parsed faces into the shared state. The commit
//! keeps at most one entry per (family, subfamily) identity, replacing an
//! entry only when the newcomer outranks it, and relinking the replaced
//! index from its old path to the new one atomically.

use vstd::prelude::*;

use rayon::iter::{IntoParallelRefIterator, ParallelIterator};

use crate::bytestr::{eq_ignore_case_spec, lex_le};
use crate::hash::fnv1a;
use crate::meta::{
    better_than, lookup_matches, path_file_type, same_key, FaceRecord, FaceV, FontError,
    FontFileType,
};

verus! {

/// One committed load: the path, what kind of file it was, the content
/// hash of its bytes, and the cache indices it currently owns.
pub struct PathRecord {
    pub path: Vec<u8>,
    pub file_type: FontFileType,
    pub hash: u64,
    pub face_idxs: Vec<usize>,
}

#[verifier::ext_equal]
pub struct PathV {
    pub path: Seq<u8>,
    pub file_type: FontFileType,
    pub hash: u64,
    pub face_idxs: Seq<usize>,
}

impl View for PathRecord {
    type V = PathV;

    open spec fn view(&self) -> PathV {
        PathV {
            path: self.path@,
            file_type: self.file_type,
            hash: self.hash,
            face_idxs: self.face_idxs@,
        }
    }
}

/// One live face: its metadata and the arena slot its bytes live in.
pub struct FontCacheEntry {
    pub rec: FaceRecord,
    pub arena_index: usize,
}

#[verifier::ext_equal]
pub struct EntryV {
    pub rec: FaceV,
    pub arena_index: int,
}

impl View for FontCacheEntry {
    type V = EntryV;

    open spec fn view(&self) -> EntryV {
        EntryV { rec: self.rec@, arena_index: self.arena_index as int }
    }
}

/// The cache: append-only raw byte storage (one buffer per committed
/// path, never freed while the cache lives), the path records, and the
/// live entries. Entry indices are stable for the cache's lifetime.
pub struct FontCache {
    arena: Vec<Vec<u8>>,
    paths: Vec<PathRecord>,
    entries: Vec<FontCacheEntry>,
}

#[verifier::ext_equal]
pub struct CacheV {
    pub arena: Seq<Seq<u8>>,
    pub paths: Seq<PathV>,
    pub entries: Seq<EntryV>,
}

impl View for FontCache {
    type V = CacheV;

    closed spec fn view(&self) -> CacheV {
        CacheV {
            arena: self.arena@.map_values(|b: Vec<u8>| b@),
            paths: self.paths@.map_values(|p: PathRecord| p@),
            entries: self.entries@.map_values(|e: FontCacheEntry| e@),
        }
    }
}

/// A handle to one cached face: its index in the cache. Indices are never
/// reused for a different identity's slot and never move.
#[derive(Debug, Clone, Copy, PartialEq, Eq, Structural)]
pub struct FontRef {
    pub cache_index: usize,
}

/// Every linked index denotes a live entry.
pub open spec fn links_in_range(c: CacheV) -> bool {
    forall|p: int, k: int|
        0 <= p < c.paths.len() && 0 <= k < c.paths[p].face_idxs.len() ==> (
        #[trigger] c.paths[p].face_idxs[k]) < c.entries.len()
}

/// No path links the same index twice.
pub open spec fn links_nodup(c: CacheV) -> bool {
    forall|p: int, k1: int, k2: int|
        0 <= p < c.paths.len() && 0 <= k1 < k2 < c.paths[p].face_idxs.len()
            ==> #[trigger] c.paths[p].face_idxs[k1] != #[trigger] c.paths[p].face_idxs[k2]
}

/// Index `e` is linked under some path.
pub open spec fn is_linked(c: CacheV, e: usize) -> bool {
    exists|p: int, k: int|
        0 <= p < c.paths.len() && 0 <= k < c.paths[p].face_idxs.len() && (
        #[trigger] c.paths[p].face_idxs[k]) == e
}

/// Every live entry is linked under some path.
pub open spec fn links_complete(c: CacheV) -> bool {
    forall|e: usize| e < c.entries.len() ==> #[trigger] is_linked(c, e)
}

/// An entry linked to a path was parsed from that path's bytes.
pub open spec fn links_aligned(c: CacheV) -> bool {
    forall|p: int, k: int|
        0 <= p < c.paths.len() && 0 <= k < c.paths[p].face_idxs.len() ==> c.entries[(
        #[trigger] c.paths[p].face_idxs[k]) as int].arena_index == p
}

/// Total number of linked indices across all paths.
pub open spec fn linked_count(paths: Seq<PathV>) -> int
    decreases paths.len(),
{
    if paths.len() == 0 {
        0
    } else {
        linked_count(paths.drop_last()) + paths.last().face_idxs.len()
    }
}

/// At most one entry per (family, subfamily) identity.
pub open spec fn keys_unique(entries: Seq<EntryV>) -> bool {
    forall|i: int, j: int|
        0 <= i < j < entries.len() ==> !same_key(
            (#[trigger] entries[i]).rec,
            (#[trigger] entries[j]).rec,
        )
}

/// An entry without a subfamily stands before every entry of its family,
/// so a family-only lookup finds it first.
pub open spec fn none_sub_first(entries: Seq<EntryV>) -> bool {
    forall|i: int, j: int|
        0 <= i < entries.len() && 0 <= j < entries.len() && eq_ignore_case_spec(
            (#[trigger] entries[i]).rec.family_name,
            (#[trigger] entries[j]).rec.family_name,
        ) && entries[i].rec.subfamily_name is None ==> i <= j
}

/// The cache's invariant. Every constructor establishes it and every
/// method preserves it; several are the sanity conditions the design
/// demands after each mutation: one buffer per path record so the sum of
/// per-path ranges is the arena's whole content, path and hash uniqueness,
/// and total linked indices equal to total live entries.
pub open spec fn wf(c: CacheV) -> bool {
    &&& c.arena.len() == c.paths.len()
    &&& forall|p: int| 0 <= p < c.paths.len() ==> (#[trigger] c.paths[p]).hash == fnv1a(
        c.arena[p],
    )
    &&& forall|p: int, q: int|
        0 <= p < q < c.paths.len() ==> (#[trigger] c.paths[p]).path != (
        #[trigger] c.paths[q]).path
    &&& forall|p: int, q: int|
        0 <= p < q < c.paths.len() ==> (#[trigger] c.paths[p]).hash != (
        #[trigger] c.paths[q]).hash
    &&& links_in_range(c)
    &&& links_nodup(c)
    &&& links_aligned(c)
    &&& links_complete(c)
    &&& linked_count(c.paths) == c.entries.len()
    &&& keys_unique(c.entries)
    &&& none_sub_first(c.entries)
}

/// The first entry at or after `i` answering the lookup, if any.
pub open spec fn first_match_from(
    entries: Seq<EntryV>,
    family: Seq<u8>,
    sub: Option<Seq<u8>>,
    i: int,
) -> Option<int>
    decreases entries.len() - i,
{
    if i < 0 || i >= entries.len() {
        None
    } else if lookup_matches(entries[i].rec, family, sub) {
        Some(i)
    } else {
        first_match_from(entries, family, sub, i + 1)
    }
}

/// The first entry answering the lookup, if any.
pub open spec fn first_match(entries: Seq<EntryV>, family: Seq<u8>, sub: Option<Seq<u8>>) -> Option<
    int,
> {
    first_match_from(entries, family, sub, 0)
}

pub proof fn lemma_first_match_from(
    entries: Seq<EntryV>,
    family: Seq<u8>,
    sub: Option<Seq<u8>>,
    i: int,
)
    requires
        0 <= i <= entries.len(),
    ensures
        match first_match_from(entries, family, sub, i) {
            Some(m) => {
                &&& i <= m < entries.len()
                &&& lookup_matches(entries[m].rec, family, sub)
                &&& forall|j: int|
                    i <= j < m ==> !lookup_matches((#[trigger] entries[j]).rec, family, sub)
            },
            None => forall|j: int|
                i <= j < entries.len() ==> !lookup_matches(
                    (#[trigger] entries[j]).rec,
                    family,
                    sub,
                ),
        },
    decreases entries.len() - i,
{
    if i < entries.len() && !lookup_matches(entries[i].rec, family, sub) {
        lemma_first_match_from(entries, family, sub, i + 1);
    }
}

/// The first path record whose content hash is `h`, if any.
pub open spec fn hash_owner_from(paths: Seq<PathV>, h: u64, p: int) -> Option<int>
    decreases paths.len() - p,
{
    if p < 0 || p >= paths.len() {
        None
    } else if paths[p].hash == h {
        Some(p)
    } else {
        hash_owner_from(paths, h, p + 1)
    }
}

pub open spec fn hash_owner(paths: Seq<PathV>, h: u64) -> Option<int> {
    hash_owner_from(paths, h, 0)
}

/// The first path record with this exact path, if any.
pub open spec fn path_owner_from(paths: Seq<PathV>, path: Seq<u8>, p: int) -> Option<int>
    decreases paths.len() - p,
{
    if p < 0 || p >= paths.len() {
        None
    } else if paths[p].path == path {
        Some(p)
    } else {
        path_owner_from(paths, path, p + 1)
    }
}

pub open spec fn path_owner(paths: Seq<PathV>, path: Seq<u8>) -> Option<int> {
    path_owner_from(paths, path, 0)
}

pub proof fn lemma_hash_owner_from(paths: Seq<PathV>, h: u64, p: int)
    requires
        0 <= p <= paths.len(),
    ensures
        match hash_owner_from(paths, h, p) {
            Some(m) => p <= m < paths.len() && paths[m].hash == h && forall|q: int|
                p <= q < m ==> (#[trigger] paths[q]).hash != h,
            None => forall|q: int| p <= q < paths.len() ==> (#[trigger] paths[q]).hash != h,
        },
    decreases paths.len() - p,
{
    if p < paths.len() && paths[p].hash != h {
        lemma_hash_owner_from(paths, h, p + 1);
    }
}

pub proof fn lemma_path_owner_from(paths: Seq<PathV>, path: Seq<u8>, p: int)
    requires
        0 <= p <= paths.len(),
    ensures
        match path_owner_from(paths, path, p) {
            Some(m) => p <= m < paths.len() && paths[m].path == path && forall|q: int|
                p <= q < m ==> (#[trigger] paths[q]).path != path,
            None => forall|q: int| p <= q < paths.len() ==> (#[trigger] paths[q]).path != path,
        },
    decreases paths.len() - p,
{
    if p < paths.len() && paths[p].path != path {
        lemma_path_owner_from(paths, path, p + 1);
    }
}

/// For any two distinct paths, the sets of cache indices they own never
/// intersect: a cache index is linked to exactly one source path at a
/// time, at every point in the cache's history, because the invariant
/// holds after every mutation. Each linked entry records the one path it
/// was parsed from, so one index under two paths is a contradiction.
pub proof fn lemma_path_index_disjoint(c: CacheV, p1: int, p2: int, k1: int, k2: int)
    requires
        wf(c),
        0 <= p1 < c.paths.len(),
        0 <= p2 < c.paths.len(),
        p1 != p2,
        0 <= k1 < c.paths[p1].face_idxs.len(),
        0 <= k2 < c.paths[p2].face_idxs.len(),
    ensures
        c.paths[p1].face_idxs[k1] != c.paths[p2].face_idxs[k2],
{
    let e1 = c.paths[p1].face_idxs[k1];
    let e2 = c.paths[p2].face_idxs[k2];
    assert(c.entries[e1 as int].arena_index == p1);
    assert(c.entries[e2 as int].arena_index == p2);
}

/// What the commit decided for one face: appended as a fresh entry,
/// replaced the outranked entry at an existing index, or skipped in favor
/// of the entry at an existing index.
pub enum Decision {
    Added(int),
    Replaced(int),
    Skipped(int),
}

/// First position of `v` in `s`, or `s.len()` if absent.
pub open spec fn first_index_from(s: Seq<usize>, v: usize, k: int) -> int
    decreases s.len() - k,
{
    if k < 0 || k >= s.len() {
        s.len() as int
    } else if s[k] == v {
        k
    } else {
        first_index_from(s, v, k + 1)
    }
}

pub open spec fn first_index_of(s: Seq<usize>, v: usize) -> int {
    first_index_from(s, v, 0)
}

pub proof fn lemma_first_index_from(s: Seq<usize>, v: usize, k: int)
    requires
        0 <= k <= s.len(),
    ensures
        ({
            let r = first_index_from(s, v, k);
            &&& k <= r <= s.len()
            &&& r < s.len() ==> s[r] == v
            &&& forall|q: int| k <= q < r ==> s[q] != v
            &&& r == s.len() ==> forall|q: int| k <= q < s.len() ==> s[q] != v
        }),
    decreases s.len() - k,
{
    if k < s.len() && s[k] != v {
        lemma_first_index_from(s, v, k + 1);
    }
}

/// The first path owning index `e`, if any.
pub open spec fn owner_of_from(paths: Seq<PathV>, e: usize, p: int) -> Option<int>
    decreases paths.len() - p,
{
    if p < 0 || p >= paths.len() {
        None
    } else if paths[p].face_idxs.contains(e) {
        Some(p)
    } else {
        owner_of_from(paths, e, p + 1)
    }
}

pub open spec fn owner_of(paths: Seq<PathV>, e: usize) -> Option<int> {
    owner_of_from(paths, e, 0)
}

pub proof fn lemma_owner_of_from(paths: Seq<PathV>, e: usize, p: int)
    requires
        0 <= p <= paths.len(),
    ensures
        match owner_of_from(paths, e, p) {
            Some(m) => p <= m < paths.len() && paths[m].face_idxs.contains(e) && forall|q: int|
                p <= q < m ==> !(#[trigger] paths[q]).face_idxs.contains(e),
            None => forall|q: int|
                p <= q < paths.len() ==> !(#[trigger] paths[q]).face_idxs.contains(e),
        },
    decreases paths.len() - p,
{
    if p < paths.len() && !paths[p].face_idxs.contains(e) {
        lemma_owner_of_from(paths, e, p + 1);
    }
}

pub proof fn lemma_linked_count_update(paths: Seq<PathV>, p: int, r2: PathV)
    requires
        0 <= p < paths.len(),
    ensures
        linked_count(paths.update(p, r2)) == linked_count(paths) - paths[p].face_idxs.len()
            + r2.face_idxs.len(),
    decreases paths.len(),
{
    let u = paths.update(p, r2);
    if p == paths.len() - 1 {
        assert(u.drop_last() =~= paths.drop_last());
        assert(u.last() == r2);
    } else {
        assert(u.drop_last() =~= paths.drop_last().update(p, r2));
        lemma_linked_count_update(paths.drop_last(), p, r2);
        assert(u.last() == paths.last());
    }
}

pub proof fn lemma_linked_count_push(paths: Seq<PathV>, r2: PathV)
    ensures
        linked_count(paths.push(r2)) == linked_count(paths) + r2.face_idxs.len(),
{
    assert(paths.push(r2).drop_last() =~= paths);
    assert(paths.push(r2).last() == r2);
}

/// One face folded into the cache: no entry of the same identity appends
/// a fresh entry linked to the committing path; an outranked rival is
/// replaced in place, its index relinked from its old path to the
/// committing one; anything else is skipped.
pub open spec fn commit_face_step(c: CacheV, cur: int, rec: FaceV) -> (CacheV, Decision) {
    match first_match(c.entries, rec.family_name, rec.subfamily_name) {
        None => {
            let e = c.entries.len() as int;
            let cur_rec = c.paths[cur];
            let paths2 = c.paths.update(
                cur,
                PathV {
                    path: cur_rec.path,
                    file_type: cur_rec.file_type,
                    hash: cur_rec.hash,
                    face_idxs: cur_rec.face_idxs.push(e as usize),
                },
            );
            let entries2 = c.entries.push(EntryV { rec, arena_index: cur });
            (CacheV { arena: c.arena, paths: paths2, entries: entries2 }, Decision::Added(e))
        },
        Some(i) => {
            if better_than(rec, c.entries[i].rec) {
                let paths1 = match owner_of(c.paths, i as usize) {
                    Some(o) => {
                        let o_rec = c.paths[o];
                        c.paths.update(
                            o,
                            PathV {
                                path: o_rec.path,
                                file_type: o_rec.file_type,
                                hash: o_rec.hash,
                                face_idxs: o_rec.face_idxs.remove(
                                    first_index_of(o_rec.face_idxs, i as usize),
                                ),
                            },
                        )
                    },
                    None => c.paths,
                };
                let cur_rec = paths1[cur];
                let paths2 = paths1.update(
                    cur,
                    PathV {
                        path: cur_rec.path,
                        file_type: cur_rec.file_type,
                        hash: cur_rec.hash,
                        face_idxs: cur_rec.face_idxs.push(i as usize),
                    },
                );
                let entries2 = c.entries.update(i, EntryV { rec, arena_index: cur });
                (
                    CacheV { arena: c.arena, paths: paths2, entries: entries2 },
                    Decision::Replaced(i),
                )
            } else {
                (c, Decision::Skipped(i))
            }
        },
    }
}

/// Folding a face with no cached rival preserves the invariant.
pub proof fn lemma_commit_add(c: CacheV, cur: int, rec: FaceV)
    requires
        wf(c),
        0 <= cur < c.paths.len(),
        c.entries.len() <= usize::MAX,
        first_match(c.entries, rec.family_name, rec.subfamily_name) is None,
    ensures
        wf(commit_face_step(c, cur, rec).0),
{
    lemma_first_match_from(c.entries, rec.family_name, rec.subfamily_name, 0);
    let c2 = commit_face_step(c, cur, rec).0;
    let e = c.entries.len() as int;
    let eu = (e as usize);
    assert(eu as int == e);
    let old_len = c.paths[cur].face_idxs.len() as int;
    assert(c2.paths[cur].face_idxs =~= c.paths[cur].face_idxs.push(eu));
    assert forall|p: int, k: int|
        0 <= p < c2.paths.len() && 0 <= k < c2.paths[p].face_idxs.len() implies (
    #[trigger] c2.paths[p].face_idxs[k]) < c2.entries.len() by {
        if p == cur && k == old_len {
            assert(c2.paths[p].face_idxs[k] == eu);
        } else {
            assert(c2.paths[p].face_idxs[k] == c.paths[p].face_idxs[k]);
        }
    }
    assert forall|p: int, k1: int, k2: int|
        0 <= p < c2.paths.len() && 0 <= k1 < k2 < c2.paths[p].face_idxs.len() implies (
    #[trigger] c2.paths[p].face_idxs[k1]) != (#[trigger] c2.paths[p].face_idxs[k2]) by {
        if p == cur && k2 == old_len {
            assert(c2.paths[p].face_idxs[k2] == eu);
            assert(c2.paths[p].face_idxs[k1] == c.paths[p].face_idxs[k1]);
            assert(c.paths[p].face_idxs[k1] < c.entries.len());
        } else {
            assert(c2.paths[p].face_idxs[k1] == c.paths[p].face_idxs[k1]);
            assert(c2.paths[p].face_idxs[k2] == c.paths[p].face_idxs[k2]);
        }
    }
    assert forall|p: int, k: int|
        0 <= p < c2.paths.len() && 0 <= k < c2.paths[p].face_idxs.len() implies c2.entries[(
    #[trigger] c2.paths[p].face_idxs[k]) as int].arena_index == p by {
        if p == cur && k == old_len {
            assert(c2.paths[p].face_idxs[k] == eu);
            assert(c2.entries[e] == (EntryV { rec, arena_index: cur }));
        } else {
            let v = c.paths[p].face_idxs[k];
            assert(c2.paths[p].face_idxs[k] == v);
            assert(v < c.entries.len());
            assert(c2.entries[v as int] == c.entries[v as int]);
        }
    }
    let cur_rec = c.paths[cur];
    lemma_linked_count_update(
        c.paths,
        cur,
        PathV {
            path: cur_rec.path,
            file_type: cur_rec.file_type,
            hash: cur_rec.hash,
            face_idxs: cur_rec.face_idxs.push(eu),
        },
    );
    assert forall|v: usize| v < c2.entries.len() implies #[trigger] is_linked(c2, v) by {
        if v as int == e {
            assert(c2.paths[cur].face_idxs[old_len] == eu);
        } else {
            assert(is_linked(c, v));
            let (p, k) = choose|p: int, k: int|
                0 <= p < c.paths.len() && 0 <= k < c.paths[p].face_idxs.len() && (
                #[trigger] c.paths[p].face_idxs[k]) == v;
            assert(c2.paths[p].face_idxs[k] == v);
        }
    }
    assert forall|i: int, j: int| 0 <= i < j < c2.entries.len() implies !same_key(
        (#[trigger] c2.entries[i]).rec,
        (#[trigger] c2.entries[j]).rec,
    ) by {
        if j == e {
            assert(c2.entries[i] == c.entries[i]);
            if same_key(c.entries[i].rec, rec) {
                assert(lookup_matches(c.entries[i].rec, rec.family_name, rec.subfamily_name));
            }
        } else {
            assert(c2.entries[i] == c.entries[i]);
            assert(c2.entries[j] == c.entries[j]);
        }
    }
    assert forall|i: int, j: int|
        0 <= i < c2.entries.len() && 0 <= j < c2.entries.len() && eq_ignore_case_spec(
            (#[trigger] c2.entries[i]).rec.family_name,
            (#[trigger] c2.entries[j]).rec.family_name,
        ) && c2.entries[i].rec.subfamily_name is None implies i <= j by {
        if i == e {
            if j < e {
                assert(c2.entries[j] == c.entries[j]);
                assert(lookup_matches(c.entries[j].rec, rec.family_name, rec.subfamily_name));
            }
        } else {
            assert(c2.entries[i] == c.entries[i]);
            if j < e {
                assert(c2.entries[j] == c.entries[j]);
            }
        }
    }
}

/// Folding a face that outranks its cached rival preserves the invariant.
pub proof fn lemma_commit_replace(c: CacheV, cur: int, rec: FaceV, i: int)
    requires
        wf(c),
        0 <= cur < c.paths.len(),
        c.entries.len() <= usize::MAX,
        first_match(c.entries, rec.family_name, rec.subfamily_name) == Some(i),
        better_than(rec, c.entries[i].rec),
    ensures
        wf(commit_face_step(c, cur, rec).0),
{
    lemma_first_match_from(c.entries, rec.family_name, rec.subfamily_name, 0);
    let iu = (i as usize);
    assert(iu as int == i);
    let c2 = commit_face_step(c, cur, rec).0;
    let owner = owner_of(c.paths, iu);
    lemma_owner_of_from(c.paths, iu, 0);
    let entries2 = c.entries.update(i, EntryV { rec, arena_index: cur });

    // The replaced index is linked somewhere, so it has an owner path.
    assert(is_linked(c, iu));
    if owner is None {
        let (wp, wk) = choose|wp: int, wk: int|
            0 <= wp < c.paths.len() && 0 <= wk < c.paths[wp].face_idxs.len() && (
            #[trigger] c.paths[wp].face_idxs[wk]) == iu;
        assert(c.paths[wp].face_idxs.contains(iu));
        assert(false);
    }

    // The intermediate path table, after the unlink but before the relink.
    let paths1 = match owner {
        Some(o) => {
            let o_rec = c.paths[o];
            c.paths.update(
                o,
                PathV {
                    path: o_rec.path,
                    file_type: o_rec.file_type,
                    hash: o_rec.hash,
                    face_idxs: o_rec.face_idxs.remove(first_index_of(o_rec.face_idxs, iu)),
                },
            )
        },
        None => c.paths,
    };

    // After the unlink, no path links index i, and the other invariants
    // hold of paths1 against the old entries.
    if owner is Some {
        let o = owner.unwrap();
        let lst = c.paths[o].face_idxs;
        let pos = first_index_of(lst, iu);
        lemma_first_index_from(lst, iu, 0);
        if pos == lst.len() {
            let w = choose|w: int| 0 <= w < lst.len() && lst[w] == iu;
            assert(false);
        }
        let lst2 = lst.remove(pos);
        assert(lst2.len() == lst.len() - 1);
        assert forall|k: int| 0 <= k < lst2.len() implies #[trigger] lst2[k] == (if k < pos {
            lst[k]
        } else {
            lst[k + 1]
        }) by {}
        // i was linked only at (o, pos): within o by no-dup, elsewhere by
        // alignment (the entry records o as its one owner).
        assert forall|p: int, k: int|
            0 <= p < paths1.len() && 0 <= k < paths1[p].face_idxs.len() implies (
        #[trigger] paths1[p].face_idxs[k]) != iu by {
            if p == o {
                assert(paths1[p].face_idxs =~= lst2);
                if k < pos {
                    assert(lst2[k] == lst[k]);
                } else {
                    assert(lst2[k] == lst[k + 1]);
                    if lst[k + 1] == iu {
                        assert(c.paths[o].face_idxs[pos] != c.paths[o].face_idxs[k + 1]);
                    }
                }
            } else {
                if c.paths[p].face_idxs[k] == iu {
                    assert(c.entries[i].arena_index == p);
                    assert(c.entries[i].arena_index == o);
                }
            }
        }
    } else {
        assert forall|p: int, k: int|
            0 <= p < paths1.len() && 0 <= k < paths1[p].face_idxs.len() implies (
        #[trigger] paths1[p].face_idxs[k]) != iu by {
            assert(!c.paths[p].face_idxs.contains(iu));
            if c.paths[p].face_idxs[k] == iu {
                assert(c.paths[p].face_idxs.contains(iu));
            }
        }
    }
    // paths1 keeps range, no-dup, alignment (against old entries), and
    // every record's path, hash, and file type.
    assert forall|p: int|
        0 <= p < paths1.len() implies (#[trigger] paths1[p]).hash == c.paths[p].hash
            && paths1[p].path == c.paths[p].path by {}
    assert forall|p: int, k: int|
        0 <= p < paths1.len() && 0 <= k < paths1[p].face_idxs.len() implies (
    #[trigger] paths1[p].face_idxs[k]) < c.entries.len() && c.entries[paths1[p].face_idxs[k] as int].arena_index
        == p by {
        if owner is Some && p == owner.unwrap() {
            let o = owner.unwrap();
            let lst = c.paths[o].face_idxs;
            let pos = first_index_of(lst, iu);
            if k < pos {
                assert(paths1[p].face_idxs[k] == lst[k]);
            } else {
                assert(paths1[p].face_idxs[k] == lst[k + 1]);
            }
        }
    }
    assert forall|p: int, k1: int, k2: int|
        0 <= p < paths1.len() && 0 <= k1 < k2 < paths1[p].face_idxs.len() implies (
    #[trigger] paths1[p].face_idxs[k1]) != (#[trigger] paths1[p].face_idxs[k2]) by {
        if owner is Some && p == owner.unwrap() {
            let o = owner.unwrap();
            let lst = c.paths[o].face_idxs;
            let pos = first_index_of(lst, iu);
            let m1: int = if k1 < pos {
                k1
            } else {
                k1 + 1
            };
            let m2: int = if k2 < pos {
                k2
            } else {
                k2 + 1
            };
            assert(paths1[p].face_idxs[k1] == lst[m1]);
            assert(paths1[p].face_idxs[k2] == lst[m2]);
            assert(m1 < m2);
        }
    }
    // The relink and the entry replacement.
    let cur_rec1 = paths1[cur];
    let new_len = cur_rec1.face_idxs.len() as int;
    assert(c2.paths =~= paths1.update(
        cur,
        PathV {
            path: cur_rec1.path,
            file_type: cur_rec1.file_type,
            hash: cur_rec1.hash,
            face_idxs: cur_rec1.face_idxs.push(iu),
        },
    ));
    assert(c2.entries =~= entries2);
    assert forall|p: int, k: int|
        0 <= p < c2.paths.len() && 0 <= k < c2.paths[p].face_idxs.len() implies (
    #[trigger] c2.paths[p].face_idxs[k]) < c2.entries.len() && c2.entries[c2.paths[p].face_idxs[k] as int].arena_index
        == p by {
        if p == cur && k == new_len {
            assert(c2.paths[p].face_idxs[k] == iu);
            assert(c2.entries[i] == (EntryV { rec, arena_index: cur }));
        } else {
            let v = paths1[p].face_idxs[k];
            assert(c2.paths[p].face_idxs[k] == v);
            assert(v != iu);
            assert(c2.entries[v as int] == c.entries[v as int]);
        }
    }
    assert forall|p: int, k1: int, k2: int|
        0 <= p < c2.paths.len() && 0 <= k1 < k2 < c2.paths[p].face_idxs.len() implies (
    #[trigger] c2.paths[p].face_idxs[k1]) != (#[trigger] c2.paths[p].face_idxs[k2]) by {
        if p == cur && k2 == new_len {
            assert(c2.paths[p].face_idxs[k2] == iu);
            assert(c2.paths[p].face_idxs[k1] == paths1[p].face_idxs[k1]);
        } else {
            assert(c2.paths[p].face_idxs[k1] == paths1[p].face_idxs[k1]);
            assert(c2.paths[p].face_idxs[k2] == paths1[p].face_idxs[k2]);
        }
    }
    // Every entry stays linked: the replaced index moves to the committing
    // path, and every other link keeps its value, at most shifted one
    // place left within the unlinking path's list.
    assert forall|v: usize| v < c2.entries.len() implies #[trigger] is_linked(c2, v) by {
        if v == iu {
            assert(c2.paths[cur].face_idxs[new_len] == iu);
        } else {
            assert(is_linked(c, v));
            let (p, k) = choose|p: int, k: int|
                0 <= p < c.paths.len() && 0 <= k < c.paths[p].face_idxs.len() && (
                #[trigger] c.paths[p].face_idxs[k]) == v;
            let o = owner.unwrap();
            let lst = c.paths[o].face_idxs;
            let pos = first_index_of(lst, iu);
            if p == o {
                if k < pos {
                    assert(paths1[p].face_idxs[k] == v);
                    assert(c2.paths[p].face_idxs[k] == v);
                } else if k == pos {
                    assert(v == iu);
                } else {
                    assert(paths1[p].face_idxs[k - 1] == v);
                    assert(c2.paths[p].face_idxs[k - 1] == v);
                }
            } else {
                assert(paths1[p].face_idxs[k] == v);
                assert(c2.paths[p].face_idxs[k] == v);
            }
        }
    }
    // Linked counts: one removal, one push.
    if owner is Some {
        let o = owner.unwrap();
        let o_rec = c.paths[o];
        lemma_linked_count_update(
            c.paths,
            o,
            PathV {
                path: o_rec.path,
                file_type: o_rec.file_type,
                hash: o_rec.hash,
                face_idxs: o_rec.face_idxs.remove(first_index_of(o_rec.face_idxs, iu)),
            },
        );
    }
    lemma_linked_count_update(
        paths1,
        cur,
        PathV {
            path: cur_rec1.path,
            file_type: cur_rec1.file_type,
            hash: cur_rec1.hash,
            face_idxs: cur_rec1.face_idxs.push(iu),
        },
    );
    // Identity uniqueness of the replaced table.
    assert(lookup_matches(c.entries[i].rec, rec.family_name, rec.subfamily_name));
    assert forall|a: int, b: int| 0 <= a < b < c2.entries.len() implies !same_key(
        (#[trigger] c2.entries[a]).rec,
        (#[trigger] c2.entries[b]).rec,
    ) by {
        if a != i && b != i {
            assert(c2.entries[a] == c.entries[a]);
            assert(c2.entries[b] == c.entries[b]);
        } else {
            let j: int = if a == i {
                b
            } else {
                a
            };
            assert(c2.entries[j] == c.entries[j]);
            if same_key(c.entries[j].rec, rec) {
                match rec.subfamily_name {
                    Some(_) => {
                        assert(same_key(c.entries[i].rec, rec));
                        assert(same_key(c.entries[i].rec, c.entries[j].rec));
                    },
                    None => {
                        assert(c.entries[j].rec.subfamily_name is None);
                        assert(eq_ignore_case_spec(
                            c.entries[j].rec.family_name,
                            c.entries[i].rec.family_name,
                        ));
                        assert(j <= i);
                        assert(j < i);
                        assert(lookup_matches(
                            c.entries[j].rec,
                            rec.family_name,
                            rec.subfamily_name,
                        ));
                    },
                }
            }
        }
    }
    assert forall|a: int, b: int|
        0 <= a < c2.entries.len() && 0 <= b < c2.entries.len() && eq_ignore_case_spec(
            (#[trigger] c2.entries[a]).rec.family_name,
            (#[trigger] c2.entries[b]).rec.family_name,
        ) && c2.entries[a].rec.subfamily_name is None implies a <= b by {
        if a == i {
            if b < a {
                assert(c2.entries[b] == c.entries[b]);
                assert(lookup_matches(c.entries[b].rec, rec.family_name, rec.subfamily_name));
            }
        } else {
            assert(c2.entries[a] == c.entries[a]);
            if b == i {
                assert(eq_ignore_case_spec(
                    c.entries[a].rec.family_name,
                    c.entries[i].rec.family_name,
                ));
                assert(a <= i);
            } else {
                assert(c2.entries[b] == c.entries[b]);
            }
        }
    }
}

fn list_contains(v: &Vec<usize>, e: usize) -> (r: bool)
    ensures
        r == v@.contains(e),
{
    let mut k: usize = 0;
    while k < v.len()
        invariant
            k <= v@.len(),
            forall|q: int| 0 <= q < k ==> v@[q] != e,
        decreases v@.len() - k,
    {
        if v[k] == e {
            return true;
        }
        k = k + 1;
    }
    false
}

fn position_of(v: &Vec<usize>, e: usize) -> (r: usize)
    requires
        v@.contains(e),
    ensures
        r == first_index_of(v@, e),
        r < v@.len(),
{
    proof {
        lemma_first_index_from(v@, e, 0);
    }
    let mut k: usize = 0;
    while k < v.len()
        invariant
            k <= v@.len(),
            v@.contains(e),
            first_index_of(v@, e) == first_index_from(v@, e, k as int),
        decreases v@.len() - k,
    {
        if v[k] == e {
            return k;
        }
        k = k + 1;
    }
    proof {
        let w = choose|w: int| 0 <= w < v@.len() && v@[w] == e;
        assert(false);
    }
    0
}

/// What the commit decided for one face, as executable data.
enum FaceOutcome {
    Added(usize),
    Replaced(usize),
    Skipped(usize),
}

fn first_match_index(entries: &Vec<FontCacheEntry>, rec: &FaceRecord) -> (r: Option<usize>)
    ensures
        ({
            let ev = entries@.map_values(|e: FontCacheEntry| e@);
            match r {
                Some(m) => first_match(ev, rec@.family_name, rec@.subfamily_name) == Some(
                    m as int,
                ),
                None => first_match(ev, rec@.family_name, rec@.subfamily_name) is None,
            }
        }),
{
    let ghost ev = entries@.map_values(|e: FontCacheEntry| e@);
    let mut i: usize = 0;
    let n = entries.len();
    while i < n
        invariant
            n == entries@.len(),
            i <= n,
            ev == entries@.map_values(|e: FontCacheEntry| e@),
            first_match(ev, rec@.family_name, rec@.subfamily_name) == first_match_from(
                ev,
                rec@.family_name,
                rec@.subfamily_name,
                i as int,
            ),
        decreases n - i,
    {
        assert(ev[i as int] == entries@[i as int]@);
        if crate::meta::lookup_match(
            &entries[i].rec,
            rec.family_name.as_slice(),
            rec.subfamily_name.as_ref(),
        ) {
            return Some(i);
        }
        i = i + 1;
    }
    None
}

impl FontCache {
    fn find_owner(&self, e: usize) -> (r: Option<usize>)
        ensures
            match r {
                Some(o) => owner_of(self@.paths, e) == Some(o as int),
                None => owner_of(self@.paths, e) is None,
            },
    {
        let mut p: usize = 0;
        let n = self.paths.len();
        proof {
            assert(self@.paths.len() == self.paths@.len());
        }
        while p < n
            invariant
                n == self@.paths.len(),
                p <= n,
                self@.paths == self.paths@.map_values(|x: PathRecord| x@),
                owner_of(self@.paths, e) == owner_of_from(self@.paths, e, p as int),
            decreases n - p,
        {
            assert(self@.paths[p as int] == self.paths@[p as int]@);
            if list_contains(&self.paths[p].face_idxs, e) {
                return Some(p);
            }
            p = p + 1;
        }
        None
    }

    /// Folds one parsed face into the cache for the path at `cur`,
    /// deciding append, replace, or skip exactly as `commit_face_step`
    /// says, and preserving the invariant.
    #[verifier::rlimit(100)]
    fn commit_face(&mut self, cur: usize, rec: FaceRecord) -> (r: FaceOutcome)
        requires
            wf(old(self)@),
            (cur as int) < old(self)@.paths.len(),
        ensures
            wf(final(self)@),
            final(self)@ == commit_face_step(old(self)@, cur as int, rec@).0,
            match r {
                FaceOutcome::Added(e) => commit_face_step(old(self)@, cur as int, rec@).1
                    == Decision::Added(e as int) && e == old(self)@.entries.len(),
                FaceOutcome::Replaced(e) => commit_face_step(old(self)@, cur as int, rec@).1
                    == Decision::Replaced(e as int),
                FaceOutcome::Skipped(e) => commit_face_step(old(self)@, cur as int, rec@).1
                    == Decision::Skipped(e as int),
            },
    {
        let ghost c0 = self@;
        let ghost recv = rec@;
        let ghost target = commit_face_step(c0, cur as int, recv);
        let n0 = self.entries.len();
        proof {
            assert(c0.entries == self.entries@.map_values(|e: FontCacheEntry| e@));
            assert(c0.entries.len() == self.entries@.len());
            assert(c0.entries.len() == n0);
            assert(c0.entries.len() <= usize::MAX);
        }
        let m = first_match_index(&self.entries, &rec);
        match m {
            None => {
                let e = self.entries.len();
                self.entries.push(FontCacheEntry { rec, arena_index: cur });
                let mut pr = self.paths.remove(cur);
                pr.face_idxs.push(e);
                self.paths.insert(cur, pr);
                proof {
                    lemma_commit_add(c0, cur as int, recv);
                    assert(self@.arena =~= c0.arena);
                    assert(self@.entries =~~= target.0.entries);
                    assert(self@.paths =~~= target.0.paths);
                    assert(self@ =~~= target.0);
                }
                FaceOutcome::Added(e)
            },
            Some(im) => {
                proof {
                    lemma_first_match_from(c0.entries, recv.family_name, recv.subfamily_name, 0);
                    assert(c0.entries[im as int] == self.entries@[im as int]@);
                }
                if crate::meta::outranks(&rec, &self.entries[im].rec) {
                    let owner = self.find_owner(im);
                    proof {
                        lemma_owner_of_from(c0.paths, im, 0);
                        if owner is None {
                            assert(is_linked(c0, im));
                            let (wp, wk) = choose|wp: int, wk: int|
                                0 <= wp < c0.paths.len() && 0 <= wk < c0.paths[wp].face_idxs.len()
                                    && (#[trigger] c0.paths[wp].face_idxs[wk]) == im;
                            assert(c0.paths[wp].face_idxs.contains(im));
                            assert(false);
                        }
                    }
                    match owner {
                        Some(o) => {
                            let pos = position_of(&self.paths[o].face_idxs, im);
                            let mut opr = self.paths.remove(o);
                            let _removed = opr.face_idxs.remove(pos);
                            self.paths.insert(o, opr);
                        },
                        None => {
                            proof {
                                assert(false);
                            }
                        },
                    }
                    let mut cpr = self.paths.remove(cur);
                    cpr.face_idxs.push(im);
                    self.paths.insert(cur, cpr);
                    self.entries[im] = FontCacheEntry { rec, arena_index: cur };
                    proof {
                        lemma_commit_replace(c0, cur as int, recv, im as int);
                        assert(self@.arena =~= c0.arena);
                        assert(self@.entries =~~= target.0.entries);
                        assert(self@.paths =~~= target.0.paths);
                        assert(self@ =~~= target.0);
                    }
                    FaceOutcome::Replaced(im)
                } else {
                    proof {
                        assert(self@ =~~= target.0);
                    }
                    FaceOutcome::Skipped(im)
                }
            },
        }
    }

    /// An empty cache.
    pub fn new() -> (r: FontCache)
        ensures
            wf(r@),
            r@.arena.len() == 0,
            r@.paths.len() == 0,
            r@.entries.len() == 0,
    {
        let r = FontCache { arena: Vec::new(), paths: Vec::new(), entries: Vec::new() };
        proof {
            assert(r@.arena =~= Seq::<Seq<u8>>::empty());
            assert(r@.paths =~= Seq::<PathV>::empty());
            assert(r@.entries =~= Seq::<EntryV>::empty());
        }
        r
    }

    /// How many faces are cached.
    pub fn font_count(&self) -> (r: usize)
        ensures
            r == self@.entries.len(),
    {
        proof {
            assert(self@.entries.len() == self.entries@.len());
        }
        self.entries.len()
    }

    /// The handle for cache index `idx`, if a face lives there.
    pub fn get_font(&self, idx: usize) -> (r: Option<FontRef>)
        ensures
            match r {
                Some(f) => idx < self@.entries.len() && f.cache_index == idx,
                None => idx >= self@.entries.len(),
            },
    {
        proof {
            assert(self@.entries.len() == self.entries@.len());
        }
        if idx < self.entries.len() {
            Some(FontRef { cache_index: idx })
        } else {
            None
        }
    }

    /// Finds the first cached face whose family name equals `family_name`
    /// up to ASCII case and, if `subfamily_name` is given, whose subfamily
    /// name equals it the same way. No match is a `NotCached` error naming
    /// what was asked.
    pub fn find_font(&self, family_name: &Vec<u8>, subfamily_name: Option<&Vec<u8>>) -> (r:
        Result<FontRef, FontError>)
        ensures
            ({
                let sub = match subfamily_name {
                    Some(s) => Some(s@),
                    None => None::<Seq<u8>>,
                };
                match r {
                    Ok(f) => first_match(self@.entries, family_name@, sub) == Some(
                        f.cache_index as int,
                    ),
                    Err(e) => {
                        &&& first_match(self@.entries, family_name@, sub) is None
                        &&& e matches FontError::NotCached { family_name: fam, subfamily_name: sf }
                        &&& e matches FontError::NotCached { family_name: fam, subfamily_name: sf }
                            ==> fam@ == family_name@ && (match (sf, subfamily_name) {
                            (Some(a), Some(b)) => a@ == b@,
                            (None, None) => true,
                            _ => false,
                        })
                    },
                }
            }),
    {
        let ghost sub = match subfamily_name {
            Some(s) => Some(s@),
            None => None::<Seq<u8>>,
        };
        let mut i: usize = 0;
        let n = self.entries.len();
        proof {
            assert(self@.entries.len() == self.entries@.len());
        }
        while i < n
            invariant
                n == self@.entries.len(),
                n == self.entries@.len(),
                i <= n,
                sub == (match subfamily_name {
                    Some(s) => Some(s@),
                    None => None::<Seq<u8>>,
                }),
                self@.entries == self.entries@.map_values(|e: FontCacheEntry| e@),
                first_match(self@.entries, family_name@, sub) == first_match_from(
                    self@.entries,
                    family_name@,
                    sub,
                    i as int,
                ),
            decreases n - i,
        {
            assert(self@.entries[i as int] == self.entries@[i as int]@);
            if crate::meta::lookup_match(
                &self.entries[i].rec,
                family_name.as_slice(),
                subfamily_name,
            ) {
                return Ok(FontRef { cache_index: i });
            }
            i = i + 1;
        }
        Err(FontError::NotCached {
            family_name: family_name.clone(),
            subfamily_name: match subfamily_name {
                Some(s) => Some(s.clone()),
                None => None,
            },
        })
    }
}

/// A fresh path record and its byte buffer, before any face is folded.
pub open spec fn begin_commit(
    c: CacheV,
    path: Seq<u8>,
    file_type: FontFileType,
    hash: u64,
    data: Seq<u8>,
) -> CacheV {
    CacheV {
        arena: c.arena.push(data),
        paths: c.paths.push(
            PathV { path, file_type, hash, face_idxs: Seq::empty() },
        ),
        entries: c.entries,
    }
}

pub proof fn lemma_begin_commit(
    c: CacheV,
    path: Seq<u8>,
    file_type: FontFileType,
    hash: u64,
    data: Seq<u8>,
)
    requires
        wf(c),
        hash == fnv1a(data),
        hash_owner(c.paths, hash) is None,
        path_owner(c.paths, path) is None,
    ensures
        wf(begin_commit(c, path, file_type, hash, data)),
{
    lemma_hash_owner_from(c.paths, hash, 0);
    lemma_path_owner_from(c.paths, path, 0);
    let c2 = begin_commit(c, path, file_type, hash, data);
    let n = c.paths.len() as int;
    lemma_linked_count_push(
        c.paths,
        PathV { path, file_type, hash, face_idxs: Seq::empty() },
    );
    assert(c2.arena[n] == data);
    assert forall|p: int, k: int|
        0 <= p < c2.paths.len() && 0 <= k < c2.paths[p].face_idxs.len() implies (
    #[trigger] c2.paths[p].face_idxs[k]) < c2.entries.len() && c2.entries[c2.paths[p].face_idxs[k] as int].arena_index
        == p by {
        assert(p < n);
        assert(c2.paths[p] == c.paths[p]);
    }
    assert forall|p: int, k1: int, k2: int|
        0 <= p < c2.paths.len() && 0 <= k1 < k2 < c2.paths[p].face_idxs.len() implies (
    #[trigger] c2.paths[p].face_idxs[k1]) != (#[trigger] c2.paths[p].face_idxs[k2]) by {
        assert(p < n);
        assert(c2.paths[p] == c.paths[p]);
    }
    assert forall|v: usize| v < c2.entries.len() implies #[trigger] is_linked(c2, v) by {
        assert(is_linked(c, v));
        let (p, k) = choose|p: int, k: int|
            0 <= p < c.paths.len() && 0 <= k < c.paths[p].face_idxs.len() && (
            #[trigger] c.paths[p].face_idxs[k]) == v;
        assert(c2.paths[p].face_idxs[k] == v);
    }
}

/// Every parsed face of a file folded in turn, collecting the indices
/// appended, replaced, and skipped.
pub open spec fn commit_faces(c: CacheV, cur: int, faces: Seq<FaceV>) -> (
    CacheV,
    Seq<int>,
    Seq<int>,
    Seq<int>,
)
    decreases faces.len(),
{
    if faces.len() == 0 {
        (c, Seq::empty(), Seq::empty(), Seq::empty())
    } else {
        let prev = commit_faces(c, cur, faces.drop_last());
        let step = commit_face_step(prev.0, cur, faces.last());
        match step.1 {
            Decision::Added(e) => (step.0, prev.1.push(e), prev.2, prev.3),
            Decision::Replaced(e) => (step.0, prev.1, prev.2.push(e), prev.3),
            Decision::Skipped(e) => (step.0, prev.1, prev.2, prev.3.push(e)),
        }
    }
}

/// One step never changes the arena, the number of paths, or any path
/// record's identity (path, type, hash); it can only grow the entries.
pub proof fn lemma_step_meta(c: CacheV, cur: int, rec: FaceV)
    requires
        0 <= cur < c.paths.len(),
    ensures
        ({
            let c2 = commit_face_step(c, cur, rec).0;
            &&& c2.arena == c.arena
            &&& c2.paths.len() == c.paths.len()
            &&& c.entries.len() <= c2.entries.len() <= c.entries.len() + 1
            &&& forall|p: int|
                0 <= p < c.paths.len() ==> (#[trigger] c2.paths[p]).path == c.paths[p].path
                    && c2.paths[p].hash == c.paths[p].hash && c2.paths[p].file_type
                    == c.paths[p].file_type
        }),
{
    let c2 = commit_face_step(c, cur, rec).0;
    match first_match(c.entries, rec.family_name, rec.subfamily_name) {
        None => {
            assert(c2.paths.len() == c.paths.len());
            assert forall|p: int|
                0 <= p < c.paths.len() implies (#[trigger] c2.paths[p]).path == c.paths[p].path
                    && c2.paths[p].hash == c.paths[p].hash && c2.paths[p].file_type
                    == c.paths[p].file_type by {}
        },
        Some(i) => {
            lemma_first_match_from(c.entries, rec.family_name, rec.subfamily_name, 0);
            if better_than(rec, c.entries[i].rec) {
                match owner_of(c.paths, i as usize) {
                    Some(o) => {
                        lemma_owner_of_from(c.paths, i as usize, 0);
                        assert(c2.paths.len() == c.paths.len());
                        assert forall|p: int|
                            0 <= p < c.paths.len() implies (#[trigger] c2.paths[p]).path
                                == c.paths[p].path && c2.paths[p].hash == c.paths[p].hash
                                && c2.paths[p].file_type == c.paths[p].file_type by {}
                    },
                    None => {
                        assert(c2.paths.len() == c.paths.len());
                        assert forall|p: int|
                            0 <= p < c.paths.len() implies (#[trigger] c2.paths[p]).path
                                == c.paths[p].path && c2.paths[p].hash == c.paths[p].hash
                                && c2.paths[p].file_type == c.paths[p].file_type by {}
                    },
                }
            } else {
                assert(c2 == c);
            }
        },
    }
    assert(c2.arena == c.arena);
    assert(c2.paths.len() == c.paths.len());
    assert(c.entries.len() <= c2.entries.len() <= c.entries.len() + 1);
}

/// The fold of a whole file's faces keeps the arena and every path
/// record's identity too.
pub proof fn lemma_commit_faces_meta(c: CacheV, cur: int, faces: Seq<FaceV>)
    requires
        0 <= cur < c.paths.len(),
    ensures
        ({
            let c2 = commit_faces(c, cur, faces).0;
            &&& c2.arena == c.arena
            &&& c2.paths.len() == c.paths.len()
            &&& c2.entries.len() >= c.entries.len()
            &&& forall|p: int|
                0 <= p < c.paths.len() ==> (#[trigger] c2.paths[p]).path == c.paths[p].path
                    && c2.paths[p].hash == c.paths[p].hash && c2.paths[p].file_type
                    == c.paths[p].file_type
        }),
    decreases faces.len(),
{
    if faces.len() > 0 {
        lemma_commit_faces_meta(c, cur, faces.drop_last());
        lemma_step_meta(commit_faces(c, cur, faces.drop_last()).0, cur, faces.last());
    }
}

/// Sequence of indices as mathematical integers.
pub open spec fn to_ints(s: Seq<usize>) -> Seq<int> {
    s.map_values(|x: usize| x as int)
}

/// What one committed load reports: the indices appended and replaced and
/// skipped for a file that brought new content; the already-linked indices
/// where the content or path was already cached; or only the rivals'
/// indices where every face of a new file lost.
#[derive(Debug, Clone, PartialEq, Eq)]
pub enum CacheResult {
    New { newly_cached: Vec<usize>, replaced: Vec<usize>, skipped: Vec<usize> },
    AlreadyCached { idxs: Vec<usize> },
    NoNewData { existing_idxs: Vec<usize> },
}

impl FontCache {
    /// Commits one parsed file under a fresh path and content hash: the
    /// bytes join the arena, the path record is created, and every face is
    /// folded in order.
    fn commit_file(
        &mut self,
        path: Vec<u8>,
        data: Vec<u8>,
        file_type: FontFileType,
        hash: u64,
        faces: Vec<FaceRecord>,
    ) -> (r: CacheResult)
        requires
            wf(old(self)@),
            hash == fnv1a(data@),
            hash_owner(old(self)@.paths, hash) is None,
            path_owner(old(self)@.paths, path@) is None,
        ensures
            wf(final(self)@),
            ({
                let c1 = begin_commit(old(self)@, path@, file_type, hash, data@);
                let fold = commit_faces(
                    c1,
                    old(self)@.paths.len() as int,
                    faces@.map_values(|f: FaceRecord| f@),
                );
                &&& final(self)@ == fold.0
                &&& match r {
                    CacheResult::New { newly_cached, replaced, skipped } => {
                        &&& fold.1.len() + fold.2.len() > 0
                        &&& to_ints(newly_cached@) == fold.1
                        &&& to_ints(replaced@) == fold.2
                        &&& to_ints(skipped@) == fold.3
                    },
                    CacheResult::NoNewData { existing_idxs } => {
                        &&& fold.1.len() + fold.2.len() == 0
                        &&& to_ints(existing_idxs@) == fold.3
                    },
                    CacheResult::AlreadyCached { .. } => false,
                }
            }),
    {
        let ghost c0 = self@;
        let ghost origf = faces@;
        let ghost origv = faces@.map_values(|f: FaceRecord| f@);
        proof {
            lemma_begin_commit(c0, path@, file_type, hash, data@);
        }
        self.arena.push(data);
        let cur = self.paths.len();
        self.paths.push(PathRecord { path, file_type, hash, face_idxs: Vec::new() });
        let ghost c1 = begin_commit(c0, path@, file_type, hash, data@);
        proof {
            assert(self@.arena =~~= c1.arena);
            assert(self@.paths =~~= c1.paths);
            assert(self@.entries =~~= c1.entries);
            assert(self@ =~~= c1);
            assert(commit_faces(c1, cur as int, origv.take(0)) == (
                c1,
                Seq::<int>::empty(),
                Seq::<int>::empty(),
                Seq::<int>::empty(),
            ));
        }
        let mut faces = faces;
        let n_faces = faces.len();
        let mut newly_cached: Vec<usize> = Vec::new();
        let mut replaced: Vec<usize> = Vec::new();
        let mut skipped: Vec<usize> = Vec::new();
        let mut i: usize = 0;
        while faces.len() > 0
            invariant
                wf(self@),
                cur as int == c1.paths.len() - 1,
                self@.paths.len() == c1.paths.len(),
                origv.len() == n_faces,
                origv == origf.map_values(|f: FaceRecord| f@),
                i + faces@.len() == origv.len(),
                faces@ =~= origf.skip(i as int),
                ({
                    let part = commit_faces(c1, cur as int, origv.take(i as int));
                    &&& self@ == part.0
                    &&& to_ints(newly_cached@) == part.1
                    &&& to_ints(replaced@) == part.2
                    &&& to_ints(skipped@) == part.3
                }),
            decreases faces@.len(),
        {
            let ghost part = commit_faces(c1, cur as int, origv.take(i as int));
            let ghost prevfaces = faces@;
            let rec = faces.remove(0);
            proof {
                assert(origf.skip(i as int)[0] == origf[i as int]);
                assert(rec == origf[i as int]);
                assert(origv[i as int] == origf[i as int]@);
                assert(rec@ == origv[i as int]);
                assert(faces@ =~= origf.skip(i + 1));
                assert(origv.take(i + 1).drop_last() =~= origv.take(i as int));
                assert(origv.take(i + 1).last() == origv[i as int]);
            }
            let outcome = self.commit_face(cur, rec);
            proof {
                let next = commit_faces(c1, cur as int, origv.take(i + 1));
                assert(next.0 == commit_face_step(part.0, cur as int, origv[i as int]).0);
                assert(self@.paths.len() == part.0.paths.len());
            }
            match outcome {
                FaceOutcome::Added(e) => {
                    newly_cached.push(e);
                    proof {
                        assert(to_ints(newly_cached@) =~= commit_faces(
                            c1,
                            cur as int,
                            origv.take(i + 1),
                        ).1);
                    }
                },
                FaceOutcome::Replaced(e) => {
                    replaced.push(e);
                    proof {
                        assert(to_ints(replaced@) =~= commit_faces(
                            c1,
                            cur as int,
                            origv.take(i + 1),
                        ).2);
                    }
                },
                FaceOutcome::Skipped(e) => {
                    skipped.push(e);
                    proof {
                        assert(to_ints(skipped@) =~= commit_faces(
                            c1,
                            cur as int,
                            origv.take(i + 1),
                        ).3);
                    }
                },
            }
            i = i + 1;
        }
        proof {
            assert(origv.take(i as int) =~= origv);
        }
        if newly_cached.len() == 0 && replaced.len() == 0 {
            proof {
                assert(to_ints(newly_cached@).len() == 0);
                assert(to_ints(replaced@).len() == 0);
            }
            CacheResult::NoNewData { existing_idxs: skipped }
        } else {
            CacheResult::New { newly_cached, replaced, skipped }
        }
    }

    fn find_hash_owner(&self, h: u64) -> (r: Option<usize>)
        ensures
            match r {
                Some(o) => hash_owner(self@.paths, h) == Some(o as int),
                None => hash_owner(self@.paths, h) is None,
            },
    {
        let mut p: usize = 0;
        let n = self.paths.len();
        proof {
            assert(self@.paths.len() == self.paths@.len());
        }
        while p < n
            invariant
                n == self@.paths.len(),
                p <= n,
                self@.paths == self.paths@.map_values(|x: PathRecord| x@),
                hash_owner(self@.paths, h) == hash_owner_from(self@.paths, h, p as int),
            decreases n - p,
        {
            assert(self@.paths[p as int] == self.paths@[p as int]@);
            if self.paths[p].hash == h {
                return Some(p);
            }
            p = p + 1;
        }
        None
    }

    fn find_path_owner(&self, path: &Vec<u8>) -> (r: Option<usize>)
        ensures
            match r {
                Some(o) => path_owner(self@.paths, path@) == Some(o as int),
                None => path_owner(self@.paths, path@) is None,
            },
    {
        let mut p: usize = 0;
        let n = self.paths.len();
        proof {
            assert(self@.paths.len() == self.paths@.len());
        }
        while p < n
            invariant
                n == self@.paths.len(),
                p <= n,
                self@.paths == self.paths@.map_values(|x: PathRecord| x@),
                path_owner(self@.paths, path@) == path_owner_from(self@.paths, path@, p as int),
            decreases n - p,
        {
            assert(self@.paths[p as int] == self.paths@[p as int]@);
            if crate::bytestr::bytes_eq(self.paths[p].path.as_slice(), path.as_slice()) {
                return Some(p);
            }
            p = p + 1;
        }
        None
    }
}

/// The path record, if any, that already accounts for this load: the
/// first whose content hash matches, else the first whose path matches.
pub open spec fn dup_owner(c: CacheV, path: Seq<u8>, data: Seq<u8>) -> Option<int> {
    match hash_owner(c.paths, fnv1a(data)) {
        Some(o) => Some(o),
        None => path_owner(c.paths, path),
    }
}

/// The cache after one load: unchanged where the content or path is
/// already recorded or the file does not parse; otherwise the file's
/// faces folded in under a fresh path record.
pub open spec fn load_step_state(c: CacheV, path: Seq<u8>, data: Seq<u8>) -> CacheV {
    if dup_owner(c, path, data) is Some {
        c
    } else if !crate::parse::file_ok(path, data) {
        c
    } else {
        commit_faces(
            begin_commit(c, path, path_file_type(path).unwrap(), fnv1a(data), data),
            c.paths.len() as int,
            crate::parse::file_faces_of(data),
        ).0
    }
}

impl FontCache {
    /// Loads one font file whose bytes the caller has read: validates the
    /// extension, hashes the content, detects an already-cached file by
    /// hash or path, parses every face, and commits. A failing file
    /// changes nothing. Loading the same path — or byte-identical content
    /// at a different path — again yields `AlreadyCached` with the index
    /// set the owning path holds, and leaves the cache exactly as it was.
    pub fn load_font_data(&mut self, path: Vec<u8>, data: Vec<u8>) -> (r: Result<
        CacheResult,
        FontError,
    >)
        requires
            wf(old(self)@),
        ensures
            wf(final(self)@),
            final(self)@ == load_step_state(old(self)@, path@, data@),
            ({
                let c0 = old(self)@;
                match dup_owner(c0, path@, data@) {
                    Some(o) => match r {
                        Ok(CacheResult::AlreadyCached { idxs }) => idxs@ == c0.paths[o].face_idxs,
                        _ => false,
                    },
                    None => {
                        if !crate::parse::file_ok(path@, data@) {
                            match r {
                                Err(e) => crate::parse::file_error_matches(e, path@, data@),
                                _ => false,
                            }
                        } else {
                            let c1 = begin_commit(
                                c0,
                                path@,
                                path_file_type(path@).unwrap(),
                                fnv1a(data@),
                                data@,
                            );
                            let fold = commit_faces(
                                c1,
                                c0.paths.len() as int,
                                crate::parse::file_faces_of(data@),
                            );
                            match r {
                                Ok(CacheResult::New { newly_cached, replaced, skipped }) => {
                                    &&& fold.1.len() + fold.2.len() > 0
                                    &&& to_ints(newly_cached@) == fold.1
                                    &&& to_ints(replaced@) == fold.2
                                    &&& to_ints(skipped@) == fold.3
                                },
                                Ok(CacheResult::NoNewData { existing_idxs }) => {
                                    &&& fold.1.len() + fold.2.len() == 0
                                    &&& to_ints(existing_idxs@) == fold.3
                                },
                                _ => false,
                            }
                        }
                    },
                }
            }),
    {
        let h = crate::hash::content_hash(data.as_slice());
        match self.find_hash_owner(h) {
            Some(o) => {
                proof {
                    lemma_hash_owner_from(self@.paths, h, 0);
                    assert(self@.paths[o as int] == self.paths@[o as int]@);
                }
                return Ok(CacheResult::AlreadyCached { idxs: self.paths[o].face_idxs.clone() });
            },
            None => {},
        }
        match self.find_path_owner(&path) {
            Some(o) => {
                proof {
                    lemma_path_owner_from(self@.paths, path@, 0);
                    assert(self@.paths[o as int] == self.paths@[o as int]@);
                }
                return Ok(CacheResult::AlreadyCached { idxs: self.paths[o].face_idxs.clone() });
            },
            None => {},
        }
        match crate::parse::parse_file(path.as_slice(), data.as_slice()) {
            Ok((file_type, faces)) => Ok(self.commit_file(path, data, file_type, h, faces)),
            Err(e) => Err(e),
        }
    }

    /// The single-path load: the indices the file now accounts for —
    /// appended, replaced, and skipped together for a committed file, or
    /// the owning path's set where the content was already cached.
    pub fn load_font_file(&mut self, path: Vec<u8>, data: Vec<u8>) -> (r: Result<
        Vec<usize>,
        FontError,
    >)
        requires
            wf(old(self)@),
        ensures
            wf(final(self)@),
            final(self)@ == load_step_state(old(self)@, path@, data@),
            ({
                let c0 = old(self)@;
                match dup_owner(c0, path@, data@) {
                    Some(o) => match r {
                        Ok(v) => v@ == c0.paths[o].face_idxs,
                        _ => false,
                    },
                    None => {
                        if !crate::parse::file_ok(path@, data@) {
                            match r {
                                Err(e) => crate::parse::file_error_matches(e, path@, data@),
                                _ => false,
                            }
                        } else {
                            let c1 = begin_commit(
                                c0,
                                path@,
                                path_file_type(path@).unwrap(),
                                fnv1a(data@),
                                data@,
                            );
                            let fold = commit_faces(
                                c1,
                                c0.paths.len() as int,
                                crate::parse::file_faces_of(data@),
                            );
                            match r {
                                Ok(v) => to_ints(v@) == fold.1 + fold.2 + fold.3,
                                _ => false,
                            }
                        }
                    },
                }
            }),
    {
        match self.load_font_data(path, data) {
            Ok(CacheResult::New { mut newly_cached, mut replaced, mut skipped }) => {
                let ghost n1 = newly_cached@;
                let ghost n2 = replaced@;
                let ghost n3 = skipped@;
                newly_cached.append(&mut replaced);
                newly_cached.append(&mut skipped);
                proof {
                    assert(newly_cached@ == n1 + n2 + n3);
                    assert(to_ints(n1 + n2 + n3) =~= to_ints(n1) + to_ints(n2) + to_ints(n3));
                }
                Ok(newly_cached)
            },
            Ok(CacheResult::AlreadyCached { idxs }) => Ok(idxs),
            Ok(CacheResult::NoNewData { existing_idxs }) => {
                proof {
                    let c0 = old(self)@;
                    if dup_owner(c0, path@, data@) is None && crate::parse::file_ok(
                        path@,
                        data@,
                    ) {
                        let c1 = begin_commit(
                            c0,
                            path@,
                            path_file_type(path@).unwrap(),
                            fnv1a(data@),
                            data@,
                        );
                        let fold = commit_faces(
                            c1,
                            c0.paths.len() as int,
                            crate::parse::file_faces_of(data@),
                        );
                        assert(to_ints(existing_idxs@) =~= fold.1 + fold.2 + fold.3);
                    }
                }
                Ok(existing_idxs)
            },
            Err(e) => Err(e),
        }
    }
}

/// One font file handed to the cache: its path and its bytes, read by
/// the caller.
pub struct FontFile {
    pub path: Vec<u8>,
    pub data: Vec<u8>,
}

/// What the parallel phase produced for one file: its content hash, file
/// type, and parsed faces, or the error that stopped it.
pub enum FileParse {
    Parsed { hash: u64, file_type: FontFileType, faces: Vec<FaceRecord> },
    Failed { err: FontError },
}

/// The relation the parallel phase guarantees between a file and its
/// parse outcome.
pub open spec fn parse_rel(f: FontFile, r: FileParse) -> bool {
    if crate::parse::file_ok(f.path@, f.data@) {
        &&& r matches FileParse::Parsed { hash, file_type, faces }
        &&& r matches FileParse::Parsed { hash, file_type, faces } ==> {
            &&& hash == fnv1a(f.data@)
            &&& path_file_type(f.path@) == Some(file_type)
            &&& faces@.map_values(|x: FaceRecord| x@) == crate::parse::file_faces_of(f.data@)
        }
    } else {
        &&& r matches FileParse::Failed { err }
        &&& r matches FileParse::Failed { err } ==> crate::parse::file_error_matches(
            err,
            f.path@,
            f.data@,
        )
    }
}

/// Parses one file on its own: stateless, so any number of files can be
/// parsed side by side.
pub fn parse_one(file: &FontFile) -> (r: FileParse)
    ensures
        parse_rel(*file, r),
{
    match crate::parse::parse_file(file.path.as_slice(), file.data.as_slice()) {
        Ok((file_type, faces)) => FileParse::Parsed {
            hash: crate::hash::content_hash(file.data.as_slice()),
            file_type,
            faces,
        },
        Err(e) => FileParse::Failed { err: e },
    }
}

/// Relies on rayon's parallel iterator: one outcome per input file, in
/// input order, each the result of `parse_one` on its file. The parallel
/// phase touches no shared state; every commit decision stays in the
/// strictly sequential fold that follows.
#[verifier::external_body]
fn par_parse(files: &Vec<FontFile>) -> (r: Vec<FileParse>)
    ensures
        r@.len() == files@.len(),
        forall|i: int| 0 <= i < files@.len() ==> parse_rel(files@[i], #[trigger] r@[i]),
{
    files.par_iter().map(|f| parse_one(f)).collect()
}

/// The cache after a whole list of files, with every index appended or
/// replaced along the way. Files fold strictly in order; a failing file
/// contributes nothing and poisons nothing.
pub open spec fn load_all(c: CacheV, files: Seq<FontFile>) -> (CacheV, Seq<int>)
    decreases files.len(),
{
    if files.len() == 0 {
        (c, Seq::empty())
    } else {
        let prev = load_all(c, files.drop_last());
        let f = files.last();
        let c2 = load_step_state(prev.0, f.path@, f.data@);
        if dup_owner(prev.0, f.path@, f.data@) is None && crate::parse::file_ok(
            f.path@,
            f.data@,
        ) {
            let fold = commit_faces(
                begin_commit(
                    prev.0,
                    f.path@,
                    path_file_type(f.path@).unwrap(),
                    fnv1a(f.data@),
                    f.data@,
                ),
                prev.0.paths.len() as int,
                crate::parse::file_faces_of(f.data@),
            );
            (c2, prev.1 + fold.1 + fold.2)
        } else {
            (c2, prev.1)
        }
    }
}

/// The first entry answering the lookup is the given one, where it
/// matches and nothing before it does.
pub proof fn lemma_first_match_is(
    entries: Seq<EntryV>,
    family: Seq<u8>,
    sub: Option<Seq<u8>>,
    m: int,
    k: int,
)
    requires
        0 <= k <= m < entries.len(),
        lookup_matches(entries[m].rec, family, sub),
        forall|j: int| k <= j < m ==> !lookup_matches((#[trigger] entries[j]).rec, family, sub),
    ensures
        first_match_from(entries, family, sub, k) == Some(m),
    decreases m - k,
{
    if k < m {
        lemma_first_match_is(entries, family, sub, m, k + 1);
    }
}

/// Pushing onto an index list appends its value to the integer view.
proof fn lemma_to_ints_push(s: Seq<usize>, x: usize)
    ensures
        to_ints(s.push(x)) =~= to_ints(s).push(x as int),
{
    assert forall|k: int| 0 <= k < s.len() + 1 implies to_ints(s.push(x))[k] == to_ints(s).push(
        x as int,
    )[k] by {}
}

/// Membership under a push: the pushed value, or an old one.
proof fn lemma_contains_push(s: Seq<int>, x: int, v: int)
    ensures
        s.push(x).contains(v) <==> (s.contains(v) || v == x),
{
    if s.push(x).contains(v) {
        let w = choose|w: int| 0 <= w < s.push(x).len() && s.push(x)[w] == v;
        if w < s.len() {
            assert(s[w] == v);
        }
    }
    if s.contains(v) {
        let w = choose|w: int| 0 <= w < s.len() && s[w] == v;
        assert(s.push(x)[w] == v);
    }
    if v == x {
        assert(s.push(x)[s.len() as int] == v);
    }
}

/// Membership under a removal: everything but (possibly) the removed
/// value survives, and nothing appears.
proof fn lemma_contains_remove(s: Seq<usize>, pos: int, v: usize)
    requires
        0 <= pos < s.len(),
    ensures
        s.remove(pos).contains(v) ==> s.contains(v),
        s.contains(v) && v != s[pos] ==> s.remove(pos).contains(v),
{
    if s.remove(pos).contains(v) {
        let w = choose|w: int| 0 <= w < s.remove(pos).len() && s.remove(pos)[w] == v;
        if w < pos {
            assert(s[w] == v);
        } else {
            assert(s[w + 1] == v);
        }
    }
    if s.contains(v) && v != s[pos] {
        let w = choose|w: int| 0 <= w < s.len() && s[w] == v;
        if w < pos {
            assert(s.remove(pos)[w] == v);
        } else {
            assert(s.remove(pos)[w - 1] == v);
        }
    }
}

/// The fold appends exactly one entry per face it decides to add, and
/// never more entries than faces.
pub proof fn lemma_commit_growth(c: CacheV, cur: int, faces: Seq<FaceV>)
    requires
        0 <= cur < c.paths.len(),
    ensures
        ({
            let f = commit_faces(c, cur, faces);
            &&& f.0.entries.len() == c.entries.len() + f.1.len()
            &&& f.1.len() <= faces.len()
        }),
    decreases faces.len(),
{
    if faces.len() > 0 {
        lemma_commit_growth(c, cur, faces.drop_last());
        let prev = commit_faces(c, cur, faces.drop_last());
        lemma_commit_faces_meta(c, cur, faces.drop_last());
        let rec = faces.last();
        match first_match(prev.0.entries, rec.family_name, rec.subfamily_name) {
            None => {},
            Some(i) => {
                lemma_first_match_from(prev.0.entries, rec.family_name, rec.subfamily_name, 0);
            },
        }
    }
}

/// What the committing path links after the fold: exactly what it linked
/// before plus every index the fold appended or replaced. Skipped faces
/// contribute nothing — their rivals stay linked to their own paths.
pub proof fn lemma_commit_links(c: CacheV, cur: int, faces: Seq<FaceV>)
    requires
        0 <= cur < c.paths.len(),
        c.entries.len() + faces.len() <= usize::MAX,
    ensures
        ({
            let f = commit_faces(c, cur, faces);
            forall|v: int|
                #[trigger] to_ints(f.0.paths[cur].face_idxs).contains(v) <==> (to_ints(
                    c.paths[cur].face_idxs,
                ).contains(v) || f.1.contains(v) || f.2.contains(v))
        }),
    decreases faces.len(),
{
    let f = commit_faces(c, cur, faces);
    if faces.len() == 0 {
        assert forall|v: int| #[trigger] to_ints(f.0.paths[cur].face_idxs).contains(v)
            <==> (to_ints(c.paths[cur].face_idxs).contains(v) || f.1.contains(v) || f.2.contains(
            v,
        )) by {
            if f.1.contains(v) || f.2.contains(v) {
                let w = choose|w: int| 0 <= w < f.1.len() && f.1[w] == v;
            }
        }
    } else {
        lemma_commit_links(c, cur, faces.drop_last());
        lemma_commit_growth(c, cur, faces.drop_last());
        lemma_commit_faces_meta(c, cur, faces.drop_last());
        let prev = commit_faces(c, cur, faces.drop_last());
        let rec = faces.last();
        let before = prev.0.paths[cur].face_idxs;
        match first_match(prev.0.entries, rec.family_name, rec.subfamily_name) {
            None => {
                let e = prev.0.entries.len() as int;
                let eu = e as usize;
                assert(eu as int == e);
                assert(f.0.paths[cur].face_idxs == before.push(eu));
                lemma_to_ints_push(before, eu);
                assert forall|v: int| #[trigger] to_ints(f.0.paths[cur].face_idxs).contains(v)
                    <==> (to_ints(c.paths[cur].face_idxs).contains(v) || f.1.contains(v)
                    || f.2.contains(v)) by {
                    lemma_contains_push(to_ints(before), e, v);
                    lemma_contains_push(prev.1, e, v);
                    assert(f.1 == prev.1.push(e));
                    assert(f.2 == prev.2);
                }
            },
            Some(i) => {
                lemma_first_match_from(prev.0.entries, rec.family_name, rec.subfamily_name, 0);
                let iu = i as usize;
                assert(iu as int == i);
                if better_than(rec, prev.0.entries[i].rec) {
                    // the list after the unlink: unchanged, or with one
                    // occurrence of the replaced index removed
                    let mid: Seq<usize> = match owner_of(prev.0.paths, iu) {
                        Some(o) => {
                            if o == cur {
                                before.remove(first_index_of(before, iu))
                            } else {
                                before
                            }
                        },
                        None => before,
                    };
                    if owner_of(prev.0.paths, iu) is Some {
                        let o = owner_of(prev.0.paths, iu).unwrap();
                        lemma_owner_of_from(prev.0.paths, iu, 0);
                        if o == cur {
                            lemma_first_index_from(before, iu, 0);
                            if first_index_of(before, iu) == before.len() {
                                let w = choose|w: int|
                                    0 <= w < before.len() && before[w] == iu;
                                assert(false);
                            }
                        }
                    }
                    assert(f.0.paths[cur].face_idxs == mid.push(iu));
                    lemma_to_ints_push(mid, iu);
                    assert forall|v: int|
                        #[trigger] to_ints(f.0.paths[cur].face_idxs).contains(v) <==> (to_ints(
                            c.paths[cur].face_idxs,
                        ).contains(v) || f.1.contains(v) || f.2.contains(v)) by {
                        lemma_contains_push(to_ints(mid), i, v);
                        lemma_contains_push(prev.2, i, v);
                        assert(f.1 == prev.1);
                        assert(f.2 == prev.2.push(i));
                        // membership in the unlinked list matches the
                        // list before, except possibly at the replaced
                        // index, which the push restores either way
                        if v != i {
                            if owner_of(prev.0.paths, iu) is Some && owner_of(
                                prev.0.paths,
                                iu,
                            ).unwrap() == cur {
                                let pos = first_index_of(before, iu);
                                lemma_first_index_from(before, iu, 0);
                                lemma_contains_remove(before, pos, (v as usize));
                                assert forall|vv: int|
                                    to_ints(mid).contains(vv) implies exists|w: int|
                                        0 <= w < mid.len() && (#[trigger] mid[w]) as int
                                            == vv by {
                                    let w = choose|w: int|
                                        0 <= w < mid.len() && to_ints(mid)[w] == vv;
                                    assert(to_ints(mid)[w] == mid[w] as int);
                                }
                                assert(to_ints(mid).contains(v) <==> to_ints(
                                    before,
                                ).contains(v)) by {
                                    if to_ints(mid).contains(v) {
                                        let w = choose|w: int|
                                            0 <= w < mid.len() && to_ints(mid)[w] == v;
                                        assert(mid[w] as int == v);
                                        assert(mid.contains((v as usize)));
                                        assert(before.contains((v as usize)));
                                        let u = choose|u: int|
                                            0 <= u < before.len() && before[u] == (v as usize);
                                        assert(to_ints(before)[u] == v);
                                    }
                                    if to_ints(before).contains(v) {
                                        let w = choose|w: int|
                                            0 <= w < before.len() && to_ints(before)[w] == v;
                                        assert(before[w] as int == v);
                                        assert(before.contains((v as usize)));
                                        assert((v as usize) != before[pos]);
                                        assert(mid.contains((v as usize)));
                                        let u = choose|u: int|
                                            0 <= u < mid.len() && mid[u] == (v as usize);
                                        assert(to_ints(mid)[u] == v);
                                    }
                                }
                            }
                        }
                    }
                } else {
                    assert(f.0 == prev.0);
                    assert(f.1 == prev.1);
                    assert(f.2 == prev.2);
                }
            },
        }
    }
}

/// Loading byte-identical content a second time — at the same path or at
/// a different one — is answered from the recorded owner and leaves the
/// cache exactly as the first load left it: nothing is duplicated. This
/// holds whenever the content's hash is already recorded, and after any
/// load that committed the content.
pub proof fn lemma_load_idempotent(c: CacheV, path: Seq<u8>, data: Seq<u8>, path2: Seq<u8>)
    requires
        hash_owner(c.paths, fnv1a(data)) is Some || (dup_owner(c, path, data) is None
            && crate::parse::file_ok(path, data)),
    ensures
        ({
            let c1 = load_step_state(c, path, data);
            &&& hash_owner(c1.paths, fnv1a(data)) is Some
            &&& dup_owner(c1, path2, data) is Some
            &&& load_step_state(c1, path2, data) == c1
        }),
{
    let h = fnv1a(data);
    let c1 = load_step_state(c, path, data);
    if hash_owner(c.paths, h) is Some {
        assert(dup_owner(c, path, data) is Some);
        assert(c1 == c);
    } else {
        let n = c.paths.len() as int;
        let cb = begin_commit(c, path, path_file_type(path).unwrap(), h, data);
        lemma_commit_faces_meta(cb, n, crate::parse::file_faces_of(data));
        assert(c1.paths[n].hash == h);
        if hash_owner(c1.paths, h) is None {
            lemma_hash_owner_from(c1.paths, h, 0);
        }
    }
    assert(dup_owner(c1, path2, data) is Some);
    assert(load_step_state(c1, path2, data) == c1);
}

/// Where `t` sits in the sorted index vector `out`.
fn sorted_index_position(out: &Vec<usize>, t: usize) -> (r: (bool, usize))
    requires
        forall|i: int, j: int| 0 <= i < j < out@.len() ==> out@[i] < out@[j],
    ensures
        r.0 ==> r.1 < out@.len() && out@[r.1 as int] == t,
        !r.0 ==> {
            &&& r.1 <= out@.len()
            &&& forall|q: int| 0 <= q < r.1 ==> out@[q] < t
            &&& r.1 < out@.len() ==> out@[r.1 as int] > t
            &&& !out@.contains(t)
        },
{
    let mut p: usize = 0;
    while p < out.len()
        invariant
            p <= out@.len(),
            forall|i: int, j: int| 0 <= i < j < out@.len() ==> out@[i] < out@[j],
            forall|q: int| 0 <= q < p ==> out@[q] < t,
        decreases out@.len() - p,
    {
        if out[p] == t {
            return (true, p);
        }
        if out[p] > t {
            assert forall|w: int| 0 <= w < out@.len() implies out@[w] != t by {
                if w >= p {
                    assert(out@[p as int] <= out@[w]);
                }
            }
            return (false, p);
        }
        p = p + 1;
    }
    (false, p)
}

/// How many distinct values a list of cache indices holds.
fn distinct_index_count(input: &Vec<usize>) -> (r: usize)
    ensures
        r as int == input@.to_set().len(),
{
    let mut out: Vec<usize> = Vec::new();
    let mut i: usize = 0;
    while i < input.len()
        invariant
            i <= input@.len(),
            forall|a: int, b: int| 0 <= a < b < out@.len() ==> out@[a] < out@[b],
            forall|t: usize| out@.contains(t) <==> input@.take(i as int).contains(t),
        decreases input@.len() - i,
    {
        let t = input[i];
        let ghost old_out = out@;
        proof {
            assert(input@.take(i + 1) =~= input@.take(i as int).push(t));
            assert forall|x: usize|
                input@.take(i + 1).contains(x) implies input@.take(i as int).contains(x) || x
                == t by {
                let w = choose|w: int|
                    0 <= w < input@.take(i + 1).len() && (#[trigger] input@.take(i + 1)[w]) == x;
                if w < i {
                    assert(input@.take(i as int)[w] == x);
                }
            }
            assert forall|x: usize|
                input@.take(i as int).contains(x) || x == t implies input@.take(i + 1).contains(
                x,
            ) by {
                if input@.take(i as int).contains(x) {
                    let w = choose|w: int| 0 <= w < i && input@.take(i as int)[w] == x;
                    assert(input@.take(i + 1)[w] == x);
                } else {
                    assert(input@.take(i + 1)[i as int] == x);
                }
            }
        }
        let (present, p) = sorted_index_position(&out, t);
        if !present {
            out.insert(p, t);
            proof {
                assert(out@ == old_out.insert(p as int, t));
                assert forall|x: usize| out@.contains(x) implies old_out.contains(x) || x
                    == t by {
                    let w = choose|w: int| 0 <= w < out@.len() && out@[w] == x;
                    if w < p {
                        assert(old_out[w] == x);
                    } else if w > p {
                        assert(old_out[w - 1] == x);
                    }
                }
                assert forall|x: usize| old_out.contains(x) implies out@.contains(x) by {
                    let w = choose|w: int| 0 <= w < old_out.len() && old_out[w] == x;
                    if w < p {
                        assert(out@[w] == x);
                    } else {
                        assert(out@[w + 1] == x);
                    }
                }
                assert(out@[p as int] == t);
                assert(out@.contains(t));
                assert forall|a: int, b: int| 0 <= a < b < out@.len() implies out@[a]
                    < out@[b] by {
                    if a < p && b > p {
                        assert(old_out[a] == out@[a] && old_out[b - 1] == out@[b]);
                    } else if a == p && b > p {
                        assert(old_out[b - 1] == out@[b]);
                        assert(old_out[p as int] == out@[p + 1]);
                        assert(old_out[p as int] <= old_out[b - 1]);
                    } else if a < p && b == p {
                        assert(old_out[a] == out@[a]);
                    }
                }
            }
        } else {
            assert(out@.contains(t));
        }
        proof {
            assert forall|x: usize| out@.contains(x) implies input@.take(i + 1).contains(x) by {
                if x != t {
                    assert(old_out.contains(x));
                    assert(input@.take(i as int).contains(x));
                }
            }
            assert forall|x: usize| input@.take(i + 1).contains(x) implies out@.contains(x) by {
                if x != t {
                    assert(input@.take(i as int).contains(x));
                    assert(old_out.contains(x));
                }
            }
        }
        i = i + 1;
    }
    proof {
        assert(input@.take(input@.len() as int) =~= input@);
        assert(out@.no_duplicates());
        out@.unique_seq_to_set();
        assert forall|x: usize| out@.to_set().contains(x) implies input@.to_set().contains(
            x,
        ) by {
            assert(out@.contains(x) && input@.contains(x));
        }
        assert forall|x: usize| input@.to_set().contains(x) implies out@.to_set().contains(
            x,
        ) by {
            assert(input@.contains(x) && out@.contains(x));
        }
        assert(out@.to_set() =~= input@.to_set());
    }
    out.len()
}

/// The distinct count over the index values seen as integers equals the
/// distinct count over the machine-word values.
pub proof fn lemma_to_ints_set_len(s: Seq<usize>)
    ensures
        to_ints(s).to_set().len() == s.to_set().len(),
    decreases s.len(),
{
    if s.len() == 0 {
        assert(to_ints(s) =~= Seq::<int>::empty());
        assert(to_ints(s).to_set() =~= Set::<int>::empty());
        assert(s.to_set() =~= Set::<usize>::empty());
    } else {
        let d = s.drop_last();
        lemma_to_ints_set_len(d);
        assert(to_ints(s) =~= to_ints(d).push(s.last() as int));
        assert(to_ints(s).to_set() =~= to_ints(d).to_set().insert(s.last() as int)) by {
            assert forall|x: int| to_ints(s).to_set().contains(x) implies to_ints(
                d,
            ).to_set().contains(x) || x == s.last() as int by {
                let w = choose|w: int| 0 <= w < to_ints(s).len() && to_ints(s)[w] == x;
                if w < d.len() {
                    assert(to_ints(d)[w] == x);
                    assert(to_ints(d).contains(x));
                }
            }
            assert forall|x: int|
                to_ints(d).to_set().contains(x) || x == s.last() as int implies to_ints(
                s,
            ).to_set().contains(x) by {
                if to_ints(d).to_set().contains(x) {
                    let w = choose|w: int| 0 <= w < to_ints(d).len() && to_ints(d)[w] == x;
                    assert(to_ints(s)[w] == x);
                } else {
                    assert(to_ints(s)[s.len() - 1] == x);
                }
            }
        }
        assert(s.to_set() =~= d.to_set().insert(s.last())) by {
            assert forall|x: usize| s.to_set().contains(x) implies d.to_set().contains(x) || x
                == s.last() by {
                let w = choose|w: int| 0 <= w < s.len() && s[w] == x;
                if w < d.len() {
                    assert(d[w] == x);
                }
            }
            assert forall|x: usize| d.to_set().contains(x) || x == s.last() implies
                s.to_set().contains(x) by {
                if d.to_set().contains(x) {
                    let w = choose|w: int| 0 <= w < d.len() && d[w] == x;
                    assert(s[w] == x);
                } else {
                    assert(s[s.len() - 1] == x);
                }
            }
        }
        vstd::seq_lib::seq_to_set_is_finite(d);
        vstd::seq_lib::seq_to_set_is_finite(to_ints(d));
        assert(to_ints(d).to_set().contains(s.last() as int) <==> d.to_set().contains(
            s.last(),
        )) by {
            if to_ints(d).to_set().contains(s.last() as int) {
                let w = choose|w: int| 0 <= w < to_ints(d).len() && to_ints(d)[w] == s.last() as int;
                assert(d[w] == s.last());
                assert(d.contains(s.last()));
            }
            if d.to_set().contains(s.last()) {
                let w = choose|w: int| 0 <= w < d.len() && d[w] == s.last();
                assert(to_ints(d)[w] == s.last() as int);
                assert(to_ints(d).contains(s.last() as int));
            }
        }
    }
}

/// A committing load is the one the content hash afterwards answers for:
/// loading byte-identical bytes again — at the same path or any other —
/// is resolved to the record that commit created, whose linked set holds
/// exactly the indices the commit appended or replaced. Together with
/// `load_font_data`'s contract, the repeat load returns that set and
/// leaves the cache untouched. (A first load's *returned* list may also
/// name skipped faces' rivals; those stay linked to their own paths and
/// are not part of this path's set.)
pub proof fn lemma_reload_answer(c: CacheV, path: Seq<u8>, data: Seq<u8>, path2: Seq<u8>)
    requires
        wf(c),
        c.entries.len() + crate::parse::file_faces_of(data).len() <= usize::MAX,
        dup_owner(c, path, data) is None,
        crate::parse::file_ok(path, data),
    ensures
        ({
            let n = c.paths.len() as int;
            let c1 = load_step_state(c, path, data);
            let fold = commit_faces(
                begin_commit(c, path, path_file_type(path).unwrap(), fnv1a(data), data),
                n,
                crate::parse::file_faces_of(data),
            );
            &&& dup_owner(c1, path2, data) == Some(n)
            &&& load_step_state(c1, path2, data) == c1
            &&& forall|v: int|
                #[trigger] to_ints(c1.paths[n].face_idxs).contains(v) <==> (fold.1.contains(v)
                    || fold.2.contains(v))
        }),
{
    let h = fnv1a(data);
    let n = c.paths.len() as int;
    let cb = begin_commit(c, path, path_file_type(path).unwrap(), h, data);
    let faces = crate::parse::file_faces_of(data);
    let fold = commit_faces(cb, n, faces);
    let c1 = load_step_state(c, path, data);
    assert(c1 == fold.0);
    lemma_commit_faces_meta(cb, n, faces);
    lemma_hash_owner_from(c.paths, h, 0);

    // The new record keeps the content hash, every older record keeps
    // its own, and none of those is h; so the hash owner is the new
    // record.
    assert(c1.paths.len() == n + 1);
    assert(c1.paths[n].hash == h);
    assert forall|q: int| 0 <= q < n implies (#[trigger] c1.paths[q]).hash != h by {
        assert(c1.paths[q].hash == cb.paths[q].hash);
        assert(cb.paths[q].hash == c.paths[q].hash);
    }
    match hash_owner(c1.paths, h) {
        Some(m) => {
            lemma_hash_owner_from(c1.paths, h, 0);
            assert(m == n);
        },
        None => {
            lemma_hash_owner_from(c1.paths, h, 0);
            assert(c1.paths[n].hash != h);
        },
    }
    assert(dup_owner(c1, path2, data) == Some(n));
    assert(load_step_state(c1, path2, data) == c1);

    // The fresh record starts with no links, so after the fold it links
    // exactly the appended and replaced indices.
    assert(cb.paths[n].face_idxs =~= Seq::<usize>::empty());
    lemma_commit_links(cb, n, faces);
    assert forall|v: int| #[trigger] to_ints(c1.paths[n].face_idxs).contains(v) <==> (
    fold.1.contains(v) || fold.2.contains(v)) by {
        assert(to_ints(cb.paths[n].face_idxs) =~= Seq::<int>::empty());
        if to_ints(cb.paths[n].face_idxs).contains(v) {
            let w = choose|w: int|
                0 <= w < to_ints(cb.paths[n].face_idxs).len() && to_ints(cb.paths[n].face_idxs)[w]
                    == v;
        }
    }
}

/// Committing a file none of whose faces answers a lookup — neither
/// against the cached entries nor against an earlier face of the same
/// file, which pairwise-distinct identities guarantee — appends every
/// face: one new entry per face, in face order, nothing replaced and
/// nothing skipped.
pub proof fn lemma_commit_all_fresh(c: CacheV, cur: int, faces: Seq<FaceV>)
    requires
        0 <= cur < c.paths.len(),
        forall|k: int, j: int|
            0 <= k < faces.len() && 0 <= j < c.entries.len() ==> !lookup_matches(
                (#[trigger] c.entries[j]).rec,
                (#[trigger] faces[k]).family_name,
                faces[k].subfamily_name,
            ),
        forall|k: int, j: int|
            0 <= j < k < faces.len() ==> !lookup_matches(
                #[trigger] faces[j],
                (#[trigger] faces[k]).family_name,
                faces[k].subfamily_name,
            ),
    ensures
        ({
            let f = commit_faces(c, cur, faces);
            &&& f.0.entries == c.entries + Seq::new(
                faces.len(),
                |k: int| EntryV { rec: faces[k], arena_index: cur },
            )
            &&& f.1 == Seq::new(faces.len(), |k: int| c.entries.len() + k)
            &&& f.2.len() == 0
            &&& f.3.len() == 0
        }),
    decreases faces.len(),
{
    let f = commit_faces(c, cur, faces);
    if faces.len() == 0 {
        assert(f.0.entries =~= c.entries + Seq::new(
            faces.len(),
            |k: int| EntryV { rec: faces[k], arena_index: cur },
        ));
        assert(f.1 =~= Seq::new(faces.len(), |k: int| c.entries.len() + k));
    } else {
        lemma_commit_all_fresh(c, cur, faces.drop_last());
        let prev = commit_faces(c, cur, faces.drop_last());
        let m = faces.len() - 1;
        let rec = faces.last();
        assert(prev.0.entries.len() == c.entries.len() + m);
        // no entry of the grown table answers the last face's lookup
        assert forall|j: int| 0 <= j < prev.0.entries.len() implies !lookup_matches(
            (#[trigger] prev.0.entries[j]).rec,
            rec.family_name,
            rec.subfamily_name,
        ) by {
            if j < c.entries.len() {
                assert(prev.0.entries[j] == c.entries[j]);
                assert(!lookup_matches(c.entries[j].rec, faces[m].family_name, faces[m].subfamily_name));
            } else {
                assert(prev.0.entries[j].rec == faces[j - c.entries.len()]);
                assert(!lookup_matches(
                    faces[j - c.entries.len()],
                    faces[m].family_name,
                    faces[m].subfamily_name,
                ));
            }
        }
        match first_match(prev.0.entries, rec.family_name, rec.subfamily_name) {
            Some(i) => {
                lemma_first_match_from(prev.0.entries, rec.family_name, rec.subfamily_name, 0);
                assert(false);
            },
            None => {},
        }
        assert(f.0.entries =~= c.entries + Seq::new(
            faces.len(),
            |k: int| EntryV { rec: faces[k], arena_index: cur },
        ));
        assert(f.1 =~= Seq::new(faces.len(), |k: int| c.entries.len() + k));
    }
}

/// The scenario law for byte-identical content at two paths, in full:
/// where the file's faces are fresh — no lookup among themselves or
/// against the cache answers — the first load grows the entry table by
/// exactly the face count, and a second load of the same bytes at any
/// path changes nothing and is answered with exactly the new indices.
pub proof fn lemma_duplicate_content_total(c: CacheV, path: Seq<u8>, data: Seq<u8>, path2: Seq<u8>)
    requires
        wf(c),
        c.entries.len() + crate::parse::file_faces_of(data).len() <= usize::MAX,
        dup_owner(c, path, data) is None,
        crate::parse::file_ok(path, data),
        forall|k: int, j: int|
            0 <= k < crate::parse::file_faces_of(data).len() && 0 <= j < c.entries.len()
                ==> !lookup_matches(
                (#[trigger] c.entries[j]).rec,
                (#[trigger] crate::parse::file_faces_of(data)[k]).family_name,
                crate::parse::file_faces_of(data)[k].subfamily_name,
            ),
        forall|k: int, j: int|
            0 <= j < k < crate::parse::file_faces_of(data).len() ==> !lookup_matches(
                #[trigger] crate::parse::file_faces_of(data)[j],
                (#[trigger] crate::parse::file_faces_of(data)[k]).family_name,
                crate::parse::file_faces_of(data)[k].subfamily_name,
            ),
    ensures
        ({
            let n = c.paths.len() as int;
            let c1 = load_step_state(c, path, data);
            &&& c1.entries.len() == c.entries.len() + crate::parse::file_faces_of(data).len()
            &&& dup_owner(c1, path2, data) == Some(n)
            &&& load_step_state(c1, path2, data) == c1
            &&& forall|v: int|
                #[trigger] to_ints(c1.paths[n].face_idxs).contains(v) <==> c.entries.len() <= v
                    < c1.entries.len()
        }),
{
    let n = c.paths.len() as int;
    let faces = crate::parse::file_faces_of(data);
    let cb = begin_commit(c, path, path_file_type(path).unwrap(), fnv1a(data), data);
    let fold = commit_faces(cb, n, faces);
    lemma_reload_answer(c, path, data, path2);
    lemma_commit_all_fresh(cb, n, faces);
    lemma_commit_growth(cb, n, faces);
    let c1 = load_step_state(c, path, data);
    assert(c1 == fold.0);
    assert forall|v: int| #[trigger] to_ints(c1.paths[n].face_idxs).contains(v)
        <==> c.entries.len() <= v < c1.entries.len() by {
        if fold.1.contains(v) {
            let w = choose|w: int| 0 <= w < fold.1.len() && fold.1[w] == v;
            assert(fold.1[w] == c.entries.len() + w);
        }
        if fold.2.contains(v) {
            let w = choose|w: int| 0 <= w < fold.2.len() && fold.2[w] == v;
        }
        if c.entries.len() <= v < c1.entries.len() {
            assert(fold.1[v - c.entries.len()] == v);
            assert(fold.1.contains(v));
        }
    }
}

/// Of two descriptors sharing one identity, the cache retains exactly the
/// one the ranking prefers: after the weaker face `a` is cached, a
/// stronger rival `b` replaces it in place at the same index, and
/// re-committing the inferior `a` afterwards is a no-op.
pub proof fn lemma_replacement_ordering(
    c: CacheV,
    cur1: int,
    a: FaceV,
    cur2: int,
    b: FaceV,
    cur3: int,
)
    requires
        wf(c),
        c.entries.len() <= usize::MAX,
        0 <= cur1 < c.paths.len(),
        0 <= cur2 < c.paths.len(),
        0 <= cur3 < c.paths.len(),
        first_match(c.entries, a.family_name, a.subfamily_name) is None,
        same_key(a, b),
        better_than(b, a),
    ensures
        ({
            let s1 = commit_face_step(c, cur1, a);
            let s2 = commit_face_step(s1.0, cur2, b);
            let s3 = commit_face_step(s2.0, cur3, a);
            let e = c.entries.len() as int;
            &&& s1.1 == Decision::Added(e)
            &&& s2.1 == Decision::Replaced(e)
            &&& s2.0.entries[e].rec == b
            &&& s3.1 == Decision::Skipped(e)
            &&& s3.0 == s2.0
        }),
{
    lemma_first_match_from(c.entries, a.family_name, a.subfamily_name, 0);
    let e = c.entries.len() as int;
    let s1 = commit_face_step(c, cur1, a);
    let c1 = s1.0;
    assert(s1.1 == Decision::Added(e));
    assert(c1.entries == c.entries.push(EntryV { rec: a, arena_index: cur1 }));

    // In the grown table, the first face matching b's lookup is a at e.
    assert(lookup_matches(a, b.family_name, b.subfamily_name));
    assert(c1.entries[e].rec == a);
    assert forall|j: int| 0 <= j < e implies !lookup_matches(
        (#[trigger] c1.entries[j]).rec,
        b.family_name,
        b.subfamily_name,
    ) by {
        assert(c1.entries[j] == c.entries[j]);
        if lookup_matches(c.entries[j].rec, b.family_name, b.subfamily_name) {
            assert(lookup_matches(c.entries[j].rec, a.family_name, a.subfamily_name));
        }
    }
    lemma_first_match_is(c1.entries, b.family_name, b.subfamily_name, e, 0);
    let s2 = commit_face_step(c1, cur2, b);
    assert(better_than(b, c1.entries[e].rec));
    assert(s2.1 == Decision::Replaced(e));
    assert(s2.0.entries == c1.entries.update(e, EntryV { rec: b, arena_index: cur2 }));
    assert(s2.0.entries[e].rec == b);

    // In the replaced table, the first face matching a's lookup is b at
    // e, and a does not outrank b, so a is skipped and nothing changes.
    assert(lookup_matches(b, a.family_name, a.subfamily_name));
    assert forall|j: int| 0 <= j < e implies !lookup_matches(
        (#[trigger] s2.0.entries[j]).rec,
        a.family_name,
        a.subfamily_name,
    ) by {
        assert(s2.0.entries[j] == c.entries[j]);
    }
    lemma_first_match_is(s2.0.entries, a.family_name, a.subfamily_name, e, 0);
    assert(!better_than(a, s2.0.entries[e].rec));
    let s3 = commit_face_step(s2.0, cur3, a);
    assert(s3.1 == Decision::Skipped(e));
    assert(s3.0 == s2.0);
}

/// A free-text query split on single spaces; empty pieces are kept, and
/// an empty query is one empty piece, as the original splitting rule has
/// it.
pub open spec fn split_spaces(s: Seq<u8>) -> Seq<Seq<u8>>
    decreases s.len(),
{
    if s.len() == 0 {
        seq![Seq::<u8>::empty()]
    } else if s.last() == 32 {
        split_spaces(s.drop_last()).push(Seq::<u8>::empty())
    } else {
        let r = split_spaces(s.drop_last());
        r.update(r.len() - 1, r.last().push(s.last()))
    }
}

/// Terms joined back together with single spaces.
pub open spec fn join_spaces(ts: Seq<Seq<u8>>) -> Seq<u8>
    decreases ts.len(),
{
    if ts.len() == 0 {
        Seq::empty()
    } else if ts.len() == 1 {
        ts[0]
    } else {
        join_spaces(ts.drop_last()) + seq![32u8] + ts.last()
    }
}

/// An empty term stands for "no constraint" in a search.
pub open spec fn opt_term(t: Seq<u8>) -> Option<Seq<u8>> {
    if t.len() == 0 {
        None
    } else {
        Some(t)
    }
}

/// One split of the query answers for the face: the first part found in
/// the family name and the second in the subfamily name, or the other
/// way round; an empty part constrains nothing, but at least the part
/// tried as family must be non-empty. This condition is symmetric in the
/// two parts.
pub open spec fn partition_matches(face: FaceV, one: Seq<u8>, two: Seq<u8>) -> bool {
    ||| (one.len() > 0 && crate::meta::search_matches(face, one, opt_term(two)))
    ||| (two.len() > 0 && crate::meta::search_matches(face, two, opt_term(one)))
}

/// Swapping the two parts of a split never changes whether it answers:
/// trying the first part as family and the second as subfamily, and the
/// reverse, are both always tried.
pub proof fn lemma_partition_match_symmetric(face: FaceV, one: Seq<u8>, two: Seq<u8>)
    ensures
        partition_matches(face, one, two) == partition_matches(face, two, one),
{
}

/// The face answers the free-text query: some way of cutting the query's
/// terms into a prefix and a suffix matches.
pub open spec fn search_hit(face: FaceV, s: Seq<u8>) -> bool {
    exists|i: int|
        0 <= i <= split_spaces(s).len() && partition_matches(
            face,
            join_spaces(#[trigger] split_spaces(s).take(i)),
            join_spaces(split_spaces(s).skip(i)),
        )
}

/// Splits the query bytes on spaces.
fn split_terms(s: &Vec<u8>) -> (r: Vec<Vec<u8>>)
    ensures
        r@.map_values(|t: Vec<u8>| t@) == split_spaces(s@),
        r@.len() >= 1,
{
    let mut pieces: Vec<Vec<u8>> = Vec::new();
    pieces.push(Vec::new());
    proof {
        assert(s@.take(0) =~= Seq::<u8>::empty());
        assert(pieces@.map_values(|t: Vec<u8>| t@) =~= split_spaces(s@.take(0)));
    }
    let mut j: usize = 0;
    while j < s.len()
        invariant
            j <= s@.len(),
            pieces@.len() >= 1,
            pieces@.map_values(|t: Vec<u8>| t@) == split_spaces(s@.take(j as int)),
        decreases s@.len() - j,
    {
        let ghost prev = pieces@;
        proof {
            assert(s@.take(j + 1).drop_last() =~= s@.take(j as int));
            assert(s@.take(j + 1).last() == s@[j as int]);
        }
        if s[j] == 32 {
            pieces.push(Vec::new());
            proof {
                assert(pieces@.map_values(|t: Vec<u8>| t@) =~= split_spaces(s@.take(j as int)).push(
                    Seq::<u8>::empty(),
                ));
            }
        } else {
            let mut lastp = match pieces.pop() {
                Some(v) => v,
                None => Vec::new(),
            };
            lastp.push(s[j]);
            pieces.push(lastp);
            proof {
                let sp = split_spaces(s@.take(j as int));
                assert(pieces@.map_values(|t: Vec<u8>| t@) =~= sp.update(
                    sp.len() - 1,
                    sp.last().push(s@[j as int]),
                ));
            }
        }
        j = j + 1;
    }
    proof {
        assert(s@.take(s@.len() as int) =~= s@);
    }
    pieces
}

/// Joins `terms[from..to]` with single spaces.
fn join_terms(terms: &Vec<Vec<u8>>, from: usize, to: usize) -> (r: Vec<u8>)
    requires
        from <= to <= terms@.len(),
    ensures
        r@ == join_spaces(terms@.map_values(|t: Vec<u8>| t@).subrange(from as int, to as int)),
{
    let ghost tv = terms@.map_values(|t: Vec<u8>| t@);
    let mut acc: Vec<u8> = Vec::new();
    let mut j: usize = from;
    proof {
        assert(tv.subrange(from as int, from as int) =~= Seq::<Seq<u8>>::empty());
    }
    while j < to
        invariant
            from <= j <= to <= terms@.len(),
            tv == terms@.map_values(|t: Vec<u8>| t@),
            acc@ == join_spaces(tv.subrange(from as int, j as int)),
        decreases to - j,
    {
        proof {
            assert(tv.subrange(from as int, j + 1).drop_last() =~= tv.subrange(
                from as int,
                j as int,
            ));
            assert(tv.subrange(from as int, j + 1).last() == tv[j as int]);
            assert(tv[j as int] == terms@[j as int]@);
        }
        if j > from {
            let ghost before = acc@;
            acc.push(32);
            let mut k: usize = 0;
            let piece_len = terms[j].len();
            while k < piece_len
                invariant
                    k <= terms@[j as int]@.len(),
                    piece_len == terms@[j as int]@.len(),
                    j < terms@.len(),
                    acc@ == before + seq![32u8] + terms@[j as int]@.take(k as int),
                decreases piece_len - k,
            {
                acc.push(terms[j][k]);
                proof {
                    assert(terms@[j as int]@.take(k + 1) =~= terms@[j as int]@.take(
                        k as int,
                    ).push(terms@[j as int]@[k as int]));
                    assert(acc@ =~= before + seq![32u8] + terms@[j as int]@.take(k + 1));
                }
                k = k + 1;
            }
            proof {
                assert(terms@[j as int]@.take(terms@[j as int]@.len() as int) =~= terms@[
                    j as int
                ]@);
                assert(tv.subrange(from as int, j + 1).len() >= 2);
                assert(acc@ =~= join_spaces(tv.subrange(from as int, j as int)) + seq![32u8]
                    + tv[j as int]);
            }
        } else {
            let mut k: usize = 0;
            let piece_len = terms[j].len();
            while k < piece_len
                invariant
                    k <= terms@[j as int]@.len(),
                    piece_len == terms@[j as int]@.len(),
                    j < terms@.len(),
                    acc@ == terms@[j as int]@.take(k as int),
                decreases piece_len - k,
            {
                acc.push(terms[j][k]);
                proof {
                    assert(terms@[j as int]@.take(k + 1) =~= terms@[j as int]@.take(
                        k as int,
                    ).push(terms@[j as int]@[k as int]));
                }
                k = k + 1;
            }
            proof {
                assert(terms@[j as int]@.take(terms@[j as int]@.len() as int) =~= terms@[
                    j as int
                ]@);
                assert(tv.subrange(from as int, j + 1).len() == 1);
                assert(tv.subrange(from as int, j + 1)[0] == tv[j as int]);
                assert(acc@ =~= join_spaces(tv.subrange(from as int, j + 1)));
            }
        }
        j = j + 1;
    }
    acc
}

impl FontCache {
    /// Free-text search: the query is split on spaces, every cut into a
    /// prefix and a suffix is tried with either part as a family-name
    /// substring and the other as a subfamily-name substring, and every
    /// face some cut answers for is returned, in cache order, each once.
    pub fn search_fonts(&self, search_string: &Vec<u8>) -> (r: Vec<FontRef>)
        ensures
            forall|a: int, b: int|
                0 <= a < b < r@.len() ==> (#[trigger] r@[a]).cache_index < (
                #[trigger] r@[b]).cache_index,
            forall|k: int|
                0 <= k < r@.len() ==> (#[trigger] r@[k]).cache_index < self@.entries.len(),
            forall|idx: int|
                0 <= idx < self@.entries.len() ==> ((exists|k: int|
                    0 <= k < r@.len() && (#[trigger] r@[k]).cache_index == idx) <==> search_hit(
                    self@.entries[idx].rec,
                    search_string@,
                )),
    {
        let terms = split_terms(search_string);
        let ghost tv = terms@.map_values(|t: Vec<u8>| t@);
        let tlen = terms.len();
        let mut r: Vec<FontRef> = Vec::new();
        let n = self.entries.len();
        proof {
            assert(self@.entries.len() == self.entries@.len());
        }
        let mut idx: usize = 0;
        while idx < n
            invariant
                idx <= n,
                n == self@.entries.len(),
                n == self.entries@.len(),
                tlen == tv.len(),
                tv == terms@.map_values(|t: Vec<u8>| t@),
                tv == split_spaces(search_string@),
                self@.entries == self.entries@.map_values(|e: FontCacheEntry| e@),
                forall|a: int, b: int|
                    0 <= a < b < r@.len() ==> (#[trigger] r@[a]).cache_index < (
                    #[trigger] r@[b]).cache_index,
                forall|k: int| 0 <= k < r@.len() ==> (#[trigger] r@[k]).cache_index < idx,
                forall|e: int|
                    0 <= e < idx ==> ((exists|k: int|
                        0 <= k < r@.len() && (#[trigger] r@[k]).cache_index == e) <==> search_hit(
                        self@.entries[e].rec,
                        search_string@,
                    )),
            decreases n - idx,
        {
            let ghost rec = self@.entries[idx as int].rec;
            proof {
                assert(self@.entries[idx as int] == self.entries@[idx as int]@);
            }
            let mut found = false;
            let mut i: usize = 0;
            while i <= tlen
                invariant_except_break
                    i <= tlen,
                    tlen == tv.len(),
                    tv == terms@.map_values(|t: Vec<u8>| t@),
                    idx < self.entries@.len(),
                    rec == self.entries@[idx as int]@.rec,
                    found <==> exists|q: int|
                        0 <= q < i && partition_matches(
                            rec,
                            join_spaces(#[trigger] tv.take(q)),
                            join_spaces(tv.skip(q)),
                        ),
                ensures
                    found <==> exists|q: int|
                        0 <= q <= tlen && partition_matches(
                            rec,
                            join_spaces(#[trigger] tv.take(q)),
                            join_spaces(tv.skip(q)),
                        ),
                decreases tlen - i,
            {
                let one = join_terms(&terms, 0, i);
                let two = join_terms(&terms, i, tlen);
                proof {
                    assert(tv.subrange(0, i as int) =~= tv.take(i as int));
                    assert(tv.subrange(i as int, tlen as int) =~= tv.skip(i as int));
                }
                let one_sub: Option<&Vec<u8>> = if two.len() == 0 {
                    None
                } else {
                    Some(&two)
                };
                let two_sub: Option<&Vec<u8>> = if one.len() == 0 {
                    None
                } else {
                    Some(&one)
                };
                let hit_one = one.len() > 0 && crate::meta::search_match(
                    &self.entries[idx].rec,
                    one.as_slice(),
                    one_sub,
                );
                let hit_two = two.len() > 0 && crate::meta::search_match(
                    &self.entries[idx].rec,
                    two.as_slice(),
                    two_sub,
                );
                if hit_one || hit_two {
                    proof {
                        assert(partition_matches(
                            rec,
                            join_spaces(tv.take(i as int)),
                            join_spaces(tv.skip(i as int)),
                        ));
                    }
                    found = true;
                } else {
                    proof {
                        assert(!partition_matches(
                            rec,
                            join_spaces(tv.take(i as int)),
                            join_spaces(tv.skip(i as int)),
                        ));
                    }
                }
                if i == tlen {
                    break ;
                }
                i = i + 1;
            }
            proof {
                assert(found <==> search_hit(rec, search_string@));
            }
            if found {
                let ghost r0 = r@;
                r.push(FontRef { cache_index: idx });
                proof {
                    assert forall|e: int|
                        0 <= e < idx + 1 implies ((exists|k: int|
                            0 <= k < r@.len() && (#[trigger] r@[k]).cache_index == e)
                        <==> search_hit(self@.entries[e].rec, search_string@)) by {
                        if e == idx {
                            assert(r@[r@.len() - 1].cache_index == e);
                        } else {
                            if exists|k: int|
                                0 <= k < r@.len() && (#[trigger] r@[k]).cache_index == e {
                                let k = choose|k: int|
                                    0 <= k < r@.len() && (#[trigger] r@[k]).cache_index == e;
                                assert(k < r0.len());
                                assert(r0[k].cache_index == e);
                            }
                            if exists|k: int|
                                0 <= k < r0.len() && (#[trigger] r0[k]).cache_index == e {
                                let k = choose|k: int|
                                    0 <= k < r0.len() && (#[trigger] r0[k]).cache_index == e;
                                assert(r@[k].cache_index == e);
                            }
                        }
                    }
                }
            } else {
                proof {
                    assert forall|e: int|
                        0 <= e < idx + 1 implies ((exists|k: int|
                            0 <= k < r@.len() && (#[trigger] r@[k]).cache_index == e)
                        <==> search_hit(self@.entries[e].rec, search_string@)) by {}
                }
            }
            idx = idx + 1;
        }
        r
    }
}

impl FontCache {
    /// The raw bytes of the file the face was parsed from. They live as
    /// long as the cache itself: the arena only grows.
    pub fn face_data<'a>(&'a self, f: &FontRef) -> (r: &'a Vec<u8>)
        requires
            wf(self@),
            f.cache_index < self@.entries.len(),
        ensures
            r@ == self@.arena[self@.entries[f.cache_index as int].arena_index],
    {
        proof {
            assert(is_linked(self@, f.cache_index));
            let (p, k) = choose|p: int, k: int|
                0 <= p < self@.paths.len() && 0 <= k < self@.paths[p].face_idxs.len() && (
                #[trigger] self@.paths[p].face_idxs[k]) == f.cache_index;
            assert(self@.entries[f.cache_index as int].arena_index == p);
            assert(self@.entries[f.cache_index as int] == self.entries@[f.cache_index as int]@);
            assert(self@.arena.len() == self.arena@.len());
        }
        let ai = self.entries[f.cache_index].arena_index;
        proof {
            assert(self@.arena[ai as int] == self.arena@[ai as int]@);
        }
        &self.arena[ai]
    }

    /// Total raw font bytes the arena holds, saturating at the machine
    /// limit.
    pub fn raw_data_size(&self) -> (r: usize)
        ensures
            r as int == if spec_arena_size(self@.arena) <= usize::MAX as int {
                spec_arena_size(self@.arena)
            } else {
                usize::MAX as int
            },
    {
        let mut total: usize = 0;
        let mut i: usize = 0;
        let n = self.arena.len();
        proof {
            assert(self@.arena.len() == self.arena@.len());
            assert(self@.arena.take(0) =~= Seq::<Seq<u8>>::empty());
        }
        while i < n
            invariant
                i <= n,
                n == self@.arena.len(),
                n == self.arena@.len(),
                self@.arena == self.arena@.map_values(|b: Vec<u8>| b@),
                total as int == if spec_arena_size(self@.arena.take(i as int)) <= usize::MAX as int {
                    spec_arena_size(self@.arena.take(i as int))
                } else {
                    usize::MAX as int
                },
            decreases n - i,
        {
            proof {
                assert(self@.arena.take(i + 1).drop_last() =~= self@.arena.take(i as int));
                assert(self@.arena.take(i + 1).last() == self@.arena[i as int]);
                assert(self@.arena[i as int] == self.arena@[i as int]@);
            }
            let len_i = self.arena[i].len();
            total = if usize::MAX - total >= len_i {
                total + len_i
            } else {
                usize::MAX
            };
            i = i + 1;
        }
        proof {
            assert(self@.arena.take(n as int) =~= self@.arena);
        }
        total
    }
}

/// The display line of one cached face: the family and subfamily names
/// joined by a dash (a slash standing in for a missing subfamily), with
/// the owning path bracketed after a double dash when asked for.
pub open spec fn display_line_of(c: CacheV, i: int, show_path: bool) -> Seq<u8> {
    let e = c.entries[i];
    let base = e.rec.family_name + seq![32u8, 45u8, 32u8] + (match e.rec.subfamily_name {
        Some(s) => s,
        None => seq![47u8],
    });
    if show_path {
        base + seq![32u8, 45u8, 45u8, 32u8, 91u8] + c.paths[e.arena_index].path + seq![93u8]
    } else {
        base
    }
}

/// Inserting an element anywhere adds exactly it to the sequence's
/// multiset.
pub proof fn lemma_insert_to_multiset<A>(s: Seq<A>, p: int, x: A)
    requires
        0 <= p <= s.len(),
    ensures
        s.insert(p, x).to_multiset() =~= s.to_multiset().insert(x),
{
    broadcast use vstd::seq_lib::group_to_multiset_ensures;
    broadcast use vstd::multiset::group_multiset_axioms;

    let t = s.insert(p, x);
    assert(t.remove(p) =~= s);
    assert(t[p] == x);
    assert(t.remove(p).to_multiset() =~= t.to_multiset().remove(t[p]));
    assert(t.contains(x));
    assert(t.to_multiset().count(x) > 0);
    assert forall|a: A| t.to_multiset().count(a) == s.to_multiset().insert(x).count(a) by {
        assert(s.to_multiset().count(a) == t.to_multiset().remove(x).count(a));
    }
}

fn extend_bytes(dst: &mut Vec<u8>, src: &[u8])
    ensures
        final(dst)@ == old(dst)@ + src@,
{
    let mut k: usize = 0;
    while k < src.len()
        invariant
            k <= src@.len(),
            dst@ == old(dst)@ + src@.take(k as int),
        decreases src@.len() - k,
    {
        dst.push(src[k]);
        proof {
            assert(src@.take(k + 1) =~= src@.take(k as int).push(src@[k as int]));
            assert(dst@ =~= old(dst)@ + src@.take(k + 1));
        }
        k = k + 1;
    }
    proof {
        assert(src@.take(src@.len() as int) =~= src@);
        assert(final(dst)@ =~= old(dst)@ + src@);
    }
}

impl FontCache {
    /// One display line per cached face, sorted in lexicographic byte
    /// order, optionally with each face's owning path.
    #[verifier::rlimit(100)]
    pub fn list_fonts(&self, show_path: bool) -> (r: Vec<Vec<u8>>)
        requires
            wf(self@),
        ensures
            forall|a: int, b: int| 0 <= a < b < r@.len() ==> lex_le(r@[a]@, r@[b]@),
            r@.map_values(|l: Vec<u8>| l@).to_multiset() == Seq::new(
                self@.entries.len(),
                |i: int| display_line_of(self@, i, show_path),
            ).to_multiset(),
    {
        broadcast use vstd::seq_lib::group_to_multiset_ensures;

        let ghost lines = Seq::new(
            self@.entries.len(),
            |i: int| display_line_of(self@, i, show_path),
        );
        let mut out: Vec<Vec<u8>> = Vec::new();
        let n = self.entries.len();
        proof {
            assert(self@.entries.len() == self.entries@.len());
            assert(out@.map_values(|l: Vec<u8>| l@) =~= Seq::<Seq<u8>>::empty());
            assert(out@.map_values(|l: Vec<u8>| l@).to_multiset() =~= lines.take(
                0,
            ).to_multiset()) by {
                assert(lines.take(0) =~= Seq::<Seq<u8>>::empty());
            }
        }
        let mut idx: usize = 0;
        while idx < n
            invariant
                idx <= n,
                wf(self@),
                n == self@.entries.len(),
                n == self.entries@.len(),
                lines == Seq::new(
                    self@.entries.len(),
                    |i: int| display_line_of(self@, i, show_path),
                ),
                forall|a: int, b: int| 0 <= a < b < out@.len() ==> lex_le(out@[a]@, out@[b]@),
                out@.map_values(|l: Vec<u8>| l@).to_multiset() == lines.take(
                    idx as int,
                ).to_multiset(),
            decreases n - idx,
        {
            proof {
                assert(self@.entries[idx as int] == self.entries@[idx as int]@);
            }
            let mut line = vstd::slice::slice_to_vec(
                self.entries[idx].rec.family_name.as_slice(),
            );
            line.push(32);
            line.push(45);
            line.push(32);
            match &self.entries[idx].rec.subfamily_name {
                Some(s) => extend_bytes(&mut line, s.as_slice()),
                None => {
                    line.push(47);
                },
            }
            if show_path {
                proof {
                    assert(is_linked(self@, idx));
                    let (p, k) = choose|p: int, k: int|
                        0 <= p < self@.paths.len() && 0 <= k < self@.paths[p].face_idxs.len()
                            && (#[trigger] self@.paths[p].face_idxs[k]) == idx;
                    assert(self@.entries[idx as int].arena_index == p);
                    assert(self@.paths.len() == self.paths@.len());
                }
                let ai = self.entries[idx].arena_index;
                proof {
                    assert(self@.paths[ai as int] == self.paths@[ai as int]@);
                }
                line.push(32);
                line.push(45);
                line.push(45);
                line.push(32);
                line.push(91);
                extend_bytes(&mut line, self.paths[ai].path.as_slice());
                line.push(93);
            }
            proof {
                assert(line@ =~= display_line_of(self@, idx as int, show_path));
                assert(lines[idx as int] == display_line_of(self@, idx as int, show_path));
            }
            // first position whose line does not precede the new one
            let mut p: usize = 0;
            let ghost before = out@;
            while p < out.len()
                invariant_except_break
                    p <= out@.len(),
                    out@ == before,
                    forall|q: int| 0 <= q < p ==> lex_le(out@[q]@, line@),
                ensures
                    p <= out@.len(),
                    out@ == before,
                    forall|q: int| 0 <= q < p ==> lex_le(out@[q]@, line@),
                    p < out@.len() ==> !lex_le(out@[p as int]@, line@),
                decreases out@.len() - p,
            {
                if !crate::bytestr::lex_le_exec(out[p].as_slice(), line.as_slice()) {
                    break ;
                }
                p = p + 1;
            }
            let ghost linev = line@;
            out.insert(p, line);
            proof {
                assert(out@ =~= before.insert(p as int, out@[p as int]));
                assert(out@[p as int]@ == linev);
                assert forall|a: int, b: int| 0 <= a < b < out@.len() implies lex_le(
                    out@[a]@,
                    out@[b]@,
                ) by {
                    let av: Seq<u8> = if a < p {
                        before[a]@
                    } else if a == p {
                        linev
                    } else {
                        before[a - 1]@
                    };
                    let bv: Seq<u8> = if b < p {
                        before[b]@
                    } else if b == p {
                        linev
                    } else {
                        before[b - 1]@
                    };
                    assert(out@[a]@ == av && out@[b]@ == bv);
                    if b == p {
                        assert(lex_le(before[a]@, linev));
                    } else if a == p {
                        assert((p as int) < before.len() ==> !lex_le(before[p as int]@, linev));
                        crate::bytestr::lemma_lex_le_total(linev, before[b - 1]@);
                        if b - 1 > p {
                            if !lex_le(linev, before[b - 1]@) {
                                crate::bytestr::lemma_lex_le_trans(
                                    before[p as int]@,
                                    before[b - 1]@,
                                    linev,
                                );
                            }
                        } else {
                            if !lex_le(linev, before[b - 1]@) {
                                assert(lex_le(before[p as int]@, linev));
                            }
                        }
                    } else if a < p && b > p {
                        assert(lex_le(before[a]@, before[b - 1]@));
                    }
                }
                assert(out@.map_values(|l: Vec<u8>| l@) =~= before.map_values(
                    |l: Vec<u8>| l@,
                ).insert(p as int, linev));
                lemma_insert_to_multiset(before.map_values(|l: Vec<u8>| l@), p as int, linev);
                assert(out@.map_values(|l: Vec<u8>| l@).to_multiset() =~= before.map_values(
                    |l: Vec<u8>| l@,
                ).to_multiset().insert(linev));
                assert(lines.take(idx + 1) =~= lines.take(idx as int).push(lines[idx as int]));
                lines.take(idx as int).to_multiset_ensures();
                assert(lines.take(idx as int).push(lines[idx as int]).to_multiset()
                    =~= lines.take(idx as int).to_multiset().insert(lines[idx as int]));
                assert(out@.map_values(|l: Vec<u8>| l@).to_multiset() =~= lines.take(
                    idx + 1,
                ).to_multiset());
            }
            idx = idx + 1;
        }
        proof {
            assert(lines.take(n as int) =~= lines);
        }
        out
    }
}

/// The sum of the arena's buffer lengths.
pub open spec fn spec_arena_size(arena: Seq<Seq<u8>>) -> int
    decreases arena.len(),
{
    if arena.len() == 0 {
        0
    } else {
        spec_arena_size(arena.drop_last()) + arena.last().len()
    }
}

impl FontRef {
    /// The face's index within its source file.
    pub fn face_index(&self, cache: &FontCache) -> (r: u32)
        requires
            self.cache_index < cache@.entries.len(),
        ensures
            r as int == cache@.entries[self.cache_index as int].rec.face_index,
    {
        proof {
            assert(cache@.entries[self.cache_index as int] == cache.entries@[
                self.cache_index as int
            ]@);
        }
        cache.entries[self.cache_index].rec.face_index
    }

    /// The face's family name.
    pub fn family_name<'a>(&self, cache: &'a FontCache) -> (r: &'a Vec<u8>)
        requires
            self.cache_index < cache@.entries.len(),
        ensures
            r@ == cache@.entries[self.cache_index as int].rec.family_name,
    {
        proof {
            assert(cache@.entries[self.cache_index as int] == cache.entries@[
                self.cache_index as int
            ]@);
        }
        &cache.entries[self.cache_index].rec.family_name
    }

    /// The face's subfamily name, if it has one.
    pub fn subfamily_name<'a>(&self, cache: &'a FontCache) -> (r: &'a Option<Vec<u8>>)
        requires
            self.cache_index < cache@.entries.len(),
        ensures
            match r {
                Some(v) => cache@.entries[self.cache_index as int].rec.subfamily_name == Some(
                    v@,
                ),
                None => cache@.entries[self.cache_index as int].rec.subfamily_name is None,
            },
    {
        proof {
            assert(cache@.entries[self.cache_index as int] == cache.entries@[
                self.cache_index as int
            ]@);
        }
        &cache.entries[self.cache_index].rec.subfamily_name
    }

    /// The face's variation axes.
    pub fn variation_axes<'a>(&self, cache: &'a FontCache) -> (r: &'a Vec<crate::meta::AxisInfo>)
        requires
            self.cache_index < cache@.entries.len(),
        ensures
            r@ == cache@.entries[self.cache_index as int].rec.variation_axes,
    {
        proof {
            assert(cache@.entries[self.cache_index as int] == cache.entries@[
                self.cache_index as int
            ]@);
        }
        &cache.entries[self.cache_index].rec.variation_axes
    }

    /// The face's named instances.
    pub fn named_instances<'a>(&self, cache: &'a FontCache) -> (r: &'a Vec<
        crate::meta::NamedInstanceInfo,
    >)
        requires
            self.cache_index < cache@.entries.len(),
        ensures
            r@.map_values(|n: crate::meta::NamedInstanceInfo| n@) == cache@.entries[
                self.cache_index as int
            ].rec.named_instances,
    {
        proof {
            assert(cache@.entries[self.cache_index as int] == cache.entries@[
                self.cache_index as int
            ]@);
        }
        &cache.entries[self.cache_index].rec.named_instances
    }

    /// The face's feature tags, deduplicated and sorted.
    pub fn features<'a>(&self, cache: &'a FontCache) -> (r: &'a Vec<u32>)
        requires
            self.cache_index < cache@.entries.len(),
        ensures
            r@ == cache@.entries[self.cache_index as int].rec.features,
    {
        proof {
            assert(cache@.entries[self.cache_index as int] == cache.entries@[
                self.cache_index as int
            ]@);
        }
        &cache.entries[self.cache_index].rec.features
    }

    /// The raw fixed-point bits of the face's revision.
    pub fn revision(&self, cache: &FontCache) -> (r: i32)
        requires
            self.cache_index < cache@.entries.len(),
        ensures
            r as int == cache@.entries[self.cache_index as int].rec.revision_bits,
    {
        proof {
            assert(cache@.entries[self.cache_index as int] == cache.entries@[
                self.cache_index as int
            ]@);
        }
        cache.entries[self.cache_index].rec.revision_bits
    }
}

impl FontCache {
    /// Loads many files: a parallel, side-effect-free phase hashes and
    /// parses each file independently, then a strictly sequential commit
    /// folds each outcome into the shared state in input order. Returns
    /// how many distinct indices were newly cached or replaced across all
    /// files. The first failing file's error is reported, but a failing
    /// file poisons nothing: every other file's commit stands.
    pub fn load_multiple_font_files(&mut self, files: Vec<FontFile>) -> (r: Result<
        usize,
        FontError,
    >)
        requires
            wf(old(self)@),
        ensures
            wf(final(self)@),
            final(self)@ == load_all(old(self)@, files@).0,
            match r {
                Ok(n) => {
                    &&& forall|i: int|
                        0 <= i < files@.len() ==> crate::parse::file_ok(
                            (#[trigger] files@[i]).path@,
                            files@[i].data@,
                        )
                    &&& n as int == load_all(old(self)@, files@).1.to_set().len()
                },
                Err(e) => exists|i: int|
                    {
                        &&& 0 <= i < files@.len()
                        &&& !crate::parse::file_ok(
                            (#[trigger] files@[i]).path@,
                            files@[i].data@,
                        )
                        &&& crate::parse::file_error_matches(e, files@[i].path@, files@[i].data@)
                        &&& forall|j: int|
                            0 <= j < i ==> crate::parse::file_ok(
                                (#[trigger] files@[j]).path@,
                                files@[j].data@,
                            )
                    },
            },
    {
        let ghost c0 = self@;
        let ghost origfs = files@;
        let outcomes = par_parse(&files);
        let mut outcomes = outcomes;
        let mut files = files;
        let n_files = files.len();
        let mut touched: Vec<usize> = Vec::new();
        let mut first_err: Option<FontError> = None;
        let mut i: usize = 0;
        proof {
            assert(files@ =~= origfs.skip(0));
            assert(to_ints(touched@) =~= load_all(c0, origfs.take(0)).1);
        }
        while files.len() > 0
            invariant
                wf(self@),
                origfs.len() == n_files,
                i + files@.len() == n_files,
                outcomes@.len() == files@.len(),
                files@ == origfs.skip(i as int),
                forall|k: int|
                    0 <= k < outcomes@.len() ==> parse_rel(
                        origfs[i + k],
                        #[trigger] outcomes@[k],
                    ),
                self@ == load_all(c0, origfs.take(i as int)).0,
                to_ints(touched@) == load_all(c0, origfs.take(i as int)).1,
                match first_err {
                    None => forall|j: int|
                        0 <= j < i ==> crate::parse::file_ok(
                            (#[trigger] origfs[j]).path@,
                            origfs[j].data@,
                        ),
                    Some(e) => exists|j: int|
                        {
                            &&& 0 <= j < i
                            &&& !crate::parse::file_ok(
                                (#[trigger] origfs[j]).path@,
                                origfs[j].data@,
                            )
                            &&& crate::parse::file_error_matches(
                                e,
                                origfs[j].path@,
                                origfs[j].data@,
                            )
                            &&& forall|k2: int|
                                0 <= k2 < j ==> crate::parse::file_ok(
                                    (#[trigger] origfs[k2]).path@,
                                    origfs[k2].data@,
                                )
                        },
                },
            decreases files@.len(),
        {
            let ghost prev = load_all(c0, origfs.take(i as int));
            let ghost prevouts = outcomes@;
            let file = files.remove(0);
            let outcome = outcomes.remove(0);
            proof {
                assert(origfs.skip(i as int)[0] == origfs[i as int]);
                assert(file == origfs[i as int]);
                assert(outcome == prevouts[0]);
                assert(parse_rel(origfs[i as int], outcome));
                assert(files@ =~= origfs.skip(i + 1));
                assert forall|k: int| 0 <= k < outcomes@.len() implies parse_rel(
                    origfs[i + 1 + k],
                    #[trigger] outcomes@[k],
                ) by {
                    assert(outcomes@[k] == prevouts[k + 1]);
                    assert(parse_rel(origfs[i + (k + 1)], prevouts[k + 1]));
                }
                assert(origfs.take(i + 1).drop_last() =~= origfs.take(i as int));
                assert(origfs.take(i + 1).last() == origfs[i as int]);
            }
            match outcome {
                FileParse::Failed { err } => {
                    proof {
                        assert(!crate::parse::file_ok(file.path@, file.data@));
                        assert(load_all(c0, origfs.take(i + 1)).0 == prev.0);
                        assert(load_all(c0, origfs.take(i + 1)).1 == prev.1);
                    }
                    if first_err.is_none() {
                        first_err = Some(err);
                    }
                },
                FileParse::Parsed { hash, file_type, faces } => {
                    proof {
                        assert(crate::parse::file_ok(file.path@, file.data@));
                    }
                    let FontFile { path, data } = file;
                    let hdup = self.find_hash_owner(hash);
                    let pdup: Option<usize> = if hdup.is_none() {
                        self.find_path_owner(&path)
                    } else {
                        None
                    };
                    if hdup.is_none() && pdup.is_none() {
                        proof {
                            assert(dup_owner(self@, path@, data@) is None);
                        }
                        let res = self.commit_file(path, data, file_type, hash, faces);
                        proof {
                            assert(load_all(c0, origfs.take(i + 1)).0 == self@);
                        }
                        match res {
                            CacheResult::New { mut newly_cached, mut replaced, skipped } => {
                                let ghost t0 = touched@;
                                let ghost tn = newly_cached@;
                                let ghost tr = replaced@;
                                touched.append(&mut newly_cached);
                                touched.append(&mut replaced);
                                proof {
                                    assert(touched@ == t0 + tn + tr);
                                    assert(to_ints(t0 + tn + tr) =~= to_ints(t0) + to_ints(tn)
                                        + to_ints(tr));
                                    assert(to_ints(touched@) == load_all(
                                        c0,
                                        origfs.take(i + 1),
                                    ).1);
                                }
                            },
                            CacheResult::NoNewData { existing_idxs } => {
                                proof {
                                    let fold = commit_faces(
                                        begin_commit(
                                            prev.0,
                                            path@,
                                            path_file_type(path@).unwrap(),
                                            fnv1a(data@),
                                            data@,
                                        ),
                                        prev.0.paths.len() as int,
                                        crate::parse::file_faces_of(data@),
                                    );
                                    assert(fold.1 =~= Seq::<int>::empty());
                                    assert(fold.2 =~= Seq::<int>::empty());
                                    assert(prev.1 + fold.1 + fold.2 =~= prev.1);
                                    assert(to_ints(touched@) == load_all(
                                        c0,
                                        origfs.take(i + 1),
                                    ).1);
                                }
                            },
                            CacheResult::AlreadyCached { idxs } => {
                                proof {
                                    assert(false);
                                }
                            },
                        }
                    } else {
                        proof {
                            assert(dup_owner(self@, path@, data@) is Some);
                            assert(load_all(c0, origfs.take(i + 1)).0 == prev.0);
                            assert(load_all(c0, origfs.take(i + 1)).1 == prev.1);
                        }
                    }
                },
            }
            i = i + 1;
        }
        proof {
            assert(origfs.take(i as int) =~= origfs);
        }
        match first_err {
            Some(e) => Err(e),
            None => {
                let n = distinct_index_count(&touched);
                proof {
                    lemma_to_ints_set_len(touched@);
                }
                Ok(n)
            },
        }
    }
}

} // verus!
