//! The glyph atlas cache: rasterizations keyed by face, glyph, size, and
//! coordinates, packed into one shared texture.
//!
//! A key is rasterized at most once: a hit returns the cached placement
//! and texture bounds with no rasterizer work. A miss rasterizes, asks
//! the packing allocator for a rectangle — allocation failure is fatal,
//! there is no eviction and the atlas only grows — repacks the mask's
//! subpixel coverage into R, G, B and a derived alpha, and records the
//! new entry. Once inserted, an entry's rectangle never moves and is
//! never reused for another key.

use vstd::prelude::*;

use etagere::AtlasAllocator;

use crate::cache::{FontCache, FontRef};
use crate::meta::FontError;
use crate::raster::{Placement, Rasterizer};

verus! {

#[verifier::external_type_specification]
#[verifier::external_body]
pub struct ExAtlasAllocator(AtlasAllocator);

/// The live allocations the packer tracks: each id's rectangle, as
/// (left, top, right, bottom) in texture bytes and rows.
pub uninterp spec fn atlas_rects(a: AtlasAllocator) -> Map<u32, (int, int, int, int)>;

/// The size the packer was created with.
pub uninterp spec fn atlas_dims(a: AtlasAllocator) -> (int, int);

/// Two rectangles share no cell.
pub open spec fn rects_disjoint(a: (int, int, int, int), b: (int, int, int, int)) -> bool {
    a.2 <= b.0 || b.2 <= a.0 || a.3 <= b.1 || b.3 <= a.1
}

/// Relies on `etagere::AtlasAllocator::new`: an empty shelf-pack atlas of
/// the given size; the constructor accepts sides between 1 and 65535
/// whose area fits a 32-bit signed count, and rejects anything else.
#[verifier::external_body]
fn atlas_new(width: i32, height: i32) -> (r: AtlasAllocator)
    requires
        1 <= width <= 0xffff,
        1 <= height <= 0xffff,
        width * height <= 0x7fffffff,
    ensures
        atlas_dims(r).0 == width as int,
        atlas_dims(r).1 == height as int,
        forall|id: u32| !atlas_rects(r).dom().contains(id),
{
    AtlasAllocator::new(etagere::size2(width, height))
}

/// Relies on `etagere::AtlasAllocator::allocate`: on success, a fresh id
/// and a rectangle at least the requested size, inside the atlas bounds,
/// disjoint from every live allocation; `None` for an empty or oversized
/// request, or when no room remains.
#[verifier::external_body]
fn atlas_allocate(a: &mut AtlasAllocator, width: i32, height: i32) -> (r: Option<
    (u32, i32, i32, i32, i32),
>)
    ensures
        atlas_dims(*final(a)) == atlas_dims(*old(a)),
        match r {
            None => atlas_rects(*final(a)) == atlas_rects(*old(a)),
            Some(al) => {
                &&& !atlas_rects(*old(a)).dom().contains(al.0)
                &&& atlas_rects(*final(a)) == atlas_rects(*old(a)).insert(
                    al.0,
                    (al.1 as int, al.2 as int, al.3 as int, al.4 as int),
                )
                &&& 0 <= al.1 < al.3 <= atlas_dims(*old(a)).0
                &&& 0 <= al.2 < al.4 <= atlas_dims(*old(a)).1
                &&& al.3 - al.1 >= width
                &&& al.4 - al.2 >= height
                &&& forall|o: u32|
                    atlas_rects(*old(a)).dom().contains(o) ==> rects_disjoint(
                        (al.1 as int, al.2 as int, al.3 as int, al.4 as int),
                        #[trigger] atlas_rects(*old(a))[o],
                    )
            },
        },
        (width <= 0 || height <= 0) ==> r is None,
{
    let alloc = a.allocate(etagere::size2(width, height))?;
    let rect = alloc.rectangle;
    Some((alloc.id.serialize(), rect.min.x, rect.min.y, rect.max.x, rect.max.y))
}

/// One rasterization's identity: the face, the glyph, the pixel size
/// rounded to whole pixels-per-em, and the variation coordinates.
#[derive(Debug, Clone, PartialEq, Eq)]
pub struct GlyphCacheKey {
    pub font_cache_index: usize,
    pub glyph_id: u32,
    pub ppem: u16,
    pub coords: Vec<i16>,
}

#[verifier::ext_equal]
pub struct KeyV {
    pub font_cache_index: int,
    pub glyph_id: u32,
    pub ppem: u16,
    pub coords: Seq<i16>,
}

impl View for GlyphCacheKey {
    type V = KeyV;

    open spec fn view(&self) -> KeyV {
        KeyV {
            font_cache_index: self.font_cache_index as int,
            glyph_id: self.glyph_id,
            ppem: self.ppem,
            coords: self.coords@,
        }
    }
}

fn key_eq(a: &GlyphCacheKey, b: &GlyphCacheKey) -> (r: bool)
    ensures
        r == (a@ == b@),
{
    if a.font_cache_index != b.font_cache_index || a.glyph_id != b.glyph_id || a.ppem != b.ppem {
        return false;
    }
    if a.coords.len() != b.coords.len() {
        return false;
    }
    let mut i: usize = 0;
    while i < a.coords.len()
        invariant
            i <= a.coords@.len(),
            a.coords@.len() == b.coords@.len(),
            a@.font_cache_index == b@.font_cache_index,
            a@.glyph_id == b@.glyph_id,
            a@.ppem == b@.ppem,
            forall|j: int| 0 <= j < i ==> a.coords@[j] == b.coords@[j],
        decreases a.coords@.len() - i,
    {
        if a.coords[i] != b.coords[i] {
            return false;
        }
        i = i + 1;
    }
    proof {
        assert(a.coords@ =~= b.coords@);
        assert(a@ =~= b@);
    }
    true
}

/// Texture bounds of one cached glyph, in quarter-pixel (byte) columns
/// horizontally and pixel rows vertically.
#[derive(Debug, Clone, Copy, PartialEq, Eq, Structural)]
pub struct GlyphUvBounds {
    pub min_xq: i32,
    pub min_y: i32,
    pub width: u32,
    pub height: u32,
}

impl GlyphUvBounds {
    pub fn new(min_xq: i32, min_y: i32, width: u32, height: u32) -> (r: GlyphUvBounds)
        ensures
            r == (GlyphUvBounds { min_xq, min_y, width, height }),
    {
        GlyphUvBounds { min_xq, min_y, width, height }
    }

    pub fn left(&self) -> (r: i32)
        ensures
            r == self.min_xq,
    {
        self.min_xq
    }

    pub fn right(&self) -> (r: i32)
        requires
            0 <= self.min_xq,
            self.min_xq + 4 * self.width <= i32::MAX,
        ensures
            r == self.min_xq + 4 * self.width,
    {
        self.min_xq + 4 * (self.width as i32)
    }

    pub fn top(&self) -> (r: i32)
        ensures
            r == self.min_y,
    {
        self.min_y
    }

    pub fn bottom(&self) -> (r: i32)
        requires
            0 <= self.min_y,
            self.min_y + self.height <= i32::MAX,
        ensures
            r == self.min_y + self.height,
    {
        self.min_y + (self.height as i32)
    }
}

/// One cached rasterization: its allocation, its rectangle, and the
/// placement of the mask inside it.
pub struct GlyphEntry {
    pub alloc_id: u32,
    pub x0: i32,
    pub y0: i32,
    pub x1: i32,
    pub y1: i32,
    pub placement: Placement,
}

#[verifier::ext_equal]
pub struct GlyphEntryV {
    pub alloc_id: u32,
    pub rect: (int, int, int, int),
    pub placement: Placement,
}

impl View for GlyphEntry {
    type V = GlyphEntryV;

    open spec fn view(&self) -> GlyphEntryV {
        GlyphEntryV {
            alloc_id: self.alloc_id,
            rect: (self.x0 as int, self.y0 as int, self.x1 as int, self.y1 as int),
            placement: self.placement,
        }
    }
}

/// The texture bounds a cached entry answers with.
pub open spec fn uv_of(e: GlyphEntryV) -> GlyphUvBounds {
    GlyphUvBounds {
        min_xq: e.rect.0 as i32,
        min_y: e.rect.1 as i32,
        width: e.placement.width,
        height: e.placement.height,
    }
}

/// The glyph atlas cache.
pub struct GlyphCache {
    texture_row_size: usize,
    texture_rows: usize,
    atlas: AtlasAllocator,
    texture: Vec<u8>,
    texture_data_dirty: bool,
    rasterizer: Rasterizer,
    glyph_map: Vec<(GlyphCacheKey, GlyphEntry)>,
}

#[verifier::ext_equal]
pub struct GlyphCacheV {
    pub row_size: int,
    pub rows: int,
    pub dims: (int, int),
    pub rects: Map<u32, (int, int, int, int)>,
    pub texture: Seq<u8>,
    pub dirty: bool,
    pub raster_calls: u64,
    pub entries: Seq<(KeyV, GlyphEntryV)>,
}

impl View for GlyphCache {
    type V = GlyphCacheV;

    closed spec fn view(&self) -> GlyphCacheV {
        GlyphCacheV {
            row_size: self.texture_row_size as int,
            rows: self.texture_rows as int,
            dims: atlas_dims(self.atlas),
            rects: atlas_rects(self.atlas),
            texture: self.texture@,
            dirty: self.texture_data_dirty,
            raster_calls: self.rasterizer.calls,
            entries: self.glyph_map@.map_values(
                |e: (GlyphCacheKey, GlyphEntry)| (e.0@, e.1@),
            ),
        }
    }
}

/// The atlas cache's invariant: the texture is one byte per atlas cell;
/// every cached entry owns a live allocation whose rectangle lies inside
/// the atlas, holds at least the mask (four bytes per pixel wide), and —
/// since allocations never move and are never reused — the entries'
/// rectangles are pairwise disjoint and their keys and ids distinct.
pub open spec fn atlas_wf(v: GlyphCacheV) -> bool {
    &&& v.dims == (v.row_size, v.rows)
    &&& v.texture.len() == v.row_size * v.rows
    &&& 1 <= v.row_size <= 0xffff
    &&& 1 <= v.rows <= 0xffff
    &&& forall|i: int, j: int|
        0 <= i < j < v.entries.len() ==> (#[trigger] v.entries[i]).0 != (
        #[trigger] v.entries[j]).0
    &&& forall|i: int, j: int|
        0 <= i < j < v.entries.len() ==> (#[trigger] v.entries[i]).1.alloc_id != (
        #[trigger] v.entries[j]).1.alloc_id
    &&& forall|i: int|
        0 <= i < v.entries.len() ==> {
            let e = (#[trigger] v.entries[i]).1;
            &&& v.rects.dom().contains(e.alloc_id)
            &&& v.rects[e.alloc_id] == e.rect
            &&& 0 <= e.rect.0 < e.rect.2 <= v.row_size
            &&& 0 <= e.rect.1 < e.rect.3 <= v.rows
            &&& e.rect.2 - e.rect.0 >= 4 * e.placement.width
            &&& e.rect.3 - e.rect.1 >= e.placement.height
        }
    &&& forall|i: int, j: int|
        0 <= i < j < v.entries.len() ==> rects_disjoint(
            (#[trigger] v.entries[i]).1.rect,
            (#[trigger] v.entries[j]).1.rect,
        )
}

/// For any number of distinct glyph keys cached so far, their atlas
/// rectangles are pairwise non-overlapping and lie within the atlas
/// bounds.
pub proof fn lemma_atlas_non_overlap(v: GlyphCacheV, i: int, j: int)
    requires
        atlas_wf(v),
        0 <= i < v.entries.len(),
        0 <= j < v.entries.len(),
        i != j,
    ensures
        rects_disjoint(v.entries[i].1.rect, v.entries[j].1.rect),
        0 <= v.entries[i].1.rect.0 < v.entries[i].1.rect.2 <= v.row_size,
        0 <= v.entries[i].1.rect.1 < v.entries[i].1.rect.3 <= v.rows,
{
    if i < j {
    } else {
        assert(rects_disjoint(v.entries[j].1.rect, v.entries[i].1.rect));
    }
}

/// First position of the key among the cached entries.
pub open spec fn key_position_from(entries: Seq<(KeyV, GlyphEntryV)>, k: KeyV, i: int) -> Option<
    int,
>
    decreases entries.len() - i,
{
    if i < 0 || i >= entries.len() {
        None
    } else if entries[i].0 == k {
        Some(i)
    } else {
        key_position_from(entries, k, i + 1)
    }
}

pub open spec fn key_position(entries: Seq<(KeyV, GlyphEntryV)>, k: KeyV) -> Option<int> {
    key_position_from(entries, k, 0)
}

pub proof fn lemma_key_position_from(entries: Seq<(KeyV, GlyphEntryV)>, k: KeyV, i: int)
    requires
        0 <= i <= entries.len(),
    ensures
        match key_position_from(entries, k, i) {
            Some(m) => i <= m < entries.len() && entries[m].0 == k && forall|j: int|
                i <= j < m ==> (#[trigger] entries[j]).0 != k,
            None => forall|j: int| i <= j < entries.len() ==> (#[trigger] entries[j]).0 != k,
        },
    decreases entries.len() - i,
{
    if i < entries.len() && entries[i].0 != k {
        lemma_key_position_from(entries, k, i + 1);
    }
}

/// The texture byte a blit writes for channel `c` of mask pixel
/// (`row`, `col`): the mask's own R, G, B, and an alpha derived as their
/// saturating sum.
pub open spec fn blit_src(mask: Seq<u8>, w: int, row: int, col: int, c: int) -> u8 {
    if c < 3 {
        mask[row * w * 4 + col * 4 + c]
    } else {
        let s = mask[row * w * 4 + col * 4] + mask[row * w * 4 + col * 4 + 1] + mask[row * w * 4
            + col * 4 + 2];
        if s > 255 {
            255u8
        } else {
            s as u8
        }
    }
}

/// Where channel `c` of mask pixel (`row`, `col`) lands in the texture.
pub open spec fn blit_target(row_size: int, x0: int, y0: int, row: int, col: int, c: int) -> int {
    (y0 + row) * row_size + x0 + col * 4 + c
}

/// Texture index `i` lies inside the blit's written region.
pub open spec fn in_blit(row_size: int, x0: int, y0: int, w: int, h: int, i: int) -> bool {
    exists|row: int, col: int, c: int|
        0 <= row < h && 0 <= col < w && 0 <= c < 4 && i == blit_target(
            row_size,
            x0,
            y0,
            row,
            col,
            c,
        )
}

/// Distinct mask cells land on distinct texture bytes.
proof fn lemma_blit_target_injective(
    row_size: int,
    x0: int,
    y0: int,
    w: int,
    r1: int,
    c1: int,
    ch1: int,
    r2: int,
    c2: int,
    ch2: int,
)
    requires
        0 <= x0,
        0 <= y0,
        0 < w,
        x0 + 4 * w <= row_size,
        0 <= r1,
        0 <= r2,
        0 <= c1 < w,
        0 <= c2 < w,
        0 <= ch1 < 4,
        0 <= ch2 < 4,
        r1 != r2 || c1 != c2 || ch1 != ch2,
    ensures
        blit_target(row_size, x0, y0, r1, c1, ch1) != blit_target(row_size, x0, y0, r2, c2, ch2),
{
    if r1 == r2 {
    } else if r1 < r2 {
        assert((y0 + r1) * row_size + row_size == (y0 + r1 + 1) * row_size) by (nonlinear_arith);
        assert((y0 + r1 + 1) * row_size <= (y0 + r2) * row_size) by (nonlinear_arith)
            requires
                y0 + r1 + 1 <= y0 + r2,
                row_size >= 0,
        ;
    } else {
        assert((y0 + r2) * row_size + row_size == (y0 + r2 + 1) * row_size) by (nonlinear_arith);
        assert((y0 + r2 + 1) * row_size <= (y0 + r1) * row_size) by (nonlinear_arith)
            requires
                y0 + r2 + 1 <= y0 + r1,
                row_size >= 0,
        ;
    }
}

/// Blits the mask into the texture at byte column `x0`, row `y0`,
/// repacking the subpixel coverage into R, G, B and a derived alpha, and
/// touching nothing outside the written region.
fn blit(texture: &mut Vec<u8>, row_size: usize, x0: usize, y0: usize, w: usize, h: usize, mask:
    &Vec<u8>)
    requires
        0 < w,
        x0 + 4 * w <= row_size,
        (y0 + h) * row_size <= old(texture)@.len(),
        mask@.len() == 4 * w * h,
    ensures
        final(texture)@.len() == old(texture)@.len(),
        forall|row: int, col: int, c: int|
            0 <= row < h && 0 <= col < w && 0 <= c < 4 ==> final(texture)@[blit_target(
                row_size as int,
                x0 as int,
                y0 as int,
                row,
                col,
                c,
            )] == blit_src(mask@, w as int, row, col, c),
        forall|i: int|
            0 <= i < final(texture)@.len() && !in_blit(
                row_size as int,
                x0 as int,
                y0 as int,
                w as int,
                h as int,
                i,
            ) ==> final(texture)@[i] == old(texture)@[i],
{
    let ghost rs = row_size as int;
    let ghost gx0 = x0 as int;
    let ghost gy0 = y0 as int;
    let ml = mask.len();
    let tl = texture.len();
    let mut row: usize = 0;
    while row < h
        invariant
            row <= h,
            0 < w,
            x0 + 4 * w <= row_size,
            (y0 + h) * row_size <= texture@.len(),
            mask@.len() == 4 * w * h,
            ml == mask@.len(),
            tl == texture@.len(),
            texture@.len() == old(texture)@.len(),
            rs == row_size as int,
            gx0 == x0 as int,
            gy0 == y0 as int,
            forall|r2: int, col: int, c: int|
                0 <= r2 < row && 0 <= col < w && 0 <= c < 4 ==> texture@[blit_target(
                    rs,
                    gx0,
                    gy0,
                    r2,
                    col,
                    c,
                )] == blit_src(mask@, w as int, r2, col, c),
            forall|i: int|
                0 <= i < texture@.len() && !in_blit(rs, gx0, gy0, w as int, h as int, i)
                    ==> texture@[i] == old(texture)@[i],
        decreases h - row,
    {
        let mut col: usize = 0;
        while col < w
            invariant
                col <= w,
                row < h,
                0 < w,
                x0 + 4 * w <= row_size,
                (y0 + h) * row_size <= texture@.len(),
                mask@.len() == 4 * w * h,
                ml == mask@.len(),
                tl == texture@.len(),
                texture@.len() == old(texture)@.len(),
                rs == row_size as int,
                gx0 == x0 as int,
                gy0 == y0 as int,
                forall|r2: int, c2: int, c: int|
                    0 <= r2 < row && 0 <= c2 < w && 0 <= c < 4 ==> texture@[blit_target(
                        rs,
                        gx0,
                        gy0,
                        r2,
                        c2,
                        c,
                    )] == blit_src(mask@, w as int, r2, c2, c),
                forall|c2: int, c: int|
                    0 <= c2 < col && 0 <= c < 4 ==> texture@[blit_target(
                        rs,
                        gx0,
                        gy0,
                        row as int,
                        c2,
                        c,
                    )] == blit_src(mask@, w as int, row as int, c2, c),
                forall|i: int|
                    0 <= i < texture@.len() && !in_blit(rs, gx0, gy0, w as int, h as int, i)
                        ==> texture@[i] == old(texture)@[i],
            decreases w - col,
        {
            proof {
                assert(row * (4 * w) + col * 4 + 3 < 4 * w * h) by (nonlinear_arith)
                    requires
                        0 <= row < h,
                        0 <= col < w,
                        0 < w,
                ;
                assert(row * 4 * w == row * (4 * w)) by (nonlinear_arith);
                assert(row * 4 <= row * (4 * w)) by (nonlinear_arith)
                    requires
                        1 <= w,
                        0 <= row,
                ;
                assert(mask@.len() <= usize::MAX);
            }
            let base = row * 4 * w + col * 4;
            let cr = mask[base];
            let cg = mask[base + 1];
            let cb = mask[base + 2];
            let sum: u32 = cr as u32 + cg as u32 + cb as u32;
            let alpha: u8 = if sum > 255 {
                255
            } else {
                sum as u8
            };
            proof {
                assert((y0 + row) * row_size + row_size == (y0 + row + 1) * row_size)
                    by (nonlinear_arith);
                assert((y0 + row + 1) * row_size <= (y0 + h) * row_size) by (nonlinear_arith)
                    requires
                        y0 + row + 1 <= y0 + h,
                        0 <= row_size,
                ;
                assert(y0 + h <= (y0 + h) * row_size) by (nonlinear_arith)
                    requires
                        1 <= row_size,
                        0 <= y0 + h,
                ;
                assert((y0 + row) * row_size <= (y0 + row + 1) * row_size) by (nonlinear_arith)
                    requires
                        0 <= y0 + row,
                        0 <= row_size,
                ;
            }
            let t = (y0 + row) * row_size + x0 + col * 4;
            let ghost pre = texture@;
            texture[t] = cr;
            texture[t + 1] = cg;
            texture[t + 2] = cb;
            texture[t + 3] = alpha;
            proof {
                let gw = w as int;
                let grow = row as int;
                let gcol = col as int;
                assert(mask@[grow * gw * 4 + gcol * 4] == cr && mask@[grow * gw * 4 + gcol * 4
                    + 1] == cg && mask@[grow * gw * 4 + gcol * 4 + 2] == cb) by {
                    assert(grow * gw * 4 == grow * 4 * gw) by (nonlinear_arith);
                }
                assert(t as int == blit_target(rs, gx0, gy0, grow, gcol, 0));
                assert forall|c: int| 0 <= c < 4 implies texture@[blit_target(
                    rs,
                    gx0,
                    gy0,
                    grow,
                    gcol,
                    c,
                )] == blit_src(mask@, gw, grow, gcol, c) by {
                    assert(blit_target(rs, gx0, gy0, grow, gcol, c) == t + c);
                }
                assert forall|r2: int, c2: int, c: int|
                    0 <= r2 < grow + 1 && 0 <= c2 < gw && 0 <= c < 4 && !(r2 == grow && c2
                        == gcol) implies texture@[blit_target(rs, gx0, gy0, r2, c2, c)]
                    == pre[blit_target(rs, gx0, gy0, r2, c2, c)] by {
                    assert(0 <= (gy0 + r2) * rs) by (nonlinear_arith)
                        requires
                            0 <= gy0 + r2,
                            0 <= rs,
                    ;
                    assert((gy0 + r2) * rs + rs == (gy0 + r2 + 1) * rs) by (nonlinear_arith);
                    assert((gy0 + r2 + 1) * rs <= (gy0 + h as int) * rs) by (nonlinear_arith)
                        requires
                            gy0 + r2 + 1 <= gy0 + h as int,
                            0 <= rs,
                    ;
                    assert(blit_target(rs, gx0, gy0, r2, c2, c) < texture@.len());
                    lemma_blit_target_injective(rs, gx0, gy0, gw, r2, c2, c, grow, gcol, 0);
                    lemma_blit_target_injective(rs, gx0, gy0, gw, r2, c2, c, grow, gcol, 1);
                    lemma_blit_target_injective(rs, gx0, gy0, gw, r2, c2, c, grow, gcol, 2);
                    lemma_blit_target_injective(rs, gx0, gy0, gw, r2, c2, c, grow, gcol, 3);
                    assert(t as int == blit_target(rs, gx0, gy0, grow, gcol, 0));
                    assert(t + 1 == blit_target(rs, gx0, gy0, grow, gcol, 1));
                    assert(t + 2 == blit_target(rs, gx0, gy0, grow, gcol, 2));
                    assert(t + 3 == blit_target(rs, gx0, gy0, grow, gcol, 3));
                }
                assert forall|i: int|
                    0 <= i < texture@.len() && !in_blit(rs, gx0, gy0, gw, h as int, i) implies
                    texture@[i] == old(texture)@[i] by {
                    if i == t || i == t + 1 || i == t + 2 || i == t + 3 {
                        let ch = i - t;
                        assert(i == blit_target(rs, gx0, gy0, grow, gcol, ch));
                        assert(in_blit(rs, gx0, gy0, gw, h as int, i));
                    }
                    assert(texture@[i] == pre[i]);
                }
            }
            col = col + 1;
        }
        row = row + 1;
    }
}

impl GlyphCache {
    /// An empty atlas cache over a texture of `texture_row_size` bytes
    /// per row and `texture_rows` rows. Capacity must be provisioned
    /// generously up front: allocation failure later is fatal.
    pub fn new(texture_row_size: usize, texture_rows: usize) -> (r: GlyphCache)
        requires
            1 <= texture_row_size <= 0xffff,
            1 <= texture_rows <= 0xffff,
            texture_row_size * texture_rows <= 0x7fffffff,
        ensures
            atlas_wf(r@),
            r@.row_size == texture_row_size,
            r@.rows == texture_rows,
            r@.entries.len() == 0,
            r@.dirty == false,
            r@.raster_calls == 0,
    {
        let texture: Vec<u8> = vec![0u8; texture_row_size * texture_rows];
        let r = GlyphCache {
            texture_row_size,
            texture_rows,
            atlas: atlas_new(texture_row_size as i32, texture_rows as i32),
            texture,
            texture_data_dirty: false,
            rasterizer: Rasterizer::new(),
            glyph_map: Vec::new(),
        };
        proof {
            assert(r@.entries =~= Seq::<(KeyV, GlyphEntryV)>::empty());
            assert(r@.dims == (r@.row_size, r@.rows)) by {
                assert(atlas_dims(r.atlas).0 == texture_row_size as int);
                assert(atlas_dims(r.atlas).1 == texture_rows as int);
            }
        }
        r
    }

    /// How many rasterizations the cache holds.
    pub fn cached_count(&self) -> (r: usize)
        ensures
            r == self@.entries.len(),
    {
        proof {
            assert(self@.entries.len() == self.glyph_map@.len());
        }
        self.glyph_map.len()
    }

    /// How many times the rasterizer has run.
    pub fn rasterizer_calls(&self) -> (r: u64)
        ensures
            r == self@.raster_calls,
    {
        self.rasterizer.calls
    }

    fn lookup_key(&self, key: &GlyphCacheKey) -> (r: Option<usize>)
        ensures
            match r {
                Some(p) => key_position(self@.entries, key@) == Some(p as int),
                None => key_position(self@.entries, key@) is None,
            },
    {
        let mut i: usize = 0;
        let n = self.glyph_map.len();
        proof {
            assert(self@.entries.len() == self.glyph_map@.len());
        }
        while i < n
            invariant
                i <= n,
                n == self@.entries.len(),
                n == self.glyph_map@.len(),
                self@.entries == self.glyph_map@.map_values(
                    |e: (GlyphCacheKey, GlyphEntry)| (e.0@, e.1@),
                ),
                key_position(self@.entries, key@) == key_position_from(
                    self@.entries,
                    key@,
                    i as int,
                ),
            decreases n - i,
        {
            proof {
                assert(self@.entries[i as int] == (
                    self.glyph_map@[i as int].0@,
                    self.glyph_map@[i as int].1@,
                ));
            }
            if key_eq(&self.glyph_map[i].0, key) {
                return Some(i);
            }
            i = i + 1;
        }
        None
    }

    /// Inserts one rasterization that is not yet cached: asks the packer
    /// for a rectangle four bytes wide per mask pixel, blits the repacked
    /// coverage at its corner, marks the texture dirty, and records the
    /// entry. A failed allocation is `AtlasExhausted` and changes
    /// nothing — there is no eviction.
    pub fn insert_mask(&mut self, key: GlyphCacheKey, placement: Placement, mask: &Vec<u8>) -> (r:
        Result<(Placement, GlyphUvBounds), FontError>)
        requires
            atlas_wf(old(self)@),
            key_position(old(self)@.entries, key@) is None,
            mask@.len() == 4 * placement.width * placement.height,
        ensures
            atlas_wf(final(self)@),
            final(self)@.raster_calls == old(self)@.raster_calls,
            final(self)@.row_size == old(self)@.row_size,
            final(self)@.rows == old(self)@.rows,
            final(self)@.dims == old(self)@.dims,
            match r {
                Ok(out) => {
                    let e = final(self)@.entries.last();
                    &&& final(self)@.entries.len() == old(self)@.entries.len() + 1
                    &&& final(self)@.entries.take(old(self)@.entries.len() as int) == old(
                        self,
                    )@.entries
                    &&& e.0 == key@
                    &&& e.1.placement == placement
                    &&& out == (placement, uv_of(e.1))
                    &&& final(self)@.dirty == true
                    &&& final(self)@.texture.len() == old(self)@.texture.len()
                    &&& (placement.width > 0 && placement.height > 0 ==> forall|
                        row: int,
                        col: int,
                        c: int,
                    |
                        0 <= row < placement.height && 0 <= col < placement.width && 0 <= c < 4
                            ==> final(self)@.texture[blit_target(
                            old(self)@.row_size,
                            e.1.rect.0,
                            e.1.rect.1,
                            row,
                            col,
                            c,
                        )] == blit_src(mask@, placement.width as int, row, col, c))
                },
                Err(err) => err == FontError::AtlasExhausted && final(self)@ == old(self)@,
            },
    {
        let ghost v0 = self@;
        if placement.width == 0 || placement.height == 0 || placement.width > 0xffff
            || placement.height > 0xffff {
            let r = atlas_allocate(&mut self.atlas, 0, 0);
            proof {
                assert(r is None);
                assert(self@ =~= v0);
            }
            return Err(FontError::AtlasExhausted);
        }
        let aw: i32 = (placement.width * 4) as i32;
        let ah: i32 = placement.height as i32;
        let alloc = match atlas_allocate(&mut self.atlas, aw, ah) {
            Some(a) => a,
            None => {
                proof {
                    assert(self@ =~= v0);
                }
                return Err(FontError::AtlasExhausted);
            },
        };
        let (alloc_id, x0, y0, x1, y1) = alloc;
        proof {
            assert(self@.rects == v0.rects.insert(
                alloc_id,
                (x0 as int, y0 as int, x1 as int, y1 as int),
            ));
            assert(x0 as int + 4 * (placement.width as int) <= x1 as int);
            assert(y1 as int <= v0.rows);
            assert((y0 as int + placement.height as int) <= y1 as int);
            assert((y0 + placement.height) as int * v0.row_size <= v0.rows * v0.row_size)
                by (nonlinear_arith)
                requires
                    (y0 + placement.height) as int <= v0.rows,
                    0 <= v0.row_size,
            ;
            assert(v0.texture.len() == v0.row_size * v0.rows);
            assert(v0.rows * v0.row_size == v0.row_size * v0.rows) by (nonlinear_arith);
        }
        blit(
            &mut self.texture,
            self.texture_row_size,
            x0 as usize,
            y0 as usize,
            placement.width as usize,
            placement.height as usize,
            mask,
        );
        self.texture_data_dirty = true;
        let entry = GlyphEntry { alloc_id, x0, y0, x1, y1, placement };
        let uv = GlyphUvBounds {
            min_xq: x0,
            min_y: y0,
            width: placement.width,
            height: placement.height,
        };
        let ghost prev_map = self.glyph_map@;
        self.glyph_map.push((key, entry));
        proof {
            lemma_key_position_from(v0.entries, self.glyph_map@[prev_map.len() as int].0@, 0);
            assert(self@.entries =~= v0.entries.push((
                self.glyph_map@[prev_map.len() as int].0@,
                entry@,
            )));
            assert(self@.entries.take(v0.entries.len() as int) =~= v0.entries);
            let n = v0.entries.len() as int;
            assert forall|i: int, j: int| 0 <= i < j < self@.entries.len() implies (
            #[trigger] self@.entries[i]).0 != (#[trigger] self@.entries[j]).0 && self@.entries[
                i
            ].1.alloc_id != self@.entries[j].1.alloc_id && rects_disjoint(
                self@.entries[i].1.rect,
                self@.entries[j].1.rect,
            ) by {
                if j == n {
                    assert(v0.rects.dom().contains(v0.entries[i].1.alloc_id));
                    assert(v0.rects[v0.entries[i].1.alloc_id] == v0.entries[i].1.rect);
                }
            }
            assert forall|i: int| 0 <= i < self@.entries.len() implies {
                let e = (#[trigger] self@.entries[i]).1;
                &&& self@.rects.dom().contains(e.alloc_id)
                &&& self@.rects[e.alloc_id] == e.rect
                &&& 0 <= e.rect.0 < e.rect.2 <= self@.row_size
                &&& 0 <= e.rect.1 < e.rect.3 <= self@.rows
                &&& e.rect.2 - e.rect.0 >= 4 * e.placement.width
                &&& e.rect.3 - e.rect.1 >= e.placement.height
            } by {
                if i < n {
                    assert(self@.entries[i] == v0.entries[i]);
                    assert(v0.rects.dom().contains(v0.entries[i].1.alloc_id));
                    assert(self@.rects[v0.entries[i].1.alloc_id] == v0.rects[v0.entries[
                        i
                    ].1.alloc_id]);
                }
            }
        }
        Ok((placement, uv))
    }

    /// Returns the cached placement and texture bounds for the key, or
    /// inserts them from the supplied rasterization. A hit does zero
    /// rasterization and allocation work and changes nothing: the same
    /// key always answers with bit-identical placement and bounds.
    pub fn get_or_insert_mask(
        &mut self,
        key: GlyphCacheKey,
        placement: Placement,
        mask: &Vec<u8>,
    ) -> (r: Result<(Placement, GlyphUvBounds), FontError>)
        requires
            atlas_wf(old(self)@),
            mask@.len() == 4 * placement.width * placement.height,
        ensures
            atlas_wf(final(self)@),
            final(self)@.raster_calls == old(self)@.raster_calls,
            final(self)@.row_size == old(self)@.row_size,
            final(self)@.rows == old(self)@.rows,
            final(self)@.dims == old(self)@.dims,
            match key_position(old(self)@.entries, key@) {
                Some(p) => {
                    &&& final(self)@ == old(self)@
                    &&& r == Ok::<_, FontError>((
                        old(self)@.entries[p].1.placement,
                        uv_of(old(self)@.entries[p].1),
                    ))
                },
                None => match r {
                    Ok(out) => {
                        let e = final(self)@.entries.last();
                        &&& final(self)@.entries.len() == old(self)@.entries.len() + 1
                        &&& final(self)@.entries.take(old(self)@.entries.len() as int) == old(
                            self,
                        )@.entries
                        &&& e.0 == key@
                        &&& e.1.placement == placement
                        &&& out == (placement, uv_of(e.1))
                        &&& final(self)@.dirty == true
                    },
                    Err(err) => err == FontError::AtlasExhausted && final(self)@ == old(
                        self,
                    )@,
                },
            },
    {
        match self.lookup_key(&key) {
            Some(p) => {
                proof {
                    lemma_key_position_from(self@.entries, key@, 0);
                    assert(self@.entries[p as int] == (
                        self.glyph_map@[p as int].0@,
                        self.glyph_map@[p as int].1@,
                    ));
                }
                let e = &self.glyph_map[p].1;
                Ok((
                    e.placement,
                    GlyphUvBounds {
                        min_xq: e.x0,
                        min_y: e.y0,
                        width: e.placement.width,
                        height: e.placement.height,
                    },
                ))
            },
            None => self.insert_mask(key, placement, mask),
        }
    }

    /// Resolves one glyph to its placement and texture bounds. A cached
    /// key is answered at once, with no rasterizer call; a new key is
    /// rasterized — exactly one rasterizer invocation — packed, blitted,
    /// and cached.
    pub fn get_glyph_texture_bounds(
        &mut self,
        cache: &FontCache,
        font: &FontRef,
        glyph_id: u32,
        ppem: u16,
        coords: Vec<i16>,
    ) -> (r: Result<(Placement, GlyphUvBounds), FontError>)
        requires
            crate::cache::wf(cache@),
            font.cache_index < cache@.entries.len(),
            atlas_wf(old(self)@),
        ensures
            atlas_wf(final(self)@),
            final(self)@.row_size == old(self)@.row_size,
            final(self)@.rows == old(self)@.rows,
            final(self)@.dims == old(self)@.dims,
            ({
                let keyv = KeyV {
                    font_cache_index: font.cache_index as int,
                    glyph_id,
                    ppem,
                    coords: coords@,
                };
                match key_position(old(self)@.entries, keyv) {
                    Some(p) => {
                        &&& final(self)@ == old(self)@
                        &&& final(self)@.raster_calls == old(self)@.raster_calls
                        &&& r == Ok::<_, FontError>((
                            old(self)@.entries[p].1.placement,
                            uv_of(old(self)@.entries[p].1),
                        ))
                    },
                    None => {
                        &&& final(self)@.raster_calls == (if old(self)@.raster_calls
                            < u64::MAX {
                            old(self)@.raster_calls + 1
                        } else {
                            old(self)@.raster_calls as int
                        })
                        &&& match crate::raster::hinted_outline_of(
                            cache@.arena[cache@.entries[font.cache_index as int].arena_index],
                            cache@.entries[font.cache_index as int].rec.face_index,
                            glyph_id as int,
                            ppem as int,
                            coords@,
                        ) {
                            None => {
                                &&& r matches Err(FontError::GlyphNotFound { glyph_id: g })
                                &&& r matches Err(FontError::GlyphNotFound { glyph_id: g }) ==> g
                                    == glyph_id
                                &&& final(self)@.entries == old(self)@.entries
                                &&& final(self)@.texture == old(self)@.texture
                                &&& final(self)@.dirty == old(self)@.dirty
                            },
                            Some(outline) => {
                                let m = crate::raster::subpixel_mask_of(outline);
                                if crate::raster::mask_too_large(outline) {
                                    &&& r matches Err(FontError::GlyphNotFound { glyph_id: g })
                                    &&& r matches Err(FontError::GlyphNotFound { glyph_id: g })
                                        ==> g == glyph_id
                                    &&& final(self)@.entries == old(self)@.entries
                                    &&& final(self)@.texture == old(self)@.texture
                                    &&& final(self)@.dirty == old(self)@.dirty
                                } else {
                                    match r {
                                        Ok(out) => {
                                            let e = final(self)@.entries.last();
                                            &&& final(self)@.entries.len() == old(
                                                self,
                                            )@.entries.len() + 1
                                            &&& final(self)@.entries.take(
                                                old(self)@.entries.len() as int,
                                            ) == old(self)@.entries
                                            &&& e.0 == keyv
                                            &&& e.1.placement == (Placement {
                                                left: m.0,
                                                top: m.1,
                                                width: m.2,
                                                height: m.3,
                                            })
                                            &&& out == (e.1.placement, uv_of(e.1))
                                            &&& final(self)@.dirty == true
                                            &&& final(self)@.texture.len() == old(
                                                self,
                                            )@.texture.len()
                                            &&& (m.2 > 0 && m.3 > 0 ==> forall|
                                                row: int,
                                                col: int,
                                                c: int,
                                            |
                                                0 <= row < m.3 && 0 <= col < m.2 && 0 <= c < 4
                                                    ==> final(self)@.texture[blit_target(
                                                    old(self)@.row_size,
                                                    e.1.rect.0,
                                                    e.1.rect.1,
                                                    row,
                                                    col,
                                                    c,
                                                )] == blit_src(m.4, m.2 as int, row, col, c))
                                        },
                                        Err(err) => {
                                            &&& err == FontError::AtlasExhausted
                                            &&& final(self)@.entries == old(self)@.entries
                                            &&& final(self)@.texture == old(self)@.texture
                                            &&& final(self)@.dirty == old(self)@.dirty
                                        },
                                    }
                                }
                            },
                        }
                    },
                }
            }),
    {
        let key = GlyphCacheKey { font_cache_index: font.cache_index, glyph_id, ppem, coords };
        match self.lookup_key(&key) {
            Some(p) => {
                proof {
                    lemma_key_position_from(self@.entries, key@, 0);
                    assert(self@.entries[p as int] == (
                        self.glyph_map@[p as int].0@,
                        self.glyph_map@[p as int].1@,
                    ));
                }
                let e = &self.glyph_map[p].1;
                Ok((
                    e.placement,
                    GlyphUvBounds {
                        min_xq: e.x0,
                        min_y: e.y0,
                        width: e.placement.width,
                        height: e.placement.height,
                    },
                ))
            },
            None => {
                let data = cache.face_data(font);
                let face_index = font.face_index(cache);
                match self.rasterizer.render_mask(
                    data.as_slice(),
                    face_index,
                    glyph_id,
                    ppem,
                    &key.coords,
                ) {
                    None => Err(FontError::GlyphNotFound { glyph_id }),
                    Some((placement, mask)) => self.insert_mask(key, placement, &mask),
                }
            },
        }
    }

    /// Hands out the whole texture for a GPU upload when anything changed
    /// since the last hand-out, clearing the dirty flag; nothing when the
    /// texture is clean. The caller uploads the full buffer.
    pub fn queue_write_texture_if_changed(&mut self) -> (r: Option<&Vec<u8>>)
        ensures
            final(self)@.dirty == false,
            final(self)@.entries == old(self)@.entries,
            final(self)@.texture == old(self)@.texture,
            final(self)@.raster_calls == old(self)@.raster_calls,
            final(self)@.rects == old(self)@.rects,
            final(self)@.row_size == old(self)@.row_size,
            final(self)@.rows == old(self)@.rows,
            final(self)@.dims == old(self)@.dims,
            match r {
                Some(t) => old(self)@.dirty && t@ == old(self)@.texture,
                None => !old(self)@.dirty,
            },
    {
        if self.texture_data_dirty {
            self.texture_data_dirty = false;
            Some(&self.texture)
        } else {
            None
        }
    }
}

} // verus!
