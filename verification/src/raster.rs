//! Rendering one glyph outline to a subpixel coverage mask.
//!
//! The outline is hinted and drawn by `skrifa`, then scan-converted by
//! `zeno` from a bottom-left origin — the same convention the atlas and
//! its texture coordinates use downstream. Both results are functions of
//! their inputs alone and bear names; the rasterizer counts every
//! invocation so the cache above it can show it rasterizes each glyph at
//! most once.

use vstd::prelude::*;

use skrifa::instance::{LocationRef, Size};
use skrifa::outline::pen::SvgPen;
use skrifa::outline::{DrawSettings, Engine, HintingInstance, HintingOptions, SmoothMode, Target};
use skrifa::raw::types::F2Dot14;
use skrifa::GlyphId;
use skrifa::MetadataProvider;

verus! {

/// Placement of a rendered mask: offsets from the origin and its size in
/// pixels.
#[derive(Debug, Clone, Copy, PartialEq, Eq, Structural)]
pub struct Placement {
    pub left: i32,
    pub top: i32,
    pub width: u32,
    pub height: u32,
}

/// The glyph's outline, hinted for the size and coordinates, as SVG path
/// text; nothing for an unreadable face, an absent glyph, or a failed
/// draw.
pub uninterp spec fn hinted_outline_of(
    data: Seq<u8>,
    face_index: int,
    glyph_id: int,
    ppem: int,
    coords: Seq<i16>,
) -> Option<Seq<char>>;

/// Relies on `skrifa`'s hinting instance and outline drawing: the glyph
/// drawn through smooth LCD hinting into SVG path text.
#[verifier::external_body]
fn read_hinted_outline(
    data: &[u8],
    face_index: u32,
    glyph_id: u32,
    ppem: u16,
    coords: &Vec<i16>,
) -> (r: Option<String>)
    ensures
        match r {
            Some(s) => hinted_outline_of(
                data@,
                face_index as int,
                glyph_id as int,
                ppem as int,
                coords@,
            ) == Some(s@),
            None => hinted_outline_of(
                data@,
                face_index as int,
                glyph_id as int,
                ppem as int,
                coords@,
            ) is None,
        },
{
    let f = skrifa::FontRef::from_index(data, face_index).ok()?;
    let o = f.outline_glyphs();
    let g = o.get(GlyphId::new(glyph_id))?;
    let n: Vec<F2Dot14> = coords.iter().map(|c| F2Dot14::from_bits(*c)).collect();
    let t = Target::Smooth { mode: SmoothMode::Lcd, symmetric_rendering: false, preserve_linear_metrics: true };
    let opts = HintingOptions { engine: Engine::AutoFallback, target: t };
    let h = HintingInstance::new(&o, Size::new(ppem.into()), LocationRef::new(&n), opts).ok()?;
    let mut p = SvgPen::new();
    g.draw(DrawSettings::hinted(&h, true), &mut p).ok()?;
    Some(String::from(p))
}

/// What scan-converting the path yields: left and top offsets, pixel
/// width and height, and the coverage buffer.
pub uninterp spec fn subpixel_mask_of(path: Seq<char>) -> (i32, i32, u32, u32, Seq<u8>);

/// Relies on `zeno`'s mask size inspection: the mask's pixel width and
/// height for the path, computed from its bounds without rendering, so a
/// caller can test the byte budget before asking for the buffer.
#[verifier::external_body]
fn probe_mask_size(path: &str) -> (r: (u32, u32))
    ensures
        r.0 == subpixel_mask_of(path@).2,
        r.1 == subpixel_mask_of(path@).3,
{
    let mut w: u32 = 0;
    let mut h: u32 = 0;
    zeno::Mask::new(path).origin(zeno::Origin::BottomLeft).format(zeno::Format::Subpixel).inspect(
        |_, iw, ih| {
            w = iw;
            h = ih;
        },
    );
    (w, h)
}

/// Relies on `zeno`'s mask rendering: the SVG path scan-converted from a
/// bottom-left origin into subpixel coverage. The buffer holds four
/// bytes per pixel of the reported size; the renderer sizes that buffer
/// in 32-bit arithmetic, so the mask's byte count must fit it.
#[verifier::external_body]
fn render_svg_mask(path: &str) -> (r: (i32, i32, u32, u32, Vec<u8>))
    requires
        4 * (subpixel_mask_of(path@).2 as int) * (subpixel_mask_of(path@).3 as int)
            <= u32::MAX,
    ensures
        subpixel_mask_of(path@) == (r.0, r.1, r.2, r.3, r.4@),
        r.4@.len() == 4 * (r.2 as int) * (r.3 as int),
{
    let (buf, p) = zeno::Mask::new(path).origin(zeno::Origin::BottomLeft).format(
        zeno::Format::Subpixel,
    ).render();
    (p.left, p.top, p.width, p.height, buf)
}

/// Draws glyph outlines into subpixel coverage masks, counting every
/// rendering it performs.
pub struct Rasterizer {
    pub calls: u64,
}

impl Rasterizer {
    pub fn new() -> (r: Rasterizer)
        ensures
            r.calls == 0,
    {
        Rasterizer { calls: 0 }
    }

    /// Renders one glyph at one size and location: the hinted outline
    /// scan-converted into a subpixel mask with its placement. Every
    /// call counts, whatever its outcome. Nothing comes back where the
    /// glyph has no drawable outline or its mask would not fit the
    /// renderer's 32-bit byte budget, which is tested before rendering.
    pub fn render_mask(
        &mut self,
        data: &[u8],
        face_index: u32,
        glyph_id: u32,
        ppem: u16,
        coords: &Vec<i16>,
    ) -> (r: Option<(Placement, Vec<u8>)>)
        ensures
            final(self).calls == if old(self).calls < u64::MAX {
                old(self).calls + 1
            } else {
                old(self).calls as int
            },
            ({
                let outline = hinted_outline_of(
                    data@,
                    face_index as int,
                    glyph_id as int,
                    ppem as int,
                    coords@,
                );
                match r {
                    None => outline is None || mask_too_large(outline.unwrap()),
                    Some((placement, mask)) => {
                        &&& outline is Some
                        &&& !mask_too_large(outline.unwrap())
                        &&& {
                            let m = subpixel_mask_of(outline.unwrap());
                            &&& placement.left == m.0
                            &&& placement.top == m.1
                            &&& placement.width == m.2
                            &&& placement.height == m.3
                            &&& mask@ == m.4
                            &&& mask@.len() == 4 * (placement.width as int) * (
                            placement.height as int)
                        }
                    },
                }
            }),
    {
        if self.calls < u64::MAX {
            self.calls = self.calls + 1;
        }
        let outline = match read_hinted_outline(data, face_index, glyph_id, ppem, coords) {
            Some(s) => s,
            None => {
                return None;
            },
        };
        let (w, h) = probe_mask_size(outline.as_str());
        proof {
            assert(4u128 * (w as u128) * (h as u128) <= 0x400000000000000000u128)
                by (nonlinear_arith)
                requires
                    (w as u128) <= 0xffffffffu128,
                    (h as u128) <= 0xffffffffu128,
            ;
        }
        let bytes: u128 = 4u128 * (w as u128) * (h as u128);
        if bytes > u32::MAX as u128 {
            return None;
        }
        let (left, top, width, height, mask) = render_svg_mask(outline.as_str());
        Some((Placement { left, top, width, height }, mask))
    }
}

/// The path's mask does not fit the renderer's 32-bit byte budget.
pub open spec fn mask_too_large(path: Seq<char>) -> bool {
    4 * (subpixel_mask_of(path).2 as int) * (subpixel_mask_of(path).3 as int) > u32::MAX
}

} // verus!
