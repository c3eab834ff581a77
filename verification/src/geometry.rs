//! Renderable quad geometry for cached glyphs.
//!
//! Geometry emission is stateless: four vertices and six indices per
//! glyph, two triangles wound as 0,1,2 and 2,3,0. Positions and texture
//! coordinates are integer pixel units — quarter-pixel (byte) columns
//! horizontally for texture coordinates — and the consuming GPU layer maps
//! them to its own normalized spaces.

use vstd::prelude::*;

use crate::atlas::{GlyphCache, GlyphUvBounds};

verus! {

/// One glyph-quad vertex: the caret it hangs from, its pixel offset from
/// the caret, and its texture coordinate.
#[derive(Debug, Clone, Copy, PartialEq, Eq, Structural)]
pub struct GlyphVertex {
    pub caret_x: i32,
    pub caret_y: i32,
    pub offset_x: i32,
    pub offset_y: i32,
    pub tex_xq: i32,
    pub tex_y: i32,
}

/// What one glyph draws with: its pixel box — anchored at the origin,
/// as wide and tall as its rasterization — and its texture bounds.
#[derive(Debug, Clone, Copy, PartialEq, Eq, Structural)]
pub struct RenderGlyphData {
    pub width: u32,
    pub height: u32,
    pub uv: GlyphUvBounds,
}

/// The texture bounds fit the coordinate space and the pixel box is the
/// bounds' own size.
pub open spec fn render_glyph_valid(g: RenderGlyphData) -> bool {
    &&& g.width == g.uv.width
    &&& g.height == g.uv.height
    &&& 0 <= g.uv.min_xq
    &&& 0 <= g.uv.min_y
    &&& g.uv.min_xq + 4 * g.uv.width <= i32::MAX
    &&& g.uv.min_y + g.uv.height <= i32::MAX
}

/// The four corners of one glyph quad: top-left, bottom-left,
/// bottom-right, top-right, with the glyph's top edge `height` above the
/// caret, matching the bottom-left rasterization origin.
pub open spec fn quad_vertices(g: RenderGlyphData, caret_x: i32, caret_y: i32) -> Seq<
    GlyphVertex,
> {
    seq![
        GlyphVertex {
            caret_x,
            caret_y,
            offset_x: 0,
            offset_y: g.height as i32,
            tex_xq: g.uv.min_xq,
            tex_y: g.uv.min_y,
        },
        GlyphVertex {
            caret_x,
            caret_y,
            offset_x: 0,
            offset_y: 0,
            tex_xq: g.uv.min_xq,
            tex_y: (g.uv.min_y + g.uv.height) as i32,
        },
        GlyphVertex {
            caret_x,
            caret_y,
            offset_x: g.width as i32,
            offset_y: 0,
            tex_xq: (g.uv.min_xq + 4 * g.uv.width) as i32,
            tex_y: (g.uv.min_y + g.uv.height) as i32,
        },
        GlyphVertex {
            caret_x,
            caret_y,
            offset_x: g.width as i32,
            offset_y: g.height as i32,
            tex_xq: (g.uv.min_xq + 4 * g.uv.width) as i32,
            tex_y: g.uv.min_y,
        },
    ]
}

/// The six indices of one quad's two triangles, from a base vertex.
pub open spec fn quad_indices(base: u16) -> Seq<u16> {
    seq![
        base,
        (base + 1) as u16,
        (base + 2) as u16,
        (base + 2) as u16,
        (base + 3) as u16,
        base,
    ]
}

impl RenderGlyphData {
    /// Draw data for one cached glyph, from its texture bounds.
    pub fn from_uv_bounds(uv: GlyphUvBounds) -> (r: RenderGlyphData)
        ensures
            r == (RenderGlyphData { width: uv.width, height: uv.height, uv }),
    {
        RenderGlyphData { width: uv.width, height: uv.height, uv }
    }

    /// This glyph's four vertices at the caret and its six indices.
    pub fn to_indexed_vertices(&self, caret_x: i32, caret_y: i32) -> (r: (
        Vec<GlyphVertex>,
        Vec<u16>,
    ))
        requires
            render_glyph_valid(*self),
        ensures
            r.0@ == quad_vertices(*self, caret_x, caret_y),
            r.1@ == quad_indices(0),
    {
        let mut vertices: Vec<GlyphVertex> = Vec::new();
        vertices.push(
            GlyphVertex {
                caret_x,
                caret_y,
                offset_x: 0,
                offset_y: self.height as i32,
                tex_xq: self.uv.min_xq,
                tex_y: self.uv.min_y,
            },
        );
        vertices.push(
            GlyphVertex {
                caret_x,
                caret_y,
                offset_x: 0,
                offset_y: 0,
                tex_xq: self.uv.min_xq,
                tex_y: self.uv.min_y + self.uv.height as i32,
            },
        );
        vertices.push(
            GlyphVertex {
                caret_x,
                caret_y,
                offset_x: self.width as i32,
                offset_y: 0,
                tex_xq: self.uv.min_xq + 4 * (self.uv.width as i32),
                tex_y: self.uv.min_y + self.uv.height as i32,
            },
        );
        vertices.push(
            GlyphVertex {
                caret_x,
                caret_y,
                offset_x: self.width as i32,
                offset_y: self.height as i32,
                tex_xq: self.uv.min_xq + 4 * (self.uv.width as i32),
                tex_y: self.uv.min_y,
            },
        );
        let mut indices: Vec<u16> = Vec::new();
        indices.push(0);
        indices.push(1);
        indices.push(2);
        indices.push(2);
        indices.push(3);
        indices.push(0);
        proof {
            assert(vertices@ =~= quad_vertices(*self, caret_x, caret_y));
            assert(indices@ =~= quad_indices(0));
        }
        (vertices, indices)
    }
}

impl GlyphCache {
    /// Appends one glyph's quad to the frame's buffers: four vertices and
    /// six indices rebased onto the vertices already there. Stateless:
    /// no lookup, no rasterization.
    pub fn prepare_draw_for_glyph(
        &self,
        vertices: &mut Vec<GlyphVertex>,
        indices: &mut Vec<u16>,
        glyph: RenderGlyphData,
        caret_x: i32,
        caret_y: i32,
    )
        requires
            render_glyph_valid(glyph),
            old(vertices)@.len() + 4 <= u16::MAX,
        ensures
            final(vertices)@ == old(vertices)@ + quad_vertices(glyph, caret_x, caret_y),
            final(indices)@ == old(indices)@ + quad_indices(old(vertices)@.len() as u16),
    {
        let base = vertices.len() as u16;
        let (vs, is) = glyph.to_indexed_vertices(caret_x, caret_y);
        let mut k: usize = 0;
        while k < vs.len()
            invariant
                k <= vs@.len(),
                vs@ == quad_vertices(glyph, caret_x, caret_y),
                vertices@ == old(vertices)@ + vs@.take(k as int),
            decreases vs@.len() - k,
        {
            vertices.push(vs[k]);
            proof {
                assert(vs@.take(k + 1) =~= vs@.take(k as int).push(vs@[k as int]));
                assert(vertices@ =~= old(vertices)@ + vs@.take(k + 1));
            }
            k = k + 1;
        }
        proof {
            assert(vs@.take(vs@.len() as int) =~= vs@);
        }
        let mut j: usize = 0;
        while j < is.len()
            invariant
                j <= is@.len(),
                is@ == quad_indices(0),
                base + 4 <= u16::MAX,
                forall|q: int| 0 <= q < is@.len() ==> is@[q] <= 3,
                indices@ =~= old(indices)@ + quad_indices(base).take(j as int),
            decreases is@.len() - j,
        {
            proof {
                assert(quad_indices(base)[j as int] == (is@[j as int] + base) as u16);
            }
            indices.push(is[j] + base);
            proof {
                assert(quad_indices(base).take(j + 1) =~= quad_indices(base).take(
                    j as int,
                ).push(quad_indices(base)[j as int]));
                assert(indices@ =~= old(indices)@ + quad_indices(base).take(j + 1));
            }
            j = j + 1;
        }
        proof {
            assert(quad_indices(base).take(quad_indices(base).len() as int) =~= quad_indices(
                base,
            ));
            assert(final(indices)@ =~= old(indices)@ + quad_indices(old(vertices)@.len() as u16));
        }
    }
}

/// Accumulates one frame's glyph geometry for the consuming GPU layer.
pub struct Renderer {
    pub vertices: Vec<GlyphVertex>,
    pub indices: Vec<u16>,
}

impl Renderer {
    /// Empty frame buffers.
    pub fn init() -> (r: Renderer)
        ensures
            r.vertices@.len() == 0,
            r.indices@.len() == 0,
    {
        Renderer { vertices: Vec::new(), indices: Vec::new() }
    }

    /// Builds one frame's geometry: the buffers are cleared and every
    /// glyph's quad appended in order, each rebased onto the vertices
    /// before it.
    pub fn render_frame(&mut self, cache: &GlyphCache, glyphs: &Vec<(RenderGlyphData, i32, i32)>)
        requires
            glyphs@.len() <= 16000,
            forall|k: int|
                0 <= k < glyphs@.len() ==> render_glyph_valid((#[trigger] glyphs@[k]).0),
        ensures
            final(self).vertices@.len() == 4 * glyphs@.len(),
            final(self).indices@.len() == 6 * glyphs@.len(),
            forall|k: int|
                0 <= k < glyphs@.len() ==> final(self).vertices@.subrange(4 * k, 4 * k + 4)
                    == quad_vertices(
                    (#[trigger] glyphs@[k]).0,
                    glyphs@[k].1,
                    glyphs@[k].2,
                ),
            forall|k: int|
                0 <= k < glyphs@.len() ==> #[trigger] final(self).indices@.subrange(
                    6 * k,
                    6 * k + 6,
                ) == quad_indices((4 * k) as u16),
    {
        self.vertices.clear();
        self.indices.clear();
        let mut k: usize = 0;
        let n = glyphs.len();
        while k < n
            invariant
                k <= n,
                n == glyphs@.len(),
                n <= 16000,
                forall|q: int|
                    0 <= q < glyphs@.len() ==> render_glyph_valid((#[trigger] glyphs@[q]).0),
                self.vertices@.len() == 4 * k,
                self.indices@.len() == 6 * k,
                forall|q: int|
                    0 <= q < k ==> self.vertices@.subrange(4 * q, 4 * q + 4) == quad_vertices(
                        (#[trigger] glyphs@[q]).0,
                        glyphs@[q].1,
                        glyphs@[q].2,
                    ),
                forall|q: int|
                    0 <= q < k ==> #[trigger] self.indices@.subrange(6 * q, 6 * q + 6)
                        == quad_indices((4 * q) as u16),
            decreases n - k,
        {
            let ghost vs0 = self.vertices@;
            let ghost is0 = self.indices@;
            let (g, cx, cy) = glyphs[k];
            cache.prepare_draw_for_glyph(&mut self.vertices, &mut self.indices, g, cx, cy);
            proof {
                assert forall|q: int| 0 <= q < k + 1 implies self.vertices@.subrange(
                    4 * q,
                    4 * q + 4,
                ) == quad_vertices((#[trigger] glyphs@[q]).0, glyphs@[q].1, glyphs@[q].2) by {
                    if q < k {
                        assert(self.vertices@.subrange(4 * q, 4 * q + 4) =~= vs0.subrange(
                            4 * q,
                            4 * q + 4,
                        ));
                    } else {
                        assert(self.vertices@.subrange(4 * q, 4 * q + 4) =~= quad_vertices(
                            glyphs@[q].0,
                            glyphs@[q].1,
                            glyphs@[q].2,
                        ));
                    }
                }
                assert forall|q: int| 0 <= q < k + 1 implies #[trigger] self.indices@.subrange(
                    6 * q,
                    6 * q + 6,
                ) == quad_indices((4 * q) as u16) by {
                    if q < k {
                        assert(self.indices@.subrange(6 * q, 6 * q + 6) =~= is0.subrange(
                            6 * q,
                            6 * q + 6,
                        ));
                    } else {
                        assert(self.indices@.subrange(6 * q, 6 * q + 6) =~= quad_indices(
                            (4 * q) as u16,
                        ));
                    }
                }
            }
            k = k + 1;
        }
    }
}

} // verus!
