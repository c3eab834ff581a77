//! Tests of quad geometry emission and path classification.

use fontcache::atlas::{GlyphCache, GlyphUvBounds};
use fontcache::geometry::{RenderGlyphData, Renderer};
use fontcache::meta::{FontError, FontFileType};

#[test]
fn quads_are_emitted_with_rebased_indices() {
    let atlas = GlyphCache::new(64, 8);
    let uv = GlyphUvBounds::new(8, 2, 3, 5);
    let glyph = RenderGlyphData::from_uv_bounds(uv);
    let mut vertices = Vec::new();
    let mut indices = Vec::new();
    atlas.prepare_draw_for_glyph(&mut vertices, &mut indices, glyph, 100, 200);
    atlas.prepare_draw_for_glyph(&mut vertices, &mut indices, glyph, 300, 400);
    assert_eq!(vertices.len(), 8);
    assert_eq!(indices, vec![0, 1, 2, 2, 3, 0, 4, 5, 6, 6, 7, 4]);

    // first quad: top-left, bottom-left, bottom-right, top-right
    assert_eq!((vertices[0].caret_x, vertices[0].caret_y), (100, 200));
    assert_eq!((vertices[0].offset_x, vertices[0].offset_y), (0, 5));
    assert_eq!((vertices[0].tex_xq, vertices[0].tex_y), (8, 2));
    assert_eq!((vertices[1].offset_x, vertices[1].offset_y), (0, 0));
    assert_eq!((vertices[1].tex_xq, vertices[1].tex_y), (8, 7));
    assert_eq!((vertices[2].offset_x, vertices[2].offset_y), (3, 0));
    assert_eq!((vertices[2].tex_xq, vertices[2].tex_y), (20, 7));
    assert_eq!((vertices[3].offset_x, vertices[3].offset_y), (3, 5));
    assert_eq!((vertices[3].tex_xq, vertices[3].tex_y), (20, 2));
    assert_eq!((vertices[4].caret_x, vertices[4].caret_y), (300, 400));
}

#[test]
fn renderer_builds_a_whole_frame() {
    let atlas = GlyphCache::new(64, 8);
    let uv = GlyphUvBounds::new(0, 0, 2, 2);
    let glyph = RenderGlyphData::from_uv_bounds(uv);
    let mut frame = Renderer::init();
    frame.render_frame(&atlas, &vec![(glyph, 10, 20), (glyph, 30, 40), (glyph, 50, 60)]);
    assert_eq!(frame.vertices.len(), 12);
    assert_eq!(frame.indices.len(), 18);
    assert_eq!(frame.indices[6], 4);
    assert_eq!(frame.vertices[8].caret_x, 50);
}

#[test]
fn uv_bounds_edges() {
    let uv = GlyphUvBounds::new(12, 3, 5, 7);
    assert_eq!(uv.left(), 12);
    assert_eq!(uv.right(), 32);
    assert_eq!(uv.top(), 3);
    assert_eq!(uv.bottom(), 10);
}

#[test]
fn extension_classification() {
    assert_eq!(FontFileType::from_path(b"a/b/c.ttf"), Ok(FontFileType::Single));
    assert_eq!(FontFileType::from_path(b"C:\\Fonts\\arial.OTF"), Ok(FontFileType::Single));
    assert_eq!(FontFileType::from_path(b"x.TTC"), Ok(FontFileType::Collection));
    assert_eq!(FontFileType::from_path(b"x.otc"), Ok(FontFileType::Collection));
    match FontFileType::from_path(b"noext") {
        Err(FontError::FileExtension { path, extension }) => {
            assert_eq!(path, b"noext".to_vec());
            assert_eq!(extension, None);
        },
        other => panic!("expected FileExtension, got {:?}", other),
    }
    match FontFileType::from_path(b"dir.ttf/file") {
        Err(FontError::FileExtension { extension, .. }) => assert_eq!(extension, None),
        other => panic!("expected FileExtension, got {:?}", other),
    }
    match FontFileType::from_path(b"font.svg") {
        Err(FontError::FileExtension { extension, .. }) => {
            assert_eq!(extension, Some(b"svg".to_vec()))
        },
        other => panic!("expected FileExtension, got {:?}", other),
    }
}
