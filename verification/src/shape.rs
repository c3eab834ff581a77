use vstd::prelude::*;

use harfrust::{Buffer, Direction, Feature, Font, ShapeOptions, ShaperFont};
use skrifa::instance::Location;
use skrifa::raw::types::{Fixed, Tag};
use skrifa::setting::VariationSetting;
use skrifa::MetadataProvider;

use crate::cache::{FontCache, FontRef};

verus! {

#[verifier::external_type_specification]
#[verifier::external_body]
pub struct ExFont(Font);

#[verifier::external_type_specification]
#[verifier::external_body]
pub struct ExBuffer(Buffer);

/// One positioned glyph of a shaped run.
#[derive(Debug, Clone, Copy, PartialEq, Eq, Structural)]
pub struct ShapedGlyph {
    pub glyph_id: u32,
    pub x_advance: i32,
    pub y_advance: i32,
    pub cluster: u32,
}

/// The normalized 2.14 coordinates a face resolves for a variation
/// selection: a named instance's position, or explicit user-space axis
/// values (tag and raw 16.16 bits), or the default location.
pub uninterp spec fn resolved_coords_of(
    data: Seq<u8>,
    face_index: int,
    named_instance: Option<u32>,
    variations: Seq<(u32, i32)>,
) -> Seq<i16>;

/// Relies on `skrifa`'s named instance locations and axis resolution: the
/// normalized coordinates for the selection; empty for an unreadable face
/// or a missing instance.
#[verifier::external_body]
fn resolve_coords(
    data: &[u8],
    face_index: u32,
    named_instance: Option<u32>,
    variations: &Vec<(u32, i32)>,
) -> (r: Vec<i16>)
    ensures
        r@ == resolved_coords_of(data@, face_index as int, named_instance, variations@),
{
    let f = match skrifa::FontRef::from_index(data, face_index) {
        Ok(f) => f,
        Err(_) => return Vec::new(),
    };
    let loc = match named_instance {
        Some(i) => f.named_instances().get(i as usize).map(|n| n.location()).unwrap_or_else(Location::default),
        None => f.axes().location(variations.iter().map(|v| VariationSetting::new(Tag::from_u32(v.0), Fixed::from_bits(v.1).to_f64() as _))),
    };
    loc.coords().iter().map(|c| c.to_bits()).collect()
}

/// Whether the shaping engine can open face `face_index` of the bytes.
pub uninterp spec fn shapeable(data: Seq<u8>, face_index: int) -> bool;

/// What a shaping font was built from: the face bytes, the face index,
/// and the normalized coordinates of its instance. Every wrapper that
/// shapes through the font speaks of its result through this name.
pub uninterp spec fn font_source_of(f: Font) -> (Seq<u8>, int, Seq<i16>);

/// Relies on `harfrust::Font::new` and its instance builder: the face
/// opened at the given normalized coordinates.
#[verifier::external_body]
fn instanced_font(data: &[u8], face_index: u32, coords: &Vec<i16>) -> (r: Option<Font>)
    ensures
        r is Some <==> shapeable(data@, face_index as int),
        r matches Some(f) ==> font_source_of(f) == (data@, face_index as int, coords@),
{
    let base = Font::new(data.to_vec(), face_index)?;
    Some(base.instance_builder().normalized_coords(coords.iter().map(|c| harfrust::font::NormalizedCoord::from_bits(*c))).build())
}

/// The text a shaping buffer holds, provided it is configured under the
/// fixed left-to-right, Latin-script, English policy; nothing otherwise.
pub uninterp spec fn latin_buffer_source(b: Buffer) -> Option<Seq<char>>;

/// Relies on `harfrust::Buffer`: the text loaded under the fixed
/// left-to-right, Latin-script, English shaping policy.
#[verifier::external_body]
fn latin_buffer(text: &str) -> (r: Buffer)
    ensures
        latin_buffer_source(r) == Some(text@),
{
    let mut u = Buffer::new();
    u.push_str(text);
    u.set_direction(Direction::LeftToRight);
    u.set_script("Latn".parse().ok());
    u.set_language("en".parse().ok());
    u
}

/// The glyphs, advances, and clusters that shaping the text against the
/// face yields, under the fixed left-to-right Latin English policy.
pub uninterp spec fn shaped_run_of(
    data: Seq<u8>,
    face_index: int,
    coords: Seq<i16>,
    features: Seq<u32>,
    text: Seq<char>,
    point_size: Option<u16>,
) -> Seq<(u32, i32, i32, u32)>;

/// Relies on `harfrust`'s shaper: the buffer's text shaped against the
/// font's face and coordinates, with the given features enabled
/// globally; empty where shaping fails.
#[verifier::external_body]
fn shape_with_font(
    font: &Font,
    features: &Vec<u32>,
    buffer: Buffer,
    point_size: Option<u16>,
) -> (r: Vec<ShapedGlyph>)
    ensures
        latin_buffer_source(buffer) matches Some(text) ==> r@.map_values(
            |g: ShapedGlyph| (g.glyph_id, g.x_advance, g.y_advance, g.cluster),
        ) == shaped_run_of(
            font_source_of(*font).0,
            font_source_of(*font).1,
            font_source_of(*font).2,
            features@,
            text,
            point_size,
        ),
{
    let s = ShaperFont::new(font);
    let fs: Vec<Feature> = features.iter().map(|t| Feature::new(Tag::from_u32(*t), 1, ..)).collect();
    let mut u = buffer;
    let o = ShapeOptions::new().features(&fs).point_size(point_size.map(|p| p.into()));
    if harfrust::shape(&s, &mut u, o).is_err() {
        return Vec::new();
    }
    u.glyph_infos().iter().zip(u.glyph_positions().iter()).map(|(i, p)| ShapedGlyph { glyph_id: i.glyph_id, x_advance: p.x_advance, y_advance: p.y_advance, cluster: i.cluster }).collect()
}

/// A variation selection: explicit axis values or one named instance.
#[derive(Debug, Clone, PartialEq, Eq)]
pub enum ShaperInstanceSettings {
    /// User-space axis values as (tag, raw 16.16 bits).
    Variations(Vec<(u32, i32)>),
    /// The index of a named instance of the face.
    NamedInstance(u32),
}

/// What a shaper is built with: an optional variation selection and an
/// optional explicit feature list.
#[derive(Debug, Clone, PartialEq, Eq)]
pub struct ShaperSettings {
    pub instance_settings: Option<ShaperInstanceSettings>,
    pub shape_features: Option<Vec<u32>>,
}

impl ShaperSettings {
    /// Default settings: the face's default location, no extra features.
    pub fn new() -> (r: ShaperSettings)
        ensures
            r.instance_settings is None,
            r.shape_features is None,
    {
        ShaperSettings { instance_settings: None, shape_features: None }
    }

    /// Selects explicit axis values.
    pub fn with_variations(self, variations: Vec<(u32, i32)>) -> (r: ShaperSettings)
        ensures
            r.instance_settings == Some(ShaperInstanceSettings::Variations(variations)),
            r.shape_features == self.shape_features,
    {
        ShaperSettings {
            instance_settings: Some(ShaperInstanceSettings::Variations(variations)),
            shape_features: self.shape_features,
        }
    }

    /// Selects a named instance.
    pub fn with_named_instance(self, named_instance_index: u32) -> (r: ShaperSettings)
        ensures
            r.instance_settings == Some(
                ShaperInstanceSettings::NamedInstance(named_instance_index),
            ),
            r.shape_features == self.shape_features,
    {
        ShaperSettings {
            instance_settings: Some(ShaperInstanceSettings::NamedInstance(named_instance_index)),
            shape_features: self.shape_features,
        }
    }

    /// Sets the features to enable while shaping.
    pub fn with_features(self, features: Vec<u32>) -> (r: ShaperSettings)
        ensures
            r.shape_features == Some(features),
            r.instance_settings == self.instance_settings,
    {
        ShaperSettings { instance_settings: self.instance_settings, shape_features: Some(features) }
    }
}

/// The selection a settings value makes, as the coordinate name's inputs.
pub open spec fn selection_of(s: ShaperSettings) -> (Option<u32>, Seq<(u32, i32)>) {
    match s.instance_settings {
        Some(ShaperInstanceSettings::NamedInstance(i)) => (Some(i), Seq::empty()),
        Some(ShaperInstanceSettings::Variations(v)) => (None, v@),
        None => (None, Seq::empty()),
    }
}

/// The features a settings value enables: the explicit list, or none.
pub open spec fn features_of_settings(s: ShaperSettings) -> Seq<u32> {
    match s.shape_features {
        Some(f) => f@,
        None => Seq::empty(),
    }
}

/// One face bound to a variation location and a feature list, ready to
/// shape text runs.
pub struct FontShaper {
    pub face: FontRef,
    pub coords: Vec<i16>,
    pub features: Vec<u32>,
}

/// The shaper's invariant: its coordinates are the resolved location of
/// some selection on its face.
pub open spec fn shaper_wf(s: FontShaper, cache: crate::cache::CacheV) -> bool {
    &&& (s.face.cache_index as int) < cache.entries.len()
    &&& exists|ni: Option<u32>, vars: Seq<(u32, i32)>|
        s.coords@ == #[trigger] resolved_coords_of(
            cache.arena[cache.entries[s.face.cache_index as int].arena_index],
            cache.entries[s.face.cache_index as int].rec.face_index,
            ni,
            vars,
        )
}

impl FontRef {
    /// Binds this face and the settings into a shaper: the variation
    /// selection is resolved to normalized coordinates once, up front.
    pub fn shaper(&self, cache: &FontCache, settings: ShaperSettings) -> (r: FontShaper)
        requires
            crate::cache::wf(cache@),
            self.cache_index < cache@.entries.len(),
        ensures
            r.face == *self,
            shaper_wf(r, cache@),
            r.coords@ == resolved_coords_of(
                cache@.arena[cache@.entries[self.cache_index as int].arena_index],
                cache@.entries[self.cache_index as int].rec.face_index,
                selection_of(settings).0,
                selection_of(settings).1,
            ),
            r.features@ == features_of_settings(settings),
    {
        let data = cache.face_data(self);
        let face_index = self.face_index(cache);
        let empty_vars: Vec<(u32, i32)> = Vec::new();
        let coords = match &settings.instance_settings {
            Some(ShaperInstanceSettings::NamedInstance(i)) => resolve_coords(
                data.as_slice(),
                face_index,
                Some(*i),
                &empty_vars,
            ),
            Some(ShaperInstanceSettings::Variations(v)) => resolve_coords(
                data.as_slice(),
                face_index,
                None,
                v,
            ),
            None => resolve_coords(data.as_slice(), face_index, None, &empty_vars),
        };
        let features = match settings.shape_features {
            Some(f) => f,
            None => Vec::new(),
        };
        let r = FontShaper { face: FontRef { cache_index: self.cache_index }, coords, features };
        proof {
            assert(empty_vars@ =~= Seq::<(u32, i32)>::empty());
            assert(r.coords@ == resolved_coords_of(
                cache@.arena[cache@.entries[self.cache_index as int].arena_index],
                cache@.entries[self.cache_index as int].rec.face_index,
                selection_of(settings).0,
                selection_of(settings).1,
            ));
        }
        r
    }
}

impl FontShaper {
    /// Shapes one line of text at the given pixel size: the ordered
    /// glyphs with advances and clusters, exactly what the engine yields
    /// for this face, location, features, text, and derived point size.
    /// Identical requests recompute; only rasterizations are cached
    /// downstream.
    pub fn shape(&self, cache: &FontCache, line: &str, ppem: Option<u16>) -> (r: Vec<ShapedGlyph>)
        requires
            crate::cache::wf(cache@),
            self.face.cache_index < cache@.entries.len(),
        ensures
            ({
                let data = cache@.arena[cache@.entries[self.face.cache_index as int].arena_index];
                let fidx = cache@.entries[self.face.cache_index as int].rec.face_index;
                if shapeable(data, fidx) {
                    r@.map_values(
                        |g: ShapedGlyph| (g.glyph_id, g.x_advance, g.y_advance, g.cluster),
                    ) == shaped_run_of(
                        data,
                        fidx,
                        self.coords@,
                        self.features@,
                        line@,
                        match ppem {
                            Some(p) => Some((((p as u32) * 3) / 4) as u16),
                            None => None,
                        },
                    )
                } else {
                    r@.len() == 0
                }
            }),
    {
        let data = cache.face_data(&self.face);
        let face_index = self.face.face_index(cache);
        let point_size: Option<u16> = match ppem {
            Some(p) => Some((((p as u32) * 3) / 4) as u16),
            None => None,
        };
        match instanced_font(data.as_slice(), face_index, &self.coords) {
            Some(font) => {
                let buffer = latin_buffer(line);
                shape_with_font(&font, &self.features, buffer, point_size)
            },
            None => Vec::new(),
        }
    }
}

} // verus!
