//! A font-file cache with content-addressed deduplication, metadata
//! extraction, text shaping, and an atlas-backed glyph rasterization cache.
//!
//! Names and paths are carried as UTF-8 byte strings (`Vec<u8>`); sizes are
//! integer pixels-per-em; fixed-point font values travel as their raw bits.
//! Callers that deal in files read the bytes themselves and hand them to
//! [`cache::FontCache::load_font_file`].

pub mod atlas;
pub mod bytestr;
pub mod cache;
pub mod geometry;
pub mod hash;
pub mod meta;
pub mod parse;
pub mod raster;
pub mod shape;
