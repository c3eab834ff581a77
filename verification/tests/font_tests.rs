//! End-to-end tests over real font bytes: a minimal TrueType file is
//! assembled byte by byte, loaded, looked up, searched, shaped, and
//! rasterized into the atlas.

use fontcache::atlas::GlyphCache;
use fontcache::cache::{CacheResult, FontCache, FontFile};
use fontcache::meta::FontError;
use fontcache::shape::ShaperSettings;

fn push_u16(v: &mut Vec<u8>, x: u16) {
    v.extend_from_slice(&x.to_be_bytes());
}

fn push_u32(v: &mut Vec<u8>, x: u32) {
    v.extend_from_slice(&x.to_be_bytes());
}

fn push_i16(v: &mut Vec<u8>, x: i16) {
    v.extend_from_slice(&x.to_be_bytes());
}

fn head_table(revision_bits: i32) -> Vec<u8> {
    let mut t = Vec::new();
    push_u16(&mut t, 1); // majorVersion
    push_u16(&mut t, 0); // minorVersion
    push_u32(&mut t, revision_bits as u32); // fontRevision
    push_u32(&mut t, 0); // checksumAdjustment
    push_u32(&mut t, 0x5F0F3CF5); // magicNumber
    push_u16(&mut t, 0); // flags
    push_u16(&mut t, 1000); // unitsPerEm
    t.extend_from_slice(&[0u8; 8]); // created
    t.extend_from_slice(&[0u8; 8]); // modified
    push_i16(&mut t, 0); // xMin
    push_i16(&mut t, 0); // yMin
    push_i16(&mut t, 700); // xMax
    push_i16(&mut t, 700); // yMax
    push_u16(&mut t, 0); // macStyle
    push_u16(&mut t, 8); // lowestRecPPEM
    push_i16(&mut t, 2); // fontDirectionHint
    push_i16(&mut t, 0); // indexToLocFormat (short)
    push_i16(&mut t, 0); // glyphDataFormat
    t
}

fn name_table(names: &[(u16, &str)]) -> Vec<u8> {
    let mut t = Vec::new();
    push_u16(&mut t, 0); // format
    push_u16(&mut t, names.len() as u16);
    push_u16(&mut t, 6 + 12 * names.len() as u16); // stringOffset
    let mut strings: Vec<u8> = Vec::new();
    for (id, s) in names {
        let start = strings.len() as u16;
        for c in s.encode_utf16() {
            strings.extend_from_slice(&c.to_be_bytes());
        }
        let len = strings.len() as u16 - start;
        push_u16(&mut t, 3); // platform: Windows
        push_u16(&mut t, 1); // encoding: Unicode BMP
        push_u16(&mut t, 0x409); // language: en-US
        push_u16(&mut t, *id);
        push_u16(&mut t, len);
        push_u16(&mut t, start);
    }
    t.extend_from_slice(&strings);
    t
}

fn maxp_table(num_glyphs: u16) -> Vec<u8> {
    let mut t = Vec::new();
    push_u32(&mut t, 0x00010000);
    push_u16(&mut t, num_glyphs);
    for _ in 0..13 {
        push_u16(&mut t, 8);
    }
    t
}

fn hhea_table(num_hmetrics: u16) -> Vec<u8> {
    let mut t = Vec::new();
    push_u32(&mut t, 0x00010000);
    push_i16(&mut t, 800); // ascender
    push_i16(&mut t, -200); // descender
    push_i16(&mut t, 0); // lineGap
    push_u16(&mut t, 600); // advanceWidthMax
    push_i16(&mut t, 0); // minLeftSideBearing
    push_i16(&mut t, 0); // minRightSideBearing
    push_i16(&mut t, 700); // xMaxExtent
    push_i16(&mut t, 1); // caretSlopeRise
    push_i16(&mut t, 0); // caretSlopeRun
    push_i16(&mut t, 0); // caretOffset
    for _ in 0..4 {
        push_i16(&mut t, 0);
    }
    push_i16(&mut t, 0); // metricDataFormat
    push_u16(&mut t, num_hmetrics);
    t
}

fn hmtx_table() -> Vec<u8> {
    let mut t = Vec::new();
    push_u16(&mut t, 600); // advance of glyph 0
    push_i16(&mut t, 50);
    push_u16(&mut t, 600); // advance of glyph 1
    push_i16(&mut t, 100);
    t
}

fn cmap_table() -> Vec<u8> {
    let mut t = Vec::new();
    push_u16(&mut t, 0); // version
    push_u16(&mut t, 1); // one encoding record
    push_u16(&mut t, 3); // Windows
    push_u16(&mut t, 1); // Unicode BMP
    push_u32(&mut t, 12); // subtable offset
    // format 4, two segments: 'A'..'A' -> glyph 1, 0xffff -> 0
    push_u16(&mut t, 4); // format
    push_u16(&mut t, 32); // length
    push_u16(&mut t, 0); // language
    push_u16(&mut t, 4); // segCountX2
    push_u16(&mut t, 4); // searchRange
    push_u16(&mut t, 1); // entrySelector
    push_u16(&mut t, 0); // rangeShift
    push_u16(&mut t, 0x41); // endCode[0]
    push_u16(&mut t, 0xffff); // endCode[1]
    push_u16(&mut t, 0); // reservedPad
    push_u16(&mut t, 0x41); // startCode[0]
    push_u16(&mut t, 0xffff); // startCode[1]
    push_u16(&mut t, (1u32.wrapping_sub(0x41) & 0xffff) as u16); // idDelta[0]
    push_u16(&mut t, 1); // idDelta[1]
    push_u16(&mut t, 0); // idRangeOffset[0]
    push_u16(&mut t, 0); // idRangeOffset[1]
    t
}

fn glyf_table_sized(lo: i16, hi: i16) -> Vec<u8> {
    // glyph 0 is empty; glyph 1 is one square contour, lo..hi on both
    // axes, all points on-curve.
    let side = hi - lo;
    let mut t = Vec::new();
    push_i16(&mut t, 1); // numberOfContours
    push_i16(&mut t, lo); // xMin
    push_i16(&mut t, lo); // yMin
    push_i16(&mut t, hi); // xMax
    push_i16(&mut t, hi); // yMax
    push_u16(&mut t, 3); // endPtsOfContours
    push_u16(&mut t, 0); // instructionLength
    t.extend_from_slice(&[0x01, 0x01, 0x01, 0x01]); // flags: on-curve
    push_i16(&mut t, lo); // x deltas
    push_i16(&mut t, side);
    push_i16(&mut t, 0);
    push_i16(&mut t, -side);
    push_i16(&mut t, lo); // y deltas
    push_i16(&mut t, 0);
    push_i16(&mut t, side);
    push_i16(&mut t, 0);
    t
}

fn glyf_table() -> Vec<u8> {
    glyf_table_sized(100, 600)
}

/// A face whose one glyph spans two whole ems, so that large pixel sizes
/// ask for masks beyond the renderer's byte budget.
fn build_big_glyph_font() -> Vec<u8> {
    let glyf = glyf_table_sized(0, 2000);
    let tables: Vec<([u8; 4], Vec<u8>)> = vec![
        (*b"cmap", cmap_table()),
        (*b"glyf", glyf.clone()),
        (*b"head", head_table(1 << 16)),
        (*b"hhea", hhea_table(2)),
        (*b"hmtx", hmtx_table()),
        (*b"loca", loca_table(glyf.len() as u16)),
        (*b"maxp", maxp_table(2)),
        (*b"name", name_table(&[(1, "BigFont"), (2, "Regular")])),
    ];
    assemble(tables)
}

fn loca_table(glyf_len: u16) -> Vec<u8> {
    // short format: offsets in half-words; glyph 0 empty, glyph 1 whole.
    let mut t = Vec::new();
    push_u16(&mut t, 0);
    push_u16(&mut t, 0);
    push_u16(&mut t, glyf_len / 2);
    t
}

fn gsub_table(tags: &[&[u8; 4]]) -> Vec<u8> {
    let mut t = Vec::new();
    push_u16(&mut t, 1); // majorVersion
    push_u16(&mut t, 0); // minorVersion
    let n = tags.len() as u16;
    let script_list = 10u16;
    let feature_list = script_list + 2;
    let lookup_list = feature_list + 2 + 6 * n + 4 * n;
    push_u16(&mut t, script_list);
    push_u16(&mut t, feature_list);
    push_u16(&mut t, lookup_list);
    push_u16(&mut t, 0); // script count
    push_u16(&mut t, n); // feature count
    for (i, tag) in tags.iter().enumerate() {
        t.extend_from_slice(*tag);
        push_u16(&mut t, 2 + 6 * n + 4 * i as u16); // offset from feature list
    }
    for _ in tags {
        push_u16(&mut t, 0); // featureParamsOffset
        push_u16(&mut t, 0); // lookupIndexCount
    }
    push_u16(&mut t, 0); // lookup count
    t
}

fn fvar_table(instance_name_id: u16) -> Vec<u8> {
    // one weight axis 400..700 (default 400) and one named instance
    // pinned at 700.
    let mut t = Vec::new();
    push_u16(&mut t, 1); // majorVersion
    push_u16(&mut t, 0); // minorVersion
    push_u16(&mut t, 16); // axesArrayOffset
    push_u16(&mut t, 2); // reserved
    push_u16(&mut t, 1); // axisCount
    push_u16(&mut t, 20); // axisSize
    push_u16(&mut t, 1); // instanceCount
    push_u16(&mut t, 8); // instanceSize
    t.extend_from_slice(b"wght");
    push_u32(&mut t, 400 << 16); // minValue
    push_u32(&mut t, 400 << 16); // defaultValue
    push_u32(&mut t, 700 << 16); // maxValue
    push_u16(&mut t, 0); // flags
    push_u16(&mut t, 256); // axisNameID
    push_u16(&mut t, instance_name_id);
    push_u16(&mut t, 0); // instance flags
    push_u32(&mut t, 700 << 16); // instance wght coordinate
    t
}

fn build_variable_font(instance_name: Option<&str>, instance_name_id: u16) -> Vec<u8> {
    let glyf = glyf_table();
    let mut names = vec![(1u16, "VarFont"), (2, "Regular"), (256, "Weight")];
    if let Some(n) = instance_name {
        names.push((instance_name_id, n));
    }
    names.sort_by_key(|(id, _)| *id);
    let tables: Vec<([u8; 4], Vec<u8>)> = vec![
        (*b"cmap", cmap_table()),
        (*b"fvar", fvar_table(instance_name_id)),
        (*b"glyf", glyf.clone()),
        (*b"head", head_table(1 << 16)),
        (*b"hhea", hhea_table(2)),
        (*b"hmtx", hmtx_table()),
        (*b"loca", loca_table(glyf.len() as u16)),
        (*b"maxp", maxp_table(2)),
        (*b"name", name_table(&names)),
    ];
    assemble(tables)
}

fn assemble(tables: Vec<([u8; 4], Vec<u8>)>) -> Vec<u8> {
    let n = tables.len() as u16;
    let mut font = Vec::new();
    push_u32(&mut font, 0x00010000);
    push_u16(&mut font, n);
    let mut sr: u16 = 1;
    let mut es: u16 = 0;
    while sr * 2 <= n {
        sr *= 2;
        es += 1;
    }
    push_u16(&mut font, sr * 16);
    push_u16(&mut font, es);
    push_u16(&mut font, n * 16 - sr * 16);
    let mut offset = 12 + 16 * n as u32;
    let mut bodies: Vec<u8> = Vec::new();
    for (tag, body) in &tables {
        font.extend_from_slice(tag);
        push_u32(&mut font, 0); // checksum, not validated by the reader
        push_u32(&mut font, offset);
        push_u32(&mut font, body.len() as u32);
        let mut padded = body.clone();
        while padded.len() % 4 != 0 {
            padded.push(0);
        }
        offset += padded.len() as u32;
        bodies.extend_from_slice(&padded);
    }
    font.extend_from_slice(&bodies);
    font
}

fn build_font(
    family: &str,
    subfamily: Option<&str>,
    revision_bits: i32,
    feature_tags: &[&[u8; 4]],
) -> Vec<u8> {
    let glyf = glyf_table();
    let mut names = vec![(1u16, family)];
    if let Some(sf) = subfamily {
        names.push((2, sf));
    }
    let mut tables: Vec<([u8; 4], Vec<u8>)> = vec![
        (*b"cmap", cmap_table()),
        (*b"glyf", glyf.clone()),
        (*b"head", head_table(revision_bits)),
        (*b"hhea", hhea_table(2)),
        (*b"hmtx", hmtx_table()),
        (*b"loca", loca_table(glyf.len() as u16)),
        (*b"maxp", maxp_table(2)),
        (*b"name", name_table(&names)),
    ];
    if !feature_tags.is_empty() {
        tables.push((*b"GSUB", gsub_table(feature_tags)));
    }
    assemble(tables)
}

fn test_font() -> Vec<u8> {
    build_font("TestFont", Some("Regular"), 0x00010000, &[b"kern", b"liga"])
}

#[test]
fn scenario_single_face_lookup() {
    // Load a single-face ttf "TestFont"/"Regular", no axes, features
    // {kern, liga}; exact and family-only lookups find it, a stranger
    // does not.
    let mut cache = FontCache::new();
    let idxs = cache
        .load_font_file(b"fonts/test.ttf".to_vec(), test_font())
        .expect("load should succeed");
    assert_eq!(idxs, vec![0]);

    let exact = cache
        .find_font(&b"TestFont".to_vec(), Some(&b"Regular".to_vec()))
        .expect("exact lookup");
    let by_family = cache.find_font(&b"TestFont".to_vec(), None).expect("family lookup");
    assert_eq!(exact.cache_index, 0);
    assert_eq!(exact, by_family);

    let axes = exact.variation_axes(&cache);
    assert_eq!(axes.len(), 0);
    let features = exact.features(&cache);
    // kern (0x6b65726e) sorts before liga (0x6c696761)
    assert_eq!(features, &vec![0x6b65726eu32, 0x6c696761u32]);
    assert_eq!(exact.revision(&cache), 0x00010000);

    match cache.find_font(&b"NoSuchFont".to_vec(), None) {
        Err(FontError::NotCached { family_name, subfamily_name }) => {
            assert_eq!(family_name, b"NoSuchFont".to_vec());
            assert!(subfamily_name.is_none());
        },
        other => panic!("expected NotCached, got {:?}", other.map(|f| f.cache_index)),
    }
}

#[test]
fn scenario_case_insensitive_lookup() {
    let mut cache = FontCache::new();
    cache.load_font_file(b"fonts/test.ttf".to_vec(), test_font()).unwrap();
    let f = cache.find_font(&b"TESTFONT".to_vec(), Some(&b"regular".to_vec())).unwrap();
    assert_eq!(f.cache_index, 0);
}

#[test]
fn scenario_identical_content_two_paths() {
    // Byte-identical content at two distinct paths: the second load
    // reports AlreadyCached with the first path's indices, and the total
    // distinct index count equals one file's face count.
    let mut cache = FontCache::new();
    let first = cache.load_font_data(b"a.ttf".to_vec(), test_font()).unwrap();
    match first {
        CacheResult::New { newly_cached, replaced, skipped } => {
            assert_eq!(newly_cached, vec![0]);
            assert!(replaced.is_empty());
            assert!(skipped.is_empty());
        },
        other => panic!("expected New, got {:?}", other),
    }
    let second = cache.load_font_data(b"b.ttf".to_vec(), test_font()).unwrap();
    match second {
        CacheResult::AlreadyCached { idxs } => assert_eq!(idxs, vec![0]),
        other => panic!("expected AlreadyCached, got {:?}", other),
    }
    assert_eq!(cache.font_count(), 1);
}

#[test]
fn loading_same_path_twice_is_idempotent() {
    let mut cache = FontCache::new();
    let first = cache.load_font_file(b"same.ttf".to_vec(), test_font()).unwrap();
    let count = cache.font_count();
    let second = cache.load_font_file(b"same.ttf".to_vec(), test_font()).unwrap();
    assert_eq!(first, second);
    assert_eq!(cache.font_count(), count);
}

#[test]
fn replacement_keeps_the_better_face() {
    // Two descriptors share (family, subfamily) but differ in feature
    // count; the cache retains the richer one at the same index, and
    // re-loading the inferior afterwards is a no-op.
    let weak = build_font("TestFont", Some("Regular"), 0x00010000, &[b"kern"]);
    let strong = build_font("TestFont", Some("Regular"), 0x00010000, &[b"kern", b"liga"]);
    let mut cache = FontCache::new();
    cache.load_font_file(b"weak.ttf".to_vec(), weak.clone()).unwrap();
    let f = cache.find_font(&b"TestFont".to_vec(), None).unwrap();
    assert_eq!(f.features(&cache).len(), 1);

    match cache.load_font_data(b"strong.ttf".to_vec(), strong).unwrap() {
        CacheResult::New { newly_cached, replaced, skipped } => {
            assert!(newly_cached.is_empty());
            assert_eq!(replaced, vec![0]);
            assert!(skipped.is_empty());
        },
        other => panic!("expected a replacement, got {:?}", other),
    }
    assert_eq!(cache.font_count(), 1);
    let f = cache.find_font(&b"TestFont".to_vec(), None).unwrap();
    assert_eq!(f.features(&cache).len(), 2);

    // The inferior face at a third path loses and changes nothing. Its
    // bytes must differ from the first file's (else the load would be
    // answered as AlreadyCached by content hash), so bump head's
    // lowestRecPPEM, which parsing never reads.
    let mut weak3 = weak.clone();
    let head_offset = {
        let n = u16::from_be_bytes([weak3[4], weak3[5]]) as usize;
        let mut found = 0usize;
        for i in 0..n {
            let rec = 12 + 16 * i;
            if &weak3[rec..rec + 4] == b"head" {
                found = u32::from_be_bytes([
                    weak3[rec + 8],
                    weak3[rec + 9],
                    weak3[rec + 10],
                    weak3[rec + 11],
                ]) as usize;
            }
        }
        found
    };
    weak3[head_offset + 46] = 0;
    weak3[head_offset + 47] = 9; // lowestRecPPEM = 9
    match cache.load_font_data(b"weak-again.ttf".to_vec(), weak3).unwrap() {
        CacheResult::NoNewData { existing_idxs } => assert_eq!(existing_idxs, vec![0]),
        other => panic!("expected NoNewData, got {:?}", other),
    }
    assert_eq!(cache.font_count(), 1);
    let f = cache.find_font(&b"TestFont".to_vec(), None).unwrap();
    assert_eq!(f.features(&cache).len(), 2);
}

#[test]
fn search_is_symmetric_for_two_terms() {
    // search_fonts("regular arial") and search_fonts("arial regular")
    // return identical result sets for a cached "Arial"/"Regular" face.
    let arial = build_font("Arial", Some("Regular"), 0x00010000, &[]);
    let mut cache = FontCache::new();
    cache.load_font_file(b"arial.ttf".to_vec(), arial).unwrap();
    let a = cache.search_fonts(&b"regular arial".to_vec());
    let b = cache.search_fonts(&b"arial regular".to_vec());
    assert_eq!(a, b);
    assert_eq!(a.len(), 1);
    assert_eq!(a[0].cache_index, 0);

    let c = cache.search_fonts(&b"ari".to_vec());
    assert_eq!(c.len(), 1);
    let d = cache.search_fonts(&b"bogus".to_vec());
    assert!(d.is_empty());
}

#[test]
fn path_index_sets_stay_disjoint() {
    // Distinct files never share cache indices.
    let f1 = build_font("One", Some("Regular"), 1, &[]);
    let f2 = build_font("Two", Some("Regular"), 2, &[]);
    let f3 = build_font("Three", Some("Regular"), 3, &[]);
    let mut cache = FontCache::new();
    let i1 = cache.load_font_file(b"one.ttf".to_vec(), f1).unwrap();
    let i2 = cache.load_font_file(b"two.ttf".to_vec(), f2).unwrap();
    let i3 = cache.load_font_file(b"three.ttf".to_vec(), f3).unwrap();
    for a in &i1 {
        assert!(!i2.contains(a) && !i3.contains(a));
    }
    for a in &i2 {
        assert!(!i3.contains(a));
    }
    assert_eq!(cache.font_count(), 3);
}

#[test]
fn listing_is_sorted() {
    let f1 = build_font("Zilla", Some("Bold"), 1, &[]);
    let f2 = build_font("Alpha", Some("Thin"), 2, &[]);
    let f3 = build_font("Mono", None, 3, &[]);
    let mut cache = FontCache::new();
    cache.load_font_file(b"z.ttf".to_vec(), f1).unwrap();
    cache.load_font_file(b"a.ttf".to_vec(), f2).unwrap();
    cache.load_font_file(b"m.ttf".to_vec(), f3).unwrap();
    let lines = cache.list_fonts(false);
    assert_eq!(
        lines,
        vec![
            b"Alpha - Thin".to_vec(),
            b"Mono - /".to_vec(),
            b"Zilla - Bold".to_vec(),
        ]
    );
    let with_paths = cache.list_fonts(true);
    assert_eq!(with_paths[0], b"Alpha - Thin -- [a.ttf]".to_vec());
}

#[test]
fn load_multiple_counts_distinct_new_indices() {
    let f1 = build_font("One", Some("Regular"), 1, &[]);
    let f2 = build_font("Two", Some("Regular"), 2, &[]);
    let mut cache = FontCache::new();
    let n = cache
        .load_multiple_font_files(vec![
            FontFile { path: b"one.ttf".to_vec(), data: f1.clone() },
            FontFile { path: b"two.ttf".to_vec(), data: f2 },
            FontFile { path: b"copy-of-one.ttf".to_vec(), data: f1 },
        ])
        .unwrap();
    assert_eq!(n, 2);
    assert_eq!(cache.font_count(), 2);
}

#[test]
fn bad_extension_is_rejected() {
    let mut cache = FontCache::new();
    match cache.load_font_file(b"test.woff".to_vec(), test_font()) {
        Err(FontError::FileExtension { path, extension }) => {
            assert_eq!(path, b"test.woff".to_vec());
            assert_eq!(extension, Some(b"woff".to_vec()));
        },
        other => panic!("expected FileExtension, got {:?}", other),
    }
    assert_eq!(cache.font_count(), 0);
}

#[test]
fn garbage_bytes_are_rejected() {
    let mut cache = FontCache::new();
    match cache.load_font_file(b"junk.ttf".to_vec(), vec![1, 2, 3, 4]) {
        Err(FontError::UnreadableFont { path }) => assert_eq!(path, b"junk.ttf".to_vec()),
        other => panic!("expected UnreadableFont, got {:?}", other),
    }
}

#[test]
fn missing_family_name_is_rejected() {
    // A name table without a family record: required metadata absent.
    let nameless = build_font("", None, 1, &[]);
    // rebuild with an empty name list: patch is simpler done by building
    // a font whose name table has only the subfamily record.
    let mut cache = FontCache::new();
    match cache.load_font_file(b"anon.ttf".to_vec(), strip_family(nameless)) {
        Err(FontError::MissingData { path, field }) => {
            assert_eq!(path, b"anon.ttf".to_vec());
            assert_eq!(field, b"FAMILY_NAME".to_vec());
        },
        other => panic!("expected MissingData, got {:?}", other),
    }
}

/// Rebuilds the font's name table with no records at all.
fn strip_family(_ignored: Vec<u8>) -> Vec<u8> {
    let glyf = glyf_table();
    let tables: Vec<([u8; 4], Vec<u8>)> = vec![
        (*b"cmap", cmap_table()),
        (*b"glyf", glyf.clone()),
        (*b"head", head_table(1)),
        (*b"hhea", hhea_table(2)),
        (*b"hmtx", hmtx_table()),
        (*b"loca", loca_table(glyf.len() as u16)),
        (*b"maxp", maxp_table(2)),
        (*b"name", name_table(&[])),
    ];
    let n = tables.len() as u16;
    let mut font = Vec::new();
    push_u32(&mut font, 0x00010000);
    push_u16(&mut font, n);
    push_u16(&mut font, 128);
    push_u16(&mut font, 3);
    push_u16(&mut font, n * 16 - 128);
    let mut offset = 12 + 16 * n as u32;
    let mut bodies: Vec<u8> = Vec::new();
    for (tag, body) in &tables {
        font.extend_from_slice(tag);
        push_u32(&mut font, 0);
        push_u32(&mut font, offset);
        push_u32(&mut font, body.len() as u32);
        let mut padded = body.clone();
        while padded.len() % 4 != 0 {
            padded.push(0);
        }
        offset += padded.len() as u32;
        bodies.extend_from_slice(&padded);
    }
    font.extend_from_slice(&bodies);
    font
}

#[test]
fn variable_face_reports_axes_and_instances() {
    let mut cache = FontCache::new();
    cache
        .load_font_file(b"var.ttf".to_vec(), build_variable_font(Some("Black"), 257))
        .unwrap();
    let f = cache.find_font(&b"VarFont".to_vec(), None).unwrap();
    let axes = f.variation_axes(&cache);
    assert_eq!(axes.len(), 1);
    assert_eq!(axes[0].tag, u32::from_be_bytes(*b"wght"));
    assert_eq!(axes[0].min_bits, 400 << 16);
    assert_eq!(axes[0].default_bits, 400 << 16);
    assert_eq!(axes[0].max_bits, 700 << 16);
    let instances = f.named_instances(&cache);
    assert_eq!(instances.len(), 1);
    assert_eq!(instances[0].name, b"Black".to_vec());
    assert_eq!(instances[0].named_instance_index, 0);
    // 700 sits at the axis maximum: normalized 1.0, which is 16384 in
    // 2.14 fixed point.
    assert_eq!(instances[0].coords, vec![16384]);

    let shaper = f.shaper(&cache, ShaperSettings::new().with_named_instance(0));
    assert_eq!(shaper.coords, vec![16384]);
    let default_shaper = f.shaper(&cache, ShaperSettings::new());
    assert_eq!(default_shaper.coords, vec![0]);
}

#[test]
fn unnamed_instance_is_rejected() {
    let mut cache = FontCache::new();
    match cache.load_font_file(b"var.ttf".to_vec(), build_variable_font(None, 999)) {
        Err(FontError::NamedInstanceHasNoName { path, name_id }) => {
            assert_eq!(path, b"var.ttf".to_vec());
            assert_eq!(name_id, 999);
        },
        other => panic!("expected NamedInstanceHasNoName, got {:?}", other),
    }
    assert_eq!(cache.font_count(), 0);
}

#[test]
fn absent_glyph_is_reported() {
    let mut cache = FontCache::new();
    cache.load_font_file(b"fonts/test.ttf".to_vec(), test_font()).unwrap();
    let font = cache.find_font(&b"TestFont".to_vec(), None).unwrap();
    let mut atlas = GlyphCache::new(256, 64);
    match atlas.get_glyph_texture_bounds(&cache, &font, 77, 24, Vec::new()) {
        Err(FontError::GlyphNotFound { glyph_id }) => assert_eq!(glyph_id, 77),
        other => panic!("expected GlyphNotFound, got {:?}", other.map(|_| ())),
    }
    assert_eq!(atlas.rasterizer_calls(), 1);
    assert_eq!(atlas.cached_count(), 0);
}

#[test]
fn oversized_rasterization_is_rejected() {
    // A two-em glyph at a huge pixel size asks for a mask whose byte
    // count exceeds the renderer's 32-bit budget; the size is probed
    // first, so the request fails cleanly instead of rendering.
    let mut cache = FontCache::new();
    cache.load_font_file(b"big.ttf".to_vec(), build_big_glyph_font()).unwrap();
    let font = cache.find_font(&b"BigFont".to_vec(), None).unwrap();
    let mut atlas = GlyphCache::new(256, 64);
    match atlas.get_glyph_texture_bounds(&cache, &font, 1, 32768, Vec::new()) {
        Err(FontError::GlyphNotFound { glyph_id }) => assert_eq!(glyph_id, 1),
        other => panic!("expected GlyphNotFound, got {:?}", other.map(|_| ())),
    }
    assert_eq!(atlas.cached_count(), 0);
}

#[test]
fn shaping_yields_positioned_glyphs() {
    let mut cache = FontCache::new();
    cache.load_font_file(b"fonts/test.ttf".to_vec(), test_font()).unwrap();
    let font = cache.find_font(&b"TestFont".to_vec(), None).unwrap();
    let shaper = font.shaper(&cache, ShaperSettings::new());
    let run = shaper.shape(&cache, "AAA", Some(24));
    assert_eq!(run.len(), 3);
    for g in &run {
        assert_eq!(g.glyph_id, 1);
        assert_eq!(g.x_advance, 600);
    }
    assert_eq!(run[0].cluster, 0);
    assert_eq!(run[1].cluster, 1);
    assert_eq!(run[2].cluster, 2);
}

#[test]
fn rasterization_runs_once_per_key() {
    // Rasterize the square glyph at 24 ppem twice: the second call makes
    // zero rasterizer invocations and returns identical placement and
    // texture bounds.
    let mut cache = FontCache::new();
    cache.load_font_file(b"fonts/test.ttf".to_vec(), test_font()).unwrap();
    let font = cache.find_font(&b"TestFont".to_vec(), None).unwrap();
    let mut atlas = GlyphCache::new(2048, 256);
    assert_eq!(atlas.rasterizer_calls(), 0);

    let first = atlas
        .get_glyph_texture_bounds(&cache, &font, 1, 24, Vec::new())
        .expect("first rasterization");
    assert_eq!(atlas.rasterizer_calls(), 1);
    assert!(first.0.width > 0 && first.0.height > 0);

    let second = atlas
        .get_glyph_texture_bounds(&cache, &font, 1, 24, Vec::new())
        .expect("cache hit");
    assert_eq!(atlas.rasterizer_calls(), 1);
    assert_eq!(first, second);
    assert_eq!(atlas.cached_count(), 1);
}

#[test]
fn distinct_keys_get_disjoint_rectangles() {
    // N distinct keys inserted sequentially occupy pairwise disjoint
    // regions inside the atlas bounds.
    let mut atlas = GlyphCache::new(1024, 128);
    let mut regions: Vec<(i32, i32, i32, i32)> = Vec::new();
    for k in 0..8u32 {
        let w = 3 + k;
        let h = 5 + k;
        let mask = vec![7u8; (4 * w * h) as usize];
        let key = fontcache::atlas::GlyphCacheKey {
            font_cache_index: 0,
            glyph_id: k,
            ppem: 16,
            coords: Vec::new(),
        };
        let placement = fontcache::raster::Placement { left: 0, top: 0, width: w, height: h };
        let (p, uv) = atlas.get_or_insert_mask(key, placement, &mask).expect("insert");
        assert_eq!(p.width, w);
        regions.push((uv.min_xq, uv.min_y, uv.min_xq + 4 * w as i32, uv.min_y + h as i32));
    }
    for i in 0..regions.len() {
        let (x0, y0, x1, y1) = regions[i];
        assert!(0 <= x0 && x0 < x1 && x1 <= 1024);
        assert!(0 <= y0 && y0 < y1 && y1 <= 128);
        for j in 0..i {
            let (a0, b0, a1, b1) = regions[j];
            assert!(x1 <= a0 || a1 <= x0 || y1 <= b0 || b1 <= y0);
        }
    }
}

#[test]
fn repeated_mask_insert_reuses_the_entry() {
    // The same key asked for twice answers bit-identically and consults
    // the rasterizer zero times.
    let mut atlas = GlyphCache::new(256, 64);
    let key = || fontcache::atlas::GlyphCacheKey {
        font_cache_index: 3,
        glyph_id: 9,
        ppem: 24,
        coords: vec![1000, -2000],
    };
    let placement = fontcache::raster::Placement { left: 1, top: 2, width: 4, height: 4 };
    let mask = vec![9u8; 64];
    let first = atlas.get_or_insert_mask(key(), placement, &mask).unwrap();
    let second = atlas.get_or_insert_mask(key(), placement, &mask).unwrap();
    assert_eq!(first, second);
    assert_eq!(atlas.rasterizer_calls(), 0);
    assert_eq!(atlas.cached_count(), 1);
}

#[test]
fn atlas_exhaustion_is_reported() {
    let mut atlas = GlyphCache::new(16, 4);
    let key = fontcache::atlas::GlyphCacheKey {
        font_cache_index: 0,
        glyph_id: 0,
        ppem: 64,
        coords: Vec::new(),
    };
    let placement = fontcache::raster::Placement { left: 0, top: 0, width: 100, height: 100 };
    let mask = vec![1u8; 4 * 100 * 100];
    match atlas.get_or_insert_mask(key, placement, &mask) {
        Err(FontError::AtlasExhausted) => {},
        other => panic!("expected AtlasExhausted, got {:?}", other.map(|_| ())),
    }
    assert_eq!(atlas.cached_count(), 0);
}

#[test]
fn dirty_texture_is_handed_out_once() {
    let mut atlas = GlyphCache::new(64, 8);
    assert!(atlas.queue_write_texture_if_changed().is_none());
    let key = fontcache::atlas::GlyphCacheKey {
        font_cache_index: 0,
        glyph_id: 1,
        ppem: 12,
        coords: Vec::new(),
    };
    let placement = fontcache::raster::Placement { left: 0, top: 0, width: 2, height: 2 };
    let mask = vec![3u8, 250, 250, 0, 5, 5, 5, 0, 1, 2, 3, 0, 9, 9, 9, 0];
    atlas.get_or_insert_mask(key, placement, &mask).unwrap();
    let texture = atlas.queue_write_texture_if_changed().expect("dirty after insert");
    // the blit repacked R, G, B and alpha = saturating sum
    let nonzero = texture.iter().filter(|b| **b != 0).count();
    assert!(nonzero > 0);
    assert!(atlas.queue_write_texture_if_changed().is_none());
}
