use harfrust::buffer::{GlyphInfo, GlyphPosition};
use harfrust::charmap::{
    first_code, second_code, unicode_to_macroman, Charmap, SelectedCmapSubtable,
};
use harfrust::font_file::{FontTables, DEFAULT_UNITS_PER_EM};
use harfrust::font_funcs::{
    horizontal_origin, AdvanceWidthBatch, BuiltinFontFuncs, DummyFontFuncs, FontFuncs,
    FontFuncsDispatch,
};
use harfrust::glyph_metrics::{
    box_extents, centred_origin, plain_advance, BasicFontMetrics, BoundingBox, GlyphExtents,
    GlyphMetrics,
};

fn bytes(words: &[u16]) -> Vec<u8> {
    words.iter().flat_map(|w| w.to_be_bytes()).collect()
}

/// A table with one mapping, of a platform and an encoding: the characters from
/// `first` on have these glyphs.
fn cmap(platform: u16, encoding: u16, first: u16, glyphs: &[u16]) -> Vec<u8> {
    let mut words = vec![0, 1, platform, encoding, 0, 12];
    words.extend_from_slice(&[6, 10 + 2 * glyphs.len() as u16, 0, first, glyphs.len() as u16]);
    words.extend_from_slice(glyphs);
    bytes(&words)
}

#[test]
fn characters_have_the_glyphs_of_the_best_mapping() {
    let table = cmap(3, 1, 65, &[7, 0, 9]);
    let map = Charmap::from_tables(Some(&table), 0);
    assert_eq!(map.map(65, 0), Some(7));
    assert_eq!(map.map(67, 0), Some(9));
    assert_eq!(map.map(68, 0), None);
    assert_eq!(map.map_variant(65, 0xFE00, 0), None);
    assert_eq!(Charmap::from_tables(None, 0).map(65, 0), None);
}

#[test]
fn a_cmap_entry_of_glyph_zero_is_a_miss() {
    let table = cmap(3, 1, 65, &[7, 0, 9]);
    let map = Charmap::from_tables(Some(&table), 0);
    for c in 0..0x200 {
        assert_ne!(map.map(c, 0), Some(0), "{c}");
    }
    assert_eq!(map.map(66, 0), None);
}

#[test]
fn mac_roman_codes_are_looked_up_for_characters() {
    assert_eq!(unicode_to_macroman(0xC4), 0x80);
    assert_eq!(unicode_to_macroman(0x02C7), 0xFF);
    assert_eq!(unicode_to_macroman(0x0627), 0);
    assert_eq!(unicode_to_macroman(0x100C4), 0);
    let table = cmap(1, 0, 0x80, &[5, 6]);
    let map = Charmap::from_tables(Some(&table), 0);
    assert_eq!(map.map(0xC5, 0), Some(6));
    assert_eq!(map.map(0x81, 0), None);
    let mac = SelectedCmapSubtable {
        index: 0,
        is_mac_roman: true,
        is_symbol: false,
        symbol_font_page: 0,
    };
    assert_eq!(first_code(&mac, 0xC4), 0x80);
    assert_eq!(first_code(&mac, 0x41), 0x41);
}

#[test]
fn symbol_fonts_keep_their_glyphs_on_a_page() {
    let table = cmap(3, 0, 0xF041, &[8]);
    assert_eq!(Charmap::from_tables(Some(&table), 0).map(0x41, 0), Some(8));
    assert_eq!(Charmap::from_tables(Some(&table), 0xB200).map(0x41, 0), None);
    assert_eq!(Charmap::from_tables(Some(&table), 0xB200).map(0x0627, 0xF041), Some(8));
    assert_eq!(second_code(0xB300, 0x41, 9), 9);
    assert_eq!(second_code(0, 0x100, 9), 0);
    assert_eq!(second_code(1, 0x41, 9), 0);
}

#[test]
fn variation_sequences_have_glyphs_of_their_own() {
    // One selector, U+FE00, with the sequence of U+0041 mapped to 77.
    let mut d = bytes(&[0, 1, 0, 5, 0, 12]);
    d.extend_from_slice(&bytes(&[14, 0, 32, 0, 1]));
    d.extend_from_slice(&[0, 0xFE, 0, 0, 0, 0, 0, 0, 0, 0, 21]);
    d.extend_from_slice(&[0, 0, 0, 1, 0, 0, 0x41, 0, 77]);
    let map = Charmap::from_tables(Some(&d), 0);
    assert_eq!(map.map_variant(0x41, 0xFE00, 0), Some(77));
    assert_eq!(map.map_variant(0x42, 0xFE00, 0), None);
    assert_eq!(Charmap::new(Some(&d), None, Some(0)).map_variant(0x41, 0xFE00, 0), Some(77));
    assert!(Charmap::new(Some(&d), None, Some(1)).vs_subtable.is_none());
}

fn basics() -> BasicFontMetrics {
    BasicFontMetrics { num_glyphs: 3, units_per_em: 1000, ascent: 800, descent: -200 }
}

/// Two long metrics and one bearing, for each axis, and one outline.
fn metrics() -> GlyphMetrics {
    let hmtx = bytes(&[500, 10, 600, 20, (-5i16) as u16]);
    let vmtx = bytes(&[900, 30]);
    let glyf = bytes(&[1, 40, (-50i16) as u16, 440, 650, 0, 0]);
    let loca = bytes(&[0, 0, 7, 7]);
    GlyphMetrics::new(
        Some((hmtx, 2)),
        None,
        Some((vmtx, 1)),
        None,
        None,
        Some((loca, false)),
        Some(glyf),
        None,
        None,
        basics(),
    )
}

fn bare() -> GlyphMetrics {
    GlyphMetrics::new(None, None, None, None, None, None, None, None, None, basics())
}

#[test]
fn advances_come_from_the_metrics() {
    let m = metrics();
    assert_eq!(m.advance_width(0, &[]), Some(500));
    assert_eq!(m.advance_width(2, &[]), Some(600));
    assert_eq!(m.advance_width(3, &[]), Some(0));
    assert_eq!(m.advance_height(1, &[]), Some(900));
    assert_eq!(m._left_side_bearing(1, &[]), Some(20));
    assert_eq!(m._left_side_bearing(2, &[]), Some(-5));
    assert_eq!(m.top_side_bearing(0, &[]), Some(30));
    assert_eq!(m.top_side_bearing(2, &[]), Some(0));
    let b = bare();
    assert_eq!(b.advance_width(0, &[]), Some(500));
    assert_eq!(b.advance_height(0, &[]), Some(1000));
    assert_eq!((b.top_side_bearing(0, &[]), b._left_side_bearing(0, &[])), (None, None));
    assert_eq!(plain_advance(&[7], 1000, 9, 4), 7);
}

#[test]
fn a_font_without_variations_ignores_the_instance() {
    let m = metrics();
    assert_eq!(m.advance_width(1, &[0x4000]), m.advance_width(1, &[]));
    assert_eq!(m.advance_height(1, &[0x4000]), Some(900));
}

#[test]
fn origins_come_from_the_outline_or_the_line() {
    let m = metrics();
    // The top of the glyph and its bearing.
    assert_eq!(m.v_origin(1, &[]), Some(650));
    // A glyph without an outline starts at its bearing.
    assert_eq!(m.v_origin(0, &[]), Some(30));
    // In an instance the outline is not known: the ascent.
    assert_eq!(m.v_origin(1, &[0x1000]), Some(800));
    let flat = GlyphMetrics { vmtx: None, ..metrics() };
    // Centred: 1000 of line, 700 of glyph, 150 above the top.
    assert_eq!(flat.v_origin(1, &[]), Some(800));
    assert_eq!(bare().v_origin(1, &[]), Some(800));
    let vorg = bytes(&[1, 0, 880, 1, 1, 867]);
    let listed = GlyphMetrics { vorg: Some(vorg), ..bare() };
    assert_eq!((listed.v_origin(0, &[]), listed.v_origin(1, &[])), (Some(880), Some(867)));
    let b = BoundingBox { x_min: 0, y_min: 0, x_max: 0, y_max: 101 };
    assert_eq!(centred_origin(b, 100), 100);
}

#[test]
fn extents_start_at_the_bearing() {
    let m = metrics();
    assert_eq!(
        m.extents(1, &[]),
        Some(GlyphExtents { x_bearing: 20, y_bearing: 650, width: 400, height: -700 })
    );
    assert_eq!(
        m.extents(0, &[]),
        Some(GlyphExtents { x_bearing: 0, y_bearing: 0, width: 0, height: 0 })
    );
    assert_eq!(m.extents(1, &[1]), None);
    assert_eq!(m.extents(9, &[]), None);
    assert_eq!(bare().extents(0, &[]), None);
    let e = box_extents((1, 2, 3, 7), None);
    assert_eq!(box_extents((3, 7, 1, 2), None), e);
    assert_eq!((e.x_bearing, e.y_bearing, e.width, e.height), (1, 7, 2, -5));
}

#[test]
fn tables_that_are_too_short_are_left_out() {
    let m = GlyphMetrics::new(
        None,
        Some(vec![0; 19]),
        None,
        Some(vec![0; 24]),
        Some(vec![0; 7]),
        Some((vec![0; 3], false)),
        Some(vec![]),
        None,
        Some(vec![0; 12]),
        basics(),
    );
    assert!(m.hvar.is_none() && m.vvar.is_some() && m.vorg.is_none());
    assert!(m.glyf.is_none() && m.mvar.is_some());
    // A table that says nothing adds nothing.
    assert_eq!(m.v_origin(0, &[5]), Some(800));
    assert_eq!(m.advance_height(0, &[5]), Some(1000));
}

fn line(ids: &[u32]) -> (Vec<GlyphInfo>, Vec<GlyphPosition>) {
    let infos = ids.iter().map(|g| GlyphInfo { glyph_id: *g, mask: 0, cluster: 0 }).collect();
    (infos, vec![GlyphPosition::default(); ids.len()])
}

#[test]
fn advances_of_a_line_are_scaled() {
    let (infos, mut pos) = line(&[0, 1]);
    pos.push(GlyphPosition { x_advance: 7, y_offset: 3, ..GlyphPosition::default() });
    metrics().populate_advance_widths(&infos, &mut pos, &[], |v| v * 2);
    assert_eq!(pos.iter().map(|p| p.x_advance).collect::<Vec<_>>(), vec![1000, 1200, 14]);
    assert_eq!(pos[2].y_offset, 3);
}

fn with_builtin<T>(f: impl FnOnce(BuiltinFontFuncs) -> T) -> T {
    let table = cmap(3, 1, 97, &[1, 2, 0]);
    let charmap = Charmap::from_tables(Some(&table), 0);
    let metrics = metrics();
    f(BuiltinFontFuncs { charmap: &charmap, metrics: &metrics, coords: &[], pua: &[] })
}

#[test]
fn font_funcs_default_fallback_is_available() {
    with_builtin(|builtin| {
        assert_eq!(builtin.nominal_glyph(97), Some(1));
        assert_eq!(builtin.variant_glyph(97, 0xFE00), None);
        assert_eq!(builtin.advance_width(1), 600);
        assert_eq!(builtin.horizontal_origin(1), 300);
        assert_eq!(builtin.advance_height(1), 900);
        assert_eq!(builtin.vertical_origin(1), (300, 650));
        assert_eq!(builtin.extents(1).unwrap().width, 400);
        let mut dummy = DummyFontFuncs;
        assert_eq!(dummy.nominal_glyph(&builtin, 98), Some(2));
        assert_eq!(dummy.advance_width(&builtin, 0), 500);
    });
    assert_eq!(horizontal_origin(-7), -3);
}

#[test]
fn font_funcs_nominal_override_is_used() {
    struct Force {
        nominal_calls: usize,
    }

    impl FontFuncs for Force {
        fn nominal_glyph(&mut self, _: &BuiltinFontFuncs, _: u32) -> Option<u32> {
            self.nominal_calls += 1;
            Some(0)
        }
    }

    with_builtin(|builtin| {
        let mut d = FontFuncsDispatch::new(builtin, Force { nominal_calls: 0 }, true);
        assert_eq!(d.nominal_glyph(97), Some(0));
        // The second answer comes from the cache.
        assert_eq!(d.nominal_glyph(97), Some(0));
        assert_eq!(d.funcs.nominal_calls, 1);
        assert!(d.has_glyph(98) && d.has_custom_funcs());
        assert_eq!(d.horizontal_origin(1), 300);
    });
}

#[test]
fn font_funcs_advance_width_override_is_used() {
    struct AdvanceFuncs {
        advance_width_calls: usize,
    }

    impl FontFuncs for AdvanceFuncs {
        fn advance_width(&mut self, _: &BuiltinFontFuncs, _: u32) -> i32 {
            self.advance_width_calls += 1;
            100
        }
    }

    with_builtin(|builtin| {
        let mut d = FontFuncsDispatch::new(builtin, AdvanceFuncs { advance_width_calls: 0 }, true);
        assert_eq!(d.advance_width(1), 100);
        assert_eq!(d.horizontal_origin(1), 50);
        assert_eq!(d.funcs.advance_width_calls, 2);
        assert_eq!(d.advance_height(1), 900);
    });
}

#[test]
fn font_funcs_batch_advance_override_is_used() {
    struct BatchAdvanceFuncs {
        batch_calls: usize,
    }

    impl FontFuncs for BatchAdvanceFuncs {
        fn populate_advance_widths(&mut self, _: &BuiltinFontFuncs, batch: &mut AdvanceWidthBatch) {
            self.batch_calls += 1;
            assert!(!batch.is_empty());
            for i in 0..batch.len() {
                batch.set_advance(i, 777);
            }
        }
    }

    let (infos, positions) = line(&[1, 2, 1]);
    let mut batch = AdvanceWidthBatch::new(infos, positions);
    with_builtin(|builtin| {
        let mut d = FontFuncsDispatch::new(builtin, BatchAdvanceFuncs { batch_calls: 0 }, true);
        d.populate_advance_widths(&mut batch);
        assert!(d.funcs.batch_calls > 0);
    });
    assert_eq!(batch.glyph(1), 2);
    assert!(batch.positions.iter().all(|pos| pos.x_advance == 777));
}

#[test]
fn font_funcs_batch_advance_uses_single_glyph_override_by_default() {
    struct AdvanceOnlyFuncs {
        advance_width_calls: usize,
    }

    impl FontFuncs for AdvanceOnlyFuncs {
        fn advance_width(&mut self, _: &BuiltinFontFuncs, _: u32) -> i32 {
            self.advance_width_calls += 1;
            333
        }
    }

    let (infos, positions) = line(&[1, 2, 1]);
    let mut batch = AdvanceWidthBatch::new(infos, positions);
    with_builtin(|builtin| {
        let funcs = AdvanceOnlyFuncs { advance_width_calls: 0 };
        let mut d = FontFuncsDispatch::new(builtin, funcs, true);
        d.populate_advance_widths(&mut batch);
        assert!(d.funcs.advance_width_calls >= 2);
    });
    assert!(batch.positions.iter().all(|pos| pos.x_advance == 333));
}

#[test]
fn font_funcs_vertical_origin_override_is_used() {
    struct VOriginFuncs {
        v_origin_calls: usize,
    }

    impl FontFuncs for VOriginFuncs {
        fn vertical_origin(&mut self, builtin: &BuiltinFontFuncs, glyph: u32) -> (i32, i32) {
            self.v_origin_calls += 1;
            builtin.vertical_origin(glyph)
        }
    }

    with_builtin(|builtin| {
        let mut d = FontFuncsDispatch::new(builtin, VOriginFuncs { v_origin_calls: 0 }, true);
        assert_eq!(d.vertical_origin(1), (300, 650));
        assert_eq!(d.vertical_origin(1), (300, 650));
        assert!(d.funcs.v_origin_calls >= 2);
    });
}

#[test]
fn font_funcs_variant_glyph_override_is_used() {
    struct VariantFuncs {
        variant_calls: usize,
    }

    impl FontFuncs for VariantFuncs {
        fn variant_glyph(&mut self, _: &BuiltinFontFuncs, _: u32, _: u32) -> Option<u32> {
            self.variant_calls += 1;
            Some(1)
        }
    }

    with_builtin(|builtin| {
        let mut d = FontFuncsDispatch::new(builtin, VariantFuncs { variant_calls: 0 }, true);
        assert_eq!(d.variant_glyph('a' as u32, 0xFE0F), Some(1));
        assert!(d.funcs.variant_calls > 0);
    });
}

#[test]
fn font_funcs_advance_height_override_is_used() {
    struct AdvanceHeightFuncs {
        advance_height_calls: usize,
    }

    impl FontFuncs for AdvanceHeightFuncs {
        fn advance_height(&mut self, _: &BuiltinFontFuncs, _: u32) -> i32 {
            self.advance_height_calls += 1;
            50
        }
    }

    with_builtin(|builtin| {
        let funcs = AdvanceHeightFuncs { advance_height_calls: 0 };
        let mut d = FontFuncsDispatch::new(builtin, funcs, true);
        assert_eq!((d.advance_height(1), d.advance_height(2)), (50, 50));
        assert!(d.funcs.advance_height_calls >= 2);
    });
}

#[test]
fn font_funcs_extents_override_is_used() {
    struct ExtentsFuncs {
        extents_calls: usize,
    }

    impl FontFuncs for ExtentsFuncs {
        fn extents(&mut self, default: &BuiltinFontFuncs, glyph: u32) -> Option<GlyphExtents> {
            self.extents_calls += 1;
            default.extents(glyph).map(|mut e| {
                e.width = 999;
                e
            })
        }
    }

    with_builtin(|builtin| {
        let own = builtin.extents(1).unwrap();
        let mut d = FontFuncsDispatch::new(builtin, ExtentsFuncs { extents_calls: 0 }, true);
        assert_eq!(d.extents(1), Some(GlyphExtents { width: 999, ..own }));
        assert!(d.extents(1).is_some());
        assert!(d.funcs.extents_calls >= 2);
    });
}

#[test]
fn a_batch_is_filled_from_the_font() {
    let (infos, positions) = line(&[0, 2]);
    let mut batch = AdvanceWidthBatch::new(infos, positions);
    assert_eq!((batch.len(), batch.is_empty()), (2, false));
    with_builtin(|builtin| builtin.populate_advance_widths(&mut batch));
    assert_eq!(batch.positions[0].x_advance, 500);
    assert_eq!(batch.positions[1].x_advance, 600);
}

#[test]
fn font_funcs_advance_width_override_is_not_scaled() {
    struct AdvanceFuncs;

    impl FontFuncs for AdvanceFuncs {
        fn advance_width(&mut self, _: &BuiltinFontFuncs, _: u32) -> i32 {
            100
        }
    }

    // What the font says is scaled, and what is answered in its place is not.
    let (infos, mut positions) = line(&[1, 2, 1]);
    metrics().populate_advance_widths(&infos, &mut positions, &[], |v| v * 2);
    assert!(positions.iter().all(|pos| pos.x_advance == 1200));
    let mut batch = AdvanceWidthBatch::new(infos, positions);
    with_builtin(|builtin| {
        let mut d = FontFuncsDispatch::new(builtin, AdvanceFuncs, true);
        d.populate_advance_widths(&mut batch);
    });
    assert!(batch.positions.iter().all(|pos| pos.x_advance == 100));
}

/// A font file of these tables, which are in order of their tags.
fn font_file(tables: &[(&[u8; 4], Vec<u8>)]) -> Vec<u8> {
    let n = tables.len();
    let mut file = bytes(&[1, 0, n as u16, 0, 0, 0]);
    let mut at = 12 + 16 * n;
    for (tag, data) in tables {
        file.extend_from_slice(*tag);
        file.extend_from_slice(&[0; 4]);
        file.extend_from_slice(&(at as u32).to_be_bytes());
        file.extend_from_slice(&(data.len() as u32).to_be_bytes());
        at += data.len();
    }
    for (_, data) in tables {
        file.extend_from_slice(data);
    }
    file
}

#[test]
fn tables_are_those_of_the_face() {
    let mut head = vec![0u16; 27];
    head[9] = 2048;
    head[25] = 1;
    let mut hhea = vec![0u16; 18];
    hhea[2] = 800;
    hhea[3] = (-200i16) as u16;
    hhea[17] = 2;
    let map = cmap(3, 1, 97, &[1, 2]);
    let file = font_file(&[
        (b"cmap", map.clone()),
        (b"head", bytes(&head)),
        (b"hhea", bytes(&hhea)),
        (b"hmtx", bytes(&[500, 10, 600, 20])),
        (b"maxp", bytes(&[0, 0x5000, 3])),
    ]);
    let tables = FontTables::read(&file, 0).unwrap();
    assert_eq!(tables.cmap, Some(map));
    assert!(tables.gsub.is_none() && tables.gpos.is_none() && tables.kern.is_none());
    let basics = tables.metrics.basics();
    assert_eq!((basics.num_glyphs, basics.units_per_em), (3, 2048));
    assert_eq!((basics.ascent, basics.descent), (800, -200));
    let metrics = tables.metrics.into_metrics();
    assert_eq!(metrics.advance_width(0, &[]), Some(500));
    assert_eq!(metrics.advance_width(2, &[]), Some(600));
    assert_eq!(metrics.advance_height(0, &[]), Some(1000));
    assert!(metrics.vmtx.is_none() && metrics.glyf.is_none());

    assert!(FontTables::read(&file, 1).is_none());
    assert!(FontTables::read(b"no font", 0).is_none());
    let empty = FontTables::read(&font_file(&[]), 0).unwrap();
    assert_eq!(empty.metrics.basics().units_per_em, DEFAULT_UNITS_PER_EM);
}

#[test]
fn vertical_metrics_need_their_header() {
    let mut vhea = vec![0u16; 18];
    vhea[17] = 1;
    let mut head = vec![0u16; 27];
    head[25] = 0;
    let file = font_file(&[
        (b"glyf", vec![]),
        (b"head", bytes(&head)),
        (b"loca", bytes(&[0, 0])),
        (b"vhea", bytes(&vhea)),
        (b"vmtx", bytes(&[900, 30])),
    ]);
    let metrics = FontTables::read(&file, 0).unwrap().metrics.into_metrics();
    assert_eq!(metrics.advance_height(4, &[]), Some(900));
    assert_eq!(metrics.glyf.map(|g| g.loca_long), Some(false));
}
