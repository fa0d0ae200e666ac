use harfrust::arabic_fallback::{
    synthesize_ligature_lookup, synthesize_single_lookup, FallbackPlan, FallbackTables, IGNORE_MARKS,
};
use harfrust::digest::Digest;
use harfrust::fallback_lookup::{serialize_ligature_lookup, serialize_single_lookup};
use harfrust::font_answers::{
    add_origin, advance_for_direction, advances, answered, coords_from, coords_widened, cstr_bytes,
    extents_for_origin, glyph_from_name, glyph_from_string, glyph_to_string, glyph_with_selector,
    has_callbacks, origin_for_direction, subtract_origin, Answer, Carried, Named,
};
use harfrust::glyph_metrics::GlyphExtents;
use harfrust::lookup_info::{LookupInfo, SubtableKind};
use harfrust::numbers::{parse_number, push_number};
use harfrust::text::{
    buffer_flags, context_text, font_source, join_unicodes, lines, normalize_args, options,
    parse_cluster, parse_unicodes, render_line, serialize_glyphs, serialize_options,
    serialize_unicode, text_source, BufferClusterLevel, BufferFlags, FlagOptions, FontSource, Given,
    OutputOptions, ShownGlyph, TextSource,
};

fn chars(s: &str) -> Vec<char> {
    s.chars().collect()
}

fn text(v: &[char]) -> String {
    v.iter().collect()
}

#[test]
fn numbers_read_as_written() {
    assert_eq!(parse_number(&chars("+1f"), 16), Some(31));
    assert_eq!(parse_number(&chars("4294967295"), 10), Some(u32::MAX));
    assert_eq!(parse_number(&chars("4294967296"), 10), None);
    for bad in ["", "+", "-1", "1 ", "g", "12a"] {
        assert_eq!(parse_number(&chars(bad), 10), None, "{bad}");
    }
    let mut out = Vec::new();
    push_number(&mut out, 0xBEEF, 16);
    assert_eq!(text(&out), "BEEF");
}

#[test]
fn codepoints_are_separated_in_many_ways() {
    assert_eq!(
        parse_unicodes(&chars("U+0056,u+57 0x58;0X59\t005A,,")).map(|t| text(&t)),
        Ok("VWXYZ".to_string())
    );
    assert_eq!(parse_unicodes(&chars("41,\u{a0}42\n")).map(|t| text(&t)), Ok("AB".to_string()));
    assert_eq!(parse_unicodes(&chars("41,xyz")).map_err(|t| text(&t)), Err("xyz".to_string()));
    assert_eq!(parse_unicodes(&chars("D800")).map_err(|t| text(&t)), Err("D800".to_string()));
    assert_eq!(parse_unicodes(&chars("110000")).map_err(|t| text(&t)), Err("110000".to_string()));
}

#[test]
fn text_survives_as_codepoints() {
    let original = chars("a\0b, \u{1F600}\n");
    let joined = join_unicodes(&original);
    assert_eq!(text(&joined), "U+0061,U+0000,U+0062,U+002C,U+0020,U+1F600,U+000A");
    assert_eq!(parse_unicodes(&joined), Ok(original));
    assert_eq!(parse_unicodes(&join_unicodes(&[])), Ok(vec![]));
}

#[test]
fn text_is_shown_with_positions() {
    assert_eq!(text(&serialize_unicode(&chars("a\u{e9}b"), false)), "<U+0061=0|U+00E9=1|U+0062=2>");
    assert_eq!(text(&serialize_unicode(&chars("a\u{e9}b"), true)), "<U+0061=0|U+00E9=1|U+0062=3>");
    assert_eq!(text(&serialize_unicode(&[], true)), "");
}

#[test]
fn empty_lines_and_options_are_dropped() {
    assert_eq!(lines(&chars("a\n\nbc\n"), false), vec![chars("a"), chars("bc")]);
    assert_eq!(lines(&chars("a\n\nbc\n"), true), vec![chars("a\n\nbc\n")]);
    assert_eq!(options(&chars(" --ned  -v ")), vec![chars("--ned"), chars("-v")]);
}

#[test]
fn cluster_levels_are_digits() {
    assert_eq!(parse_cluster(&chars("0")), Some(BufferClusterLevel::MonotoneGraphemes));
    assert_eq!(parse_cluster(&chars("1")), Some(BufferClusterLevel::MonotoneCharacters));
    assert_eq!(parse_cluster(&chars("2")), Some(BufferClusterLevel::Characters));
    assert_eq!(parse_cluster(&chars("3")), Some(BufferClusterLevel::Graphemes));
    assert_eq!(parse_cluster(&chars("4")), None);
    assert_eq!(parse_cluster(&chars("00")), None);
}

#[test]
fn short_options_stand_for_others() {
    let none = OutputOptions {
        short_v: false,
        verbose: false,
        ned: false,
        show_text: false,
        show_unicode: false,
        show_line_num: false,
        no_glyph_names: false,
        no_positions: false,
        no_advances: false,
        no_clusters: false,
        show_extents: false,
        show_flags: false,
    };
    let v = normalize_args(OutputOptions { short_v: true, ..none });
    assert!(v.verbose && v.ned && v.show_text && v.show_unicode && v.show_line_num);
    assert_eq!(normalize_args(none), none);
    let s = serialize_options(&v);
    assert!(s.no_clusters && s.no_advances && !s.no_positions && !s.glyph_flags);
}

#[test]
fn text_comes_from_where_it_is_given_first() {
    let given = Given {
        font_file: false,
        first_argument: true,
        second_argument: true,
        text_file: false,
        unicodes: true,
        text: true,
    };
    assert_eq!(font_source(&given), FontSource::FirstArgument);
    assert_eq!(text_source(&given), TextSource::SecondArgument);
    let option = Given { font_file: true, ..given };
    assert_eq!(font_source(&option), FontSource::Option);
    assert_eq!(text_source(&option), TextSource::FirstArgument);
    assert_eq!(text_source(&Given { text_file: true, ..given }), TextSource::File);
    let bare = Given { second_argument: false, ..given };
    assert_eq!(text_source(&bare), TextSource::Unicodes);
    assert_eq!(text_source(&Given { unicodes: false, ..bare }), TextSource::Text);
    let nothing = Given { unicodes: false, text: false, ..bare };
    assert_eq!(text_source(&nothing), TextSource::Input);
    assert_eq!(font_source(&Given { first_argument: false, ..given }), FontSource::Missing);
}

#[test]
fn serializes_single_substitution_lookup() {
    let data = serialize_single_lookup(&[(3, 8), (7, 9)], IGNORE_MARKS).unwrap();
    assert_eq!(
        data,
        [
            0, 1, 0, 8, 0, 1, 0, 8, // Lookup
            0, 2, 0, 10, 0, 2, 0, 8, 0, 9, // SingleSubstFormat2
            0, 1, 0, 2, 0, 3, 0, 7, // CoverageFormat1
        ]
    );
    assert!(LookupInfo::new_subst(&data, &[]).is_some());
    assert!(serialize_single_lookup(&vec![(1, 2); 32764], 0).is_some());
    assert!(serialize_single_lookup(&vec![(1, 2); 32765], 0).is_none());
}

#[test]
fn serializes_ligature_substitution_lookup() {
    let data = serialize_ligature_lookup(
        &[([3, 4], 9), ([3, 5], 10), ([7, 8], 11)],
        IGNORE_MARKS,
    )
    .unwrap();
    let info = LookupInfo::new_subst(&data, &[]).unwrap();
    assert_eq!(info.subtables[0].kind, SubtableKind::LigatureSubst1);
    assert_eq!(info.digest, Digest::from_glyphs(&[3, 7]));
    assert_eq!(info.props, 8);
    assert_eq!(
        data,
        [
            0, 4, 0, 8, 0, 1, 0, 8, // Lookup
            0, 1, 0, 10, 0, 2, 0, 18, 0, 36, // LigatureSubstFormat1
            0, 1, 0, 2, 0, 3, 0, 7, // CoverageFormat1
            0, 2, 0, 6, 0, 12, // The set of 3
            0, 9, 0, 2, 0, 4, 0, 10, 0, 2, 0, 5, //
            0, 1, 0, 4, // The set of 7
            0, 11, 0, 2, 0, 8,
        ]
    );
}

/// A font that has glyph `c + 1` for characters up to 99, and no others but one.
fn glyph_of(c: u32) -> Option<u32> {
    if c < 100 {
        Some(c + 1)
    } else if c == 500 {
        Some(0x1_0000)
    } else {
        None
    }
}

#[test]
fn letters_are_mapped_to_their_forms_in_order() {
    let letters = [(30, [40, 0, 0, 0]), (10, [20, 0, 0, 0]), (11, [200, 0, 0, 0]), (12, [12, 0, 0, 0])];
    let l = synthesize_single_lookup(&glyph_of, &letters, 0, 4, &[]).unwrap();
    assert_eq!(l.mask, 4);
    assert_eq!(l.data, serialize_single_lookup(&[(11, 21), (31, 41)], IGNORE_MARKS).unwrap());
    assert!(synthesize_single_lookup(&glyph_of, &letters, 1, 4, &[]).is_none());
}

#[test]
fn ligatures_need_every_glyph() {
    let rules = [([30, 31], 32), ([10, 500], 12), ([10, 12], 13), ([10, 11], 14), ([5, 6], 300)];
    let l = synthesize_ligature_lookup(&glyph_of, &rules, 0, 1, &[]).unwrap();
    let expected =
        serialize_ligature_lookup(&[([11, 13], 14), ([11, 12], 15), ([31, 32], 33)], 0).unwrap();
    assert_eq!(l.data, expected);
    let none: [([u16; 2], u16); 1] = [([500, 1], 2)];
    assert!(synthesize_ligature_lookup(&glyph_of, &none, 0, 1, &[]).is_none());
}

#[test]
fn a_plan_has_a_lookup_for_each_feature_that_is_on() {
    let tables = FallbackTables {
        letters: &[(10, [20, 21, 0, 23])],
        ligatures_3: &[([1, 2, 3], 4)],
        ligatures: &[([1, 2], 4)],
        mark_ligatures: &[([5, 6], 7)],
    };
    let plan = FallbackPlan::new(&glyph_of, &tables, [1, 0, 3, 4, 5, 0, 7], &[]).unwrap();
    let masks: Vec<u32> = plan.lookups.iter().map(|l| l.mask).collect();
    assert_eq!(masks, vec![1, 4, 5, 7]);
    assert_eq!(plan.lookups[3].info.props, 0);
    assert_eq!(plan.lookups[2].info.props, 8);
    assert!(FallbackPlan::new(&glyph_of, &tables, [0; 7], &[]).is_none());
}

#[test]
fn a_chain_of_fonts_answers_with_the_nearest_callbacks() {
    assert!(has_callbacks(&[Carried::Nothing, Carried::Builtin, Carried::Custom]));
    assert!(!has_callbacks(&[Carried::Nothing, Carried::Builtin]));
    assert_eq!(answered(None, Some(3)), None);
    assert_eq!(answered(Some(Answer::Value(4)), Some(3)), Some(4));
    assert_eq!(answered(Some(Answer::Builtin), Some(3)), Some(3));
    assert_eq!(glyph_with_selector(0, Some(1), Some(2)), Some(2));
    assert_eq!(glyph_with_selector(0xFE00, Some(1), Some(2)), Some(1));
    assert_eq!(glyph_with_selector(0xFE00, None, Some(2)), Some(2));
}

#[test]
fn origins_follow_the_direction() {
    assert_eq!(advance_for_direction(true, 5, 6), (5, 0));
    assert_eq!(advance_for_direction(false, 5, 6), (0, 6));
    assert_eq!(origin_for_direction(true, Some((1, 2)), 9, 8), (0, 0));
    assert_eq!(origin_for_direction(false, Some((1, 2)), 9, 8), (1, 2));
    assert_eq!(origin_for_direction(false, None, -9, 8), (-4, 8));
    assert_eq!(add_origin((1, 2), (10, i32::MAX)), (11, i32::MAX));
    assert_eq!(subtract_origin(add_origin((1, 2), (10, 20)), (10, 20)), (1, 2));
    let e = GlyphExtents { x_bearing: 10, y_bearing: 20, width: 5, height: -6 };
    assert_eq!(
        extents_for_origin(e, (3, 4)),
        GlyphExtents { x_bearing: 7, y_bearing: 16, width: 5, height: -6 }
    );
}

#[test]
fn names_are_cut_and_found() {
    assert_eq!(cstr_bytes(b"abc", 3), b"ab\0");
    assert_eq!(cstr_bytes(b"abc", 9), b"abc\0");
    assert_eq!(cstr_bytes(b"abc", 1), b"\0");
    let names = [None, Some(chars("A")), Some(chars("B")), Some(chars("A"))];
    assert_eq!(glyph_from_name(&names, &chars("A")), Some(1));
    assert_eq!(glyph_from_name(&names, &chars("C")), None);
    assert_eq!(text(&glyph_to_string(None, 120)), "gid120");
    assert_eq!(glyph_from_string(None, &glyph_to_string(None, 120)), Named::Glyph(120));
    assert_eq!(glyph_from_string(None, &chars("17")), Named::Glyph(17));
    assert_eq!(glyph_from_string(None, &chars("uni0041")), Named::Character(0x41));
    assert_eq!(glyph_from_string(None, &chars("gidx")), Named::Nothing);
    assert_eq!(glyph_from_string(None, &chars("Aacute")), Named::Nothing);
    // The face's own names come first.
    assert_eq!(text(&glyph_to_string(Some(&chars("A")), 120)), "A");
    assert_eq!(glyph_from_string(Some(4), &chars("17")), Named::Glyph(4));
}

#[test]
fn coordinates_keep_their_low_bits() {
    assert_eq!(coords_from(&[0x4000, -0x4000, 0x1_8000, 70000]), vec![0x4000, -0x4000, -0x8000, 4464]);
    assert_eq!(coords_from(&coords_widened(&[-5, 7])), vec![-5, 7]);
    assert_eq!(advances(&[1, 2], |g| g as i32 * 10), vec![10, 20]);
}

fn no_output() -> OutputOptions {
    OutputOptions {
        short_v: false,
        verbose: false,
        ned: false,
        show_text: false,
        show_unicode: false,
        show_line_num: false,
        no_glyph_names: false,
        no_positions: false,
        no_advances: false,
        no_clusters: false,
        show_extents: false,
        show_flags: false,
    }
}

#[test]
fn lines_are_shown_with_what_is_asked_for() {
    let mut o = no_output();
    let line = chars("ab");
    assert_eq!(text(&render_line(&o, 3, &line, false, &chars("[1]"))), "[1]\n");
    o.show_line_num = true;
    assert_eq!(text(&render_line(&o, 12, &line, false, &chars("[1]"))), "12: [1]\n");
    o.show_text = true;
    o.show_unicode = true;
    assert_eq!(
        text(&render_line(&o, 3, &line, false, &chars("[1]"))),
        "3: (ab)\n3: <U+0061=0|U+0062=1>\n3: [1]\n"
    );
}

#[test]
fn glyphs_are_written_with_clusters_and_advances() {
    let glyphs = [
        ShownGlyph { glyph: 7, cluster: 0, advance: 500 },
        ShownGlyph { glyph: 12, cluster: 1, advance: -3 },
    ];
    let mut o = no_output();
    assert_eq!(text(&serialize_glyphs(&glyphs, &serialize_options(&o))), "[7=0+500|12=1+-3]");
    o.ned = true;
    assert_eq!(text(&serialize_glyphs(&glyphs, &serialize_options(&o))), "[7|12]");
    assert_eq!(text(&serialize_glyphs(&[], &serialize_options(&o))), "[]");
}

#[test]
fn flags_and_contexts_follow_the_options() {
    let args = FlagOptions {
        bot: true,
        eot: false,
        preserve_default_ignorables: false,
        remove_default_ignorables: true,
        unsafe_to_concat: true,
        safe_to_insert_tatweel: false,
        verify: false,
    };
    assert_eq!(
        buffer_flags(&args),
        BufferFlags {
            beginning_of_text: true,
            remove_default_ignorables: true,
            produce_unsafe_to_concat: true,
            ..BufferFlags::empty()
        }
    );
    let (a, b) = (chars("a"), chars("b"));
    assert_eq!(context_text(Some(&a), Some(&b)), Some(&a[..]));
    assert_eq!(context_text(None, Some(&b)), Some(&b[..]));
    assert_eq!(context_text(None, None), None);
}
