use harfrust::buffer::{GlyphInfo, GlyphPosition};
use harfrust::shape_plan::{
    Direction, Feature, Language, Script, ShapePlan, ShapePlanKey, HB_FEATURE_GLOBAL_END,
    HB_FEATURE_GLOBAL_START,
};
use harfrust::text::{BufferClusterLevel, BufferFlags};
use harfrust::text_buffer::{
    Buffer, BufferContentType, ContentTypeError, GlyphBuffer, ShapeError, UnicodeBuffer,
    UNKNOWN_SCRIPT,
};

const TEXT: &str = "Hello, world!";
const LATIN: Script = Script(0x4C61_746E);
const ARABIC: Script = Script(0x4172_6162);

fn at_the_start() -> BufferFlags {
    BufferFlags { beginning_of_text: true, ..BufferFlags::empty() }
}

fn at_the_start_and_verified() -> BufferFlags {
    BufferFlags { verify: true, ..at_the_start() }
}

fn ids_and_clusters(infos: &[GlyphInfo]) -> Vec<(u32, u32)> {
    infos.iter().map(|i| (i.glyph_id, i.cluster)).collect()
}

fn unicode_buffer(text: &str) -> Buffer {
    let mut buffer = Buffer::new();
    buffer.push_str(text);
    buffer.guess_segment_properties(Some(LATIN), Some(Direction::LeftToRight), None);
    buffer
}

#[test]
fn new_buffer_has_no_content_type() {
    let buffer = Buffer::new();
    assert_eq!(buffer.content_type(), None);
    assert!(buffer.is_empty());
    assert_eq!(buffer.len(), 0);
}

#[test]
fn adding_text_sets_unicode_content_type() {
    let mut buffer = Buffer::new();
    buffer.push_str(TEXT);
    assert_eq!(buffer.content_type(), Some(BufferContentType::Unicode));
    assert_eq!(buffer.len(), TEXT.chars().count());

    let mut buffer = Buffer::new();
    buffer.push('x' as u32, 0);
    assert_eq!(buffer.content_type(), Some(BufferContentType::Unicode));

    let mut buffer = Buffer::new();
    buffer.push_codepoints(&['a' as u32, 'b' as u32]);
    assert_eq!(buffer.content_type(), Some(BufferContentType::Unicode));
    assert_eq!(buffer.len(), 2);
}

#[test]
fn glyph_infos_readable_before_shaping() {
    let mut buffer = Buffer::new();
    buffer.push_str(TEXT);
    // Before shaping, `glyph_id` holds the input codepoint.
    let codepoints: Vec<u32> = buffer.glyph_infos().iter().map(|i| i.glyph_id).collect();
    assert_eq!(
        codepoints,
        TEXT.chars().map(|c| c as u32).collect::<Vec<_>>()
    );
    // ... and no positions have been allocated yet.
    assert!(buffer.glyph_positions().is_empty());
}

#[test]
fn glyph_positions_mut_allocates_on_demand() {
    let mut buffer = Buffer::new();
    buffer.push_str(TEXT);
    assert!(buffer.glyph_positions().is_empty());
    let positions = buffer.glyph_positions_mut();
    assert_eq!(positions.len(), TEXT.chars().count());
    assert!(positions
        .iter()
        .all(|p| p.x_advance == 0 && p.y_advance == 0));
}

#[test]
fn shaping_a_shaped_buffer_is_refused() {
    let mut buffer = unicode_buffer(TEXT);
    buffer.set_content_type(Some(BufferContentType::Glyphs));
    let once = ids_and_clusters(buffer.glyph_infos());
    assert_eq!(buffer.check_shape(None), Err(ShapeError::AlreadyShaped));
    assert_eq!(
        ids_and_clusters(buffer.glyph_infos()),
        once,
        "a refused call must leave the buffer alone"
    );

    // Relabelling the contents is how you ask for them to be shaped again.
    buffer.set_content_type(Some(BufferContentType::Unicode));
    assert!(buffer.check_shape(None).is_ok());
}

#[test]
fn shaping_without_a_direction_is_refused() {
    let mut buffer = Buffer::new();
    buffer.push_str(TEXT);
    // No direction, and none guessed.
    assert_eq!(buffer.direction, Direction::Invalid);
    assert_eq!(buffer.check_shape(None), Err(ShapeError::DirectionUnset));
    assert_eq!(
        buffer.content_type(),
        Some(BufferContentType::Unicode),
        "a refused call must leave the buffer alone"
    );

    buffer.guess_segment_properties(Some(LATIN), Some(Direction::LeftToRight), None);
    assert!(buffer.check_shape(None).is_ok());
}

#[test]
fn shaping_with_a_mismatched_plan_is_refused() {
    let plan = ShapePlan::new(Direction::RightToLeft, Some(ARABIC), None, [None; 2], &[]);
    let buffer = unicode_buffer(TEXT);
    // The direction is checked first.
    assert_eq!(
        buffer.check_shape(Some(&plan)).unwrap_err(),
        ShapeError::DirectionMismatch {
            plan: Direction::RightToLeft,
            buffer: Direction::LeftToRight,
        }
    );
    assert_eq!(buffer.content_type(), Some(BufferContentType::Unicode));

    // With the direction agreed, the script is checked next.
    let plan = ShapePlan::new(Direction::LeftToRight, Some(ARABIC), None, [None; 2], &[]);
    assert_eq!(
        buffer.check_shape(Some(&plan)).unwrap_err(),
        ShapeError::ScriptMismatch {
            plan: ARABIC,
            buffer: LATIN,
        }
    );
}

#[test]
fn a_matching_plan_shapes() {
    let plan = ShapePlan::new(Direction::LeftToRight, Some(LATIN), None, [None; 2], &[]);
    let planned = unicode_buffer(TEXT);
    assert!(planned.check_shape(Some(&plan)).is_ok());
}

#[test]
fn shape_errors_describe_themselves() {
    assert_eq!(
        ShapeError::AlreadyShaped.to_string(),
        "buffer already holds shaped glyphs"
    );
    assert_eq!(
        ShapeError::DirectionMismatch {
            plan: Direction::RightToLeft,
            buffer: Direction::LeftToRight,
        }
        .to_string(),
        "buffer direction does not match plan direction: LeftToRight != RightToLeft"
    );
    assert_eq!(ShapeError::DirectionUnset.to_string(), "buffer direction is not set");
    assert_eq!(
        ShapeError::ScriptMismatch { plan: ARABIC, buffer: LATIN }.to_string(),
        "buffer script does not match plan script"
    );
}

#[test]
fn round_trip_through_unicode_buffer() {
    let mut typed = UnicodeBuffer { buffer: Buffer::new() };
    typed.buffer.push_str(TEXT);
    typed.buffer.set_direction(Direction::LeftToRight);

    let unified = typed.into_buffer();
    assert_eq!(unified.content_type(), Some(BufferContentType::Unicode));
    assert_eq!(unified.direction, Direction::LeftToRight);
    assert_eq!(unified.len(), TEXT.chars().count());

    let back = UnicodeBuffer::try_from(unified).expect("unicode content should convert back");
    assert_eq!(back.buffer.len(), TEXT.chars().count());
    assert_eq!(back.buffer.direction, Direction::LeftToRight);
}

#[test]
fn round_trip_through_glyph_buffer() {
    let mut buffer = unicode_buffer(TEXT);
    buffer.set_content_type(Some(BufferContentType::Glyphs));
    let expected = ids_and_clusters(buffer.glyph_infos());

    let unified = GlyphBuffer { buffer }.into_buffer();
    assert_eq!(unified.content_type(), Some(BufferContentType::Glyphs));
    assert_eq!(ids_and_clusters(unified.glyph_infos()), expected);

    let back = GlyphBuffer::try_from(unified).expect("glyph content should convert back");
    assert_eq!(ids_and_clusters(back.buffer.glyph_infos()), expected);
}

#[test]
fn conversions_reject_mismatched_content() {
    // A shaped buffer is not a UnicodeBuffer.
    let mut buffer = unicode_buffer(TEXT);
    buffer.set_content_type(Some(BufferContentType::Glyphs));
    let err = UnicodeBuffer::try_from(buffer).unwrap_err();
    assert_eq!(err.found, Some(BufferContentType::Glyphs));
    assert_eq!(err.expected, BufferContentType::Unicode);

    // ... and an unshaped one is not a GlyphBuffer.
    let mut buffer = Buffer::new();
    buffer.push_str(TEXT);
    let err = GlyphBuffer::try_from(buffer).unwrap_err();
    assert_eq!(
        err,
        ContentTypeError {
            found: Some(BufferContentType::Unicode),
            expected: BufferContentType::Glyphs,
        }
    );
}

#[test]
fn empty_buffer_converts_either_way() {
    // With no content type set, an empty buffer is still valid input.
    assert!(UnicodeBuffer::try_from(Buffer::new()).is_ok());
    assert!(GlyphBuffer::try_from(Buffer::new()).is_err());
}

#[test]
fn clear_resets_content_type() {
    let mut buffer = Buffer::new();
    buffer.push_str(TEXT);
    assert_eq!(buffer.content_type(), Some(BufferContentType::Unicode));
    buffer.clear();
    assert_eq!(buffer.content_type(), None);
    assert!(buffer.is_empty());
}

#[test]
fn reset_restores_defaults() {
    let mut buffer = Buffer::new();
    buffer.push_str(TEXT);
    buffer.set_direction(Direction::RightToLeft);
    buffer.set_cluster_level(BufferClusterLevel::Characters);
    buffer.set_flags(at_the_start());

    buffer.reset();
    assert_eq!(buffer.content_type(), None);
    assert_eq!(buffer.direction, Direction::Invalid);
    assert_eq!(buffer.cluster_level, BufferClusterLevel::MonotoneGraphemes);
    assert_eq!(buffer.flags, BufferFlags::empty());
}

#[test]
fn set_length_grows_and_truncates() {
    let mut buffer = Buffer::new();
    buffer.push_str(TEXT);
    let original = buffer.len();

    assert!(buffer.set_length(original + 3));
    assert_eq!(buffer.len(), original + 3);
    assert!(buffer.glyph_infos()[original..]
        .iter()
        .all(|i| i.glyph_id == 0));

    assert!(buffer.set_length(2));
    assert_eq!(buffer.len(), 2);
}

#[test]
fn reverse_and_reverse_clusters() {
    let mut buffer = Buffer::new();
    // Two clusters of two items each.
    buffer.push('a' as u32, 0);
    buffer.push('b' as u32, 0);
    buffer.push('c' as u32, 1);
    buffer.push('d' as u32, 1);

    let mut reversed = Buffer::new();
    reversed.push_glyph_infos(buffer.glyph_infos());
    reversed.reverse();
    let codepoints: Vec<u32> = reversed.glyph_infos().iter().map(|i| i.glyph_id).collect();
    assert_eq!(
        codepoints,
        vec!['d' as u32, 'c' as u32, 'b' as u32, 'a' as u32]
    );

    // Reversing by cluster keeps each cluster's items in their original order.
    buffer.reverse_clusters();
    let codepoints: Vec<u32> = buffer.glyph_infos().iter().map(|i| i.glyph_id).collect();
    assert_eq!(
        codepoints,
        vec!['c' as u32, 'd' as u32, 'a' as u32, 'b' as u32]
    );
}

#[test]
fn push_str_records_codepoints_at_their_byte_offsets() {
    let text = "a\u{e9}\u{4e2d}\u{1f600}b";
    let mut buffer = Buffer::new();
    buffer.push_str(text);
    assert_eq!(
        ids_and_clusters(buffer.glyph_infos()),
        text.char_indices()
            .map(|(i, c)| (c as u32, i as u32))
            .collect::<Vec<_>>()
    );
}

fn filled(items: &[(u32, u32)]) -> Buffer {
    let mut buffer = Buffer::new();
    for &(codepoint, cluster) in items {
        buffer.push(codepoint, cluster);
    }
    buffer
}

const ITEMS: &[(u32, u32)] = &[(9, 3), (8, 3), (7, 0), (6, 5), (5, 5), (4, 5), (3, 3)];

#[test]
fn reverse_is_an_involution() {
    let mut buffer = filled(ITEMS);
    buffer.glyph_positions_mut()[0].x_advance = 4;
    buffer.reverse();
    assert_eq!(buffer.glyph_positions()[6].x_advance, 4);
    buffer.reverse();
    assert_eq!(ids_and_clusters(buffer.glyph_infos()), ITEMS);
    assert_eq!(buffer.glyph_positions()[0].x_advance, 4);
}

#[test]
fn reverse_clusters_reverses_runs_and_not_their_contents() {
    let mut buffer = filled(ITEMS);
    buffer.reverse_clusters();
    assert_eq!(
        ids_and_clusters(buffer.glyph_infos()),
        [(3, 3), (6, 5), (5, 5), (4, 5), (7, 0), (9, 3), (8, 3)]
    );
}

#[test]
fn reset_clusters_numbers_items_from_zero() {
    let mut buffer = filled(ITEMS);
    buffer.reset_clusters();
    let expected: Vec<(u32, u32)> =
        ITEMS.iter().enumerate().map(|(i, (c, _))| (*c, i as u32)).collect();
    assert_eq!(ids_and_clusters(buffer.glyph_infos()), expected);
}

#[test]
fn set_length_truncates_or_zero_fills() {
    for len in [0, 3, 7, 12] {
        let mut buffer = filled(ITEMS);
        let mut expected = ITEMS.to_vec();
        expected.truncate(len);
        expected.resize(len, (0, 0));
        assert!(buffer.set_length(len));
        assert_eq!(ids_and_clusters(buffer.glyph_infos()), expected);
    }
}

fn configured() -> Buffer {
    let mut buffer = filled(ITEMS);
    buffer.set_direction(Direction::TopToBottom);
    buffer.set_script(ARABIC);
    buffer.set_language(Language { name: b"ar".to_vec() });
    buffer.set_cluster_level(BufferClusterLevel::Graphemes);
    buffer.set_flags(at_the_start_and_verified());
    buffer.set_invisible_glyph(Some(3));
    buffer.not_found_variation_selector_glyph = Some(7);
    buffer
}

#[test]
fn settings_survive_the_unicode_buffer_round_trip() {
    let back = UnicodeBuffer::try_from(configured()).unwrap().into_buffer();
    assert_eq!(back.direction, Direction::TopToBottom);
    assert_eq!(back.script, ARABIC);
    assert_eq!(back.language.unwrap().name, b"ar".to_vec());
    assert_eq!((back.flags, back.invisible_glyph), (at_the_start_and_verified(), Some(3)));
    assert_eq!(back.not_found_variation_selector_glyph, Some(7));
}

#[test]
fn contents_survive_the_unicode_buffer_round_trip() {
    let back = UnicodeBuffer::try_from(filled(ITEMS)).unwrap().into_buffer();
    assert_eq!(ids_and_clusters(back.glyph_infos()), ITEMS);
}

#[test]
fn clear_empties_the_buffer_and_drops_the_segment_properties() {
    let mut buffer = configured();
    buffer.clear();
    assert!(buffer.is_empty());
    assert_eq!(buffer.content_type(), None);
    assert_eq!(buffer.direction, Direction::Invalid);
    assert_eq!(buffer.script, Script(UNKNOWN_SCRIPT));
    assert!(buffer.language.is_none());
    assert_eq!(buffer.cluster_level, BufferClusterLevel::MonotoneGraphemes);
}

#[test]
fn clear_keeps_the_flags_and_the_invisible_glyph() {
    let mut buffer = configured();
    buffer.clear();
    assert_eq!(buffer.flags, at_the_start_and_verified());
    assert_eq!(buffer.invisible_glyph, Some(3));
}

#[test]
fn reset_leaves_a_buffer_indistinguishable_from_a_new_one() {
    let mut buffer = configured();
    buffer.reset();
    let fresh = Buffer::new();
    assert_eq!(buffer.direction, fresh.direction);
    assert_eq!(buffer.script, fresh.script);
    assert!(buffer.language.is_none() && fresh.language.is_none());
    assert_eq!(buffer.flags, fresh.flags);
    assert_eq!(buffer.invisible_glyph, fresh.invisible_glyph);
    assert_eq!(
        buffer.not_found_variation_selector_glyph,
        fresh.not_found_variation_selector_glyph
    );
    assert_eq!(buffer.len(), fresh.len());
    assert_eq!(buffer.content_type(), fresh.content_type());
}

#[test]
fn set_content_type_only_relabels() {
    for content_type in [None, Some(BufferContentType::Glyphs), Some(BufferContentType::Unicode)] {
        let mut buffer = filled(ITEMS);
        buffer.set_content_type(content_type);
        assert_eq!(ids_and_clusters(buffer.glyph_infos()), ITEMS);
        assert_eq!(buffer.content_type(), content_type);
    }
}

#[test]
fn guess_segment_properties_is_idempotent() {
    let mut buffer = filled(ITEMS);
    buffer.set_script(ARABIC);
    buffer.guess_segment_properties(Some(LATIN), Some(Direction::RightToLeft), None);
    assert_eq!((buffer.direction, buffer.script), (Direction::RightToLeft, ARABIC));
    buffer.guess_segment_properties(Some(LATIN), Some(Direction::LeftToRight), None);
    assert_eq!((buffer.direction, buffer.script), (Direction::RightToLeft, ARABIC));
}

#[test]
fn guess_segment_properties_always_resolves_a_direction() {
    let mut buffer = filled(ITEMS);
    buffer.guess_segment_properties(None, None, None);
    assert_ne!(buffer.direction, Direction::Invalid);
}

#[test]
fn a_refused_shape_call_changes_nothing() {
    let latin = ShapePlan::new(Direction::RightToLeft, Some(LATIN), None, [None; 2], &[]);
    let mut buffer = filled(ITEMS);
    buffer.set_direction(Direction::LeftToRight);
    assert!(buffer.check_shape(Some(&latin)).is_err());
    assert_eq!(ids_and_clusters(buffer.glyph_infos()), ITEMS);
    assert_eq!(buffer.content_type(), Some(BufferContentType::Unicode));
    assert_eq!(buffer.positions, Vec::<GlyphPosition>::new());
}

#[test]
fn test_shape_plan_is_send_and_sync() {
    fn ensure_send_and_sync<T: Send + Sync>() {}
    ensure_send_and_sync::<ShapePlan>();
}

fn feature(tag: u32, start: u32, end: u32) -> Feature {
    Feature { tag, value: 1, start, end }
}

fn arabic() -> Language {
    Language { name: b"ar".to_vec() }
}

fn plan(features: &[Feature]) -> ShapePlan {
    ShapePlan::new(
        Direction::RightToLeft,
        Some(ARABIC),
        Some(arabic()),
        [Some(3), None],
        features,
    )
}

#[test]
fn a_key_matches_the_plan_built_from_the_same_properties() {
    let features = [feature(1, 0, 5), feature(2, HB_FEATURE_GLOBAL_START, HB_FEATURE_GLOBAL_END)];
    let language = arabic();
    let key = ShapePlanKey::new(Some(ARABIC), Direction::RightToLeft)
        .language(Some(&language))
        .instance(Some([Some(3), None]))
        .features(&features);
    assert!(key.matches(&plan(&features)));
    assert!(!key.matches(&plan(&features[..1])));
}

#[test]
fn a_key_with_different_segment_properties_does_not_match() {
    let language = arabic();
    let other = Language { name: b"hi".to_vec() };
    let key = |script, direction, language| {
        ShapePlanKey::new(script, direction)
            .language(language)
            .instance(Some([Some(3), None]))
            .matches(&plan(&[]))
    };
    assert!(key(Some(ARABIC), Direction::RightToLeft, Some(&language)));
    assert!(!key(Some(LATIN), Direction::RightToLeft, Some(&language)));
    assert!(!key(None, Direction::RightToLeft, Some(&language)));
    assert!(!key(Some(ARABIC), Direction::LeftToRight, Some(&language)));
    assert!(!key(Some(ARABIC), Direction::RightToLeft, Some(&other)));
    assert!(!key(Some(ARABIC), Direction::RightToLeft, None));
    assert!(!ShapePlanKey::new(Some(ARABIC), Direction::RightToLeft)
        .language(Some(&language))
        .matches(&plan(&[])));
}

#[test]
fn a_non_global_features_range_does_not_affect_matching() {
    let language = arabic();
    let key = |features: &[Feature]| {
        ShapePlanKey::new(Some(ARABIC), Direction::RightToLeft)
            .language(Some(&language))
            .instance(Some([Some(3), None]))
            .features(features)
            .matches(&plan(&[feature(1, 2, 5)]))
    };
    assert!(key(&[feature(1, 7, 9)]));
    assert!(key(&[feature(1, 0, HB_FEATURE_GLOBAL_END - 1)]));
    assert!(!key(&[feature(1, HB_FEATURE_GLOBAL_START, HB_FEATURE_GLOBAL_END)]));
    assert!(!key(&[feature(2, 2, 5)]));
}

#[test]
fn properties_round_trip() {
    let mut buffer = Buffer::new();
    assert!(buffer.language().is_none());
    buffer.set_direction(Direction::RightToLeft);
    buffer.set_script(ARABIC);
    buffer.set_language(Language { name: b"ar".to_vec() });
    buffer.set_invisible_glyph(Some(3));
    buffer.set_not_found_variation_selector_glyph(Some(7));
    buffer.set_cluster_level(BufferClusterLevel::Graphemes);
    buffer.set_flags(at_the_start_and_verified());

    assert_eq!(buffer.direction(), Direction::RightToLeft);
    assert_eq!(buffer.script(), ARABIC);
    assert_eq!(buffer.language().unwrap().name, b"ar".to_vec());
    assert_eq!(buffer.invisible_glyph(), Some(3));
    assert_eq!(buffer.not_found_variation_selector_glyph(), Some(7));
    assert_eq!(buffer.cluster_level(), BufferClusterLevel::Graphemes);
    assert_eq!(buffer.flags(), at_the_start_and_verified());
}
