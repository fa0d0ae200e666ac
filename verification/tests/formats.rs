use std::sync::Arc;

use harfrust::bytes::U16Array;
use harfrust::class_map::ClassMap;
use harfrust::contextual::{
    at_chain3, at_chain3_backtrack, at_rules, dismisses, has_value, is_covered, Chain3End, Chain3Step,
    Part,
};
use harfrust::lookup::SubtableKind;
use harfrust::position::{
    at_cursive, at_pair1, at_pair2, at_single_pos, pair_done, second_glyph, Hazard, PairCell, PairRecord,
};
use harfrust::set::GlyphSet;
use harfrust::substitute::{
    at_alternate, at_ligature, at_multiple, at_reverse_chain, at_single_delta, at_single_list,
    length_effect, LengthEffect, Ligated,
};
use harfrust::summary::{pair_class_digests, pair_digests, rule_index, RuleIndex};

fn bytes(words: &[u16]) -> Vec<u8> {
    words.iter().flat_map(|w| w.to_be_bytes()).collect()
}

#[test]
fn a_delta_wraps_in_sixteen_bits() {
    let up = SubtableKind::SingleDelta { delta: 5 };
    assert_eq!(at_single_delta(&up, 10), Some(15));
    assert_eq!(at_single_delta(&up, 0xfffe), Some(3));
    let down = SubtableKind::SingleDelta { delta: -5 };
    assert_eq!(at_single_delta(&down, 3), Some(0xfffe));
    assert_eq!(at_single_delta(&SubtableKind::Ligature { offset: 0 }, 3), None);
}

#[test]
fn a_listed_substitute_is_found_by_rank() {
    let list = SubtableKind::SingleList { subst: U16Array { offset: 2, len: 2 } };
    let table = bytes(&[9, 40, 41]);
    assert_eq!(at_single_list(&list, &table, 1), Some(41));
    assert_eq!(at_single_list(&list, &table, 2), None);
}

#[test]
fn alternates_follow_the_features_value() {
    let kind = SubtableKind::Alternate { offset: 0 };
    // One set of three alternates, at 8.
    let table = bytes(&[1, 0, 1, 8, 3, 70, 71, 72]);
    // The value is in the bits 4 and 5 of the mask.
    let pick = |value: u32, random| at_alternate(&kind, &table, 0, 0x30, value << 4, 3, random);
    assert_eq!(pick(1, None).glyph, Some(70));
    assert_eq!(pick(2, None).glyph, Some(71));
    assert_eq!(pick(3, None).glyph, Some(72));
    assert_eq!(pick(0, None).glyph, None);
    let random = pick(3, Some(7));
    assert_eq!((random.glyph, random.unsafe_to_break), (Some(71), true));
    assert!(!pick(2, Some(7)).unsafe_to_break);
    assert_eq!(at_alternate(&kind, &table, 1, 0x30, 0x10, 3, None).glyph, None);
    let none = bytes(&[1, 0, 1, 8, 0]);
    let r = at_alternate(&kind, &none, 0, 0x30, 0x30, 3, Some(7));
    assert_eq!((r.glyph, r.unsafe_to_break), (None, false));
}

#[test]
fn a_glyph_becomes_a_sequence() {
    let kind = SubtableKind::Multiple { offset: 0 };
    let table = bytes(&[1, 0, 2, 10, 14, 1, 5, 2, 6, 7]);
    assert_eq!(at_multiple(&kind, &table, 0), Some(vec![5]));
    assert_eq!(at_multiple(&kind, &table, 1), Some(vec![6, 7]));
    assert_eq!(at_multiple(&kind, &table, 2), None);
    assert_eq!(at_multiple(&kind, &table[..18], 1), None);
    assert_eq!(length_effect(&table, 0), LengthEffect::Growing);
    assert_eq!(length_effect(&bytes(&[1, 0, 1, 8, 1, 5]), 0), LengthEffect::Preserving);
    assert_eq!(length_effect(&bytes(&[1, 0, 1, 8, 0]), 0), LengthEffect::Shrinking);
}

#[test]
fn the_first_ligature_that_matches_is_taken() {
    let kind = SubtableKind::Ligature { offset: 0 };
    // Three components before two, as a font lists them.
    let table = bytes(&[1, 0, 1, 8, 2, 6, 14, 90, 3, 11, 12, 91, 2, 11]);
    let take = |next: &[u32]| at_ligature(&kind, &table, 0, next);
    assert_eq!(take(&[11, 12, 1]), Some(Ligated { glyph: 90, components: 3 }));
    assert_eq!(take(&[11, 13]), Some(Ligated { glyph: 91, components: 2 }));
    assert_eq!(take(&[11]), Some(Ligated { glyph: 91, components: 2 }));
    assert_eq!(take(&[12]), None);
    assert_eq!(take(&[]), None);
}

fn set(glyphs: &[u32]) -> Arc<GlyphSet> {
    Arc::new(GlyphSet::build(glyphs))
}

#[test]
fn a_reverse_chain_needs_both_sides() {
    let kind = SubtableKind::ReverseChain {
        backtrack: vec![set(&[1]), set(&[2])],
        lookahead: vec![set(&[3, 4])],
        subst: U16Array { offset: 0, len: 1 },
    };
    let table = bytes(&[55]);
    let at = |index: u32, before: &[u32], after: &[u32]| {
        let r = at_reverse_chain(&kind, &table, index, before, after);
        (r.glyph, r.before, r.after)
    };
    assert_eq!(at(0, &[1, 2], &[4]), (Some(55), 2, 1));
    assert_eq!(at(0, &[2, 1], &[4]), (None, 0, 0));
    assert_eq!(at(0, &[1], &[4]), (None, 1, 0));
    assert_eq!(at(0, &[1, 2], &[5]), (None, 2, 0));
    assert_eq!(at(1, &[1, 2], &[4]), (None, 2, 1));
}

#[test]
fn single_records_are_shared_or_ranked() {
    let shared = SubtableKind::SinglePos { value_format: 5, values: 20, shared: true };
    assert_eq!(at_single_pos(&shared, 3), Some(20));
    let ranked = SubtableKind::SinglePos { value_format: 5, values: 20, shared: false };
    assert_eq!(at_single_pos(&ranked, 3), Some(32));
}

/// Pairs of one first glyph: with 5, 9 and 12, two bytes each.
fn pair_table() -> Vec<u8> {
    bytes(&[1, 0, 4, 0, 1, 12, 3, 5, 100, 9, 200, 12, 0])
}

fn pair_kind(table: &[u8]) -> SubtableKind {
    SubtableKind::PairPos1 {
        seconds: pair_digests(table, 0, 1, 4, 0),
        offset: 0,
        first_format: 4,
        second_format: 0,
    }
}

#[test]
fn a_pair_is_found_by_its_second_glyph() {
    let table = pair_table();
    let kind = pair_kind(&table);
    for (g, at) in [(5, 16), (9, 20), (12, 24)] {
        assert_eq!(
            at_pair1(&kind, &table, 0, g),
            Some(PairRecord { at, first_format: 4, second_format: 0 })
        );
    }
    // Three shares nothing with the listed glyphs; 73 shares the summary of 9.
    for g in [3, 73, 0] {
        assert_eq!(at_pair1(&kind, &table, 0, g), None);
    }
    assert_eq!(at_pair1(&kind, &table, 1, 5), None);
}

#[test]
fn a_class_cell_that_moves_nothing_still_matches() {
    // Two by two classes of two bytes; only the cell (1, 1) moves.
    let matrix = bytes(&[0, 0, 0, 50]);
    let kind = SubtableKind::PairPos2 {
        rows: pair_class_digests(&matrix, 0, 2, 2, 4, 0),
        class1: Arc::new(ClassMap::build(&[(5, 1)])),
        class2: Arc::new(ClassMap::build(&[(9, 1)])),
        matrix: 0,
        first_format: 4,
        second_format: 0,
        class2_count: 2,
    };
    assert_eq!(
        at_pair2(&kind, 5, 9),
        Some(PairCell::Record(PairRecord { at: 6, first_format: 4, second_format: 0 }))
    );
    assert_eq!(at_pair2(&kind, 5, 8), Some(PairCell::Still { has_record2: false }));
    assert_eq!(at_pair2(&kind, 4, 9), Some(PairCell::Still { has_record2: false }));
}

#[test]
fn a_pair_that_moved_nothing_is_a_hazard_to_appending() {
    let record = PairRecord { at: 30, first_format: 4, second_format: 1 };
    assert_eq!(record.second_at(), 32);
    assert_eq!(record.moved(Some(false), None), (false, true));
    assert_eq!(record.moved(None, Some(true)), (true, true));
    let zero = pair_done(2, 4, 4, false, false);
    assert_eq!((zero.hazard, zero.more, zero.cursor), (Hazard::Concat { from: 2, to: 5 }, None, 4));
    let both = pair_done(2, 4, 4, true, true);
    assert_eq!(both.hazard, Hazard::Break { from: 2, to: 5 });
    assert_eq!((both.more, both.cursor), (Some(Hazard::Break { from: 2, to: 6 }), 5));
    assert_eq!(second_glyph(2, None, 7), Err(Hazard::Concat { from: 2, to: 7 }));
    assert_eq!(second_glyph(2, Some((3, 3)), 7), Ok((3, 3)));
}

#[test]
fn anchors_that_are_missing_have_no_place() {
    let kind = SubtableKind::Cursive { records: 2, base: 100, count: 1 };
    let table = bytes(&[7, 0, 12]);
    assert_eq!(at_cursive(&kind, &table, 0), Some((None, Some(112))));
    assert_eq!(at_cursive(&kind, &table, 1), None);
}

#[test]
fn rules_are_selected_by_class_or_rank() {
    // Two rule sets, the second with one rule whose second glyph is 9.
    let table = bytes(&[1, 0, 2, 0, 10, 1, 4, 2, 0, 9]);
    let rules = |classes: Option<Arc<ClassMap>>| SubtableKind::Rules {
        input_classes: classes,
        backtrack_classes: None,
        lookahead_classes: None,
        rule_sets: 6,
        base: 0,
        rule_set_count: 2,
        index: Box::new(RuleIndex { digests: rule_index(&table, 6, 0, 2, false, true) }),
        chained: false,
    };
    let by_rank = rules(None);
    assert_eq!(at_rules(&by_rank, &table, 5, 0), None);
    let found = at_rules(&by_rank, &table, 5, 1).unwrap();
    assert_eq!((found.index, found.at, found.rules), (1, 10, vec![4]));
    assert_eq!(at_rules(&by_rank, &table, 5, 2), None);
    assert!(!dismisses(&by_rank, 1, 9));
    assert!(dismisses(&by_rank, 1, 10));
    let by_class = rules(Some(Arc::new(ClassMap::build(&[(5, 1)]))));
    assert_eq!(at_rules(&by_class, &table, 5, 0).unwrap().index, 1);
    assert!(has_value(&by_class, Part::Input, 5, 1));
    assert!(has_value(&by_class, Part::Backtrack, 5, 5));
    assert!(!has_value(&by_class, Part::Lookahead, 5, 1));
}

#[test]
fn a_failed_context_still_owes_what_it_matched() {
    let kind = SubtableKind::ChainCtx3 {
        offset: 0,
        backtrack: vec![set(&[1])],
        input: vec![set(&[2])],
        lookahead: vec![set(&[3])],
        records: vec![],
        chained: true,
    };
    assert!(is_covered(&kind, Part::Input, 0, 2) && !is_covered(&kind, Part::Input, 1, 2));
    assert!(is_covered(&kind, Part::Lookahead, 0, 3) && !is_covered(&kind, Part::Backtrack, 0, 2));
    assert_eq!(
        at_chain3(true, 4, (false, 9), (true, 8)),
        Chain3Step::Fail { concat_from: 4, concat_to: 4 }
    );
    assert_eq!(
        at_chain3(true, 4, (true, 6), (false, 8)),
        Chain3Step::Fail { concat_from: 4, concat_to: 8 }
    );
    assert_eq!(
        at_chain3(false, 4, (false, 6), (false, 8)),
        Chain3Step::Fail { concat_from: 4, concat_to: 6 }
    );
    assert_eq!(
        at_chain3(false, 4, (true, 6), (true, 6)),
        Chain3Step::Run { break_from: 4, break_to: 6 }
    );
    assert_eq!(at_chain3(true, 4, (true, 6), (true, 8)), Chain3Step::Backtrack { end: 8 });
    assert_eq!(at_chain3_backtrack(true, 2, 8), Chain3End::Run { break_from: 2, break_to: 8 });
    assert_eq!(at_chain3_backtrack(false, 2, 8), Chain3End::Fail { concat_from: 2, concat_to: 8 });
}

#[test]
fn rows_past_the_end_are_never_ruled_out() {
    // Two rows of two cells, of which only the first row is there.
    let matrix = [0u8, 0, 0, 7];
    let rows = pair_class_digests(&matrix, 0, 2, 2, 4, 0);
    assert!(!rows.may_hold(0, 0) && rows.may_hold(0, 1));
    assert_eq!(rows.word(1), u64::MAX);
    let far = pair_class_digests(&matrix, usize::MAX, 1, 1, 4, 0);
    assert_eq!(far.word(0), u64::MAX);
}
