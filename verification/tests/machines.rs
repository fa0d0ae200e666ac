use harfrust::aat_context::{is_morx_blocklisted, keeps_morx, AatApplyContext, AatInfo};
use harfrust::aat_glyph_set::{GlyphSet, DELETED_GLYPH};
use harfrust::aat_lookup::{collect_glyphs, collect_glyphs_filtered, ValueSize};
use harfrust::buffer::{GlyphInfo, GlyphPosition};
use harfrust::ext_machine::{
    entry, get_class, DecodedExtMachine, MorxStates, Payload, StateEntry, States, MACHINE_META_SAFE,
};
use harfrust::kern_machine::{
    collect_start_end_safe_to_break, transition_raw, ClassCache, DecodedStateMachine,
};
use harfrust::kern_run::{kern_line, KernLook, KernedLine, NextGlyph, ATTACH_CURSIVE};
use harfrust::kern_table::{
    hb_ot_layout_kern, kern_caches, kern_subtables, simple_kerning, KernLine, KernPart, KernRun,
    KernSubtableCache,
};
use harfrust::kerning::{
    apply_actions, apply_state_machine_kerning, machine_kern, KernDirection, PairStep,
};

fn bytes(words: &[u16]) -> Vec<u8> {
    words.iter().flat_map(|w| w.to_be_bytes()).collect()
}

/// A kerning machine of one glyph, 10: seen twice, it moves both.
fn machine() -> Vec<u8> {
    let mut d = bytes(&[5, 8, 14, 24]);
    d.extend_from_slice(&bytes(&[10, 1]));
    d.extend_from_slice(&[4, 0]);
    d.extend_from_slice(&[0, 0, 0, 0, 1, 0, 0, 0, 0, 2]);
    d.extend_from_slice(&bytes(&[14, 0, 19, 0x8000, 14, 0x8000 | 36]));
    d.extend_from_slice(&bytes(&[(-30i16) as u16, (-41i16) as u16]));
    d
}

#[test]
fn a_machine_moves_what_it_pushed() {
    let d = machine();
    let ends = collect_start_end_safe_to_break(&d);
    let decoded = DecodedStateMachine::new(&d, ends).unwrap();
    let glyphs = [10, 10, 3];
    for m in [None, Some(&decoded)] {
        let mut cache = ClassCache::new();
        let r = apply_state_machine_kerning(&d, m, ends, &glyphs, 100, &mut cache);
        assert_eq!(r.actions, vec![(1, -30), (0, -42)]);
        assert_eq!(r.max_ops, 97);
    }
}

#[test]
fn decoding_a_machine_keeps_its_transitions() {
    let d = machine();
    let ends = collect_start_end_safe_to_break(&d);
    let decoded = DecodedStateMachine::new(&d, ends).unwrap();
    for state in 0..4 {
        for class in 0..8 {
            assert_eq!(
                decoded.transition(state, class),
                transition_raw(&d, ends, state, class),
                "{state} {class}"
            );
        }
    }
    let t = transition_raw(&d, ends, 0, 4).unwrap();
    assert_eq!((t.next_state, t.flags, t.safe), (1, 0x8000, true));
    assert!(DecodedStateMachine::new(&d[..7], ends).is_none());
}

#[test]
fn values_move_glyphs_along_or_across() {
    let line = KernDirection { horizontal: true, cross_stream: false };
    let mut pos = vec![GlyphPosition::default(); 2];
    apply_actions(&mut pos, &[1, 1], 1, line, &[(1, -30), (0, -42)], &[-30, -42]);
    assert_eq!((pos[0].x_advance, pos[0].x_offset), (-42, -42));
    assert_eq!((pos[1].x_advance, pos[1].x_offset), (-30, -30));

    let across = KernDirection { horizontal: true, cross_stream: true };
    let mut pos = vec![GlyphPosition { attach_type: 2, y_offset: 5, ..GlyphPosition::default() }];
    apply_actions(&mut pos, &[0], 1, across, &[(0, 7)], &[7]);
    assert_eq!(pos[0].y_offset, 12);
    apply_actions(&mut pos, &[0], 1, across, &[(0, -0x8000)], &[0]);
    assert_eq!((pos[0].y_offset, pos[0].attach_type), (0, 0));
}

#[test]
fn a_pair_shares_its_value_between_both_glyphs() {
    let line = KernDirection { horizontal: true, cross_stream: false };
    let mut pos = vec![GlyphPosition::default(); 2];
    let steps = [PairStep::Next { at: 1, kern: -21 }, PairStep::Nothing { unsafe_to: 2 }];
    let (attached, breaks) = machine_kern(&mut pos, &[1, 1], 1, line, &steps);
    assert!(!attached);
    assert_eq!(pos[0].x_advance + pos[1].x_advance, -21);
    assert_eq!(pos[0].x_advance, -11);
    assert_eq!(breaks, vec![(0, 2)]);
}

fn kern_table() -> Vec<u8> {
    // One subtable of two pairs: (5, 9) by -20 and (6, 8) by 30.
    bytes(&[0, 1, 0, 26, 1, 2, 0, 0, 0, 5, 9, (-20i16) as u16, 6, 8, 30])
}

#[test]
fn listed_pairs_are_read_and_gated() {
    let parts = kern_subtables(&kern_table()).unwrap();
    assert_eq!(parts.len(), 1);
    let part = parts[0].as_ref().unwrap();
    assert_eq!((part.aat, part.coverage, part.kind()), (false, 1, Some(0)));
    assert!(part.is_horizontal() && !part.is_cross_stream() && !part.is_variable());
    let caches = kern_caches(&parts);
    assert!(caches[0].first_set.contains(5) && caches[0].first_set.contains(6));
    assert!(!caches[0].first_set.contains(9));
    assert!(caches[0].second_set.contains(8));
    assert_eq!(simple_kerning(&caches[0], part, 5, 9), -20);
    assert_eq!(simple_kerning(&caches[0], part, 6, 8), 30);
    assert_eq!(simple_kerning(&caches[0], part, 5, 8), 0);
    assert_eq!(simple_kerning(&caches[0], part, 9, 5), 0);
    assert!(kern_subtables(&[0]).is_none());
}

#[test]
fn subtables_run_in_order_the_way_the_text_runs() {
    let pairs = KernPart { aat: false, coverage: 1, data: bytes(&[1, 0, 0, 0, 5, 9, 1]) };
    let across = KernPart { aat: false, coverage: 0x0105, data: machine() };
    let vertical = KernPart { coverage: 0, ..pairs.clone() };
    let parts = vec![Some(vertical), None, Some(across), Some(pairs)];
    let caches = kern_caches(&parts);
    assert_eq!(caches.len(), 3);
    let line = KernLine { horizontal: true, backward: true, requested: true };
    assert_eq!(
        hb_ot_layout_kern(&parts, &caches, &[10, 5], line),
        vec![
            KernRun::Chain { step: 1 },
            KernRun::Reverse,
            KernRun::Machine { index: 1, cross_stream: true },
            KernRun::Simple { index: 2, cross_stream: false },
            KernRun::Reverse,
        ]
    );
    let plain = KernLine { horizontal: true, backward: false, requested: false };
    assert_eq!(
        hb_ot_layout_kern(&parts, &caches, &[10, 5, 1, 1], plain),
        vec![
            KernRun::Chain { step: -1 },
            KernRun::Machine { index: 1, cross_stream: true },
        ]
    );
    assert_eq!(hb_ot_layout_kern(&parts, &caches, &[1, 2, 3, 4], plain), vec![]);
}

#[test]
fn class_pairs_and_arrays_name_ranges() {
    // Class tables at 14 and 18, from a header of six bytes.
    let mut words = vec![0u16, 14, 18, 22];
    words.extend_from_slice(&[3, 2, 7, 0, 0]);
    let part = KernPart { aat: false, coverage: 0x0201, data: bytes(&words) };
    assert_eq!(part.kind(), Some(2));
    let c = KernSubtableCache::new(&part);
    assert!(c.first_set.contains(3) && c.first_set.contains(4) && !c.first_set.contains(5));
    assert!(c.second_set.contains(7) && !c.second_set.contains(8));
    let part = KernPart { aat: true, coverage: 3, data: bytes(&[4, 0, 0]) };
    assert_eq!(part.kind(), Some(3));
    let c = KernSubtableCache::new(&part);
    assert!(c.first_set.contains(3) && !c.second_set.contains(4));
    let part = KernPart { aat: true, coverage: 9, data: vec![] };
    assert_eq!(part.kind(), None);
}

/// An extended machine of one glyph, 10, with entries of a payload of two words.
fn ext_machine() -> Vec<u8> {
    let mut d = bytes(&[0, 5, 0, 16, 0, 24, 0, 44]);
    d.extend_from_slice(&bytes(&[8, 10, 1, 4]));
    d.extend_from_slice(&bytes(&[0, 0, 0, 0, 1, 0, 0, 0, 0, 9]));
    d.extend_from_slice(&bytes(&[0, 0, 0xffff, 0xffff, 1, 0x8000, 3, 4]));
    d
}

#[test]
fn extended_machines_are_held_as_the_font_has_them() {
    let d = ext_machine();
    let first = StateEntry { new_state: 1, flags: 0x8000, first: 3, second: 4 };
    assert_eq!(entry(&d, Payload::Contextual, 0, 4), Some(first));
    assert_eq!(entry(&d, Payload::Contextual, 1, 4), None);
    let held = States::new(&d, Payload::Contextual).unwrap();
    assert_eq!((held.n_classes, held.rows.len(), held.entries.len()), (5, 10, 2));
    for state in 0..2 {
        for class in 0..9 {
            assert_eq!(held.entry(state, class), entry(&d, Payload::Contextual, state, class));
        }
    }
    assert_eq!(held.entry(0, 77), held.entry(0, 1));
    assert_eq!(held.entry(7, 0), None);
    let states = MorxStates::new(Some(Payload::Contextual), &d);
    assert!(states.contextual().is_some() && states.ligature().is_none());
    assert!(matches!(MorxStates::new(None, &d), MorxStates::Undecoded));
    let lig = entry(&d, Payload::Ligature, 0, 0).unwrap();
    assert_eq!((lig.new_state, lig.first, lig.second), (0, 0xffff, 0));
    let bare = entry(&d, Payload::Rearrangement, 0, 4).unwrap();
    assert_eq!((bare.new_state, bare.flags), (0xffff, 0xffff));
    let ins = entry(&d, Payload::Insertion, 0, 4).unwrap();
    assert_eq!((ins.first, ins.second), (3, 4));
}

#[test]
fn decoding_an_extended_machine_keeps_its_entries() {
    let d = ext_machine();
    let act = |e: &StateEntry| e.first != 0xffff;
    let advance = |e: &StateEntry| e.flags & 0x4000 == 0;
    let m = DecodedExtMachine::build(&d, Payload::Contextual, !0, act, advance).unwrap();
    for state in 0..6 {
        for class in 0..9 {
            assert_eq!(
                m.get(state, class).map(|(e, _)| e),
                entry(&d, Payload::Contextual, state, class)
            );
        }
    }
    assert_eq!(m.get(0, 0).unwrap().1, MACHINE_META_SAFE);
    assert_eq!(m.get(0, 4).unwrap().1, 0);
    assert!(DecodedExtMachine::build(&d[..12], Payload::Contextual, 0, act, advance).is_none());
}

#[test]
fn classes_come_from_the_cache_once_read() {
    let d = ext_machine();
    let mut cache = ClassCache::new();
    assert_eq!(get_class(&d, 10, &mut cache), 4);
    assert_eq!(get_class(&d, 10, &mut cache), 4);
    assert_eq!(get_class(&d, 11, &mut cache), 1);
    assert_eq!(get_class(&d, 0xffff, &mut cache), 2);
    assert_eq!(cache.get(10), Some(4));
}

#[test]
fn a_cache_hit_carries_the_last_value_written() {
    let mut cache = ClassCache::new();
    cache.set(5, 7);
    cache.set(5, 9);
    assert_eq!(cache.get(5), Some(9));
    // A key of the same slot takes its place.
    cache.set(5 + 256, 1);
    assert_eq!((cache.get(5), cache.get(5 + 256)), (None, Some(1)));
    // What does not fit is refused.
    cache.set(5 + 256, 256);
    assert_eq!(cache.get(5 + 256), Some(1));
    cache.set(1 << 16, 3);
    assert_eq!(cache.get(1 << 16), None);
    // The largest key with the largest value is what an empty slot holds.
    cache.set(0xffff, 0xff);
    assert_eq!(cache.get(0xffff), None);
}

fn collected(words: &[u16], num_glyphs: u32) -> Vec<u32> {
    let mut set = GlyphSet::default();
    collect_glyphs(&bytes(words), ValueSize::Word, num_glyphs, &mut set);
    (0..100).filter(|g| set.contains(*g)).collect()
}

fn filtered(words: &[u16], num_glyphs: u32) -> Vec<u32> {
    let mut set = GlyphSet::default();
    collect_glyphs_filtered(&bytes(words), ValueSize::Word, num_glyphs, &mut set, |v| v == 7);
    (0..100).filter(|g| set.contains(*g)).collect()
}

#[test]
fn every_form_of_lookup_names_its_glyphs() {
    let by_glyph = [0, 7, 1, 7, 7];
    assert_eq!(collected(&by_glyph, 3), vec![0, 1, 2]);
    assert_eq!(filtered(&by_glyph, 3), vec![0, 2]);
    let by_segment = [2, 6, 2, 0, 0, 0, 12, 10, 7, 22, 20, 1];
    assert_eq!(collected(&by_segment, 0), vec![10, 11, 12, 20, 21, 22]);
    assert_eq!(filtered(&by_segment, 0), vec![10, 11, 12]);
    let of_segments = [4, 6, 1, 0, 0, 0, 12, 10, 18, 7, 1, 7];
    assert_eq!(collected(&of_segments, 0), vec![10, 11, 12]);
    assert_eq!(filtered(&of_segments, 0), vec![10, 12]);
    let by_name = [6, 4, 2, 0, 0, 0, 30, 7, 40, 1];
    assert_eq!(collected(&by_name, 0), vec![30, 40]);
    assert_eq!(filtered(&by_name, 0), vec![30]);
    let trimmed = [8, 50, 3, 7, 1, 7];
    assert_eq!(collected(&trimmed, 0), vec![50, 51, 52]);
    assert_eq!(filtered(&trimmed, 0), vec![50, 52]);
    let of_units = [10, 1, 60, 2, 0x0007];
    assert_eq!(collected(&of_units, 0), vec![60, 61]);
    assert_eq!(filtered(&of_units, 0), vec![61]);
    assert_eq!(collected(&[3, 1], 5), Vec::<u32>::new());
    assert_eq!(collected(&[8, 0xffff, 1, 7], 0), Vec::<u32>::new());
}

#[test]
fn glyph_sets_hold_ranges_and_meet() {
    let mut a = GlyphSet::default();
    a.insert_range(60, 130);
    a.insert(DELETED_GLYPH);
    assert!(a.contains(60) && a.contains(130) && !a.contains(131) && a.contains(DELETED_GLYPH));
    let mut b = GlyphSet::default();
    b.insert(131);
    assert!(!a.intersects_set(&b));
    b.insert(100);
    assert!(a.intersects_set(&b));
    a.clear();
    assert!(!a.contains(60) && !a.contains(DELETED_GLYPH));
}

fn glyph(glyph_id: u32) -> AatInfo {
    AatInfo {
        info: GlyphInfo { glyph_id, mask: 1, cluster: 7 },
        glyph_props: 0,
        aat_deleted: false,
    }
}

#[test]
fn output_deleted_glyph_at_end_of_text_marks_output() {
    let mut context = AatApplyContext::new(vec![glyph(65)], false);
    context.replace_glyph(65, 0);
    context.output_glyph(DELETED_GLYPH, 0);

    assert_eq!(context.out.len(), 2);
    assert_eq!(context.out[1].info.glyph_id, DELETED_GLYPH);
    assert!(context.out[1].aat_deleted);
    assert!(context.has_deleted && !context.out[0].aat_deleted);
    assert_eq!(context.out[1].info.cluster, 7);
}

#[test]
fn a_line_keeps_its_glyphs_in_its_set() {
    let mut c = AatApplyContext::new(vec![glyph(1), glyph(2), glyph(3), glyph(4)], true);
    c.setup_buffer_glyph_set();
    let mut first = GlyphSet::default();
    first.insert(9);
    assert!(!c.buffer_intersects_machine(Some(&first)));
    assert!(c.buffer_intersects_machine(None));
    c.replace_glyph(9, 5);
    assert!(c.buffer_intersects_machine(Some(&first)));
    assert_eq!((c.out[0].info.glyph_id, c.out[0].glyph_props), (9, 5));
    c.delete_glyph();
    assert_eq!((c.idx, c.out[1].info.glyph_id, c.out[1].aat_deleted), (2, DELETED_GLYPH, true));
    c.replace_glyph_inplace(3, 8, 6);
    assert_eq!((c.info[3].info.glyph_id, c.info[3].glyph_props), (8, 6));
    c.output_glyph(11, 2);
    assert_eq!((c.idx, c.out.len(), c.info[2].glyph_props, c.out[2].info.glyph_id), (2, 3, 2, 11));
    c.reverse_buffer();
    assert!(c.buffer_is_reversed);
    assert_eq!(c.info[0].info.glyph_id, 8);
    let mut empty = AatApplyContext::new(vec![], true);
    empty.output_glyph(5, 0);
    assert!(empty.out.is_empty());
}

#[test]
fn one_broken_table_is_left_out() {
    assert!(is_morx_blocklisted(19892, 2794, 340));
    assert!(!is_morx_blocklisted(19892, 2794, 341));
    assert!(!keeps_morx(Some(19892), Some(2794), Some(340)));
    assert!(keeps_morx(Some(19892), None, Some(340)));
    assert!(!keeps_morx(None, None, None));
}

/// A look at a line in which every glyph has the one beside it next.
fn look(n: usize) -> KernLook {
    let next: Vec<NextGlyph> = (0..n)
        .map(|i| {
            if i + 1 < n {
                NextGlyph::At(i + 1)
            } else {
                NextGlyph::Nothing { unsafe_to: n }
            }
        })
        .collect();
    KernLook { kern_mask: 1, forward: next.clone(), backward: next }
}

fn kerned(parts: &[Option<KernPart>], glyphs: &[u32], line: KernLine) -> KernedLine {
    let n = glyphs.len();
    let pos = vec![GlyphPosition::default(); n];
    let mut state = KernedLine::new(glyphs.to_vec(), vec![1; n], pos, 100);
    let mut caches = kern_caches(parts);
    kern_line(parts, &mut caches, line, &look(n), |v| v * 2, |v| v, &mut state);
    state
}

#[test]
fn pairs_of_a_line_are_kerned() {
    let pairs = KernPart { aat: false, coverage: 1, data: bytes(&[1, 0, 0, 0, 5, 9, 11]) };
    let parts = vec![None, Some(pairs)];
    let mut line = KernLine { horizontal: true, backward: false, requested: true };
    let r = kerned(&parts, &[5, 9, 1], line);
    assert_eq!(r.pos.iter().map(|p| p.x_advance).collect::<Vec<_>>(), vec![11, 11, 0]);
    assert_eq!(r.pos.iter().map(|p| p.x_offset).collect::<Vec<_>>(), vec![0, 11, 0]);
    assert_eq!(r.breaks, vec![(0, 2)]);
    assert!(r.unsafe_to_concat && !r.attached && !r.reversed);

    // Against the line, the pairs are those of the line turned around.
    line.backward = true;
    let r = kerned(&parts, &[1, 9, 5], line);
    assert_eq!(r.glyphs, vec![1, 9, 5]);
    assert_eq!(r.pos.iter().map(|p| p.x_advance).collect::<Vec<_>>(), vec![0, 11, 11]);
    assert_eq!(r.pos.iter().map(|p| p.x_offset).collect::<Vec<_>>(), vec![0, 11, 0]);
    assert_eq!(r.breaks, vec![(1, 3)]);
    assert!(!r.reversed);

    // Nothing is kerned that was not asked for.
    line.requested = false;
    let r = kerned(&parts, &[1, 9, 5], line);
    assert!(r.pos.iter().all(|p| *p == GlyphPosition::default()) && !r.unsafe_to_concat);
}

#[test]
fn machines_move_the_glyphs_of_a_line() {
    let across = KernPart { aat: false, coverage: 0x0105, data: machine() };
    let along = KernPart { aat: false, coverage: 0x0101, data: machine() };
    let line = KernLine { horizontal: true, backward: false, requested: false };
    let r = kerned(&[Some(across)], &[10, 10, 3], line);
    assert_eq!(r.pos.iter().map(|p| p.y_offset).collect::<Vec<_>>(), vec![-42, -30, 0]);
    assert!(r.pos.iter().all(|p| p.attach_type == ATTACH_CURSIVE && p.attach_chain == -1));
    assert!(r.attached);
    assert_eq!(r.max_ops, 97);
    let r = kerned(&[Some(along)], &[10, 10, 3], line);
    assert_eq!(r.pos.iter().map(|p| p.x_advance).collect::<Vec<_>>(), vec![-84, -60, 0]);
    assert!(!r.attached && !r.unsafe_to_concat);
}

#[test]
fn subtables_end_where_they_say() {
    let parts = |words: &[u16]| kern_subtables(&bytes(words));
    let ot = |coverage: u16, data: &[u16]| Some(KernPart { aat: false, coverage, data: bytes(data) });
    // The length of the last one is not looked at.
    let two = [0u16, 2, 0, 8, 1, 7, 0, 99, 5, 3, 4];
    assert_eq!(parts(&two), Some(vec![ot(1, &[7]), ot(5, &[3, 4])]));
    // One that is too short for its header cannot be read.
    assert_eq!(parts(&[0, 2, 0, 4, 0, 0, 5]), Some(vec![None, ot(5, &[])]));
    // A length of nothing, or of more than there is, ends the list.
    assert_eq!(parts(&[0, 2, 0, 0, 1, 7]), Some(vec![]));
    assert_eq!(parts(&[0, 2, 0, 90, 1, 7]), Some(vec![]));
    let aat = [1u16, 0, 0, 2, 0, 10, 0x4000, 0, 6, 0, 9, 0, 0];
    let first = KernPart { aat: true, coverage: 0x4000, data: bytes(&[6]) };
    assert_eq!(parts(&aat), Some(vec![Some(first)]));
    assert_eq!(parts(&[1, 0, 0]), None);
}
