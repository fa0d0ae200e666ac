use std::sync::Arc;

use harfrust::apply::{
    apply_at, apply_at_reached, apply_backward, apply_forward, backward_after, forward_after, Nesting,
    PassLine, Step,
};
use harfrust::buffer::GlyphInfo;
use harfrust::bytes::U16Array;
use harfrust::compiler::{detail_from_env, CompileError, Compiler, Detail, DetailLevel};
use harfrust::digest::Digest;
use harfrust::interner::Interner;
use harfrust::layout::{ReadError, Table};
use harfrust::lookup::{CompiledLookup, Subtable, SubtableKind};
use harfrust::lookup_info::{
    Hint, LookupCache, LookupData, LookupInfo, SubtableExternalCacheMode, SubtableInfo,
};
use harfrust::program::{compile_font, compile_gsub_program, Program};
use harfrust::set::{Coverage, GlyphSet};

/// A GSUB whose only lookup has one subtable, at an offset past the end of
/// the table.
fn gsub_with_bad_subtable_offset() -> Vec<u8> {
    let mut d = Vec::new();
    d.extend_from_slice(&0x0001_0000u32.to_be_bytes()); // version 1.0
    d.extend_from_slice(&10u16.to_be_bytes()); // scriptList
    d.extend_from_slice(&12u16.to_be_bytes()); // featureList
    d.extend_from_slice(&14u16.to_be_bytes()); // lookupList
    d.extend_from_slice(&0u16.to_be_bytes()); // empty script list
    d.extend_from_slice(&0u16.to_be_bytes()); // empty feature list
    d.extend_from_slice(&1u16.to_be_bytes()); // one lookup
    d.extend_from_slice(&4u16.to_be_bytes()); // at +4 from the list
    d.extend_from_slice(&1u16.to_be_bytes()); // type 1, single
    d.extend_from_slice(&0u16.to_be_bytes()); // no flags
    d.extend_from_slice(&1u16.to_be_bytes()); // one subtable
    d.extend_from_slice(&0xF000u16.to_be_bytes()); // ...far past the end
    d
}

/// A GSUB with one lookup of one subtable, which the words after its header are.
fn gsub_with(lookup_type: u16, subtable: &[u16]) -> Vec<u8> {
    let mut words: Vec<u16> = vec![1, 0, 10, 12, 14, 0, 0, 1, 4, lookup_type, 0, 1, 8];
    words.extend_from_slice(subtable);
    words.iter().flat_map(|w| w.to_be_bytes()).collect()
}

/// The lookup compiles to an empty slot, and an empty slot is a lookup
/// that does nothing.
#[test]
fn a_subtable_that_cannot_be_read_leaves_an_empty_slot() {
    let data = gsub_with_bad_subtable_offset();
    let mut pool = Interner::new();
    let mut program = Program::new(1);
    assert!(
        program.get(0, &data, &mut pool).is_none(),
        "a lookup with no readable subtable must not compile"
    );
    assert_eq!(program.len(), 1, "the slot still exists, it is just empty");
}

/// The same, one level down: a lookup whose subtables are all unreadable
/// is empty however it is reached.
#[test]
fn an_empty_slot_is_empty_from_every_caller() {
    let data = gsub_with_bad_subtable_offset();
    let mut pool = Interner::new();
    let mut program = Program::new(1);
    // Twice, because the first call fills the slot and the second reads
    // what it filled -- the two paths through `get`.
    assert!(program.get(0, &data, &mut pool).is_none());
    assert!(program.get(0, &data, &mut pool).is_none());
}

/// Candidate filtering reads only the compiled sets, so a test subtable
/// needs no font behind it.
fn lig(firsts: &[u32], seconds: &[u32]) -> Subtable {
    Subtable::ranked(
        Arc::new(Coverage::build(firsts)),
        SubtableKind::Ligature { offset: 0 },
    )
    .following(Some(Arc::new(GlyphSet::build(seconds))))
}

fn single(cov: &[u32]) -> Subtable {
    Subtable::member(
        Arc::new(Coverage::build(cov)),
        SubtableKind::SingleDelta { delta: 5 },
    )
}

#[test]
fn u16_array_reads_big_endian() {
    // Two bytes of padding, then [0x0102, 0x0304].
    let table = [0xff, 0xff, 0x01, 0x02, 0x03, 0x04];
    let a = U16Array { offset: 2, len: 2 };
    assert_eq!(a.get(&table, 0), Some(0x0102));
    assert_eq!(a.get(&table, 1), Some(0x0304));
    assert_eq!(a.get(&table, 2), None, "past len");
}

#[test]
fn u16_array_refuses_to_read_past_the_table() {
    // A malformed font must yield None, not a panic and not garbage.
    let table = [0x00, 0x01];
    assert_eq!(U16Array { offset: 1, len: 4 }.get(&table, 0), None);
    assert_eq!(
        U16Array {
            offset: 9999,
            len: 1
        }
        .get(&table, 0),
        None
    );
}

#[test]
fn borrowed_payload_costs_nothing() {
    // The point of holding an offset: a ligature subtable with hundreds of
    // rules weighs only its compiled filters.
    let s = lig(&[1, 2, 3], &[9]);
    assert_eq!(
        s.heap_bytes(),
        2 * std::mem::size_of::<Arc<Coverage>>(),
        "a gate and a pair key, and nothing per rule"
    );
    assert_eq!(std::mem::size_of::<U16Array>(), 8);
}

#[test]
fn single_lookup_has_no_pair_key() {
    let l = CompiledLookup::new(0, vec![single(&[5, 6])]);
    assert_eq!(l.pair_digest, Digest::full(), "nothing to key on");
}

#[test]
fn ligature_lookup_is_pair_keyed() {
    let l = CompiledLookup::new(0, vec![lig(&[1], &[2])]);
    assert_ne!(
        l.pair_digest,
        Digest::full(),
        "keyed on its second components"
    );
}

#[test]
fn report_sizes() {
    println!("Subtable = {} bytes", std::mem::size_of::<Subtable>());
    println!("SubtableKind = {} bytes", std::mem::size_of::<SubtableKind>());
    println!("CompiledLookup = {} bytes", std::mem::size_of::<CompiledLookup>());
    println!("Coverage = {} bytes", std::mem::size_of::<Coverage>());
}

fn lookup_with_recursive_extension(lookup_type: u16) -> [u8; 16] {
    let mut data = [0; 16];
    // Lookup table.
    data[0..2].copy_from_slice(&lookup_type.to_be_bytes());
    data[4..6].copy_from_slice(&1u16.to_be_bytes());
    data[6..8].copy_from_slice(&8u16.to_be_bytes());
    // ExtensionSubstFormat1/ExtensionPosFormat1 subtable.
    data[8..10].copy_from_slice(&1u16.to_be_bytes());
    data[10..12].copy_from_slice(&lookup_type.to_be_bytes());
    data
}

#[test]
fn gsub_extension_lookup_cannot_target_extension_lookup() {
    let data = lookup_with_recursive_extension(7);
    let lookup = LookupData {
        offset: 0,
        is_subst: true,
        table_data: &data,
    };
    let info = LookupInfo::new(&lookup, &[]).unwrap();

    assert!(info.subtables.is_empty());
}

#[test]
fn gpos_extension_lookup_cannot_target_extension_lookup() {
    let data = lookup_with_recursive_extension(9);
    let lookup = LookupData {
        offset: 0,
        is_subst: false,
        table_data: &data,
    };
    let info = LookupInfo::new(&lookup, &[]).unwrap();

    assert!(info.subtables.is_empty());
}

/// Glyphs 5 and 6 become 10 and 11.
fn delta_lookup() -> Vec<u8> {
    gsub_with(1, &[1, 6, 5, 1, 2, 5, 6])
}

#[test]
fn a_lookup_compiles_and_says_what_it_reaches() {
    let data = delta_lookup();
    let mut pool = Interner::new();
    let l = Compiler::new().gsub(&data, 0, &mut pool).unwrap();
    assert_eq!(l.props, 0);
    assert_eq!(l.subtables.len(), 1);
    assert!(matches!(l.subtables[0].kind, SubtableKind::SingleDelta { delta: 5 }));
    let mut reach = Vec::new();
    l.reach_into(&mut reach);
    assert_eq!(reach, vec![5, 6]);
    assert!(l.may_reach(5) && !l.may_reach(7));
    assert_eq!(pool.len(), (0, 1, 0));
    assert_eq!(
        Compiler::new().gsub(&data, 1, &mut pool).err(),
        Some(CompileError::Read(ReadError::OutOfBounds))
    );
    assert_eq!(Compiler::new().lookup(&data, Table::Gsub, 0, &mut pool).unwrap().props, 0);
}

#[test]
fn programs_hold_a_slot_for_each_lookup() {
    let data = delta_lookup();
    let mut pool = Interner::new();
    let mut program = compile_gsub_program(&data);
    assert_eq!(program.len(), 1);
    assert!(!program.is_compiled(0));
    assert_eq!(program.missing(&data, &mut pool), Vec::<u16>::new());
    assert!(program.is_compiled(0));
    assert_eq!(program.compiled_count(), 1);
    let (gsub, gpos) = compile_font(Some(&data), None);
    assert_eq!((gsub.len(), gpos.len()), (1, 0));
}

#[test]
fn the_detail_of_compiling_is_named() {
    let chars = |s: &str| s.chars().collect::<Vec<char>>();
    assert_eq!(detail_from_env(Some(&chars("lean"))), Detail::Lean);
    assert_eq!(detail_from_env(Some(&chars("minimal"))), Detail::Minimal);
    assert_eq!(detail_from_env(Some(&chars("leaner"))), Detail::Full);
    assert_eq!(detail_from_env(None), Detail::Full);
    // The first reading decides.
    let mut level = DetailLevel::new();
    assert_eq!(level.get(Some(&chars("lean"))), Detail::Lean);
    assert_eq!(level.get(Some(&chars("minimal"))), Detail::Lean);
    assert_eq!(level.get(None), Detail::Lean);
}

#[test]
fn a_lookup_that_cannot_be_read_says_why() {
    let error = |words: &[u16]| {
        let data: Vec<u8> = words.iter().flat_map(|w| w.to_be_bytes()).collect();
        match Compiler::new().gsub(&data, 0, &mut Interner::new()) {
            Err(CompileError::Read(e)) => e,
            Ok(l) => panic!("{l:?}"),
        }
    };
    assert_eq!(error(&[1, 0, 0, 0]), ReadError::OutOfBounds);
    assert_eq!(error(&[1, 0, 0, 0, 0]), ReadError::NullOffset);
    assert_eq!(error(&[1, 0, 0, 0, 99]), ReadError::OutOfBounds);
    assert_eq!(error(&[1, 0, 0, 0, 10, 0]), ReadError::OutOfBounds);
    assert_eq!(error(&[1, 0, 0, 0, 10, 1, 0]), ReadError::NullOffset);
    assert_eq!(error(&[1, 0, 0, 0, 10, 1, 4]), ReadError::OutOfBounds);
    assert_eq!(error(&[1, 0, 0, 0, 10, 1, 4, 9]), ReadError::InvalidFormat(9));
    assert_eq!(error(&[1, 0, 0, 0, 10, 1, 4, 1]), ReadError::OutOfBounds);
}

#[test]
fn an_index_tries_what_a_walk_tries() {
    let subs = || {
        vec![
            single(&[1, 2]),
            lig(&[2, 9], &[3]),
            single(&[4]),
            single(&[2, 4]),
            single(&[100]),
        ]
    };
    let indexed = CompiledLookup::new(0, subs());
    let walked = CompiledLookup::new_with(0, subs(), false, 4096);
    assert!(indexed.dispatch.is_some() && walked.dispatch.is_none());
    for g in 0..110 {
        assert_eq!(apply_at(&indexed, g), apply_at(&walked, g));
    }
    assert_eq!(apply_at(&indexed, 2), vec![(0, 0), (1, 0), (3, 0)]);
    assert_eq!(apply_at(&indexed, 9), vec![(1, 1)]);
    assert_eq!(apply_at(&indexed, 3), vec![]);
    assert_eq!(apply_at_reached(&indexed, 4), vec![(2, 0), (3, 0)]);
}

fn info(glyph_id: u32, mask: u32) -> GlyphInfo {
    GlyphInfo { glyph_id, mask, cluster: 0 }
}

#[test]
fn passes_stop_where_a_lookup_could_touch_a_glyph() {
    let l = CompiledLookup::new(0, vec![single(&[5, 6])]);
    let infos = [info(5, 0), info(7, 1), info(6, 1), info(5, 1), info(5, 3)];
    let kept = [true, true, false, true, true];
    let line = PassLine { infos: &infos, kept: &kept };
    assert_eq!(
        apply_forward(&line, &l, 1, true, 0),
        Step::Try { at: 3, subtables: vec![(0, 0)] }
    );
    assert_eq!(forward_after(3, None), 4);
    assert_eq!(forward_after(3, Some(5)), 5);
    assert_eq!(apply_forward(&line, &l, 1, true, 5), Step::Finish { at: 5 });
    assert_eq!(apply_forward(&line, &l, 1, false, 0), Step::Finish { at: 0 });
    assert_eq!(
        apply_backward(&line, &l, 2, 4),
        Step::Try { at: 4, subtables: vec![(0, 0)] }
    );
    assert_eq!(backward_after(4), Some(3));
    assert_eq!(backward_after(0), None);
    assert_eq!(apply_backward(&line, &l, 2, 3), Step::Finish { at: 0 });
}

#[test]
fn nesting_is_undone_and_bounded() {
    let l = CompiledLookup::new(7, vec![single(&[5])]);
    let mut n = Nesting {
        nesting_level_left: 1,
        max_ops: 2,
        successful: true,
        lookup_props: 3,
        lookup_index: 4,
        match_positions: vec![8, 9],
        match_positions_len: 2,
    };
    let (saved, tries) = n.recurse(11, Some(&l), 5).unwrap();
    assert_eq!(tries, vec![(0, 0)]);
    assert_eq!((n.lookup_props, n.lookup_index, n.nesting_level_left, n.max_ops), (7, 11, 0, 1));
    assert_eq!(n.match_positions, vec![0]);
    assert!(n.clone().recurse(12, None, 5).is_none());
    n.leave(saved);
    assert_eq!((n.lookup_props, n.lookup_index, n.nesting_level_left, n.max_ops), (3, 4, 1, 1));
    assert_eq!(n.match_positions, vec![8, 9]);
    n.max_ops = 0;
    assert!(n.recurse(11, None, 5).is_none());
    assert!(!n.successful);
}

fn hint(cost: u32) -> Hint {
    Hint { cost, seconds: Digest::from_glyphs(&[77]) }
}

#[test]
fn what_is_kept_of_a_lookup() {
    // Two subtables: a ligature and one that cannot be read.
    let data = gsub_with(4, &[1, 6, 1, 1, 1, 3]);
    let lookup = LookupData::find(&data, true, 0).unwrap();
    assert_eq!(lookup.offset, 18);
    let info = LookupInfo::new(&lookup, &[hint(9)]).unwrap();
    assert_eq!(info.subtables.len(), 1);
    assert_eq!(info.subtables[0].kind, harfrust::lookup_info::SubtableKind::LigatureSubst1);
    assert_eq!(info.subtables[0].offset, 26);
    assert_eq!(info.digest(), &Digest::from_glyphs(&[3]));
    assert_eq!(info.digest_second(), &Digest::from_glyphs(&[77]));
    assert_eq!(info.subtable_cache_user_idx, Some(0));
    assert_eq!((info.props(), info.is_reverse()), (0, false));
    assert_eq!(info.apply(3, true), vec![(0, true)]);
    assert_eq!(info.apply(999, false), vec![(0, false)]);
    assert_eq!(info.would_apply(4, Some(100), &[true]), Some(false));
    assert_eq!(info.would_apply(3, Some(100), &[true]), Some(true));
    assert_eq!(info.would_apply(3, Some(20), &[true]), None);
    assert_eq!(info.would_apply(3, Some(100), &[false]), None);
    assert_eq!(info.would_apply(3, None, &[true]), None);
    assert!(LookupData::find(&data, true, 1).is_none());
}

#[test]
fn lookups_are_worked_out_once() {
    let data = delta_lookup();
    let mut cache = LookupCache::new(&data);
    assert!(cache.get_if_present(0).is_none());
    assert_eq!(cache.get(&data, true, 0, &[]).unwrap().subtables.len(), 1);
    // What was kept is given again, whatever the bytes are now.
    assert_eq!(cache.get(&[], true, 0, &[]).unwrap().subtables.len(), 1);
    assert!(cache.get_if_present(0).is_some());
    assert!(cache.get(&data, true, 1, &[]).is_none());
}

#[test]
fn second_glyphs_of_a_context_are_known() {
    // Glyph 5 followed by 9 or by 12.
    let sub = [1u16, 8, 1, 16, 1, 1, 5, 0, 2, 6, 14, 2, 0, 9, 0, 2, 0, 12];
    let data: Vec<u8> = sub.iter().flat_map(|w| w.to_be_bytes()).collect();
    let (info, second) = SubtableInfo::new(
        &data,
        0,
        true,
        5,
        SubtableExternalCacheMode::Full,
        &Digest::full(),
    )
    .unwrap();
    assert_eq!(info.digest, Digest::from_glyphs(&[5]));
    assert_eq!(second, Digest::from_glyphs(&[9, 12]));
    assert!(SubtableInfo::new(
        &data,
        0,
        true,
        99,
        SubtableExternalCacheMode::Small,
        &Digest::full()
    )
    .is_none());
}

#[test]
fn a_larger_budget_buys_a_faster_form() {
    let data = gsub_with(1, &[1, 6, 5, 1, 3, 0, 30_000, 60_000]);
    let built = |c: Compiler| c.gsub(&data, 0, &mut Interner::new()).unwrap();
    let small = built(Compiler::new());
    assert!(matches!(*small.subtables[0].cov, Coverage::Sorted(_)));
    assert!(matches!(small.reach, GlyphSet::Sorted(_)));
    let large = built(Compiler::with_budget(20_000));
    assert!(matches!(*large.subtables[0].cov, Coverage::Bitmap { .. }));
    assert!(matches!(large.reach, GlyphSet::Bitmap { .. }));
    assert_eq!(large.subtables[0].cov.heap_bytes(), 938 * 12);
}
