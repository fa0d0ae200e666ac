use std::sync::Arc;

use harfrust::class_map::ClassMap;
use harfrust::digest::Digest;
use harfrust::interner::Interner;
use harfrust::pick::DEFAULT_BUDGET;
use harfrust::set::{Coverage, GlyphSet};

/// The interner recognises a table it has seen and distinguishes ones it
/// has not -- which is the whole of its contract, and is now decided by a
/// digest rather than by comparing the bytes.
#[test]
fn interning_is_by_content() {
    let mut pool = Interner::new();
    let a = pool.set(b"cov-a", || GlyphSet::build(&[1]));
    let again = pool.set(b"cov-a", || GlyphSet::build(&[99]));
    // The second build closure must never have run.
    assert!(Arc::ptr_eq(&a, &again));
    assert_eq!(again.to_vec(), vec![1]);

    let b = pool.set(b"cov-b", || GlyphSet::build(&[2]));
    assert!(!Arc::ptr_eq(&a, &b));
    assert_eq!(pool.len().0, 2);

    // Same bytes, different kind: separate tables, because a coverage read
    // as a set compiles to something else than one read for its index.
    let _ = pool.coverage(b"cov-a", || Coverage::build(&[1]));
    assert_eq!(pool.len(), (2, 1, 0));
}


/// Every representation must agree with the set it was built from, for both
/// membership and index, across the whole probe range.
fn check(glyphs: &[u32], budget: usize, expect: fn(&Coverage) -> bool) {
    let cov = Coverage::build_with_budget(glyphs, budget);
    assert!(expect(&cov), "unexpected representation: {cov:?}");
    assert_eq!(cov.len(), glyphs.len());
    assert_eq!(cov.to_vec(), glyphs);

    let hi = glyphs.last().copied().unwrap_or(0) + 3;
    for g in 0..hi {
        let want = glyphs.iter().position(|&x| x == g).map(|i| i as u32);
        assert_eq!(cov.index(g), want, "index({g}) in {cov:?}");
        assert_eq!(cov.contains(g), want.is_some(), "contains({g}) in {cov:?}");
    }
}

#[test]
fn empty_set() {
    check(&[], DEFAULT_BUDGET, |c| matches!(c, Coverage::Empty));
}

#[test]
fn contiguous_becomes_a_range() {
    check(&[10, 11, 12, 13], DEFAULT_BUDGET, |c| {
        matches!(c, Coverage::Range { .. })
    });
    let c = Coverage::build(&[10, 11, 12, 13]);
    assert_eq!(c.heap_bytes(), 0, "a range should hold no heap memory");
}

#[test]
fn single_glyph_is_a_range() {
    check(&[42], DEFAULT_BUDGET, |c| {
        matches!(c, Coverage::Range { len: 1, .. })
    });
}

#[test]
fn tight_span_becomes_a_bitmap() {
    let g: Vec<u32> = (100..300).filter(|x| x % 3 == 0).collect();
    check(&g, DEFAULT_BUDGET, |c| matches!(c, Coverage::Bitmap { .. }));
}

#[test]
fn bitmap_index_is_a_rank_across_words() {
    // Spans several words so the rank table is actually exercised.
    let g: Vec<u32> = (0..250).filter(|x| x % 7 == 1).collect();
    check(&g, DEFAULT_BUDGET, |c| matches!(c, Coverage::Bitmap { .. }));
}

#[test]
fn wide_sparse_set_falls_back_within_budget() {
    // 60 glyphs spread over 30k: a bitmap would be ~5.6 KB.
    let g: Vec<u32> = (0..60).map(|i| i * 500).collect();
    let cov = Coverage::build(&g);
    assert!(
        !matches!(cov, Coverage::Bitmap { .. }),
        "should not blow the budget on a bitmap"
    );
    assert!(
        cov.heap_bytes() <= DEFAULT_BUDGET,
        "fallback took {} bytes",
        cov.heap_bytes()
    );
    check(&g, DEFAULT_BUDGET, |c| {
        !matches!(c, Coverage::Bitmap { .. })
    });
}

#[test]
fn clustered_sparse_set_prefers_ranges() {
    // Three tight clusters, far apart: few runs, so runs win.
    let mut g = Vec::new();
    for base in [0u32, 10_000, 20_000] {
        g.extend(base..base + 40);
    }
    let cov = Coverage::build(&g);
    assert!(matches!(cov, Coverage::Ranges(_)), "got {cov:?}");
    check(&g, DEFAULT_BUDGET, |c| matches!(c, Coverage::Ranges(_)));
}

#[test]
fn a_set_too_sparse_to_index_is_not_indexed() {
    // The pathology the relative rule exists to catch: three glyphs spread
    // across a whole font. A bitmap over that span is kilobytes to describe
    // twelve bytes of information, and no amount of speed justifies it.
    let g = [0u32, 30_000, 60_000];
    let cov = Coverage::build(&g);
    assert!(!matches!(cov, Coverage::Bitmap { .. }), "got {cov:?}");
    assert!(
        cov.heap_bytes() < 512,
        "{} bytes for three glyphs",
        cov.heap_bytes()
    );
    check(&g, DEFAULT_BUDGET, |c| {
        !matches!(c, Coverage::Bitmap { .. })
    });

    // Scattered but dense enough to be worth indexing: a hundred glyphs
    // over ten thousand is 4.5x the bytes of a sorted list, which buys a
    // constant-time probe on a structure hit once per glyph per lookup.
    // Under the old flat budget nothing fitted and this fell back to the
    // smallest form, which was also the slowest.
    let g: Vec<u32> = (0..100).map(|i| i * 97).collect();
    let cov = Coverage::build(&g);
    assert!(matches!(cov, Coverage::Bitmap { .. }), "got {cov:?}");
}

#[test]
fn slack_is_measured_against_the_smallest_form_not_a_fixed_size() {
    // Same shape at two scales: the choice should not change, because
    // whether a direct table is extravagant depends on the alternative and
    // not on how many bytes it happens to be.
    let small: Vec<u32> = (0..50).map(|i| i * 2).collect();
    let large: Vec<u32> = (0..5000).map(|i| i * 2).collect();
    let a = Coverage::build(&small);
    let b = Coverage::build(&large);
    assert!(matches!(a, Coverage::Bitmap { .. }), "got {a:?}");
    assert!(matches!(b, Coverage::Bitmap { .. }), "got {b:?}");
}

#[test]
fn all_representations_agree() {
    // Force each representation over the same set by varying the budget,
    // then require identical answers from all of them.
    let g: Vec<u32> = (0..400).filter(|x| x % 5 == 2 || x % 11 == 0).collect();
    let reps: Vec<Coverage> = [0, 64, 4096]
        .iter()
        .map(|&b| Coverage::build_with_budget(&g, b))
        .collect();
    for probe in 0..420 {
        let want = reps[0].index(probe);
        for r in &reps[1..] {
            assert_eq!(r.index(probe), want, "disagreement at {probe}: {r:?}");
        }
    }
}

#[test]
fn coverage_range_does_not_wrap_below_first() {
    // The Range fast path subtracts `first` with wrapping arithmetic, so a
    // glyph below it must not come back round into the range.
    let cov = Coverage::build(&[10, 11, 12]);
    assert!(matches!(cov, Coverage::Range { .. }));
    for g in [0, 9, 13, u32::MAX] {
        assert!(!cov.contains(g), "glyph {g}");
        assert_eq!(cov.index(g), None, "glyph {g}");
    }
    assert_eq!(cov.index(10), Some(0));
    assert_eq!(cov.index(12), Some(2));
}

#[test]
fn glyph_set_drops_the_index_and_the_memory_for_it() {
    let g: Vec<u32> = (0..250).filter(|x| x % 7 == 1).collect();
    let cov = Coverage::build(&g);
    let set = GlyphSet::build(&g);
    assert!(matches!(cov, Coverage::Bitmap { .. }));
    assert!(matches!(set, GlyphSet::Bitmap { .. }));
    // A rank table is a u32 per 64-bit word: a third of the cost.
    assert_eq!(set.heap_bytes() * 3, cov.heap_bytes() * 2);
}

#[test]
fn glyph_set_agrees_with_coverage_on_membership() {
    let g: Vec<u32> = (0..400).filter(|x| x % 5 == 2 || x % 11 == 0).collect();
    for budget in [0, 32, 64, 4096] {
        let cov = Coverage::build_with_budget(&g, budget);
        let set = GlyphSet::build_with_budget(&g, budget);
        assert_eq!(set.to_vec(), g, "budget {budget}");
        assert_eq!(set.len(), g.len());
        for probe in 0..420 {
            assert_eq!(
                set.contains(probe),
                cov.contains(probe),
                "budget {budget}, glyph {probe}: {set:?} vs {cov:?}"
            );
        }
    }
}

#[test]
fn glyph_set_range_does_not_wrap_below_first() {
    let set = GlyphSet::build(&[10, 11, 12]);
    assert!(matches!(set, GlyphSet::Range { .. }));
    assert!(!set.contains(0));
    assert!(!set.contains(9));
    assert!(set.contains(10));
    assert!(!set.contains(13));
}

#[test]
fn empty_glyph_set() {
    let set = GlyphSet::build(&[]);
    assert!(set.is_empty());
    assert_eq!(set.len(), 0);
    assert!(!set.contains(0));
    assert_eq!(set.heap_bytes(), 0);
}

#[test]
fn interning_returns_the_same_table_for_the_same_bytes() {
    let mut pool = Interner::new();
    let mut built = 0;
    let a = pool.set(b"cov-a", || {
        built += 1;
        GlyphSet::build(&[1, 2, 3])
    });
    let b = pool.set(b"cov-a", || {
        built += 1;
        GlyphSet::build(&[1, 2, 3])
    });
    assert_eq!(built, 1, "a hit must not build");
    assert!(Arc::ptr_eq(&a, &b), "a hit must share, not copy");
    assert_eq!(pool.len().0, 1);
}

#[test]
fn different_bytes_intern_separately() {
    let mut pool = Interner::new();
    let a = pool.set(b"cov-a", || GlyphSet::build(&[1]));
    let b = pool.set(b"cov-b", || GlyphSet::build(&[2]));
    assert!(!Arc::ptr_eq(&a, &b));
    assert_eq!(pool.len().0, 2);
}

#[test]
fn the_same_bytes_compile_differently_for_different_uses() {
    // A coverage read as a set carries no rank table; one read for its index
    // does. They cannot share an entry, so they do not share a table.
    let mut pool = Interner::new();
    let glyphs: Vec<u32> = (0..200).filter(|x| x % 3 == 0).collect();
    let set = pool.set(b"same", || GlyphSet::build(&glyphs));
    let cov = pool.coverage(b"same", || Coverage::build(&glyphs));
    assert_eq!(pool.len(), (1, 1, 0));
    assert!(cov.heap_bytes() > set.heap_bytes(), "the index costs extra");
    assert_eq!(cov.index(0), Some(0));
}

#[test]
fn class_maps_intern_too() {
    let mut pool = Interner::new();
    let entries: Vec<(u32, u16)> = (0..50).map(|g| (g, (g % 4) as u16)).collect();
    let a = pool.class_map(b"cd", || ClassMap::build(&entries));
    let b = pool.class_map(b"cd", || ClassMap::build(&entries));
    assert!(Arc::ptr_eq(&a, &b));
    assert_eq!(pool.len(), (0, 0, 1));
}

#[test]
fn class_map_empty_when_all_zero() {
    assert_eq!(ClassMap::build(&[(1, 0), (2, 0)]), ClassMap::Empty);
    assert_eq!(ClassMap::build(&[]).get(7), 0);
}

#[test]
fn small_classes_prefer_the_byte_table() {
    // Max class 4 fits a byte, so the 200-byte table must beat the 400-byte
    // one even though both are dense and both fit the budget.
    let entries: Vec<(u32, u16)> = (0..200).map(|g| (g, ((g / 7) % 5) as u16)).collect();
    let m = ClassMap::build_with_budget(&entries, 4096);
    assert!(matches!(m, ClassMap::Dense8 { .. }), "got {m:?}");

    // Same set, but one class pushed past a byte: the only difference is the
    // element width, so the u16 table must cost exactly twice as much.
    let mut wide_entries = entries.clone();
    wide_entries.last_mut().unwrap().1 = 900;
    let wide = ClassMap::build_with_budget(&wide_entries, 4096);
    assert!(matches!(wide, ClassMap::Dense { .. }), "got {wide:?}");
    assert_eq!(wide.heap_bytes(), m.heap_bytes() * 2);
}

#[test]
fn wide_classes_need_the_u16_table() {
    // A class past 255 rules out the byte table.
    let mut entries: Vec<(u32, u16)> = (0..200).map(|g| (g, ((g / 7) % 5) as u16)).collect();
    entries[10].1 = 900;
    let m = ClassMap::build_with_budget(&entries, 4096);
    assert!(matches!(m, ClassMap::Dense { .. }), "got {m:?}");
    assert_eq!(m.get(10), 900);
}

#[test]
fn every_class_map_form_agrees() {
    let mut entries: Vec<(u32, u16)> = (0..200).map(|g| (g, ((g / 7) % 5) as u16)).collect();
    entries[10].1 = 900;
    // The budget is a floor, so raising it cannot change a choice the slack
    // already allowed. To force the slow form, deny the slack instead.
    let forms = [
        ClassMap::build_with_budget(&entries, 4096),
        ClassMap::build_with_slack(&entries, 0, 1),
    ];
    assert!(
        matches!(forms[0], ClassMap::Dense { .. }),
        "got {:?}",
        forms[0]
    );
    assert!(
        matches!(forms[1], ClassMap::Ranges(_)),
        "got {:?}",
        forms[1]
    );
    for g in 0..220 {
        let want = entries.iter().find(|(x, _)| *x == g).map_or(0, |(_, c)| *c);
        for m in &forms {
            assert_eq!(m.get(g), want, "{m:?} at {g}");
        }
    }
}

#[test]
fn picker_never_takes_a_bigger_form_than_it_has_to() {
    // The failure this guards: falling back past a representation that was
    // both smaller and faster just because it missed the budget.
    let entries: Vec<(u32, u16)> = (0..1200)
        .filter(|g| g % 3 != 0)
        .map(|g| (g, (g % 37) as u16))
        .collect();
    let m = ClassMap::build(&entries);
    let ranges = ClassMap::build_with_budget(&entries, 0);
    assert!(
        m.heap_bytes() <= ranges.heap_bytes(),
        "picked {} bytes when {} was available",
        m.heap_bytes(),
        ranges.heap_bytes()
    );
    for g in 0..1250 {
        let want = entries.iter().find(|(x, _)| *x == g).map_or(0, |(_, c)| *c);
        assert_eq!(m.get(g), want, "at {g}");
    }
}

#[test]
fn class_map_ranges_coalesce() {
    let entries: Vec<(u32, u16)> = (0..100).map(|g| (g, 3)).collect();
    let ranges = ClassMap::build_with_budget(&entries, 0);
    match &ranges {
        ClassMap::Ranges(r) => assert_eq!(r.len(), 1, "one run expected, got {r:?}"),
        other => panic!("expected ranges, got {other:?}"),
    }
    assert_eq!(ranges.get(50), 3);
    assert_eq!(ranges.get(100), 0);
}

#[test]
fn a_digest_never_denies_a_glyph_it_holds() {
    // The only property that matters for correctness: a false negative is a
    // silently dropped lookup, a false positive is a wasted scan.
    let mut d = Digest::empty();
    let members: Vec<u32> = (0..500).map(|i| i * 37 % 9001).collect();
    for &g in &members {
        d.insert(g);
    }
    for &g in &members {
        let mut one = Digest::empty();
        one.insert(g);
        assert!(
            d.may_intersect(&one),
            "digest denied glyph {g} it was given"
        );
    }
}

#[test]
fn disjoint_sets_usually_read_as_disjoint() {
    // Not guaranteed -- it is allowed to say yes -- but it has to reject
    // most of the time or it is not worth having.
    let low = Digest::from_glyphs(&(0..40u32).collect::<Vec<u32>>());
    let high = Digest::from_glyphs(&(3000..3040u32).collect::<Vec<u32>>());
    assert!(!low.may_intersect(&high));

    let mut rejected = 0;
    for base in (0..8000u32).step_by(97) {
        let a = Digest::from_glyphs(&(base..base + 8).collect::<Vec<u32>>());
        let b = Digest::from_glyphs(&(base + 4000..base + 4008).collect::<Vec<u32>>());
        if !a.may_intersect(&b) {
            rejected += 1;
        }
    }
    assert!(
        rejected > 70,
        "only {rejected} of 83 disjoint pairs rejected"
    );
}

#[test]
fn an_empty_digest_matches_nothing_and_a_full_one_matches_all() {
    let some = Digest::from_glyphs(&[1u32, 2, 3]);
    assert!(!Digest::empty().may_intersect(&some));
    assert!(!some.may_intersect(&Digest::empty()));
    assert!(Digest::full().may_intersect(&some));
    assert!(Digest::empty().is_empty());
    assert!(!some.is_empty());
}

#[test]
fn a_union_holds_both_sides() {
    let mut a = Digest::from_glyphs(&[10u32, 20]);
    let b = Digest::from_glyphs(&[3000u32]);
    a.union(&b);
    assert!(a.may_intersect(&b));
    assert!(a.may_intersect(&Digest::from_glyphs(&[10u32])));
}

#[test]
fn every_form_of_a_class_map_names_the_same_glyphs() {
    let entries = vec![(10u32, 1u16), (11, 0), (12, 2), (15, 2), (16, 2)];
    let named = vec![(10u32, 1u16), (12, 2), (15, 2), (16, 2)];
    let dense = ClassMap::build(&entries);
    assert!(matches!(dense, ClassMap::Dense8 { .. }));
    assert_eq!(dense.for_each(), named);
    let ranges = ClassMap::build_with_slack(&[(0, 3), (60_000, 3)], 0, 1);
    assert!(matches!(ranges, ClassMap::Ranges(_)));
    assert_eq!(ranges.for_each(), vec![(0, 3), (60_000, 3)]);
    assert!(ClassMap::build(&[]).for_each().is_empty());
}
