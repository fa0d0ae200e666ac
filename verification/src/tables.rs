//! Coverage tables and class definitions as a font stores them.
//!
//! Both come in two formats: a plain list, and a list of ranges. A table whose
//! list runs past the end of the data is one with an empty list.

use read_fonts::tables::layout::{ClassDef, CoverageTable};
use read_fonts::{FontData, FontRead};
use vstd::prelude::*;

use crate::bytes::{be16, fits, tail, word};
use crate::class_map::{by_glyph, class_in, lemma_class_in};
use crate::order::{lemma_multiset_members, sort_words};

verus! {

/// Whether a coverage table starts here.
pub open spec fn coverage_readable(d: Seq<u8>) -> bool {
    fits(d, 0, 4) && (word(d, 0) == 1 || word(d, 0) == 2)
}

/// The ids of the first `n` range records from `at` on. Each record is six
/// bytes, of which the first four are the ends of its range.
pub open spec fn range_glyphs(d: Seq<u8>, n: nat) -> Seq<u32>
    decreases n,
{
    if n == 0 {
        seq![]
    } else {
        let at = 4 + 6 * (n - 1);
        let start = word(d, at);
        let end = word(d, at + 2);
        range_glyphs(d, (n - 1) as nat) + Seq::new(
            if start <= end {
                (end - start + 1) as nat
            } else {
                0
            },
            |i: int| (start + i) as u32,
        )
    }
}

/// The glyphs a coverage table lists, in the order it lists them.
pub open spec fn coverage_glyphs(d: Seq<u8>) -> Seq<u32> {
    let n = word(d, 2);
    if word(d, 0) == 1 {
        if fits(d, 4, 2 * n) {
            Seq::new(n as nat, |i: int| word(d, 4 + 2 * i) as u32)
        } else {
            seq![]
        }
    } else if fits(d, 4, 6 * n) {
        range_glyphs(d, n as nat)
    } else {
        seq![]
    }
}

/// `CoverageTable::read` and `CoverageTable::iter`: a table is readable when its
/// header is there and its format is one or two, and it lists its glyph array,
/// or the ids of its range records in turn; an array that runs past the end
/// of the data reads as empty.
#[verifier::external_body]
fn read_coverage(data: &[u8]) -> (r: Option<Vec<u32>>)
    ensures
        r is Some <==> coverage_readable(data@),
        r matches Some(v) ==> v@ == coverage_glyphs(data@),
{
    let table = CoverageTable::read(FontData::new(data)).ok()?;
    Some(table.iter().map(|g| g.to_u32()).collect())
}

/// Whether a class definition starts here.
pub open spec fn class_def_readable(d: Seq<u8>) -> bool {
    (fits(d, 0, 6) && word(d, 0) == 1) || (fits(d, 0, 4) && word(d, 0) == 2)
}

/// The pairs of the first `n` class range records.
pub open spec fn range_classes(d: Seq<u8>, n: nat) -> Seq<(u32, u16)>
    decreases n,
{
    if n == 0 {
        seq![]
    } else {
        let at = 4 + 6 * (n - 1);
        let start = word(d, at);
        let end = word(d, at + 2);
        range_classes(d, (n - 1) as nat) + Seq::new(
            if start <= end {
                (end - start + 1) as nat
            } else {
                0
            },
            |i: int| ((start + i) as u32, word(d, at + 4)),
        )
    }
}

/// The pairs a class definition lists, in the order it lists them. A run that
/// passes the last sixteen-bit id stays there.
pub open spec fn class_def_pairs(d: Seq<u8>) -> Seq<(u32, u16)> {
    if word(d, 0) == 1 {
        let start = word(d, 2);
        let n = word(d, 4);
        if fits(d, 6, 2 * n) {
            Seq::new(
                n as nat,
                |i: int| (vstd::math::min(start + i, 0xffff) as u32, word(d, 6 + 2 * i)),
            )
        } else {
            seq![]
        }
    } else {
        let n = word(d, 2);
        if fits(d, 4, 6 * n) {
            range_classes(d, n as nat)
        } else {
            seq![]
        }
    }
}

/// `ClassDef::read` and `ClassDef::iter`: a definition is readable when its
/// header is there and its format is one or two, and it lists a class per glyph
/// from its first on, or the glyphs of its range records in turn; an array that
/// runs past the end of the data reads as empty.
#[verifier::external_body]
fn read_class_def(data: &[u8]) -> (r: Option<Vec<(u32, u16)>>)
    ensures
        r is Some <==> class_def_readable(data@),
        r matches Some(v) ==> v@ == class_def_pairs(data@),
{
    let table = ClassDef::read(FontData::new(data)).ok()?;
    Some(table.iter().map(|(g, class)| (g.to_u32(), class)).collect())
}

/// Where an offset from `base` leads, unless it is null or past the end.
pub open spec fn resolves(data: Seq<u8>, base: int, offset: int) -> bool {
    offset != 0 && base + offset <= data.len()
}

/// The glyphs of the coverage table at an offset from `base`, where there is
/// one.
pub open spec fn coverage_from(data: Seq<u8>, base: int, offset: int) -> Option<Seq<u32>> {
    if resolves(data, base, offset) && coverage_readable(tail(data, base + offset)) {
        Some(coverage_glyphs(tail(data, base + offset)))
    } else {
        None
    }
}

/// The pairs of the class definition at an offset from `base`, where there is
/// one.
pub open spec fn class_def_from(data: Seq<u8>, base: int, offset: int) -> Option<Seq<(u32, u16)>> {
    if resolves(data, base, offset) && class_def_readable(tail(data, base + offset)) {
        Some(class_def_pairs(tail(data, base + offset)))
    } else {
        None
    }
}

/// The exact bytes of a coverage table.
///
/// The data runs from the table to the end of its parent, so the extent has to
/// come from the format's own count field. A truncated table falls back to
/// whatever is there.
pub open spec fn coverage_extent(d: Seq<u8>) -> Seq<u8> {
    let n = word(d, 2);
    let len = if word(d, 0) == 1 {
        4 + 2 * n
    } else {
        4 + 6 * n
    };
    if len <= d.len() {
        d.take(len)
    } else {
        d
    }
}

/// The exact bytes of a class definition.
pub open spec fn class_def_extent(d: Seq<u8>) -> Seq<u8> {
    let len = if word(d, 0) == 1 {
        6 + 2 * word(d, 4)
    } else {
        4 + 6 * word(d, 2)
    };
    if len <= d.len() {
        d.take(len)
    } else {
        d
    }
}

proof fn lemma_range_glyphs_extent(d: Seq<u8>, e: Seq<u8>, n: nat)
    requires
        4 + 6 * n <= e.len() <= d.len(),
        forall|i: int| 0 <= i < e.len() ==> e[i] == d[i],
    ensures
        range_glyphs(e, n) == range_glyphs(d, n),
    decreases n,
{
    if n > 0 {
        lemma_range_glyphs_extent(d, e, (n - 1) as nat);
        let at = 4 + 6 * (n - 1);
        assert(word(e, at) == word(d, at));
        assert(word(e, at + 2) == word(d, at + 2));
    }
}

proof fn lemma_range_classes_extent(d: Seq<u8>, e: Seq<u8>, n: nat)
    requires
        4 + 6 * n <= e.len() <= d.len(),
        forall|i: int| 0 <= i < e.len() ==> e[i] == d[i],
    ensures
        range_classes(e, n) == range_classes(d, n),
    decreases n,
{
    if n > 0 {
        lemma_range_classes_extent(d, e, (n - 1) as nat);
        let at = 4 + 6 * (n - 1);
        assert(word(e, at) == word(d, at));
        assert(word(e, at + 2) == word(d, at + 2));
        assert(word(e, at + 4) == word(d, at + 4));
    }
}

/// A coverage table's own bytes say everything about it.
pub proof fn lemma_coverage_extent(d: Seq<u8>)
    requires
        coverage_readable(d),
    ensures
        coverage_readable(coverage_extent(d)),
        coverage_glyphs(coverage_extent(d)) == coverage_glyphs(d),
{
    let e = coverage_extent(d);
    let n = word(d, 2);
    assert(word(e, 0) == word(d, 0));
    assert(word(e, 2) == word(d, 2));
    if word(d, 0) == 1 {
        if fits(d, 4, 2 * n) {
            assert(coverage_glyphs(e) =~= coverage_glyphs(d));
        }
    } else if fits(d, 4, 6 * n) {
        lemma_range_glyphs_extent(d, e, n as nat);
    }
}

/// A class definition's own bytes say everything about it.
pub proof fn lemma_class_def_extent(d: Seq<u8>)
    requires
        class_def_readable(d),
    ensures
        class_def_readable(class_def_extent(d)),
        class_def_pairs(class_def_extent(d)) == class_def_pairs(d),
{
    let e = class_def_extent(d);
    assert(word(e, 0) == word(d, 0));
    assert(word(e, 2) == word(d, 2));
    if word(d, 0) == 1 {
        assert(word(e, 4) == word(d, 4));
        let n = word(d, 4);
        if fits(d, 6, 2 * n) {
            assert(class_def_pairs(e) =~= class_def_pairs(d));
        }
    } else {
        let n = word(d, 2);
        if fits(d, 4, 6 * n) {
            lemma_range_classes_extent(d, e, n as nat);
        }
    }
}

/// The bytes at an offset from `base`, where the offset leads anywhere.
pub fn resolve<'a>(data: &'a [u8], base: usize, offset: u32) -> (r: Option<&'a [u8]>)
    ensures
        r is Some <==> resolves(data@, base as int, offset as int),
        r matches Some(d) ==> d@ == tail(data@, base + offset),
{
    if offset == 0 || base > data.len() || offset as usize > data.len() - base {
        return None;
    }
    Some(vstd::slice::slice_subrange(data, base + offset as usize, data.len()))
}

/// The glyphs of a coverage table.
pub fn coverage_list(d: &[u8]) -> (r: Option<Vec<u32>>)
    ensures
        r is Some <==> coverage_readable(d@),
        r matches Some(v) ==> v@ == coverage_glyphs(d@),
{
    read_coverage(d)
}

/// The exact bytes of a coverage table, for interning.
pub fn coverage_bytes<'a>(d: &'a [u8]) -> (r: &'a [u8])
    requires
        coverage_readable(d@),
    ensures
        r@ == coverage_extent(d@),
{
    let format: u16 = be16(d, 0).unwrap();
    let n: u16 = be16(d, 2).unwrap();
    let len: usize = if format == 1 {
        4 + 2 * n as usize
    } else {
        4 + 6 * n as usize
    };
    if len <= d.len() {
        let r = vstd::slice::slice_subrange(d, 0, len);
        assert(r@ =~= d@.take(len as int));
        r
    } else {
        d
    }
}

/// The exact bytes of a class definition, for interning.
pub fn class_def_bytes<'a>(d: &'a [u8]) -> (r: &'a [u8])
    requires
        class_def_readable(d@),
    ensures
        r@ == class_def_extent(d@),
{
    let format: u16 = be16(d, 0).unwrap();
    let len: usize = if format == 1 {
        6 + 2 * be16(d, 4).unwrap() as usize
    } else {
        4 + 6 * be16(d, 2).unwrap() as usize
    };
    if len <= d.len() {
        let r = vstd::slice::slice_subrange(d, 0, len);
        assert(r@ =~= d@.take(len as int));
        r
    } else {
        d
    }
}

/// Whether some pair gives `g` the class `c`, other than the default.
pub open spec fn gives(pairs: Seq<(u32, u16)>, g: u32, c: u16) -> bool {
    c != 0 && pairs.contains((g, c))
}

/// The class that pairs in any order give a glyph: the lowest that one of them
/// names, zero where none does.
pub open spec fn lowest_class(pairs: Seq<(u32, u16)>, g: u32) -> u16 {
    if exists|c: u16| gives(pairs, g, c) {
        choose|c: u16| gives(pairs, g, c) && forall|b: u16| gives(pairs, g, b) ==> c <= b
    } else {
        0
    }
}

/// Pairs in ascending order of glyph, one per glyph and none of class zero.
pub open spec fn settled(entries: Seq<(u32, u16)>, pairs: Seq<(u32, u16)>) -> bool {
    &&& by_glyph(entries)
    &&& forall|i: int|
        0 <= i < entries.len() ==> gives(pairs, (#[trigger] entries[i]).0, entries[i].1) && forall|b: u16|
            gives(pairs, entries[i].0, b) ==> entries[i].1 <= b
    &&& forall|g: u32, c: u16|
        gives(pairs, g, c) ==> exists|i: int| 0 <= i < entries.len() && (#[trigger] entries[i]).0 == g
}

/// A pair in one word, so that one sort orders by glyph and then by class.
spec fn packed(e: (u32, u16)) -> u64 {
    (e.0 as u64 * 0x1_0000 + e.1) as u64
}

/// Whether a word packs one of the first `n` pairs, other than of class zero.
spec fn came_from(pairs: Seq<(u32, u16)>, n: int, w: u64) -> bool {
    exists|m: int| 0 <= m < n && (#[trigger] pairs[m]).1 != 0 && packed(pairs[m]) == w
}

/// Settle pairs in any order: the lowest class that one of them names wins.
pub fn settle(pairs: &[(u32, u16)]) -> (entries: Vec<(u32, u16)>)
    ensures
        settled(entries@, pairs@),
        entries@.len() <= pairs@.len(),
{
    let mut words: Vec<u64> = Vec::new();
    let mut i: usize = 0;
    while i < pairs.len()
        invariant
            i <= pairs@.len(),
            words@.len() <= i,
            forall|k: int|
                0 <= k < i && (#[trigger] pairs@[k]).1 != 0 ==> words@.contains(packed(pairs@[k])),
            forall|k: int| 0 <= k < words@.len() ==> came_from(pairs@, i as int, #[trigger] words@[k]),
        decreases pairs@.len() - i,
    {
        let (g, c) = pairs[i];
        let ghost before = words@;
        if c != 0 {
            words.push(g as u64 * 0x1_0000 + c as u64);
        }
        proof {
            assert forall|k: int| 0 <= k < i + 1 && (#[trigger] pairs@[k]).1 != 0 implies words@.contains(
                packed(pairs@[k]),
            ) by {
                if k < i {
                    let m = choose|m: int| 0 <= m < before.len() && before[m] == packed(pairs@[k]);
                    assert(words@[m] == packed(pairs@[k]));
                } else {
                    assert(words@[words@.len() - 1] == packed(pairs@[k]));
                }
            }
            assert forall|k: int| 0 <= k < words@.len() implies came_from(
                pairs@,
                i + 1,
                #[trigger] words@[k],
            ) by {
                if k < before.len() {
                    assert(words@[k] == before[k]);
                    assert(came_from(pairs@, i as int, before[k]));
                    let m = choose|m: int|
                        0 <= m < i && (#[trigger] pairs@[m]).1 != 0 && packed(pairs@[m]) == before[k];
                    assert(pairs@[m].1 != 0 && packed(pairs@[m]) == words@[k]);
                } else {
                    assert(pairs@[i as int].1 != 0 && packed(pairs@[i as int]) == words@[k]);
                }
            }
        }
        i += 1;
    }
    let ghost unsorted = words@;
    sort_words(&mut words);
    let ghost sorted = words@;
    proof {
        lemma_multiset_members(sorted, unsorted, 0u64);
        assert forall|k: int| 0 <= k < pairs@.len() && (#[trigger] pairs@[k]).1 != 0 implies sorted.contains(
            packed(pairs@[k]),
        ) by {
            lemma_multiset_members(sorted, unsorted, packed(pairs@[k]));
        }
        assert forall|k: int| 0 <= k < sorted.len() implies came_from(
            pairs@,
            pairs@.len() as int,
            #[trigger] sorted[k],
        ) by {
            assert(sorted.contains(sorted[k]));
            lemma_multiset_members(sorted, unsorted, sorted[k]);
            let n = choose|n: int| 0 <= n < unsorted.len() && unsorted[n] == sorted[k];
            assert(unsorted[n] == sorted[k]);
        }
    }
    let mut out: Vec<(u32, u16)> = Vec::new();
    let mut j: usize = 0;
    while j < words.len()
        invariant
            j <= words@.len(),
            words@ == sorted,
            sorted.len() <= pairs@.len(),
            out@.len() <= j,
            j > 0 <==> out@.len() > 0,
            forall|a: int, b: int| 0 <= a < b < sorted.len() ==> sorted[a] <= sorted[b],
            forall|k: int|
                0 <= k < sorted.len() ==> came_from(pairs@, pairs@.len() as int, #[trigger] sorted[k]),
            by_glyph(out@),
            forall|k: int| 0 <= k < out@.len() ==> gives(pairs@, (#[trigger] out@[k]).0, out@[k].1),
            // Each kept pair is the first of its glyph, so nothing before it
            // or after it is lower.
            forall|k: int, n: int|
                0 <= k < out@.len() && 0 <= n < sorted.len() && sorted[n] / 0x1_0000 == (#[trigger] out@[k]).0
                    ==> out@[k].1 <= #[trigger] sorted[n] % 0x1_0000,
            forall|n: int|
                0 <= n < j ==> exists|k: int|
                    0 <= k < out@.len() && (#[trigger] out@[k]).0 == #[trigger] sorted[n] / 0x1_0000,
            j > 0 ==> out@.last().0 == sorted[j - 1] / 0x1_0000,
        decreases words@.len() - j,
    {
        let w: u64 = words[j];
        assert(came_from(pairs@, pairs@.len() as int, sorted[j as int]));
        let ghost m = choose|m: int|
            0 <= m < pairs@.len() && (#[trigger] pairs@[m]).1 != 0 && packed(pairs@[m]) == sorted[j as int];
        assert(sorted[j as int] == packed(pairs@[m]));
        assert(w / 0x1_0000 == pairs@[m].0 && w % 0x1_0000 == pairs@[m].1);
        let g: u32 = (w / 0x1_0000) as u32;
        let c: u16 = (w % 0x1_0000) as u16;
        let n: usize = out.len();
        let ghost before = out@;
        if n == 0 || out[n - 1].0 != g {
            out.push((g, c));
        }
        proof {
            if j > 0 {
                assert(sorted[j - 1] <= sorted[j as int]);
                assert(sorted[j - 1] / 0x1_0000 <= sorted[j as int] / 0x1_0000);
            }
            if out@.len() > before.len() {
                assert(pairs@.contains(pairs@[m]));
                assert(gives(pairs@, g, c));
                assert forall|a: int, b: int| 0 <= a < b < out@.len() implies (#[trigger] out@[a]).0 < (
                #[trigger] out@[b]).0 by {
                    if b == before.len() {
                        assert(before[a].0 <= before.last().0);
                    }
                }
                assert forall|k: int, p: int|
                    0 <= k < out@.len() && 0 <= p < sorted.len() && sorted[p] / 0x1_0000 == (
                    #[trigger] out@[k]).0 implies out@[k].1 <= #[trigger] sorted[p] % 0x1_0000 by {
                    if k == before.len() {
                        if p < j {
                            let q = choose|q: int|
                                0 <= q < before.len() && (#[trigger] before[q]).0 == sorted[p] / 0x1_0000;
                            assert(out@[q].0 < out@[k].0);
                        } else if p > j {
                            assert(sorted[j as int] <= sorted[p]);
                        }
                    } else {
                        assert(out@[k] == before[k]);
                    }
                }
            }
            assert forall|p: int| 0 <= p < j + 1 implies exists|k: int|
                0 <= k < out@.len() && (#[trigger] out@[k]).0 == #[trigger] sorted[p] / 0x1_0000 by {
                if p < j {
                    let k = choose|k: int|
                        0 <= k < before.len() && (#[trigger] before[k]).0 == sorted[p] / 0x1_0000;
                    assert(out@[k].0 == sorted[p] / 0x1_0000);
                } else {
                    assert(out@[out@.len() - 1].0 == g);
                }
            }
        }
        j += 1;
    }
    proof {
        assert forall|g: u32, c: u16| gives(pairs@, g, c) implies exists|i: int|
            0 <= i < out@.len() && (#[trigger] out@[i]).0 == g by {
            lemma_packed_found(pairs@, sorted, g, c);
            let n = choose|n: int| 0 <= n < sorted.len() && sorted[n] == packed((g, c));
            assert(sorted[n] / 0x1_0000 == g);
            let k = choose|k: int| 0 <= k < out@.len() && (#[trigger] out@[k]).0 == sorted[n] / 0x1_0000;
            assert(out@[k].0 == g);
        }
        assert forall|i: int| 0 <= i < out@.len() implies gives(pairs@, (#[trigger] out@[i]).0, out@[i].1)
            && forall|b: u16| gives(pairs@, out@[i].0, b) ==> out@[i].1 <= b by {
            assert forall|b: u16| gives(pairs@, out@[i].0, b) implies out@[i].1 <= b by {
                lemma_packed_found(pairs@, sorted, out@[i].0, b);
                let n = choose|n: int| 0 <= n < sorted.len() && sorted[n] == packed((out@[i].0, b));
                assert(sorted[n] / 0x1_0000 == out@[i].0);
                assert(sorted[n] % 0x1_0000 == b);
            }
        }
    }
    out
}

proof fn lemma_packed_found(pairs: Seq<(u32, u16)>, sorted: Seq<u64>, g: u32, c: u16)
    requires
        gives(pairs, g, c),
        forall|k: int|
            0 <= k < pairs.len() && (#[trigger] pairs[k]).1 != 0 ==> sorted.contains(packed(pairs[k])),
    ensures
        sorted.contains(packed((g, c))),
{
    let k = choose|k: int| 0 <= k < pairs.len() && pairs[k] == (g, c);
    assert(pairs[k].1 != 0);
}

/// Settled pairs give each glyph the lowest class named for it.
pub proof fn lemma_settled(entries: Seq<(u32, u16)>, pairs: Seq<(u32, u16)>, g: u32)
    requires
        settled(entries, pairs),
    ensures
        class_in(entries, g) == lowest_class(pairs, g),
{
    if exists|c: u16| gives(pairs, g, c) {
        let c = choose|c: u16| gives(pairs, g, c);
        let i = choose|i: int| 0 <= i < entries.len() && (#[trigger] entries[i]).0 == g;
        lemma_class_in(entries, i);
        let low = entries[i].1;
        assert(gives(pairs, g, low) && forall|b: u16| gives(pairs, g, b) ==> low <= b);
        let l = lowest_class(pairs, g);
        assert(gives(pairs, g, l));
        assert(l <= low && low <= l);
    } else if exists|i: int| 0 <= i < entries.len() && (#[trigger] entries[i]).0 == g {
        let i = choose|i: int| 0 <= i < entries.len() && (#[trigger] entries[i]).0 == g;
        assert(gives(pairs, g, entries[i].1));
    }
}

/// The pairs of a class definition.
pub fn class_def_list(d: &[u8]) -> (r: Option<Vec<(u32, u16)>>)
    ensures
        r is Some <==> class_def_readable(d@),
        r matches Some(v) ==> v@ == class_def_pairs(d@),
{
    read_class_def(d)
}

/// The ids of range records are those from the first to the last id of each.
pub proof fn ranges_hold_what_lies_between_their_ends(d: Seq<u8>, n: nat, g: u32)
    ensures
        range_glyphs(d, n).contains(g) <==> exists|i: int|
            0 <= i < n && word(d, 4 + 6 * i) <= g && g <= #[trigger] word(d, 4 + 6 * i + 2),
    decreases n,
{
    if n > 0 {
        let m = (n - 1) as nat;
        ranges_hold_what_lies_between_their_ends(d, m, g);
        let at = 4 + 6 * (n - 1);
        let start = word(d, at);
        let end = word(d, at + 2);
        let here = Seq::new(
            if start <= end {
                (end - start + 1) as nat
            } else {
                0
            },
            |i: int| (start + i) as u32,
        );
        let all = range_glyphs(d, n);
        let before = range_glyphs(d, m);
        assert(all == before + here);
        if all.contains(g) {
            let k = choose|k: int| 0 <= k < all.len() && all[k] == g;
            if k < before.len() {
                assert(before[k] == g);
                let i = choose|i: int|
                    0 <= i < m && word(d, 4 + 6 * i) <= g && g <= #[trigger] word(d, 4 + 6 * i + 2);
                assert(g <= word(d, 4 + 6 * i + 2));
            } else {
                assert(here[k - before.len()] == g);
                assert(g <= word(d, 4 + 6 * (n - 1) + 2));
            }
        }
        if exists|i: int| 0 <= i < n && word(d, 4 + 6 * i) <= g && g <= #[trigger] word(d, 4 + 6 * i + 2) {
            let i = choose|i: int|
                0 <= i < n && word(d, 4 + 6 * i) <= g && g <= #[trigger] word(d, 4 + 6 * i + 2);
            if i < m {
                assert(g <= word(d, 4 + 6 * i + 2));
                let k = choose|k: int| 0 <= k < before.len() && before[k] == g;
                assert(all[k] == g);
            } else {
                let k = g - start;
                assert(here[k] == g);
                assert(all[before.len() + k] == g);
            }
        }
    }
}

/// A coverage table covers the glyphs that it lists, or those of its ranges.
pub proof fn a_coverage_covers_what_it_lists(d: &[u8], g: u32, r: Option<Vec<u32>>)
    requires
        call_ensures(coverage_list, (d,), r),
        d@.len() >= 4,
    ensures
        r is Some <==> word(d@, 0) == 1 || word(d@, 0) == 2,
        word(d@, 0) == 1 && 4 + 2 * word(d@, 2) <= d@.len() ==> (r->0@.contains(g) <==> exists|i: int|
            0 <= i < word(d@, 2) && #[trigger] word(d@, 4 + 2 * i) == g),
        word(d@, 0) == 2 && 4 + 6 * word(d@, 2) <= d@.len() ==> (r->0@.contains(g) <==> exists|i: int|
            0 <= i < word(d@, 2) && word(d@, 4 + 6 * i) <= g && g <= #[trigger] word(d@, 4 + 6 * i + 2)),
{
    if word(d@, 0) == 1 && 4 + 2 * word(d@, 2) <= d@.len() {
        if exists|i: int| 0 <= i < word(d@, 2) && #[trigger] word(d@, 4 + 2 * i) == g {
            let i = choose|i: int| 0 <= i < word(d@, 2) && #[trigger] word(d@, 4 + 2 * i) == g;
            assert(r->0@[i] == g);
        }
        if r->0@.contains(g) {
            let i = choose|i: int| 0 <= i < r->0@.len() && r->0@[i] == g;
            assert(word(d@, 4 + 2 * i) == g);
        }
    }
    if word(d@, 0) == 2 && 4 + 6 * word(d@, 2) <= d@.len() {
        ranges_hold_what_lies_between_their_ends(d@, word(d@, 2) as nat, g);
    }
}

/// The pairs of class range records give each id from the first to the last of a
/// record that record's class.
pub proof fn class_ranges_hold_what_lies_between_their_ends(d: Seq<u8>, n: nat, g: u32, c: u16)
    ensures
        range_classes(d, n).contains((g, c)) <==> exists|i: int|
            0 <= i < n && word(d, 4 + 6 * i) <= g && g <= word(d, 4 + 6 * i + 2) && c == #[trigger] word(
                d,
                4 + 6 * i + 4,
            ),
    decreases n,
{
    if n > 0 {
        let m = (n - 1) as nat;
        class_ranges_hold_what_lies_between_their_ends(d, m, g, c);
        let at = 4 + 6 * (n - 1);
        let start = word(d, at);
        let end = word(d, at + 2);
        let here = Seq::new(
            if start <= end {
                (end - start + 1) as nat
            } else {
                0
            },
            |i: int| ((start + i) as u32, word(d, at + 4)),
        );
        let all = range_classes(d, n);
        let before = range_classes(d, m);
        assert(all == before + here);
        if all.contains((g, c)) {
            let k = choose|k: int| 0 <= k < all.len() && all[k] == (g, c);
            if k < before.len() {
                assert(before[k] == (g, c));
                let i = choose|i: int|
                    0 <= i < m && word(d, 4 + 6 * i) <= g && g <= word(d, 4 + 6 * i + 2) && c
                        == #[trigger] word(d, 4 + 6 * i + 4);
                assert(c == word(d, 4 + 6 * i + 4));
            } else {
                assert(here[k - before.len()] == (g, c));
                assert(c == word(d, 4 + 6 * (n - 1) + 4));
            }
        }
        if exists|i: int|
            0 <= i < n && word(d, 4 + 6 * i) <= g && g <= word(d, 4 + 6 * i + 2) && c == #[trigger] word(
                d,
                4 + 6 * i + 4,
            ) {
            let i = choose|i: int|
                0 <= i < n && word(d, 4 + 6 * i) <= g && g <= word(d, 4 + 6 * i + 2) && c == #[trigger] word(
                    d,
                    4 + 6 * i + 4,
                );
            if i < m {
                assert(c == word(d, 4 + 6 * i + 4));
                let k = choose|k: int| 0 <= k < before.len() && before[k] == (g, c);
                assert(all[k] == (g, c));
            } else {
                let k = g - start;
                assert(here[k] == (g, c));
                assert(all[before.len() + k] == (g, c));
            }
        }
    }
}

/// Whether a class definition names the class of a glyph: at the glyph's place
/// in a list that starts at some id, or in a range that the glyph lies in.
pub open spec fn named_at(d: Seq<u8>, i: int, g: u32, c: u16) -> bool {
    if word(d, 0) == 1 {
        &&& 0 <= i < word(d, 4)
        &&& g == vstd::math::min(word(d, 2) + i, 0xffff)
        &&& c == word(d, 6 + 2 * i)
    } else {
        &&& 0 <= i < word(d, 2)
        &&& word(d, 4 + 6 * i) <= g <= word(d, 6 + 6 * i)
        &&& c == word(d, 8 + 6 * i)
    }
}

/// A class definition gives a glyph the lowest class other than zero that it
/// names for the glyph, and zero where it names none.
pub proof fn a_definition_gives_the_class_it_names(d: &[u8], g: u32, r: Option<Vec<(u32, u16)>>)
    requires
        call_ensures(class_def_list, (d,), r),
        class_def_readable(d@),
        word(d@, 0) == 1 ==> 6 + 2 * word(d@, 4) <= d@.len(),
        word(d@, 0) == 2 ==> 4 + 6 * word(d@, 2) <= d@.len(),
    ensures
        r is Some,
        ({
            let c = lowest_class(r->0@, g);
            &&& c != 0 ==> exists|i: int| named_at(d@, i, g, c)
            &&& forall|i: int, b: u16| #[trigger] named_at(d@, i, g, b) && b != 0 ==> 0 < c <= b
        }),
{
    let pairs = r->0@;
    let n = word(d@, 2) as nat;
    assert forall|c: u16| pairs.contains((g, c)) <==> exists|i: int| named_at(d@, i, g, c) by {
        if word(d@, 0) == 1 {
            if pairs.contains((g, c)) {
                let i = choose|i: int| 0 <= i < pairs.len() && pairs[i] == (g, c);
                assert(named_at(d@, i, g, c));
            }
            if exists|i: int| named_at(d@, i, g, c) {
                let i = choose|i: int| named_at(d@, i, g, c);
                assert(pairs[i] == (g, c));
            }
        } else {
            class_ranges_hold_what_lies_between_their_ends(d@, n, g, c);
            if pairs.contains((g, c)) {
                let i = choose|i: int|
                    0 <= i < n && word(d@, 4 + 6 * i) <= g && g <= word(d@, 4 + 6 * i + 2) && c
                        == #[trigger] word(d@, 4 + 6 * i + 4);
                assert(c == word(d@, 4 + 6 * i + 4));
                assert(named_at(d@, i, g, c));
            }
            if exists|i: int| named_at(d@, i, g, c) {
                let i = choose|i: int| named_at(d@, i, g, c);
                assert(c == word(d@, 4 + 6 * i + 4));
                assert(g <= word(d@, 4 + 6 * i + 2));
            }
        }
    }
    if exists|c: u16| gives(pairs, g, c) {
        let c = choose|c: u16| gives(pairs, g, c);
        lemma_lowest(pairs, g, c);
        let l = lowest_class(pairs, g);
        assert(gives(pairs, g, l));
        assert(exists|i: int| named_at(d@, i, g, l));
    }
    assert forall|i: int, b: u16| #[trigger] named_at(d@, i, g, b) && b != 0 implies 0 < lowest_class(pairs, g)
        <= b by {
        assert(pairs.contains((g, b)));
        assert(gives(pairs, g, b));
        lemma_lowest(pairs, g, b);
    }
}

/// Where some class is named, there is a lowest.
proof fn lemma_lowest(pairs: Seq<(u32, u16)>, g: u32, c: u16)
    requires
        gives(pairs, g, c),
    ensures
        gives(pairs, g, lowest_class(pairs, g)),
        forall|b: u16| gives(pairs, g, b) ==> lowest_class(pairs, g) <= b,
{
    let low = lemma_lowest_exists(pairs, g, c);
    assert(gives(pairs, g, low) && forall|b: u16| gives(pairs, g, b) ==> low <= b);
}

proof fn lemma_lowest_exists(pairs: Seq<(u32, u16)>, g: u32, c: u16) -> (low: u16)
    requires
        gives(pairs, g, c),
    ensures
        gives(pairs, g, low),
        forall|b: u16| gives(pairs, g, b) ==> low <= b,
    decreases c,
{
    if exists|b: u16| gives(pairs, g, b) && b < c {
        let b = choose|b: u16| gives(pairs, g, b) && b < c;
        lemma_lowest_exists(pairs, g, b)
    } else {
        c
    }
}

} // verus!
