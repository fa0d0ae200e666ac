//! Tables that give glyphs values, and the glyphs that they name.

use vstd::prelude::*;

use crate::aat_glyph_set::{GlyphSet, DELETED_GLYPH};
use crate::bytes::{be16, be32, fits, long, word};
use crate::ext_machine::lookup_readable;

verus! {

/// The size of the values of a lookup.
#[derive(Copy, Clone, Debug, PartialEq, Eq, Structural)]
pub enum ValueSize {
    Word,
    Long,
}

/// How many bytes a value takes.
pub open spec fn value_bytes(w: ValueSize) -> int {
    match w {
        ValueSize::Word => 2,
        ValueSize::Long => 4,
    }
}

/// The value at `at`.
pub open spec fn value_at(d: Seq<u8>, at: int, w: ValueSize) -> u32 {
    match w {
        ValueSize::Word => word(d, at) as u32,
        ValueSize::Long => long(d, at),
    }
}

/// The glyphs from `first` to `last` with one value; none where the run starts
/// with the deleted glyph, which ends a list.
pub open spec fn run_of(first: u16, last: u16, value: u32) -> (u32, u32, u32) {
    if first == DELETED_GLYPH {
        (1, 0, value)
    } else {
        (first as u32, last as u32, value)
    }
}

/// How many records of `size` bytes follow the search header, if they lie
/// inside and are as large as the header says.
pub open spec fn record_count(d: Seq<u8>, size: int) -> nat {
    let unit = word(d, 2);
    let n = word(d, 4);
    if fits(d, 12, unit * n) && size <= unit {
        n as nat
    } else {
        0
    }
}

/// A value for each glyph, as far as there are any.
pub open spec fn items_by_glyph(d: Seq<u8>, w: ValueSize, num_glyphs: u32) -> Seq<(u32, u32, u32)> {
    let n = vstd::math::min((d.len() - 2) / value_bytes(w), num_glyphs as int);
    Seq::new(n as nat, |i: int| (i as u32, i as u32, value_at(d, 2 + i * value_bytes(w), w)))
}

/// A value for each segment.
pub open spec fn items_by_segment(d: Seq<u8>, w: ValueSize) -> Seq<(u32, u32, u32)> {
    let size = 4 + value_bytes(w);
    Seq::new(
        record_count(d, size),
        |i: int|
            run_of(
                word(d, 12 + i * size + 2),
                word(d, 12 + i * size),
                value_at(d, 12 + i * size + 4, w),
            ),
    )
}

/// How many segments with values of their own there are.
pub open spec fn segment_count(d: Seq<u8>) -> nat {
    if fits(d, 12, 6 * word(d, 4)) {
        word(d, 4) as nat
    } else {
        0
    }
}

/// The values of one segment that has them elsewhere.
pub open spec fn segment_items(d: Seq<u8>, w: ValueSize, i: int) -> Seq<(u32, u32, u32)> {
    let last = word(d, 12 + 6 * i);
    let first = word(d, 12 + 6 * i + 2);
    let at = word(d, 12 + 6 * i + 4) as int;
    if first == DELETED_GLYPH || last < first || !fits(d, at, (last - first + 1) * value_bytes(w)) {
        seq![]
    } else {
        Seq::new(
            (last - first + 1) as nat,
            |k: int| ((first + k) as u32, (first + k) as u32, value_at(d, at + k * value_bytes(w), w)),
        )
    }
}

/// The values of the first `n` segments that have them elsewhere.
pub open spec fn items_of_segments(d: Seq<u8>, w: ValueSize, n: nat) -> Seq<(u32, u32, u32)>
    decreases n,
{
    if n == 0 {
        seq![]
    } else {
        items_of_segments(d, w, (n - 1) as nat) + segment_items(d, w, n - 1)
    }
}

/// A value for each glyph that is named.
pub open spec fn items_by_name(d: Seq<u8>, w: ValueSize) -> Seq<(u32, u32, u32)> {
    let size = 2 + value_bytes(w);
    Seq::new(
        record_count(d, size),
        |i: int|
            run_of(
                word(d, 12 + i * size),
                word(d, 12 + i * size),
                value_at(d, 12 + i * size + 2, w),
            ),
    )
}

/// How many glyphs a trimmed array of words has values for.
pub open spec fn trimmed_count(d: Seq<u8>) -> nat {
    if fits(d, 6, 2 * word(d, 4)) {
        word(d, 4) as nat
    } else {
        0
    }
}

/// A value for each glyph from the first on.
pub open spec fn items_trimmed(d: Seq<u8>) -> Seq<(u32, u32, u32)> {
    let first = word(d, 2);
    if first == DELETED_GLYPH {
        seq![]
    } else {
        Seq::new(
            trimmed_count(d),
            |i: int| ((first + i) as u32, (first + i) as u32, word(d, 6 + 2 * i) as u32),
        )
    }
}

/// The value of a unit, cut to the size that is asked for.
pub open spec fn unit_value(d: Seq<u8>, at: int, unit: u16, w: ValueSize) -> u32 {
    if unit == 1 {
        d[at] as u32
    } else if unit == 2 {
        word(d, at) as u32
    } else if w == ValueSize::Word {
        long(d, at) % 0x1_0000
    } else {
        long(d, at)
    }
}

/// A value for each glyph from the first on, of units of any size.
pub open spec fn items_of_units(d: Seq<u8>, w: ValueSize) -> Seq<(u32, u32, u32)> {
    let unit = word(d, 2);
    let first = word(d, 4);
    let n = word(d, 6);
    if first == DELETED_GLYPH || !(unit == 1 || unit == 2 || unit == 4) || !fits(d, 8, n * unit) {
        seq![]
    } else {
        Seq::new(
            vstd::math::min(n as int, 0x1_0000 - first) as nat,
            |i: int| ((first + i) as u32, (first + i) as u32, unit_value(d, 8 + i * unit, unit, w)),
        )
    }
}

/// What a lookup says, in order: runs of glyphs, from one to another, and the
/// value of each.
pub open spec fn items(d: Seq<u8>, w: ValueSize, num_glyphs: u32) -> Seq<(u32, u32, u32)> {
    let f = word(d, 0);
    if !lookup_readable(d, 0) {
        seq![]
    } else if f == 0 {
        items_by_glyph(d, w, num_glyphs)
    } else if f == 2 {
        items_by_segment(d, w)
    } else if f == 4 {
        items_of_segments(d, w, segment_count(d))
    } else if f == 6 {
        items_by_name(d, w)
    } else if f == 8 {
        items_trimmed(d)
    } else {
        items_of_units(d, w)
    }
}

/// The last of `n` glyphs from `first` on; the first where there are none.
pub open spec fn run_end(first: int, n: int) -> int {
    if n == 0 {
        first
    } else {
        first + n - 1
    }
}

/// The glyphs a lookup names, whatever their values: runs from one to another.
/// Arrays that stand for a range name all of it, and at least its first glyph.
pub open spec fn spans(d: Seq<u8>, w: ValueSize, num_glyphs: u32) -> Seq<(u32, u32, u32)> {
    let f = word(d, 0);
    if !lookup_readable(d, 0) {
        seq![]
    } else if f == 0 {
        seq![(0u32, run_end(0, num_glyphs as int) as u32, 0u32)]
    } else if f == 4 {
        Seq::new(
            segment_count(d),
            |i: int| run_of(word(d, 12 + 6 * i + 2), word(d, 12 + 6 * i), 0),
        )
    } else if f == 8 {
        if word(d, 2) == DELETED_GLYPH {
            seq![]
        } else {
            seq![(word(d, 2) as u32, run_end(word(d, 2) as int, trimmed_count(d) as int) as u32, 0u32)]
        }
    } else if f == 10 {
        if word(d, 4) == DELETED_GLYPH {
            seq![]
        } else {
            seq![(word(d, 4) as u32, run_end(word(d, 4) as int, word(d, 6) as int) as u32, 0u32)]
        }
    } else {
        items(d, w, num_glyphs)
    }
}

/// What a test says of a value.
pub open spec fn passes<F: Fn(u32) -> bool>(f: F, v: u32) -> bool {
    call_ensures(f, (v,), true)
}

/// Whether a test answers for every value, and always alike.
pub open spec fn is_value_test<F: Fn(u32) -> bool>(f: F) -> bool {
    &&& forall|v: u32| #[trigger] call_requires(f, (v,))
    &&& forall|v: u32| #[trigger] call_ensures(f, (v,), false) ==> !passes(f, v)
}

/// Whether a run holds a glyph.
pub open spec fn covers(item: (u32, u32, u32), g: u32) -> bool {
    item.0 <= g <= item.1 && g <= DELETED_GLYPH
}

/// Whether one of some runs holds a glyph.
pub open spec fn any_covers(items: Seq<(u32, u32, u32)>, g: u32) -> bool {
    exists|k: int| 0 <= k < items.len() && covers(#[trigger] items[k], g)
}

/// Whether one of some runs, with a value that passes, holds a glyph.
pub open spec fn any_passes<F: Fn(u32) -> bool>(items: Seq<(u32, u32, u32)>, f: F, g: u32) -> bool {
    exists|k: int| 0 <= k < items.len() && covers(#[trigger] items[k], g) && passes(f, items[k].2)
}

fn value_len(w: ValueSize) -> (n: usize)
    ensures
        n == value_bytes(w),
{
    match w {
        ValueSize::Word => 2,
        ValueSize::Long => 4,
    }
}

fn read_value(d: &[u8], at: usize, w: ValueSize) -> (v: u32)
    requires
        fits(d@, at as int, value_bytes(w)),
    ensures
        v == value_at(d@, at as int, w),
{
    match w {
        ValueSize::Word => be16(d, at).unwrap() as u32,
        ValueSize::Long => be32(d, at).unwrap(),
    }
}

fn run_from(first: u16, last: u16, value: u32) -> (r: (u32, u32, u32))
    ensures
        r == run_of(first, last, value),
{
    if first as u32 == DELETED_GLYPH {
        (1, 0, value)
    } else {
        (first as u32, last as u32, value)
    }
}

fn read_record_count(d: &[u8], size: usize) -> (n: usize)
    requires
        fits(d@, 0, 12),
    ensures
        n == record_count(d@, size as int),
        n > 0 ==> fits(d@, 12, n * size),
{
    let unit: u64 = be16(d, 2).unwrap() as u64;
    let n: u64 = be16(d, 4).unwrap() as u64;
    assert(0 <= unit * n <= 0xffff * 0xffff) by (nonlinear_arith)
        requires
            unit <= 0xffff,
            n <= 0xffff,
    ;
    if unit * n <= (d.len() - 12) as u64 && size as u64 <= unit {
        assert(n * size <= unit * n) by (nonlinear_arith)
            requires
                size <= unit,
                n >= 0,
        ;
        n as usize
    } else {
        0
    }
}

/// The place of a record, and that the next still lies inside.
proof fn lemma_place(i: int, n: int, size: int)
    requires
        0 <= i < n,
        size > 0,
    ensures
        0 <= i * size,
        i * size + size <= n * size,
{
    assert(0 <= i * size && i * size + size <= n * size) by (nonlinear_arith)
        requires
            0 <= i,
            i + 1 <= n,
            size > 0,
    ;
}

fn read_by_glyph(d: &[u8], w: ValueSize, num_glyphs: u32) -> (out: Vec<(u32, u32, u32)>)
    requires
        fits(d@, 0, 2),
    ensures
        out@ == items_by_glyph(d@, w, num_glyphs),
{
    let size: usize = value_len(w);
    let whole: usize = (d.len() - 2) / size;
    let n: usize = if (num_glyphs as usize) < whole {
        num_glyphs as usize
    } else {
        whole
    };
    let end: usize = d.len();
    let mut out: Vec<(u32, u32, u32)> = Vec::new();
    let mut i: usize = 0;
    assert(out@ =~= items_by_glyph(d@, w, num_glyphs).take(0));
    while i < n
        invariant
            i <= n,
            n <= num_glyphs,
            end == d@.len(),
            end >= 2,
            n <= (end - 2) / (size as int),
            size == value_bytes(w),
            2 <= size <= 4,
            n == items_by_glyph(d@, w, num_glyphs).len(),
            out@ == items_by_glyph(d@, w, num_glyphs).take(i as int),
        decreases n - i,
    {
        proof {
            lemma_place(i as int, (end - 2) / (size as int), size as int);
            vstd::arithmetic::div_mod::lemma_fundamental_div_mod(end - 2, size as int);
            assert(((end - 2) / (size as int)) * size == size * ((end - 2) / (size as int)))
                by (nonlinear_arith);
        }
        let v: u32 = read_value(d, 2 + i * size, w);
        out.push((i as u32, i as u32, v));
        assert(out@ =~= items_by_glyph(d@, w, num_glyphs).take(i + 1));
        i += 1;
    }
    assert(out@ =~= items_by_glyph(d@, w, num_glyphs));
    out
}

fn read_by_segment(d: &[u8], w: ValueSize) -> (out: Vec<(u32, u32, u32)>)
    requires
        fits(d@, 0, 12),
    ensures
        out@ == items_by_segment(d@, w),
{
    let size: usize = 4 + value_len(w);
    let n: usize = read_record_count(d, size);
    let end: usize = d.len();
    let mut out: Vec<(u32, u32, u32)> = Vec::new();
    let mut i: usize = 0;
    assert(out@ =~= items_by_segment(d@, w).take(0));
    while i < n
        invariant
            i <= n,
            end == d@.len(),
            size == 4 + value_bytes(w),
            6 <= size <= 8,
            n == record_count(d@, size as int),
            n > 0 ==> fits(d@, 12, n * size),
            out@ == items_by_segment(d@, w).take(i as int),
        decreases n - i,
    {
        proof {
            lemma_place(i as int, n as int, size as int);
        }
        let at: usize = 12 + i * size;
        let v: u32 = read_value(d, at + 4, w);
        out.push(run_from(be16(d, at + 2).unwrap(), be16(d, at).unwrap(), v));
        assert(out@ =~= items_by_segment(d@, w).take(i + 1));
        i += 1;
    }
    assert(out@ =~= items_by_segment(d@, w));
    out
}

fn read_segment_count(d: &[u8]) -> (n: usize)
    requires
        fits(d@, 0, 12),
    ensures
        n == segment_count(d@),
        n <= 0xffff,
        n > 0 ==> fits(d@, 12, 6 * n),
{
    let n: usize = be16(d, 4).unwrap() as usize;
    if 6 * n <= d.len() - 12 {
        n
    } else {
        0
    }
}

fn read_segment(d: &[u8], w: ValueSize, i: usize) -> (out: Vec<(u32, u32, u32)>)
    requires
        fits(d@, 12 + 6 * i, 6),
    ensures
        out@ == segment_items(d@, w, i as int),
{
    let end: usize = d.len();
    let last: u16 = be16(d, 12 + 6 * i).unwrap();
    let first: u16 = be16(d, 12 + 6 * i + 2).unwrap();
    let at: usize = be16(d, 12 + 6 * i + 4).unwrap() as usize;
    let size: usize = value_len(w);
    let mut out: Vec<(u32, u32, u32)> = Vec::new();
    if first as u32 == DELETED_GLYPH || last < first {
        assert(out@ =~= segment_items(d@, w, i as int));
        return out;
    }
    let n: usize = last as usize - first as usize + 1;
    assert(0 <= n * size <= 0x1_0000 * 4) by (nonlinear_arith)
        requires
            0 <= n <= 0x1_0000,
            0 <= size <= 4,
    ;
    if at > end || end - at < n * size {
        assert(out@ =~= segment_items(d@, w, i as int));
        return out;
    }
    let mut k: usize = 0;
    assert(out@ =~= segment_items(d@, w, i as int).take(0));
    while k < n
        invariant
            k <= n,
            end == d@.len(),
            size == value_bytes(w),
            2 <= size <= 4,
            n == last - first + 1,
            first <= last,
            first != DELETED_GLYPH,
            fits(d@, at as int, n * size),
            last == word(d@, 12 + 6 * i),
            first == word(d@, 12 + 6 * i + 2),
            at == word(d@, 12 + 6 * i + 4),
            out@ == segment_items(d@, w, i as int).take(k as int),
        decreases n - k,
    {
        proof {
            lemma_place(k as int, n as int, size as int);
        }
        let v: u32 = read_value(d, at + k * size, w);
        let g: u32 = first as u32 + k as u32;
        out.push((g, g, v));
        assert(out@ =~= segment_items(d@, w, i as int).take(k + 1));
        k += 1;
    }
    assert(out@ =~= segment_items(d@, w, i as int));
    out
}

fn read_of_segments(d: &[u8], w: ValueSize) -> (out: Vec<(u32, u32, u32)>)
    requires
        fits(d@, 0, 12),
    ensures
        out@ == items_of_segments(d@, w, segment_count(d@)),
{
    let n: usize = read_segment_count(d);
    let mut out: Vec<(u32, u32, u32)> = Vec::new();
    let mut i: usize = 0;
    assert(out@ =~= seq![]);
    while i < n
        invariant
            i <= n <= 0xffff,
            n == segment_count(d@),
            n > 0 ==> fits(d@, 12, 6 * n),
            out@ == items_of_segments(d@, w, i as nat),
        decreases n - i,
    {
        let mut more = read_segment(d, w, i);
        out.append(&mut more);
        i += 1;
    }
    out
}

fn read_by_name(d: &[u8], w: ValueSize) -> (out: Vec<(u32, u32, u32)>)
    requires
        fits(d@, 0, 12),
    ensures
        out@ == items_by_name(d@, w),
{
    let size: usize = 2 + value_len(w);
    let n: usize = read_record_count(d, size);
    let end: usize = d.len();
    let mut out: Vec<(u32, u32, u32)> = Vec::new();
    let mut i: usize = 0;
    assert(out@ =~= items_by_name(d@, w).take(0));
    while i < n
        invariant
            i <= n,
            end == d@.len(),
            size == 2 + value_bytes(w),
            4 <= size <= 6,
            n == record_count(d@, size as int),
            n > 0 ==> fits(d@, 12, n * size),
            out@ == items_by_name(d@, w).take(i as int),
        decreases n - i,
    {
        proof {
            lemma_place(i as int, n as int, size as int);
        }
        let at: usize = 12 + i * size;
        let v: u32 = read_value(d, at + 2, w);
        let g: u16 = be16(d, at).unwrap();
        out.push(run_from(g, g, v));
        assert(out@ =~= items_by_name(d@, w).take(i + 1));
        i += 1;
    }
    assert(out@ =~= items_by_name(d@, w));
    out
}

fn read_trimmed_count(d: &[u8]) -> (n: usize)
    requires
        fits(d@, 0, 6),
    ensures
        n == trimmed_count(d@),
        n <= 0xffff,
        fits(d@, 6, 2 * n),
{
    let n: usize = be16(d, 4).unwrap() as usize;
    if 2 * n <= d.len() - 6 {
        n
    } else {
        0
    }
}

fn read_trimmed(d: &[u8]) -> (out: Vec<(u32, u32, u32)>)
    requires
        fits(d@, 0, 6),
    ensures
        out@ == items_trimmed(d@),
{
    let first: u16 = be16(d, 2).unwrap();
    let n: usize = read_trimmed_count(d);
    let mut out: Vec<(u32, u32, u32)> = Vec::new();
    if first as u32 == DELETED_GLYPH {
        assert(out@ =~= items_trimmed(d@));
        return out;
    }
    let mut i: usize = 0;
    assert(out@ =~= items_trimmed(d@).take(0));
    while i < n
        invariant
            i <= n <= 0xffff,
            n == trimmed_count(d@),
            fits(d@, 6, 2 * n),
            first == word(d@, 2),
            first != DELETED_GLYPH,
            out@ == items_trimmed(d@).take(i as int),
        decreases n - i,
    {
        let v: u16 = be16(d, 6 + 2 * i).unwrap();
        let g: u32 = first as u32 + i as u32;
        out.push((g, g, v as u32));
        assert(out@ =~= items_trimmed(d@).take(i + 1));
        i += 1;
    }
    assert(out@ =~= items_trimmed(d@));
    out
}

fn read_of_units(d: &[u8], w: ValueSize) -> (out: Vec<(u32, u32, u32)>)
    requires
        fits(d@, 0, 8),
    ensures
        out@ == items_of_units(d@, w),
{
    let unit: usize = be16(d, 2).unwrap() as usize;
    let first: u16 = be16(d, 4).unwrap();
    let count: usize = be16(d, 6).unwrap() as usize;
    let mut out: Vec<(u32, u32, u32)> = Vec::new();
    if first as u32 == DELETED_GLYPH || !(unit == 1 || unit == 2 || unit == 4) {
        assert(out@ =~= items_of_units(d@, w));
        return out;
    }
    assert(0 <= count * unit <= 0xffff * 4) by (nonlinear_arith)
        requires
            0 <= count <= 0xffff,
            0 <= unit <= 4,
    ;
    if d.len() - 8 < count * unit {
        assert(out@ =~= items_of_units(d@, w));
        return out;
    }
    let n: usize = if count < 0x1_0000 - first as usize {
        count
    } else {
        0x1_0000 - first as usize
    };
    let end: usize = d.len();
    let mut i: usize = 0;
    assert(out@ =~= items_of_units(d@, w).take(0));
    while i < n
        invariant
            i <= n <= count <= 0xffff,
            end == d@.len(),
            unit == 1 || unit == 2 || unit == 4,
            unit == word(d@, 2),
            first == word(d@, 4),
            count == word(d@, 6),
            first != DELETED_GLYPH,
            fits(d@, 8, count * unit),
            n == items_of_units(d@, w).len(),
            out@ == items_of_units(d@, w).take(i as int),
        decreases n - i,
    {
        proof {
            lemma_place(i as int, count as int, unit as int);
        }
        let at: usize = 8 + i * unit;
        let v: u32 = if unit == 1 {
            d[at] as u32
        } else if unit == 2 {
            be16(d, at).unwrap() as u32
        } else {
            let v: u32 = be32(d, at).unwrap();
            match w {
                ValueSize::Word => v % 0x1_0000,
                ValueSize::Long => v,
            }
        };
        let g: u32 = first as u32 + i as u32;
        out.push((g, g, v));
        assert(out@ =~= items_of_units(d@, w).take(i + 1));
        i += 1;
    }
    assert(out@ =~= items_of_units(d@, w));
    out
}

fn is_lookup(d: &[u8]) -> (r: bool)
    ensures
        r == lookup_readable(d@, 0),
{
    if d.len() < 2 {
        return false;
    }
    let f: u16 = be16(d, 0).unwrap();
    f == 0 || ((f == 2 || f == 4 || f == 6) && d.len() >= 12) || (f == 8 && d.len() >= 6) || (f == 10
        && d.len() >= 8)
}

/// What a lookup says, in order.
pub fn read_items(d: &[u8], w: ValueSize, num_glyphs: u32) -> (out: Vec<(u32, u32, u32)>)
    ensures
        out@ == items(d@, w, num_glyphs),
{
    if !is_lookup(d) {
        let out: Vec<(u32, u32, u32)> = Vec::new();
        assert(out@ =~= items(d@, w, num_glyphs));
        return out;
    }
    let f: u16 = be16(d, 0).unwrap();
    if f == 0 {
        read_by_glyph(d, w, num_glyphs)
    } else if f == 2 {
        read_by_segment(d, w)
    } else if f == 4 {
        read_of_segments(d, w)
    } else if f == 6 {
        read_by_name(d, w)
    } else if f == 8 {
        read_trimmed(d)
    } else {
        read_of_units(d, w)
    }
}

fn find_run_end(first: u32, n: u32) -> (r: u32)
    requires
        first + n <= u32::MAX,
    ensures
        r == run_end(first as int, n as int),
{
    if n == 0 {
        first
    } else {
        first + (n - 1)
    }
}

/// The glyphs a lookup names, whatever their values.
pub fn read_spans(d: &[u8], w: ValueSize, num_glyphs: u32) -> (out: Vec<(u32, u32, u32)>)
    ensures
        out@ == spans(d@, w, num_glyphs),
{
    if !is_lookup(d) {
        let out: Vec<(u32, u32, u32)> = Vec::new();
        assert(out@ =~= spans(d@, w, num_glyphs));
        return out;
    }
    let f: u16 = be16(d, 0).unwrap();
    let mut out: Vec<(u32, u32, u32)> = Vec::new();
    if f == 0 {
        out.push((0, find_run_end(0, num_glyphs), 0));
    } else if f == 4 {
        let n: usize = read_segment_count(d);
        let mut i: usize = 0;
        assert(out@ =~= spans(d@, w, num_glyphs).take(0));
        while i < n
            invariant
                i <= n <= 0xffff,
                n == segment_count(d@),
                n > 0 ==> fits(d@, 12, 6 * n),
                lookup_readable(d@, 0),
                word(d@, 0) == 4,
                out@ == spans(d@, w, num_glyphs).take(i as int),
            decreases n - i,
        {
            out.push(run_from(be16(d, 12 + 6 * i + 2).unwrap(), be16(d, 12 + 6 * i).unwrap(), 0));
            assert(out@ =~= spans(d@, w, num_glyphs).take(i + 1));
            i += 1;
        }
    } else if f == 8 {
        let first: u32 = be16(d, 2).unwrap() as u32;
        let n: usize = read_trimmed_count(d);
        if first != DELETED_GLYPH {
            out.push((first, find_run_end(first, n as u32), 0));
        }
    } else if f == 10 {
        let first: u32 = be16(d, 4).unwrap() as u32;
        let n: u32 = be16(d, 6).unwrap() as u32;
        if first != DELETED_GLYPH {
            out.push((first, find_run_end(first, n), 0));
        }
    } else {
        return read_items(d, w, num_glyphs);
    }
    assert(out@ =~= spans(d@, w, num_glyphs));
    out
}

/// Add every glyph a lookup names to a set.
pub fn collect_glyphs(d: &[u8], w: ValueSize, num_glyphs: u32, set: &mut GlyphSet)
    requires
        old(set).wf(),
    ensures
        final(set).wf(),
        forall|g: u32| #[trigger]
            final(set).has(g) <==> old(set).has(g) || any_covers(spans(d@, w, num_glyphs), g),
{
    let all = read_spans(d, w, num_glyphs);
    let mut i: usize = 0;
    while i < all.len()
        invariant
            i <= all@.len(),
            set.wf(),
            forall|g: u32| #[trigger]
                set.has(g) <==> old(set).has(g) || any_covers(all@.take(i as int), g),
        decreases all@.len() - i,
    {
        let (first, last, _) = all[i];
        let ghost before = *set;
        set.insert_range(first, last);
        proof {
            let now = all@.take(i + 1);
            let then = all@.take(i as int);
            assert forall|g: u32| #[trigger] set.has(g) <==> old(set).has(g) || any_covers(now, g) by {
                assert(before.has(g) <==> old(set).has(g) || any_covers(then, g));
                if any_covers(then, g) {
                    let k = choose|k: int| 0 <= k < then.len() && covers(#[trigger] then[k], g);
                    assert(covers(now[k], g));
                }
                if any_covers(now, g) {
                    let k = choose|k: int| 0 <= k < now.len() && covers(#[trigger] now[k], g);
                    if k < i {
                        assert(covers(then[k], g));
                    }
                }
                if covers(all@[i as int], g) {
                    assert(covers(now[i as int], g));
                }
            }
        }
        i += 1;
    }
    assert(all@.take(i as int) =~= all@);
}

/// Add every glyph whose value passes to a set.
pub fn collect_glyphs_filtered<F: Fn(u32) -> bool>(
    d: &[u8],
    w: ValueSize,
    num_glyphs: u32,
    set: &mut GlyphSet,
    filter: F,
)
    requires
        old(set).wf(),
        is_value_test(filter),
    ensures
        final(set).wf(),
        forall|g: u32| #[trigger]
            final(set).has(g) <==> old(set).has(g) || any_passes(items(d@, w, num_glyphs), filter, g),
{
    let all = read_items(d, w, num_glyphs);
    let mut i: usize = 0;
    while i < all.len()
        invariant
            i <= all@.len(),
            set.wf(),
            is_value_test(filter),
            forall|g: u32| #[trigger]
                set.has(g) <==> old(set).has(g) || any_passes(all@.take(i as int), filter, g),
        decreases all@.len() - i,
    {
        let (first, last, value) = all[i];
        let ghost before = *set;
        let pass: bool = filter(value);
        if pass {
            set.insert_range(first, last);
        }
        proof {
            let now = all@.take(i + 1);
            let then = all@.take(i as int);
            assert(pass == passes(filter, value));
            assert forall|g: u32| #[trigger] set.has(g) <==> old(set).has(g) || any_passes(now, filter, g) by {
                assert(before.has(g) <==> old(set).has(g) || any_passes(then, filter, g));
                if any_passes(then, filter, g) {
                    let k = choose|k: int|
                        0 <= k < then.len() && covers(#[trigger] then[k], g) && passes(filter, then[k].2);
                    assert(covers(now[k], g));
                }
                if any_passes(now, filter, g) {
                    let k = choose|k: int|
                        0 <= k < now.len() && covers(#[trigger] now[k], g) && passes(filter, now[k].2);
                    if k < i {
                        assert(covers(then[k], g));
                    }
                }
                if pass && covers(all@[i as int], g) {
                    assert(covers(now[i as int], g));
                }
            }
        }
        i += 1;
    }
    assert(all@.take(i as int) =~= all@);
}

/// How many bytes a value of each size takes: two or four.
pub open spec fn value_len_of(w: ValueSize) -> int {
    if w == ValueSize::Word {
        2
    } else {
        4
    }
}

/// A lookup names the glyphs of its array, of its segments, or those that it
/// lists one by one, and no other. The deleted glyph at the start of a segment
/// ends a list.
pub proof fn a_lookup_names_the_glyphs_of_its_format(
    d: &[u8],
    w: ValueSize,
    num_glyphs: u32,
    set: &mut GlyphSet,
    g: u32,
)
    requires
        old(set).wf(),
        !old(set).has(g),
        g < DELETED_GLYPH,
        lookup_readable(d@, 0),
        call_ensures(collect_glyphs, (d, w, num_glyphs, set), ()),
    ensures
        word(d@, 0) == 0 && num_glyphs > 0 ==> (final(set).has(g) <==> g < num_glyphs),
        word(d@, 0) == 2 ==> ({
            let unit = 4 + value_len_of(w);
            let n = word(d@, 4);
            word(d@, 2) == unit && 12 + unit * n <= d@.len() ==> (final(set).has(g) <==> exists|i: int|
                0 <= i < n && #[trigger] word(d@, 12 + i * unit + 2) <= g && g <= word(d@, 12 + i * unit))
        }),
        word(d@, 0) == 4 && 12 + 6 * word(d@, 4) <= d@.len() ==> (final(set).has(g) <==> exists|i: int|
            0 <= i < word(d@, 4) && #[trigger] word(d@, 12 + 6 * i + 2) <= g && g <= word(d@, 12 + 6 * i)),
        word(d@, 0) == 6 ==> ({
            let unit = 2 + value_len_of(w);
            let n = word(d@, 4);
            word(d@, 2) == unit && 12 + unit * n <= d@.len() ==> (final(set).has(g) <==> exists|i: int|
                0 <= i < n && #[trigger] word(d@, 12 + i * unit) == g)
        }),
        word(d@, 0) == 8 && word(d@, 4) > 0 && 6 + 2 * word(d@, 4) <= d@.len() ==> (final(set).has(g) <==> word(
            d@,
            2,
        ) <= g < word(d@, 2) + word(d@, 4)),
        word(d@, 0) == 10 && word(d@, 6) > 0 ==> (final(set).has(g) <==> word(d@, 4) <= g < word(d@, 4) + word(
            d@,
            6,
        )),
{
    let f = word(d@, 0);
    let n = word(d@, 4);
    let size = value_len_of(w);
    assert(size == value_bytes(w));
    let all = spans(d@, w, num_glyphs);
    assert(final(set).has(g) <==> any_covers(all, g));
    if f == 0 || f == 8 || f == 10 {
        if all.len() > 0 {
            assert(covers(all[0], g) ==> any_covers(all, g));
        }
    } else if f == 2 {
        let unit = 4 + size;
        if word(d@, 2) == unit && 12 + unit * n <= d@.len() {
            assert(word(d@, 2) * n == unit * n);
            assert(all.len() == n);
            if any_covers(all, g) {
                let k = choose|k: int| 0 <= k < all.len() && covers(#[trigger] all[k], g);
                assert(word(d@, 12 + k * unit + 2) <= g);
            }
            if exists|i: int|
                0 <= i < n && #[trigger] word(d@, 12 + i * unit + 2) <= g && g <= word(d@, 12 + i * unit) {
                let i = choose|i: int|
                    0 <= i < n && #[trigger] word(d@, 12 + i * unit + 2) <= g && g <= word(d@, 12 + i * unit);
                assert(covers(all[i], g));
            }
        }
    } else if f == 4 {
        if 12 + 6 * n <= d@.len() {
            if any_covers(all, g) {
                let k = choose|k: int| 0 <= k < all.len() && covers(#[trigger] all[k], g);
                assert(word(d@, 12 + 6 * k + 2) <= g);
            }
            if exists|i: int|
                0 <= i < n && #[trigger] word(d@, 12 + 6 * i + 2) <= g && g <= word(d@, 12 + 6 * i) {
                let i = choose|i: int|
                    0 <= i < n && #[trigger] word(d@, 12 + 6 * i + 2) <= g && g <= word(d@, 12 + 6 * i);
                assert(covers(all[i], g));
            }
        }
    } else if f == 6 {
        let unit = 2 + size;
        if word(d@, 2) == unit && 12 + unit * n <= d@.len() {
            assert(word(d@, 2) * n == unit * n);
            assert(all.len() == n);
            if any_covers(all, g) {
                let k = choose|k: int| 0 <= k < all.len() && covers(#[trigger] all[k], g);
                assert(word(d@, 12 + k * unit) == g);
            }
            if exists|i: int| 0 <= i < n && #[trigger] word(d@, 12 + i * unit) == g {
                let i = choose|i: int| 0 <= i < n && #[trigger] word(d@, 12 + i * unit) == g;
                assert(covers(all[i], g));
            }
        }
    }
}

/// What is collected with a test is what has a value that passes it: of an array
/// by glyph, the glyph's own value, and of segments, the value of one that the
/// glyph lies in.
pub proof fn a_test_is_of_the_glyphs_own_value<F: Fn(u32) -> bool>(
    d: &[u8],
    num_glyphs: u32,
    filter: F,
    set: &mut GlyphSet,
    g: u32,
)
    requires
        old(set).wf(),
        !old(set).has(g),
        g < DELETED_GLYPH,
        lookup_readable(d@, 0),
        is_value_test(filter),
        call_ensures(collect_glyphs_filtered::<F>, (d, ValueSize::Word, num_glyphs, set, filter), ()),
    ensures
        ({
            let f = word(d@, 0);
            let n = word(d@, 4);
            &&& f == 0 && g < num_glyphs && 4 + 2 * g <= d@.len() ==> (final(set).has(g) <==> passes(
                filter,
                word(d@, 2 + 2 * g) as u32,
            ))
            &&& f == 0 && g >= num_glyphs ==> !final(set).has(g)
            &&& f == 2 && word(d@, 2) == 6 && 12 + 6 * n <= d@.len() ==> (final(set).has(g) <==> exists|i: int|
                0 <= i < n && #[trigger] word(d@, 12 + 6 * i + 2) <= g && g <= word(d@, 12 + 6 * i) && passes(
                    filter,
                    word(d@, 12 + 6 * i + 4) as u32,
                ))
            &&& f == 6 && word(d@, 2) == 4 && 12 + 4 * n <= d@.len() ==> (final(set).has(g) <==> exists|i: int|
                0 <= i < n && #[trigger] word(d@, 12 + 4 * i) == g && passes(
                    filter,
                    word(d@, 12 + 4 * i + 2) as u32,
                ))
            &&& f == 8 && word(d@, 2) != DELETED_GLYPH && 6 + 2 * n <= d@.len() && word(d@, 2) <= g < word(d@, 2)
                + n ==> (final(set).has(g) <==> passes(filter, word(d@, 6 + 2 * (g - word(d@, 2))) as u32))
        }),
{
    let f = word(d@, 0);
    let n = word(d@, 4);
    let all = items(d@, ValueSize::Word, num_glyphs);
    assert(final(set).has(g) <==> any_passes(all, filter, g));
    if f == 0 {
        if g < num_glyphs && 4 + 2 * g <= d@.len() {
            assert(g < all.len());
            assert(all[g as int].2 == word(d@, 2 + 2 * g));
            assert(covers(all[g as int], g));
        }
        if any_passes(all, filter, g) {
            let k = choose|k: int|
                0 <= k < all.len() && covers(#[trigger] all[k], g) && passes(filter, all[k].2);
            assert(k == g);
        }
    } else if f == 2 && word(d@, 2) == 6 && 12 + 6 * n <= d@.len() {
        assert(word(d@, 2) * n == 6 * n);
        if any_passes(all, filter, g) {
            let k = choose|k: int|
                0 <= k < all.len() && covers(#[trigger] all[k], g) && passes(filter, all[k].2);
            assert(word(d@, 12 + 6 * k + 2) <= g);
        }
        if exists|i: int|
            0 <= i < n && #[trigger] word(d@, 12 + 6 * i + 2) <= g && g <= word(d@, 12 + 6 * i) && passes(
                filter,
                word(d@, 12 + 6 * i + 4) as u32,
            ) {
            let i = choose|i: int|
                0 <= i < n && #[trigger] word(d@, 12 + 6 * i + 2) <= g && g <= word(d@, 12 + 6 * i) && passes(
                    filter,
                    word(d@, 12 + 6 * i + 4) as u32,
                );
            assert(all[i] == run_of(
                word(d@, 12 + 6 * i + 2),
                word(d@, 12 + 6 * i),
                word(d@, 12 + 6 * i + 4) as u32,
            ));
            assert(covers(all[i], g));
        }
    } else if f == 6 && word(d@, 2) == 4 && 12 + 4 * n <= d@.len() {
        assert(word(d@, 2) * n == 4 * n);
        if any_passes(all, filter, g) {
            let k = choose|k: int|
                0 <= k < all.len() && covers(#[trigger] all[k], g) && passes(filter, all[k].2);
            assert(word(d@, 12 + 4 * k) == g);
        }
        if exists|i: int|
            0 <= i < n && #[trigger] word(d@, 12 + 4 * i) == g && passes(
                filter,
                word(d@, 12 + 4 * i + 2) as u32,
            ) {
            let i = choose|i: int|
                0 <= i < n && #[trigger] word(d@, 12 + 4 * i) == g && passes(
                    filter,
                    word(d@, 12 + 4 * i + 2) as u32,
                );
            assert(all[i] == run_of(
                word(d@, 12 + 4 * i),
                word(d@, 12 + 4 * i),
                word(d@, 12 + 4 * i + 2) as u32,
            ));
            assert(covers(all[i], g));
        }
    } else if f == 8 {
        let first = word(d@, 2);
        if first != DELETED_GLYPH && 6 + 2 * n <= d@.len() && first <= g < first + n {
            let k = g - first;
            assert(all[k].2 == word(d@, 6 + 2 * k));
            assert(covers(all[k], g));
            if any_passes(all, filter, g) {
                let j = choose|j: int|
                    0 <= j < all.len() && covers(#[trigger] all[j], g) && passes(filter, all[j].2);
                assert(j == k);
            }
        }
    }
}

} // verus!
