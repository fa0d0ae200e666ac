//! The subtables of a `kern` table: which of them a line runs, and in what
//! order.

use read_fonts::tables::kern::{Kern, Subtable, SubtableKind};
use read_fonts::types::GlyphId;
use read_fonts::{FontData, FontRead};
use vstd::prelude::*;

use crate::aat_glyph_set::{GlyphSet, DELETED_GLYPH};
use crate::bytes::{be16, fits, long, word};
use crate::kern_machine::{
    cache_sound, collect_start_end_safe_to_break, decodable, ends_match, is_readable,
    machine_readable, ClassCache, DecodedStateMachine, CLASS_DELETED_GLYPH,
};
use crate::kerning::{collect_initial_glyphs, initial, starts};

verus! {

/// One subtable as the table gives it: whether it has the longer header, what
/// that says of its coverage, and the rest of its bytes.
#[derive(Clone, Debug, PartialEq, Eq)]
pub struct KernPart {
    pub aat: bool,
    pub coverage: u16,
    pub data: Vec<u8>,
}

/// Subtables as plain values; nothing for one that cannot be read.
pub open spec fn parts_view(parts: Seq<Option<KernPart>>) -> Seq<Option<(bool, u16, Seq<u8>)>> {
    Seq::new(
        parts.len(),
        |i: int|
            match parts[i] {
                Some(p) => Some((p.aat, p.coverage, p.data@)),
                None => None,
            },
    )
}

/// A subtable from its own bytes, if they hold its header: whether that is the
/// longer one, what it says of the coverage, and what follows it.
pub open spec fn kern_piece(d: Seq<u8>, aat: bool) -> Option<(bool, u16, Seq<u8>)> {
    let header: int = if aat {
        8
    } else {
        6
    };
    if d.len() >= header {
        Some((aat, word(d, 4), d.skip(header)))
    } else {
        None
    }
}

/// Up to `n` subtables, one after the other. Each says how long it is, but the
/// last with a short header goes on to the end. The list ends where a length is
/// missing, zero, or more than there is.
pub open spec fn kern_list(d: Seq<u8>, aat: bool, n: nat) -> Seq<Option<(bool, u16, Seq<u8>)>>
    decreases n,
{
    let len: int = if aat {
        if fits(d, 0, 4) {
            long(d, 0) as int
        } else {
            0
        }
    } else if n == 1 {
        d.len() as int
    } else if fits(d, 2, 2) {
        word(d, 2) as int
    } else {
        0
    };
    if n == 0 || len == 0 || len > d.len() {
        seq![]
    } else {
        seq![kern_piece(d.take(len), aat)] + kern_list(d.skip(len), aat, (n - 1) as nat)
    }
}

/// The subtables of a table, if it can be read, as `(longer header, coverage,
/// bytes)`. A table that starts with a zero has short headers and counts, any
/// other long ones.
pub open spec fn kern_parts(data: Seq<u8>) -> Option<Seq<Option<(bool, u16, Seq<u8>)>>> {
    if fits(data, 0, 4) && word(data, 0) == 0 {
        Some(kern_list(data.skip(4), false, word(data, 2) as nat))
    } else if fits(data, 0, 8) && word(data, 0) != 0 {
        Some(kern_list(data.skip(8), true, long(data, 4) as nat))
    } else {
        None
    }
}

/// What a subtable's bytes say of a pair of glyphs.
pub uninterp spec fn kern_pair(data: Seq<u8>, format: u8, aat: bool, left: u32, right: u32) -> Option<i32>;

/// `Kern::read` and `Kern::subtables`: the subtables in order, one for one, each
/// cut off at the length it gives.
#[verifier::external_body]
fn read_kern(data: &[u8]) -> (r: Option<Vec<Option<KernPart>>>)
    ensures
        r is Some <==> kern_parts(data@) is Some,
        r matches Some(v) ==> kern_parts(data@) == Some(parts_view(v@)),
{
    let kern = Kern::read(FontData::new(data)).ok()?;
    let parts = kern.subtables().map(|s| match s {
        Ok(Subtable::Ot(t)) => Some(
            KernPart { aat: false, coverage: t.coverage(), data: t.data().to_vec() },
        ),
        Ok(Subtable::Aat(t)) => Some(
            KernPart { aat: true, coverage: t.coverage(), data: t.data().to_vec() },
        ),
        Err(_) => None,
    });
    Some(parts.collect())
}

/// `SubtableKind::read_with_args`, then `Subtable0::kerning`,
/// `Subtable2::kerning` or `Subtable3::kerning`: what the subtable of the format
/// gives a pair.
#[verifier::external_body]
fn read_pair(data: &[u8], format: u8, aat: bool, left: u32, right: u32) -> (r: Option<i32>)
    ensures
        r == kern_pair(data@, format, aat, left, right),
{
    let (l, r) = (GlyphId::new(left), GlyphId::new(right));
    match SubtableKind::read_with_args(FontData::new(data), (format, aat)).ok()? {
        SubtableKind::Format0(t) => t.kerning(l, r),
        SubtableKind::Format1(_) => None,
        SubtableKind::Format2(t) => t.kerning(l, r),
        SubtableKind::Format3(t) => t.kerning(l, r),
    }
}

/// The subtables of a table, if it can be read.
pub fn kern_subtables(data: &[u8]) -> (r: Option<Vec<Option<KernPart>>>)
    ensures
        r is Some <==> kern_parts(data@) is Some,
        r matches Some(v) ==> kern_parts(data@) == Some(parts_view(v@)),
{
    read_kern(data)
}

/// Where the class tables of a class-pair subtable stand, if it can be read:
/// the offsets in it count from the header.
pub open spec fn class_tables(d: Seq<u8>, aat: bool) -> Option<(int, int)> {
    let header: int = if aat {
        8
    } else {
        6
    };
    let left = word(d, 2) - header;
    let right = word(d, 4) - header;
    if fits(d, 0, 8) && word(d, 6) >= header && fits(d, left, 4) && fits(d, right, 4) {
        Some((left, right))
    } else {
        None
    }
}

/// Where the left class table stands, in a subtable that can be read.
pub open spec fn left_at(d: Seq<u8>, aat: bool) -> int {
    match class_tables(d, aat) {
        Some((left, _)) => left,
        None => 0,
    }
}

/// Where the right class table stands, in a subtable that can be read.
pub open spec fn right_at(d: Seq<u8>, aat: bool) -> int {
    match class_tables(d, aat) {
        Some((_, right)) => right,
        None => 0,
    }
}

impl KernPart {
    /// Whether the values are for text that runs horizontally.
    pub open spec fn along(&self) -> bool {
        if self.aat {
            self.coverage & 0x8000 == 0
        } else {
            self.coverage & 1 != 0
        }
    }

    /// Whether the values move glyphs across the line.
    pub open spec fn across(&self) -> bool {
        if self.aat {
            self.coverage & 0x4000 != 0
        } else {
            self.coverage & 4 != 0
        }
    }

    /// Whether the values vary with the instance.
    pub open spec fn varies(&self) -> bool {
        self.aat && self.coverage & 0x2000 != 0
    }

    /// The format the header names.
    pub open spec fn named_format(&self) -> u8 {
        if self.aat {
            (self.coverage % 256) as u8
        } else {
            (self.coverage / 256) as u8
        }
    }

    /// The format, where the subtable can be read as that.
    pub open spec fn format(&self) -> Option<u8> {
        let f = self.named_format();
        let readable = if f == 0 {
            fits(self.data@, 0, 8)
        } else if f == 1 {
            machine_readable(self.data@)
        } else if f == 2 {
            class_tables(self.data@, self.aat) is Some
        } else {
            f == 3 && fits(self.data@, 0, 6)
        };
        if readable {
            Some(f)
        } else {
            None
        }
    }

    pub fn is_horizontal(&self) -> (r: bool)
        ensures
            r == self.along(),
    {
        if self.aat {
            self.coverage & 0x8000 == 0
        } else {
            self.coverage & 1 != 0
        }
    }

    pub fn is_cross_stream(&self) -> (r: bool)
        ensures
            r == self.across(),
    {
        if self.aat {
            self.coverage & 0x4000 != 0
        } else {
            self.coverage & 4 != 0
        }
    }

    pub fn is_variable(&self) -> (r: bool)
        ensures
            r == self.varies(),
    {
        self.aat && self.coverage & 0x2000 != 0
    }

    pub fn kind(&self) -> (r: Option<u8>)
        ensures
            r == self.format(),
    {
        let f: u8 = if self.aat {
            (self.coverage % 256) as u8
        } else {
            (self.coverage / 256) as u8
        };
        let readable: bool = if f == 0 {
            self.data.len() >= 8
        } else if f == 1 {
            is_readable(&self.data)
        } else if f == 2 {
            find_class_tables(&self.data, self.aat).is_some()
        } else {
            f == 3 && self.data.len() >= 6
        };
        if readable {
            Some(f)
        } else {
            None
        }
    }
}

fn find_class_tables(d: &[u8], aat: bool) -> (r: Option<(usize, usize)>)
    ensures
        r is Some <==> class_tables(d@, aat) is Some,
        r matches Some((a, b)) ==> class_tables(d@, aat) == Some((a as int, b as int)) && a <= 0xffff && b
            <= 0xffff,
{
    if d.len() < 8 {
        return None;
    }
    let header: usize = if aat {
        8
    } else {
        6
    };
    let left: usize = be16(d, 2).unwrap() as usize;
    let right: usize = be16(d, 4).unwrap() as usize;
    let array: usize = be16(d, 6).unwrap() as usize;
    if left < header || right < header || array < header {
        return None;
    }
    let left: usize = left - header;
    let right: usize = right - header;
    if left <= d.len() && d.len() - left >= 4 && right <= d.len() && d.len() - right >= 4 {
        Some((left, right))
    } else {
        None
    }
}

/// The last of `n` glyphs from `first` on; the first where there are none.
pub open spec fn last_of(first: u16, n: u16) -> int {
    if n == 0 {
        first as int
    } else {
        first + n - 1
    }
}

/// Whether a pair of a listed-pairs subtable has the glyph at `side`.
pub open spec fn listed(d: Seq<u8>, side: int, g: u32) -> bool {
    let n = word(d, 0);
    &&& fits(d, 8, 6 * n)
    &&& exists|i: int| 0 <= i < n && g == #[trigger] word(d, 8 + 6 * i + side)
}

/// The glyphs that can be the first of a pair, or start a machine.
pub open spec fn may_be_first(p: KernPart, g: u32) -> bool {
    let d = p.data@;
    &&& g <= DELETED_GLYPH
    &&& match p.format() {
        Some(0u8) => listed(d, 0, g),
        Some(1u8) => (g == DELETED_GLYPH && initial(d, CLASS_DELETED_GLYPH)) || starts(d, g),
        Some(2u8) => {
            let at = left_at(d, p.aat);
            word(d, at) <= g <= last_of(word(d, at), word(d, at + 2))
        },
        Some(3u8) => g <= last_of(0, word(d, 0)),
        _ => false,
    }
}

/// The glyphs that can be the second of a pair.
pub open spec fn may_be_second(p: KernPart, g: u32) -> bool {
    let d = p.data@;
    &&& g <= DELETED_GLYPH
    &&& match p.format() {
        Some(0u8) => listed(d, 2, g),
        Some(2u8) => {
            let at = right_at(d, p.aat);
            word(d, at) <= g <= last_of(word(d, at), word(d, at + 2))
        },
        Some(3u8) => g <= last_of(0, word(d, 0)),
        _ => false,
    }
}

/// What is worked out once for a subtable.
pub struct KernSubtableCache {
    /// Which of a machine's first 64 states end quietly.
    pub start_end_safe_to_break: u64,
    pub first_set: GlyphSet,
    pub second_set: GlyphSet,
    pub class_cache: ClassCache,
    pub decoded: Option<DecodedStateMachine>,
}

impl KernSubtableCache {
    /// Whether this was worked out for a subtable.
    pub open spec fn serves(&self, p: KernPart) -> bool {
        &&& self.first_set.wf()
        &&& self.second_set.wf()
        &&& forall|g: u32| #[trigger] self.first_set.has(g) <==> may_be_first(p, g)
        &&& forall|g: u32| #[trigger] self.second_set.has(g) <==> may_be_second(p, g)
        &&& cache_sound(p.data@, self.class_cache)
        &&& p.format() == Some(1u8) ==> ends_match(p.data@, self.start_end_safe_to_break)
        &&& self.decoded is Some <==> p.format() == Some(1u8) && decodable(p.data@)
        &&& self.decoded matches Some(m) ==> m.decodes(p.data@)
    }

    pub fn new(p: &KernPart) -> (r: KernSubtableCache)
        ensures
            r.serves(*p),
    {
        proof {
            lemma_class_cache_fits();
        }
        let mut first_set = GlyphSet::default();
        let mut second_set = GlyphSet::default();
        let mut start_end_safe_to_break: u64 = 0;
        let mut decoded: Option<DecodedStateMachine> = None;
        let d = p.data.as_slice();
        match p.kind() {
            Some(0) => {
                collect_pairs(d, &mut first_set, &mut second_set);
            },
            Some(1) => {
                start_end_safe_to_break = collect_start_end_safe_to_break(d);
                collect_initial_glyphs(d, &mut first_set);
                decoded = DecodedStateMachine::new(d, start_end_safe_to_break);
            },
            Some(2) => {
                let (left, right) = find_class_tables(d, p.aat).unwrap();
                let first: u16 = be16(d, left).unwrap();
                let n: u16 = be16(d, left + 2).unwrap();
                first_set.insert_range(first as u32, find_last(first, n));
                let first: u16 = be16(d, right).unwrap();
                let n: u16 = be16(d, right + 2).unwrap();
                second_set.insert_range(first as u32, find_last(first, n));
            },
            Some(3) => {
                let n: u16 = be16(d, 0).unwrap();
                first_set.insert_range(0, find_last(0, n));
                second_set.insert_range(0, find_last(0, n));
            },
            _ => {},
        }
        KernSubtableCache {
            start_end_safe_to_break,
            first_set,
            second_set,
            class_cache: ClassCache::new(),
            decoded,
        }
    }
}

/// The subtables that can be read, in order.
pub open spec fn readable(parts: Seq<Option<KernPart>>) -> Seq<KernPart>
    decreases parts.len(),
{
    if parts.len() == 0 {
        seq![]
    } else {
        match parts.last() {
            Some(p) => readable(parts.drop_last()).push(p),
            None => readable(parts.drop_last()),
        }
    }
}

/// What is worked out for each subtable that can be read.
pub fn kern_caches(parts: &[Option<KernPart>]) -> (caches: Vec<KernSubtableCache>)
    ensures
        caches@.len() == readable(parts@).len(),
        forall|i: int| 0 <= i < caches@.len() ==> (#[trigger] caches@[i]).serves(readable(parts@)[i]),
{
    let mut caches: Vec<KernSubtableCache> = Vec::new();
    let mut i: usize = 0;
    while i < parts.len()
        invariant
            i <= parts@.len(),
            caches@.len() == readable(parts@.take(i as int)).len(),
            forall|k: int|
                0 <= k < caches@.len() ==> (#[trigger] caches@[k]).serves(
                    readable(parts@.take(i as int))[k],
                ),
        decreases parts@.len() - i,
    {
        let ghost then = readable(parts@.take(i as int));
        assert(parts@.take(i + 1).drop_last() =~= parts@.take(i as int));
        if let Some(p) = &parts[i] {
            let ghost before = caches@;
            caches.push(KernSubtableCache::new(p));
            proof {
                let now = readable(parts@.take(i + 1));
                assert(now == then.push(*p));
                assert forall|k: int| 0 <= k < caches@.len() implies (#[trigger] caches@[k]).serves(
                    now[k],
                ) by {
                    if k < before.len() {
                        assert(before[k].serves(then[k]));
                    }
                }
            }
        }
        i += 1;
    }
    assert(parts@.take(i as int) =~= parts@);
    caches
}

fn find_last(first: u16, n: u16) -> (r: u32)
    ensures
        r == last_of(first, n),
{
    if n == 0 {
        first as u32
    } else {
        first as u32 + n as u32 - 1
    }
}

/// A class cache's keys and values fit its slots.
proof fn lemma_class_cache_fits()
    ensures
        ClassCache::fits(),
{
    vstd::arithmetic::power2::lemma2_to64();
    assert(vstd::arithmetic::power2::pow2(8) == 256);
}

/// Add the glyphs of a listed-pairs subtable, by side.
fn collect_pairs(d: &[u8], first_set: &mut GlyphSet, second_set: &mut GlyphSet)
    requires
        fits(d@, 0, 8),
        old(first_set).wf(),
        old(second_set).wf(),
    ensures
        final(first_set).wf(),
        final(second_set).wf(),
        forall|g: u32| #[trigger]
            final(first_set).has(g) <==> old(first_set).has(g) || (g <= DELETED_GLYPH && listed(d@, 0, g)),
        forall|g: u32| #[trigger]
            final(second_set).has(g) <==> old(second_set).has(g) || (g <= DELETED_GLYPH && listed(d@, 2, g)),
{
    let n: usize = be16(d, 0).unwrap() as usize;
    if d.len() - 8 < 6 * n {
        return;
    }
    let mut i: usize = 0;
    while i < n
        invariant
            i <= n <= 0xffff,
            n == word(d@, 0),
            fits(d@, 8, 6 * n),
            first_set.wf(),
            second_set.wf(),
            forall|g: u32| #[trigger]
                first_set.has(g) <==> old(first_set).has(g) || (g <= DELETED_GLYPH && listed_before(
                    d@,
                    0,
                    g,
                    i as int,
                )),
            forall|g: u32| #[trigger]
                second_set.has(g) <==> old(second_set).has(g) || (g <= DELETED_GLYPH && listed_before(
                    d@,
                    2,
                    g,
                    i as int,
                )),
        decreases n - i,
    {
        let left: u16 = be16(d, 8 + 6 * i).unwrap();
        let right: u16 = be16(d, 8 + 6 * i + 2).unwrap();
        let ghost f = *first_set;
        let ghost s = *second_set;
        first_set.insert(left as u32);
        second_set.insert(right as u32);
        proof {
            assert forall|g: u32| #[trigger] first_set.has(g) <==> old(first_set).has(g) || (g
                <= DELETED_GLYPH && listed_before(d@, 0, g, i + 1)) by {
                assert(f.has(g) <==> old(first_set).has(g) || (g <= DELETED_GLYPH && listed_before(
                    d@,
                    0,
                    g,
                    i as int,
                )));
                lemma_listed_step(d@, 0, g, i as int);
            }
            assert forall|g: u32| #[trigger] second_set.has(g) <==> old(second_set).has(g) || (g
                <= DELETED_GLYPH && listed_before(d@, 2, g, i + 1)) by {
                assert(s.has(g) <==> old(second_set).has(g) || (g <= DELETED_GLYPH && listed_before(
                    d@,
                    2,
                    g,
                    i as int,
                )));
                lemma_listed_step(d@, 2, g, i as int);
            }
        }
        i += 1;
    }
}

/// Whether one of the first `n` pairs has the glyph at `side`.
spec fn listed_before(d: Seq<u8>, side: int, g: u32, n: int) -> bool {
    exists|i: int| 0 <= i < n && g == #[trigger] word(d, 8 + 6 * i + side)
}

proof fn lemma_listed_step(d: Seq<u8>, side: int, g: u32, n: int)
    requires
        n >= 0,
    ensures
        listed_before(d, side, g, n + 1) <==> listed_before(d, side, g, n) || g == word(d, 8 + 6 * n + side),
{
    if listed_before(d, side, g, n + 1) {
        let i = choose|i: int| 0 <= i < n + 1 && g == #[trigger] word(d, 8 + 6 * i + side);
        if i < n {
            assert(g == word(d, 8 + 6 * i + side));
        }
    }
    if listed_before(d, side, g, n) {
        let i = choose|i: int| 0 <= i < n && g == #[trigger] word(d, 8 + 6 * i + side);
        assert(g == word(d, 8 + 6 * i + side));
    }
    if g == word(d, 8 + 6 * n + side) {
        assert(listed_before(d, side, g, n + 1));
    }
}

/// What a pair comes to, in the font's units: nothing where the sets rule it
/// out or the subtable says nothing of it.
pub open spec fn pair_value(cache: KernSubtableCache, p: KernPart, left: u32, right: u32) -> i32 {
    if !cache.first_set.has(left) || !cache.second_set.has(right) {
        0
    } else {
        match kern_pair(p.data@, p.named_format(), p.aat, left, right) {
            Some(v) => v,
            None => 0,
        }
    }
}

/// What a pair comes to, in the font's units.
pub fn simple_kerning(cache: &KernSubtableCache, p: &KernPart, left: u32, right: u32) -> (v: i32)
    ensures
        v == pair_value(*cache, *p, left, right),
{
    if !cache.first_set.contains(left) || !cache.second_set.contains(right) {
        return 0;
    }
    let f: u8 = if p.aat {
        (p.coverage % 256) as u8
    } else {
        (p.coverage / 256) as u8
    };
    kerning_or_zero(read_pair(&p.data, f, p.aat, left, right))
}

/// A value a subtable may not have.
pub fn kerning_or_zero(v: Option<i32>) -> (r: i32)
    ensures
        r == (match v {
            Some(v) => v,
            None => 0,
        }),
{
    match v {
        Some(v) => v,
        None => 0,
    }
}

/// Whether a line has a glyph of a set.
pub open spec fn line_meets(glyphs: Seq<u32>, set: GlyphSet) -> bool {
    exists|i: int| 0 <= i < glyphs.len() && set.has(#[trigger] glyphs[i])
}

/// The set of a line's glyphs, for lines long enough to be worth one.
pub fn setup_buffer_glyph_set(glyphs: &[u32]) -> (r: Option<GlyphSet>)
    ensures
        r is Some <==> glyphs@.len() >= 4,
        r matches Some(s) ==> s.wf() && forall|g: u32| #[trigger]
            s.has(g) <==> g <= DELETED_GLYPH && glyphs@.contains(g),
{
    if glyphs.len() < 4 {
        return None;
    }
    let mut set = GlyphSet::default();
    let mut i: usize = 0;
    while i < glyphs.len()
        invariant
            i <= glyphs@.len(),
            set.wf(),
            forall|g: u32| #[trigger]
                set.has(g) <==> g <= DELETED_GLYPH && glyphs@.take(i as int).contains(g),
        decreases glyphs@.len() - i,
    {
        let ghost before = set;
        set.insert(glyphs[i]);
        proof {
            let now = glyphs@.take(i + 1);
            let then = glyphs@.take(i as int);
            assert forall|g: u32| #[trigger] set.has(g) <==> g <= DELETED_GLYPH && now.contains(g) by {
                assert(before.has(g) <==> g <= DELETED_GLYPH && then.contains(g));
                if then.contains(g) {
                    let k = choose|k: int| 0 <= k < then.len() && then[k] == g;
                    assert(now[k] == g);
                }
                if now.contains(g) {
                    let k = choose|k: int| 0 <= k < now.len() && now[k] == g;
                    if k < i {
                        assert(then[k] == g);
                    }
                }
                if g == glyphs@[i as int] {
                    assert(now[i as int] == g);
                }
            }
        }
        i += 1;
    }
    assert(glyphs@.take(i as int) =~= glyphs@);
    Some(set)
}

/// Whether a machine has anything to start on in a line.
pub fn buffer_intersects_machine(glyphs: &[u32], line: &Option<GlyphSet>, first_set: &GlyphSet) -> (r: bool)
    requires
        first_set.wf(),
        *line matches Some(s) ==> s.wf() && forall|g: u32| #[trigger]
            s.has(g) <==> g <= DELETED_GLYPH && glyphs@.contains(g),
    ensures
        r == line_meets(glyphs@, *first_set),
{
    if let Some(set) = line {
        let r = set.intersects_set(first_set);
        proof {
            if r {
                let g = choose|g: u32| #[trigger] set.has(g) && first_set.has(g);
                let i = choose|i: int| 0 <= i < glyphs@.len() && glyphs@[i] == g;
                assert(first_set.has(glyphs@[i]));
            }
            if line_meets(glyphs@, *first_set) {
                let i = choose|i: int| 0 <= i < glyphs@.len() && first_set.has(#[trigger] glyphs@[i]);
                assert(glyphs@.contains(glyphs@[i]));
                assert(set.has(glyphs@[i]) && first_set.has(glyphs@[i]));
            }
        }
        return r;
    }
    let mut i: usize = 0;
    while i < glyphs.len()
        invariant
            i <= glyphs@.len(),
            forall|k: int| 0 <= k < i ==> !first_set.has(#[trigger] glyphs@[k]),
        decreases glyphs@.len() - i,
    {
        if first_set.contains(glyphs[i]) {
            assert(first_set.has(glyphs@[i as int]));
            return true;
        }
        i += 1;
    }
    false
}

/// One thing to do to a line, in order.
#[derive(Copy, Clone, Debug, PartialEq, Eq, Structural)]
pub enum KernRun {
    /// Attach every glyph to the one before it in the direction of the text, at
    /// this distance.
    Chain { step: i16 },
    /// Turn the line around.
    Reverse,
    /// Kern the pairs of subtable `index`.
    Simple { index: usize, cross_stream: bool },
    /// Drive the machine of subtable `index`.
    Machine { index: usize, cross_stream: bool },
}

/// How a line runs, and what was asked for it.
#[derive(Copy, Clone, Debug, PartialEq, Eq, Structural)]
pub struct KernLine {
    pub horizontal: bool,
    pub backward: bool,
    /// Whether kerning was asked for; machines run even where it was not.
    pub requested: bool,
}

/// The way back, for a line left turned around.
pub open spec fn turned_back(reversed: bool) -> Seq<KernRun> {
    if reversed {
        seq![KernRun::Reverse]
    } else {
        seq![]
    }
}

/// What one subtable adds: the attachment of every glyph, before the first that
/// moves glyphs across the line; the turn to the way the text runs; the run.
pub open spec fn part_runs(p: KernPart, line: KernLine, k: int, seen: bool, reversed: bool) -> Seq<KernRun> {
    let chain = if !seen && p.across() {
        seq![KernRun::Chain { step: if line.backward { 1i16 } else { -1i16 } }]
    } else {
        seq![]
    };
    match p.format() {
        None => chain,
        Some(f) => {
            let flip = if line.backward != reversed {
                seq![KernRun::Reverse]
            } else {
                seq![]
            };
            let run = if f == 1 {
                seq![KernRun::Machine { index: k as usize, cross_stream: p.across() }]
            } else if line.requested {
                seq![KernRun::Simple { index: k as usize, cross_stream: p.across() }]
            } else {
                seq![]
            };
            chain + flip + run
        },
    }
}

/// Whether a subtable is for the line.
pub open spec fn suits(p: KernPart, line: KernLine, meets: bool) -> bool {
    !p.varies() && p.along() == line.horizontal && meets
}

/// Which way the line runs after a subtable.
pub open spec fn turned(p: KernPart, line: KernLine, reversed: bool) -> bool {
    if p.format() is Some {
        line.backward
    } else {
        reversed
    }
}

/// What to run from subtable `i` on. Subtables that can be read are counted by
/// `k`, which is how what was worked out for them is found.
pub open spec fn planned(
    parts: Seq<Option<KernPart>>,
    meets: Seq<bool>,
    line: KernLine,
    i: int,
    k: int,
    seen: bool,
    reversed: bool,
) -> Seq<KernRun>
    decreases parts.len() - i,
{
    if i < 0 || i >= parts.len() {
        turned_back(reversed)
    } else {
        match parts[i] {
            None => planned(parts, meets, line, i + 1, k, seen, reversed),
            Some(p) => if k >= meets.len() {
                turned_back(reversed)
            } else if !suits(p, line, meets[k]) {
                planned(parts, meets, line, i + 1, k + 1, seen, reversed)
            } else {
                part_runs(p, line, k, seen, reversed) + planned(
                    parts,
                    meets,
                    line,
                    i + 1,
                    k + 1,
                    seen || p.across(),
                    turned(p, line, reversed),
                )
            },
        }
    }
}

/// Whether each cache has something to start on in a line.
pub open spec fn meets_of(caches: Seq<KernSubtableCache>, glyphs: Seq<u32>) -> Seq<bool> {
    Seq::new(caches.len(), |k: int| line_meets(glyphs, caches[k].first_set))
}

/// Add what one subtable adds.
fn add_part(runs: &mut Vec<KernRun>, p: &KernPart, line: KernLine, k: usize, seen: bool, reversed: bool)
    ensures
        final(runs)@ == old(runs)@ + part_runs(*p, line, k as int, seen, reversed),
{
    let across: bool = p.is_cross_stream();
    if !seen && across {
        let step: i16 = if line.backward {
            1
        } else {
            -1
        };
        runs.push(KernRun::Chain { step });
    }
    if let Some(f) = p.kind() {
        if line.backward != reversed {
            runs.push(KernRun::Reverse);
        }
        if f == 1 {
            runs.push(KernRun::Machine { index: k, cross_stream: across });
        } else if line.requested {
            runs.push(KernRun::Simple { index: k, cross_stream: across });
        }
    }
    assert(runs@ =~= old(runs)@ + part_runs(*p, line, k as int, seen, reversed));
}

/// What to run on a line, in order: each subtable that applies to its
/// direction and has something to start on, with the line turned the way its
/// text runs, and turned back at the end.
pub fn hb_ot_layout_kern(
    parts: &[Option<KernPart>],
    caches: &[KernSubtableCache],
    glyphs: &[u32],
    line: KernLine,
) -> (runs: Vec<KernRun>)
    requires
        forall|k: int| 0 <= k < caches@.len() ==> (#[trigger] caches@[k]).first_set.wf(),
    ensures
        runs@ == planned(parts@, meets_of(caches@, glyphs@), line, 0, 0, false, false),
{
    let set = setup_buffer_glyph_set(glyphs);
    let mut runs: Vec<KernRun> = Vec::new();
    let mut seen: bool = false;
    let mut reversed: bool = false;
    let mut stopped: bool = false;
    let mut i: usize = 0;
    let mut k: usize = 0;
    let ghost meets = meets_of(caches@, glyphs@);
    let ghost all = planned(parts@, meets, line, 0, 0, false, false);
    assert(runs@ + all =~= all);
    while i < parts.len() && !stopped
        invariant
            i <= parts@.len(),
            k <= i,
            k <= caches@.len(),
            meets == meets_of(caches@, glyphs@),
            forall|k: int| 0 <= k < caches@.len() ==> (#[trigger] caches@[k]).first_set.wf(),
            set matches Some(s) ==> s.wf() && forall|g: u32| #[trigger]
                s.has(g) <==> g <= DELETED_GLYPH && glyphs@.contains(g),
            !stopped ==> runs@ + planned(parts@, meets, line, i as int, k as int, seen, reversed) == all,
            stopped ==> runs@ + turned_back(reversed) == all,
        decreases parts@.len() - i,
    {
        if let Some(p) = &parts[i] {
            if k >= caches.len() {
                stopped = true;
            } else {
                if !p.is_variable() && p.is_horizontal() == line.horizontal
                    && buffer_intersects_machine(glyphs, &set, &caches[k].first_set) {
                    let ghost before = runs@;
                    add_part(&mut runs, p, line, k, seen, reversed);
                    proof {
                        let rest = planned(
                            parts@,
                            meets,
                            line,
                            i + 1,
                            k + 1,
                            seen || p.across(),
                            turned(*p, line, reversed),
                        );
                        assert(before + (part_runs(*p, line, k as int, seen, reversed) + rest) =~= runs@
                            + rest);
                    }
                    seen = seen || p.is_cross_stream();
                    if p.kind().is_some() {
                        reversed = line.backward;
                    }
                }
                k = k + 1;
            }
        }
        i += 1;
    }
    if reversed {
        runs.push(KernRun::Reverse);
    }
    assert(runs@ =~= all);
    runs
}

/// How often a line is turned around.
pub open spec fn turns(runs: Seq<KernRun>) -> nat
    decreases runs.len(),
{
    if runs.len() == 0 {
        0
    } else {
        turns(runs.drop_last()) + if runs.last() == KernRun::Reverse {
            1nat
        } else {
            0
        }
    }
}

proof fn lemma_turns_add(a: Seq<KernRun>, b: Seq<KernRun>)
    ensures
        turns(a + b) == turns(a) + turns(b),
    decreases b.len(),
{
    if b.len() == 0 {
        assert(a + b =~= a);
    } else {
        lemma_turns_add(a, b.drop_last());
        assert((a + b).drop_last() =~= a + b.drop_last());
    }
}

proof fn lemma_part_turns(p: KernPart, line: KernLine, k: int, seen: bool, reversed: bool)
    ensures
        (turns(part_runs(p, line, k, seen, reversed)) % 2 == 1) == (reversed != turned(p, line, reversed)),
{
    let runs = part_runs(p, line, k, seen, reversed);
    reveal_with_fuel(turns, 4);
    assert(runs.len() <= 3);
}

/// A line is left as it came: from a line that runs one way or the other, the
/// runs turn it so often that it ends the way the text was given.
pub proof fn a_line_is_turned_back(
    parts: Seq<Option<KernPart>>,
    meets: Seq<bool>,
    line: KernLine,
    i: int,
    k: int,
    seen: bool,
    reversed: bool,
)
    requires
        0 <= i,
    ensures
        (turns(planned(parts, meets, line, i, k, seen, reversed)) % 2 == 1) == reversed,
    decreases parts.len() - i,
{
    reveal_with_fuel(turns, 2);
    assert(seq![KernRun::Reverse].drop_last() =~= seq![]);
    assert((turns(turned_back(reversed)) % 2 == 1) == reversed);
    if i < parts.len() {
        match parts[i] {
            None => {
                a_line_is_turned_back(parts, meets, line, i + 1, k, seen, reversed);
            },
            Some(p) => {
                if k < meets.len() {
                    if suits(p, line, meets[k]) {
                        let now = turned(p, line, reversed);
                        let rest = planned(parts, meets, line, i + 1, k + 1, seen || p.across(), now);
                        a_line_is_turned_back(
                            parts,
                            meets,
                            line,
                            i + 1,
                            k + 1,
                            seen || p.across(),
                            now,
                        );
                        lemma_part_turns(p, line, k, seen, reversed);
                        lemma_turns_add(part_runs(p, line, k, seen, reversed), rest);
                    } else {
                        a_line_is_turned_back(parts, meets, line, i + 1, k + 1, seen, reversed);
                    }
                }
            },
        }
    }
}

/// What the flags of a header stand for: a longer header has them in its high
/// bits, the first of them for vertical text, and its format in its low byte; a
/// shorter one has them in its low bits, the first of them for horizontal text,
/// and its format in its high byte. Only a longer header can say that its values
/// vary.
pub proof fn a_header_says_which_way_it_goes(
    p: &KernPart,
    horizontal: bool,
    across: bool,
    varies: bool,
    kind: Option<u8>,
)
    requires
        call_ensures(KernPart::is_horizontal, (p,), horizontal),
        call_ensures(KernPart::is_cross_stream, (p,), across),
        call_ensures(KernPart::is_variable, (p,), varies),
        call_ensures(KernPart::kind, (p,), kind),
    ensures
        p.aat ==> (horizontal <==> p.coverage < 0x8000),
        p.aat ==> (across <==> (p.coverage / 0x4000) % 2 == 1),
        p.aat ==> (varies <==> (p.coverage / 0x2000) % 2 == 1),
        !p.aat ==> (horizontal <==> p.coverage % 2 == 1),
        !p.aat ==> (across <==> (p.coverage / 4) % 2 == 1),
        !p.aat ==> !varies,
        kind is Some ==> kind->0 <= 3,
        kind is Some && p.aat ==> p.coverage % 256 == kind->0,
        kind is Some && !p.aat ==> p.coverage / 256 == kind->0,
{
    let c = p.coverage;
    assert((c & 0x8000 == 0 <==> c < 0x8000) && (c & 0x4000 != 0 <==> (c / 0x4000) % 2 == 1) && (c & 0x2000 != 0
        <==> (c / 0x2000) % 2 == 1) && (c & 1 != 0 <==> c % 2 == 1) && (c & 4 != 0 <==> (c / 4) % 2 == 1))
        by (bit_vector);
}

/// Which subtable a run is of, if it is of one.
pub open spec fn run_of(run: KernRun) -> Option<int> {
    match run {
        KernRun::Simple { index, .. } => Some(index as int),
        KernRun::Machine { index, .. } => Some(index as int),
        _ => None,
    }
}

/// Whether a subtable is to be run on a line: its values hold for every
/// instance, it goes the way of the line, the line has something it can start
/// on, and it is a machine, or kerning was asked for.
pub open spec fn is_due(p: KernPart, line: KernLine, meets: bool) -> bool {
    &&& !p.varies()
    &&& p.along() <==> line.horizontal
    &&& meets
    &&& p.format() is Some
    &&& p.format() == Some(1u8) || line.requested
}

/// Whether a run is the one of the subtable it names.
pub open spec fn is_right_run(run: KernRun, p: KernPart, line: KernLine) -> bool {
    match run {
        KernRun::Simple { index, cross_stream } => cross_stream == p.across() && p.format() != Some(1u8)
            && line.requested,
        KernRun::Machine { index, cross_stream } => cross_stream == p.across() && p.format() == Some(1u8),
        _ => true,
    }
}

proof fn lemma_readable_step(parts: Seq<Option<KernPart>>, i: int)
    requires
        0 <= i < parts.len(),
    ensures
        readable(parts.take(i + 1)) == (match parts[i] {
            Some(p) => readable(parts.take(i)).push(p),
            None => readable(parts.take(i)),
        }),
{
    assert(parts.take(i + 1).drop_last() =~= parts.take(i));
}

proof fn lemma_readable_prefix(parts: Seq<Option<KernPart>>, i: int)
    requires
        0 <= i <= parts.len(),
    ensures
        readable(parts.take(i)).len() <= readable(parts).len(),
        forall|k: int| 0 <= k < readable(parts.take(i)).len() ==> #[trigger] readable(parts)[k] == readable(
            parts.take(i),
        )[k],
    decreases parts.len() - i,
{
    if i < parts.len() {
        lemma_readable_step(parts, i);
        lemma_readable_prefix(parts, i + 1);
        let shorter = readable(parts.take(i));
        let longer = readable(parts.take(i + 1));
        assert forall|k: int| 0 <= k < shorter.len() implies #[trigger] readable(parts)[k] == shorter[k] by {
            assert(longer[k] == shorter[k]);
        }
    } else {
        assert(parts.take(i) =~= parts);
    }
}

/// Whether every run from a subtable on is due and is the one of the subtable
/// that it names, with the line turned the way it is read.
spec fn runs_due(
    runs: Seq<KernRun>,
    all: Seq<KernPart>,
    meets: Seq<bool>,
    line: KernLine,
    k: int,
    reversed: bool,
) -> bool {
    forall|j: int|
        0 <= j < runs.len() && run_of(#[trigger] runs[j]) is Some ==> {
            let m = run_of(runs[j])->0;
            &&& k <= m < all.len()
            &&& m < meets.len()
            &&& is_due(all[m], line, meets[m])
            &&& is_right_run(runs[j], all[m], line)
            &&& (turns(runs.take(j)) % 2 == 1) == (line.backward != reversed)
        }
}

/// Whether runs are in the order of their subtables, from one on.
spec fn runs_ordered(runs: Seq<KernRun>, k: int) -> bool {
    &&& forall|j: int|
        0 <= j < runs.len() && run_of(#[trigger] runs[j]) is Some ==> k <= run_of(runs[j])->0
    &&& forall|j: int, l: int|
        0 <= j < l < runs.len() && run_of(#[trigger] runs[j]) is Some && run_of(#[trigger] runs[l]) is Some
            ==> run_of(runs[j])->0 < run_of(runs[l])->0
}

/// Whether every subtable from one on that is due has a run.
spec fn runs_complete(
    runs: Seq<KernRun>,
    all: Seq<KernPart>,
    meets: Seq<bool>,
    line: KernLine,
    k: int,
) -> bool {
    forall|m: int|
        k <= m < all.len() && m < meets.len() && is_due(#[trigger] all[m], line, meets[m]) ==> exists|j: int|
            0 <= j < runs.len() && run_of(#[trigger] runs[j]) == Some(m)
}

/// Whether the glyphs are attached once, unless they have been, and the right
/// way.
spec fn runs_chained(runs: Seq<KernRun>, line: KernLine, seen: bool) -> bool {
    &&& forall|j: int|
        0 <= j < runs.len() && (#[trigger] runs[j]) is Chain ==> {
            &&& !seen
            &&& runs[j]->step == (if line.backward {
                1i16
            } else {
                -1i16
            })
        }
    &&& forall|j: int, l: int|
        0 <= j < l < runs.len() && #[trigger] runs[j] is Chain ==> !(#[trigger] runs[l] is Chain)
}

/// Whether the glyphs are attached, or have been, before a run across the line.
spec fn runs_attached(runs: Seq<KernRun>, all: Seq<KernPart>, seen: bool) -> bool {
    !seen ==> forall|j: int|
        0 <= j < runs.len() && run_of(#[trigger] runs[j]) is Some && all[run_of(runs[j])->0].across()
            ==> exists|l: int| 0 <= l < j && #[trigger] runs[l] is Chain
}

/// What one subtable's own runs are like.
spec fn part_right(here: Seq<KernRun>, p: KernPart, line: KernLine, k: int, seen: bool, reversed: bool) -> bool {
    &&& (turns(here) % 2 == 1) == (reversed != turned(p, line, reversed))
    &&& forall|j: int|
        0 <= j < here.len() && run_of(#[trigger] here[j]) is Some ==> {
            &&& j == here.len() - 1
            &&& run_of(here[j]) == Some(k)
            &&& is_due(p, line, suits(p, line, true))
            &&& is_right_run(here[j], p, line)
            &&& (turns(here.take(j)) % 2 == 1) == (line.backward != reversed)
        }
    &&& forall|j: int|
        0 <= j < here.len() && (#[trigger] here[j]) is Chain ==> {
            &&& j == 0
            &&& !seen
            &&& p.across()
            &&& here[j]->step == (if line.backward {
                1i16
            } else {
                -1i16
            })
        }
    &&& is_due(p, line, true) ==> here.len() > 0 && run_of(here.last()) == Some(k)
    &&& !seen && p.across() ==> here.len() > 0 && here[0] is Chain
}

proof fn lemma_part(p: KernPart, line: KernLine, k: int, seen: bool, reversed: bool)
    requires
        0 <= k <= usize::MAX,
        suits(p, line, true),
    ensures
        part_right(part_runs(p, line, k, seen, reversed), p, line, k, seen, reversed),
{
    let here = part_runs(p, line, k, seen, reversed);
    lemma_part_turns(p, line, k, seen, reversed);
    if p.format() is Some && (p.format() == Some(1u8) || line.requested) {
        let before = here.drop_last();
        lemma_turns_add(before, seq![here.last()]);
        assert(before + seq![here.last()] =~= here);
        reveal_with_fuel(turns, 2);
        assert(here.take(here.len() - 1) =~= before);
        assert(turns(seq![here.last()]) == 0);
    }
}

proof fn lemma_join_due(
    here: Seq<KernRun>,
    p: KernPart,
    all: Seq<KernPart>,
    meets: Seq<bool>,
    line: KernLine,
    k: int,
    seen: bool,
    reversed: bool,
    rest: Seq<KernRun>,
)
    requires
        0 <= k < all.len(),
        k < meets.len(),
        all[k] == p,
        suits(p, line, meets[k]),
        part_right(here, p, line, k, seen, reversed),
        runs_due(rest, all, meets, line, k + 1, turned(p, line, reversed)),
    ensures
        runs_due(here + rest, all, meets, line, k, reversed),
{
    let runs = here + rest;
    let n = here.len();
    let now = turned(p, line, reversed);
    assert forall|j: int| 0 <= j < runs.len() && run_of(#[trigger] runs[j]) is Some implies {
        let m = run_of(runs[j])->0;
        &&& k <= m < all.len()
        &&& m < meets.len()
        &&& is_due(all[m], line, meets[m])
        &&& is_right_run(runs[j], all[m], line)
        &&& (turns(runs.take(j)) % 2 == 1) == (line.backward != reversed)
    } by {
        if j < n {
            assert(runs[j] == here[j]);
            assert(runs.take(j) =~= here.take(j));
        } else {
            assert(runs[j] == rest[j - n]);
            assert(runs.take(j) =~= here + rest.take(j - n));
            lemma_turns_add(here, rest.take(j - n));
        }
    }
}

proof fn lemma_join_ordered(here: Seq<KernRun>, rest: Seq<KernRun>, k: int)
    requires
        forall|j: int|
            0 <= j < here.len() && run_of(#[trigger] here[j]) is Some ==> j == here.len() - 1 && run_of(here[j])
                == Some(k),
        runs_ordered(rest, k + 1),
    ensures
        runs_ordered(here + rest, k),
{
    let runs = here + rest;
    let n = here.len();
    assert forall|j: int| 0 <= j < runs.len() implies #[trigger] runs[j] == (if j < n {
        here[j]
    } else {
        rest[j - n]
    }) by {}
}

proof fn lemma_join_complete(
    here: Seq<KernRun>,
    rest: Seq<KernRun>,
    all: Seq<KernPart>,
    meets: Seq<bool>,
    line: KernLine,
    k: int,
)
    requires
        0 <= k < all.len(),
        k < meets.len(),
        is_due(all[k], line, meets[k]) ==> here.len() > 0 && run_of(here.last()) == Some(k),
        runs_complete(rest, all, meets, line, k + 1),
    ensures
        runs_complete(here + rest, all, meets, line, k),
{
    let runs = here + rest;
    let n = here.len();
    assert forall|m: int|
        k <= m < all.len() && m < meets.len() && is_due(#[trigger] all[m], line, meets[m]) implies exists|j: int|
        0 <= j < runs.len() && run_of(#[trigger] runs[j]) == Some(m) by {
        if m == k {
            assert(runs[n - 1] == here.last());
        } else {
            let j = choose|j: int| 0 <= j < rest.len() && run_of(#[trigger] rest[j]) == Some(m);
            assert(runs[n + j] == rest[j]);
        }
    }
}

proof fn lemma_join_chained(here: Seq<KernRun>, rest: Seq<KernRun>, line: KernLine, seen: bool, across: bool)
    requires
        forall|j: int|
            0 <= j < here.len() && (#[trigger] here[j]) is Chain ==> {
                &&& j == 0
                &&& !seen
                &&& across
                &&& here[j]->step == (if line.backward {
                    1i16
                } else {
                    -1i16
                })
            },
        runs_chained(rest, line, seen || across),
    ensures
        runs_chained(here + rest, line, seen),
{
    let runs = here + rest;
    let n = here.len();
    assert forall|j: int| 0 <= j < runs.len() implies #[trigger] runs[j] == (if j < n {
        here[j]
    } else {
        rest[j - n]
    }) by {}
}

proof fn lemma_join_attached(
    here: Seq<KernRun>,
    rest: Seq<KernRun>,
    all: Seq<KernPart>,
    k: int,
    seen: bool,
    across: bool,
)
    requires
        0 <= k < all.len(),
        all[k].across() == across,
        forall|j: int|
            0 <= j < here.len() && run_of(#[trigger] here[j]) is Some ==> run_of(here[j]) == Some(k),
        !seen && across ==> here.len() > 0 && here[0] is Chain,
        runs_attached(rest, all, seen || across),
    ensures
        runs_attached(here + rest, all, seen),
{
    let runs = here + rest;
    let n = here.len();
    if !seen {
        assert forall|j: int|
            0 <= j < runs.len() && run_of(#[trigger] runs[j]) is Some && all[run_of(
                runs[j],
            )->0].across() implies exists|l: int| 0 <= l < j && #[trigger] runs[l] is Chain by {
            if across {
                assert(runs[0] == here[0]);
                if j == 0 {
                    assert(runs[j] == here[j]);
                }
            } else if j < n {
                assert(runs[j] == here[j]);
            } else {
                assert(runs[j] == rest[j - n]);
                let l = choose|l: int| 0 <= l < j - n && #[trigger] rest[l] is Chain;
                assert(runs[n + l] == rest[l]);
            }
        }
    }
}

proof fn lemma_planned(
    parts: Seq<Option<KernPart>>,
    meets: Seq<bool>,
    line: KernLine,
    i: int,
    k: int,
    seen: bool,
    reversed: bool,
)
    requires
        0 <= i <= parts.len(),
        meets.len() <= usize::MAX,
        k == readable(parts.take(i)).len(),
    ensures
        ({
            let runs = planned(parts, meets, line, i, k, seen, reversed);
            let all = readable(parts);
            &&& runs_due(runs, all, meets, line, k, reversed)
            &&& runs_ordered(runs, k)
            &&& runs_complete(runs, all, meets, line, k)
            &&& runs_chained(runs, line, seen)
            &&& runs_attached(runs, all, seen)
        }),
    decreases parts.len() - i,
{
    let all = readable(parts);
    if i >= parts.len() {
        assert(parts.take(i) =~= parts);
    } else {
        lemma_readable_step(parts, i);
        lemma_readable_prefix(parts, i + 1);
        match parts[i] {
            None => {
                lemma_planned(parts, meets, line, i + 1, k, seen, reversed);
            },
            Some(p) => {
                assert(readable(parts.take(i + 1))[k] == p);
                assert(all[k] == p);
                if k < meets.len() {
                    if suits(p, line, meets[k]) {
                        let now = turned(p, line, reversed);
                        lemma_planned(parts, meets, line, i + 1, k + 1, seen || p.across(), now);
                        let rest = planned(parts, meets, line, i + 1, k + 1, seen || p.across(), now);
                        let here = part_runs(p, line, k, seen, reversed);
                        lemma_part(p, line, k, seen, reversed);
                        lemma_join_due(here, p, all, meets, line, k, seen, reversed, rest);
                        lemma_join_ordered(here, rest, k);
                        lemma_join_complete(here, rest, all, meets, line, k);
                        lemma_join_chained(here, rest, line, seen, p.across());
                        lemma_join_attached(here, rest, all, k, seen, p.across());
                    } else {
                        lemma_planned(parts, meets, line, i + 1, k + 1, seen, reversed);
                    }
                }
            },
        }
    }
}

/// What runs on a line: every subtable that is due, and no other, in the order
/// of the table, with the line turned the way its text is read; before the first
/// that moves glyphs across the line, and only then, every glyph is attached to
/// the one before it in the text.
pub proof fn every_due_subtable_runs_in_order(
    parts: &[Option<KernPart>],
    caches: &[KernSubtableCache],
    glyphs: &[u32],
    line: KernLine,
    runs: Vec<KernRun>,
)
    requires
        forall|k: int| 0 <= k < caches@.len() ==> (#[trigger] caches@[k]).first_set.wf(),
        caches@.len() <= usize::MAX,
        call_ensures(hb_ot_layout_kern, (parts, caches, glyphs, line), runs),
    ensures
        forall|m: int|
            0 <= m < readable(parts@).len() && m < caches@.len() ==> (is_due(
                #[trigger] readable(parts@)[m],
                line,
                line_meets(glyphs@, caches@[m].first_set),
            ) <==> exists|j: int| 0 <= j < runs@.len() && run_of(#[trigger] runs@[j]) == Some(m)),
        forall|j: int|
            0 <= j < runs@.len() && run_of(#[trigger] runs@[j]) is Some ==> run_of(runs@[j])->0 < readable(
                parts@,
            ).len() && is_right_run(runs@[j], readable(parts@)[run_of(runs@[j])->0], line),
        forall|j: int, l: int|
            0 <= j < l < runs@.len() && run_of(#[trigger] runs@[j]) is Some && run_of(#[trigger] runs@[l])
                is Some ==> run_of(runs@[j])->0 < run_of(runs@[l])->0,
        forall|j: int|
            0 <= j < runs@.len() && run_of(#[trigger] runs@[j]) is Some ==> (turns(runs@.take(j)) % 2 == 1)
                == line.backward,
        turns(runs@) % 2 == 0,
        forall|j: int|
            0 <= j < runs@.len() && run_of(#[trigger] runs@[j]) is Some && readable(parts@)[run_of(
                runs@[j],
            )->0].across() ==> exists|l: int| 0 <= l < j && #[trigger] runs@[l] is Chain,
        forall|j: int, l: int|
            0 <= j < l < runs@.len() && #[trigger] runs@[j] is Chain ==> !(#[trigger] runs@[l] is Chain),
        forall|j: int|
            0 <= j < runs@.len() && (#[trigger] runs@[j]) is Chain ==> runs@[j]->step == (if line.backward {
                1i16
            } else {
                -1i16
            }),
{
    let meets = meets_of(caches@, glyphs@);
    assert(parts@.take(0) =~= seq![]);
    lemma_planned(parts@, meets, line, 0, 0, false, false);
    a_line_is_turned_back(parts@, meets, line, 0, 0, false, false);
    let all = readable(parts@);
    assert forall|m: int| 0 <= m < all.len() && m < caches@.len() implies (is_due(
        #[trigger] all[m],
        line,
        line_meets(glyphs@, caches@[m].first_set),
    ) <==> exists|j: int| 0 <= j < runs@.len() && run_of(#[trigger] runs@[j]) == Some(m)) by {
        assert(meets[m] == line_meets(glyphs@, caches@[m].first_set));
        if exists|j: int| 0 <= j < runs@.len() && run_of(#[trigger] runs@[j]) == Some(m) {
            let j = choose|j: int| 0 <= j < runs@.len() && run_of(#[trigger] runs@[j]) == Some(m);
            assert(run_of(runs@[j]) is Some);
        }
    }
}

/// A pair is ruled out only where it cannot be in the subtable: every glyph that
/// a subtable lists first or second is in its set, and so is every glyph of a
/// class.
pub proof fn a_listed_glyph_is_not_ruled_out(p: &KernPart, cache: KernSubtableCache, i: int, g: u32)
    requires
        call_ensures(KernSubtableCache::new, (p,), cache),
        g <= 0xffff,
    ensures
        p.format() == Some(0u8) && 0 <= i < word(p.data@, 0) && 8 + 6 * word(p.data@, 0) <= p.data@.len() ==> {
            &&& cache.first_set.has(word(p.data@, 8 + 6 * i) as u32)
            &&& cache.second_set.has(word(p.data@, 10 + 6 * i) as u32)
        },
        p.format() == Some(2u8) ==> ({
            let header: int = if p.aat {
                8
            } else {
                6
            };
            let left = word(p.data@, 2) - header;
            let right = word(p.data@, 4) - header;
            let firsts = word(p.data@, left + 2);
            let seconds = word(p.data@, right + 2);
            &&& firsts > 0 ==> (cache.first_set.has(g) <==> 0 <= g - word(p.data@, left) < firsts)
            &&& seconds > 0 ==> (cache.second_set.has(g) <==> 0 <= g - word(p.data@, right) < seconds)
        }),
        p.format() == Some(3u8) && word(p.data@, 0) > 0 ==> {
            &&& cache.first_set.has(g) <==> g < word(p.data@, 0)
            &&& cache.second_set.has(g) <==> g < word(p.data@, 0)
        },
{
    let d = p.data@;
    assert(cache.first_set.has(g) <==> may_be_first(*p, g));
    assert(cache.second_set.has(g) <==> may_be_second(*p, g));
    if p.format() == Some(0u8) && 0 <= i < word(d, 0) && 8 + 6 * word(d, 0) <= d.len() {
        let a = word(d, 8 + 6 * i + 0) as u32;
        let b = word(d, 8 + 6 * i + 2) as u32;
        assert(a == word(d, 8 + 6 * i + 0));
        assert(b == word(d, 8 + 6 * i + 2));
        assert(listed(d, 0, a));
        assert(listed(d, 2, b));
        assert(may_be_first(*p, a));
        assert(may_be_second(*p, b));
        assert(cache.first_set.has(a));
        assert(cache.second_set.has(b));
    }
}

/// A pair comes to what the subtable has for it, nothing where it has nothing or
/// either glyph is ruled out.
pub proof fn a_pair_comes_to_the_subtables_value(
    cache: &KernSubtableCache,
    p: &KernPart,
    left: u32,
    right: u32,
    v: i32,
)
    requires
        call_ensures(simple_kerning, (cache, p, left, right), v),
    ensures
        ({
            let format = if p.aat {
                p.coverage % 256
            } else {
                p.coverage / 256
            };
            let said = kern_pair(p.data@, format as u8, p.aat, left, right);
            let possible = cache.first_set.has(left) && cache.second_set.has(right);
            &&& possible && said is Some ==> v == said->0
            &&& !possible || said is None ==> v == 0
        }),
{
}

} // verus!
