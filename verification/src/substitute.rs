//! What the substitution formats put in a glyph's place.
//!
//! A one-for-one substitution owes the line nothing. An alternate that was
//! picked at random makes the whole line unsafe to break: the answer depends on
//! how often one was picked before.

use std::sync::Arc;
use vstd::prelude::*;

use crate::bytes::{be16_far, word, word_at};
use crate::lookup::{sets_wf, SubtableKind};
use crate::set::GlyphSet;

verus! {

/// A glyph moved by a delta, wrapped within the sixteen-bit glyph space.
pub open spec fn shifted(glyph: u32, delta: i32) -> u32 {
    ((glyph + delta) % 0x1_0000) as u32
}

/// The substitute of a glyph where all of them are a constant away.
pub fn at_single_delta(kind: &SubtableKind, glyph: u32) -> (r: Option<u32>)
    ensures
        r == (match *kind {
            SubtableKind::SingleDelta { delta } => Some(shifted(glyph, delta)),
            _ => None,
        }),
{
    match kind {
        SubtableKind::SingleDelta { delta } => {
            let sum: i64 = glyph as i64 + *delta as i64;
            let wrapped: i64 = if sum >= 0 {
                sum % 0x1_0000
            } else {
                // One full turn more than the sum falls short of zero.
                (0x1_0000 - (-sum) % 0x1_0000) % 0x1_0000
            };
            proof {
                lemma_wrap(sum as int, wrapped as int);
            }
            Some(wrapped as u32)
        },
        _ => None,
    }
}

/// What is left of a negative number, as the machine computes it.
proof fn lemma_wrap(sum: int, wrapped: int)
    requires
        sum >= 0 ==> wrapped == sum % 0x1_0000,
        sum < 0 ==> wrapped == (0x1_0000 - (-sum) % 0x1_0000) % 0x1_0000,
    ensures
        wrapped == sum % 0x1_0000,
        0 <= wrapped < 0x1_0000,
{
}

/// The substitute of a glyph where each is listed, by its place in the coverage.
pub fn at_single_list(kind: &SubtableKind, table: &[u8], index: u32) -> (r: Option<u32>)
    ensures
        r == (match *kind {
            SubtableKind::SingleList { subst } => if index < subst.len {
                match word_at(table@, subst.offset + index * 2) {
                    Some(g) => Some(g as u32),
                    None => None,
                }
            } else {
                None
            },
            _ => None,
        }),
{
    match kind {
        SubtableKind::SingleList { subst } => match subst.get(table, index) {
            Some(g) => Some(g as u32),
            None => None,
        },
        _ => None,
    }
}

/// Where the alternates of a glyph stand, and how many there are.
pub open spec fn alternates(d: Seq<u8>, base: int, index: u32) -> Option<(int, u16)> {
    match word_at(d, base + 4) {
        Some(n) => if index < n {
            match word_at(d, base + 6 + index * 2) {
                Some(off) => match word_at(d, base + off) {
                    Some(count) => Some((base + off, count)),
                    None => None,
                },
                None => None,
            }
        } else {
            None
        },
        None => None,
    }
}

/// The value of a feature for a glyph: the lookup's own bits of the mask, as a
/// plain number.
pub open spec fn feature_value(mask: u32, glyph_mask: u32) -> u32 {
    (mask & glyph_mask) >> (mask.trailing_zeros())
}

/// Whether an alternate is picked at random: the feature has the greatest value
/// there is, and the line asks for it.
pub open spec fn randomises(value: u32, max_value: u32, random: Option<u32>) -> bool {
    value == max_value && random is Some
}

/// Which alternate a value picks, counted from one.
pub open spec fn picked_alternate(value: u32, max_value: u32, random: Option<u32>, count: u16) -> int {
    if randomises(value, max_value, random) {
        random->0 % (count as u32) + 1
    } else {
        value as int
    }
}

/// What picking an alternate came to.
#[derive(Copy, Clone, Debug, PartialEq, Eq, Structural)]
pub struct Alternate {
    /// The substitute, if there is one.
    pub glyph: Option<u32>,
    /// Whether the whole line is now unsafe to break.
    pub unsafe_to_break: bool,
}

/// What picking an alternate comes to, by the feature's value: the value one is
/// the first alternate, and a value past the last picks none.
pub open spec fn alternate_for(
    d: Seq<u8>,
    base: int,
    index: u32,
    value: u32,
    max_value: u32,
    random: Option<u32>,
) -> Alternate {
    match alternates(d, base, index) {
        None => Alternate { glyph: None, unsafe_to_break: false },
        Some((set, count)) => {
            let random_pick = randomises(value, max_value, random) && count > 0;
            let pick = picked_alternate(value, max_value, random, count);
            Alternate {
                glyph: if 1 <= pick <= count && (randomises(value, max_value, random) ==> count > 0) {
                    match word_at(d, set + 2 + (pick - 1) * 2) {
                        Some(g) => Some(g as u32),
                        None => None,
                    }
                } else {
                    None
                },
                unsafe_to_break: random_pick,
            }
        },
    }
}

/// The alternate of a glyph. `random` is the next random number, where the line
/// asks for random alternates.
pub fn at_alternate(
    kind: &SubtableKind,
    table: &[u8],
    index: u32,
    mask: u32,
    glyph_mask: u32,
    max_value: u32,
    random: Option<u32>,
) -> (r: Alternate)
    requires
        mask != 0,
    ensures
        r == (match *kind {
            SubtableKind::Alternate { offset } => alternate_for(
                table@,
                offset as int,
                index,
                feature_value(mask, glyph_mask),
                max_value,
                random,
            ),
            _ => Alternate { glyph: None, unsafe_to_break: false },
        }),
{
    let nothing = Alternate { glyph: None, unsafe_to_break: false };
    let base: u64 = match kind {
        SubtableKind::Alternate { offset } => *offset as u64,
        _ => return nothing,
    };
    match be16_far(table, base + 4) {
        Some(n) => {
            if index >= n as u32 {
                return nothing;
            }
        },
        None => return nothing,
    }
    let set: u64 = match be16_far(table, base + 6 + index as u64 * 2) {
        Some(off) => base + off as u64,
        None => return nothing,
    };
    let count: u16 = match be16_far(table, set) {
        Some(n) => n,
        None => return nothing,
    };
    proof {
        vstd::std_specs::bits::axiom_u32_trailing_zeros(mask);
    }
    let mut value: u32 = (mask & glyph_mask) >> mask.trailing_zeros();
    let mut randomised: bool = false;
    if value == max_value {
        if let Some(number) = random {
            if count == 0 {
                return nothing;
            }
            randomised = true;
            value = number % (count as u32) + 1;
        }
    }
    if value == 0 || value > count as u32 {
        return Alternate { glyph: None, unsafe_to_break: randomised };
    }
    let glyph: Option<u32> = match be16_far(table, set + 2 + (value - 1) as u64 * 2) {
        Some(g) => Some(g as u32),
        None => None,
    };
    Alternate { glyph, unsafe_to_break: randomised }
}

/// Where a glyph's entry stands among the counted offsets of a subtable.
pub open spec fn entry_of(d: Seq<u8>, base: int, index: u32) -> Option<int> {
    match word_at(d, base + 4) {
        Some(n) => if index < n {
            match word_at(d, base + 6 + index * 2) {
                Some(off) => Some(base + off),
                None => None,
            }
        } else {
            None
        },
        None => None,
    }
}

fn find_entry(table: &[u8], base: u32, index: u32) -> (r: Option<u64>)
    ensures
        r is Some <==> entry_of(table@, base as int, index) is Some,
        r matches Some(at) ==> entry_of(table@, base as int, index) == Some(at as int) && at <= 0x1_0000_ffff,
{
    let base: u64 = base as u64;
    match be16_far(table, base + 4) {
        Some(n) => {
            if index >= n as u32 {
                return None;
            }
        },
        None => return None,
    }
    match be16_far(table, base + 6 + index as u64 * 2) {
        Some(off) => Some(base + off as u64),
        None => None,
    }
}

/// The words of a counted list, if all of them can be read.
pub open spec fn counted_words(d: Seq<u8>, at: int) -> Option<Seq<u32>> {
    match word_at(d, at) {
        Some(n) => if forall|i: int| 0 <= i < n ==> (#[trigger] word_at(d, at + 2 + 2 * i)) is Some {
            Some(Seq::new(n as nat, |i: int| word_at(d, at + 2 + 2 * i)->0 as u32))
        } else {
            None
        },
        None => None,
    }
}

/// A sequence of glyphs, if there is one.
pub open spec fn sequence_view(r: Option<Vec<u32>>) -> Option<Seq<u32>> {
    match r {
        Some(v) => Some(v@),
        None => None,
    }
}

/// The sequence that takes a glyph's place.
pub fn at_multiple(kind: &SubtableKind, table: &[u8], index: u32) -> (r: Option<Vec<u32>>)
    ensures
        sequence_view(r) == (match *kind {
            SubtableKind::Multiple { offset } => match entry_of(table@, offset as int, index) {
                Some(at) => counted_words(table@, at),
                None => None,
            },
            _ => None,
        }),
{
    match kind {
        SubtableKind::Multiple { offset } => match find_entry(table, *offset, index) {
            Some(at) => read_counted(table, at),
            None => None,
        },
        _ => None,
    }
}

fn read_counted(table: &[u8], at: u64) -> (r: Option<Vec<u32>>)
    requires
        at <= 0x1_0000_ffff,
    ensures
        sequence_view(r) == counted_words(table@, at as int),
{
    let n: u16 = match be16_far(table, at) {
        Some(n) => n,
        None => return None,
    };
    let mut out: Vec<u32> = Vec::new();
    let mut i: u16 = 0;
    while i < n
        invariant
            i <= n,
            at <= 0x1_0000_ffff,
            word_at(table@, at as int) == Some(n),
            out@.len() == i,
            forall|k: int|
                0 <= k < i ==> (#[trigger] word_at(table@, at + 2 + 2 * k)) is Some && out@[k] == word_at(
                    table@,
                    at + 2 + 2 * k,
                )->0,
        decreases n - i,
    {
        match be16_far(table, at + 2 + 2 * i as u64) {
            Some(g) => out.push(g as u32),
            None => {
                assert(word_at(table@, at + 2 + 2 * i) is None);
                return None;
            },
        }
        i += 1;
    }
    assert(out@ =~= Seq::new(n as nat, |k: int| word_at(table@, at + 2 + 2 * k)->0 as u32));
    Some(out)
}

/// Where ligature `j` of a set stands.
pub open spec fn ligature_place(d: Seq<u8>, set: int, j: int) -> Option<int> {
    match word_at(d, set + 2 + 2 * j) {
        Some(off) => Some(set + off),
        None => None,
    }
}

/// Whether ligature `j` of a set is made of a glyph and what follows it.
pub open spec fn ligates(d: Seq<u8>, set: int, j: int, next: Seq<u32>) -> bool {
    match ligature_place(d, set, j) {
        None => false,
        Some(at) => match word_at(d, at + 2) {
            None => false,
            Some(n) => {
                &&& word_at(d, at) is Some
                &&& 0 < n <= next.len() + 1
                &&& forall|k: int|
                    0 <= k < n - 1 ==> (#[trigger] word_at(d, at + 4 + 2 * k)) is Some && word_at(
                        d,
                        at + 4 + 2 * k,
                    )->0 == next[k]
            },
        },
    }
}

/// A ligature: its glyph, and how many glyphs become it.
#[derive(Copy, Clone, Debug, PartialEq, Eq, Structural)]
pub struct Ligated {
    pub glyph: u32,
    pub components: u16,
}

/// What ligature `j` of a set comes to.
pub open spec fn ligated(d: Seq<u8>, set: int, j: int) -> Ligated {
    let at = ligature_place(d, set, j)->0;
    Ligated { glyph: word_at(d, at)->0 as u32, components: word_at(d, at + 2)->0 }
}

/// Whether `r` is the first of a set's ligatures that is made of a glyph and
/// what follows it, if one is.
pub open spec fn first_ligature(d: Seq<u8>, set: int, next: Seq<u32>, r: Option<Ligated>) -> bool {
    match word_at(d, set) {
        None => r is None,
        Some(n) => match r {
            Some(l) => exists|j: int|
                0 <= j < n && #[trigger] ligates(d, set, j, next) && l == ligated(d, set, j) && forall|k: int|
                    0 <= k < j ==> !#[trigger] ligates(d, set, k, next),
            None => forall|k: int| 0 <= k < n ==> !#[trigger] ligates(d, set, k, next),
        },
    }
}

/// The ligature of a glyph and the glyphs that follow it: the first in the font's
/// order whose components all match.
pub fn at_ligature(kind: &SubtableKind, table: &[u8], index: u32, next: &[u32]) -> (r: Option<Ligated>)
    ensures
        match *kind {
            SubtableKind::Ligature { offset } => match entry_of(table@, offset as int, index) {
                Some(set) => first_ligature(table@, set, next@, r),
                None => r is None,
            },
            _ => r is None,
        },
{
    match kind {
        SubtableKind::Ligature { offset } => match find_entry(table, *offset, index) {
            Some(set) => find_ligature(table, set, next),
            None => None,
        },
        _ => None,
    }
}

fn find_ligature(table: &[u8], set: u64, next: &[u32]) -> (r: Option<Ligated>)
    requires
        set <= 0x1_0000_ffff,
    ensures
        first_ligature(table@, set as int, next@, r),
{
    let n: u16 = match be16_far(table, set) {
        Some(n) => n,
        None => return None,
    };
    let mut j: u16 = 0;
    while j < n
        invariant
            j <= n,
            set <= 0x1_0000_ffff,
            word_at(table@, set as int) == Some(n),
            forall|k: int| 0 <= k < j ==> !#[trigger] ligates(table@, set as int, k, next@),
        decreases n - j,
    {
        if let Some(l) = read_ligature(table, set, j, next) {
            assert(ligates(table@, set as int, j as int, next@));
            return Some(l);
        }
        j += 1;
    }
    None
}

fn read_ligature(table: &[u8], set: u64, j: u16, next: &[u32]) -> (r: Option<Ligated>)
    requires
        set <= 0x1_0000_ffff,
    ensures
        r is Some <==> ligates(table@, set as int, j as int, next@),
        r matches Some(l) ==> l == ligated(table@, set as int, j as int),
{
    let at: u64 = match be16_far(table, set + 2 + 2 * j as u64) {
        Some(off) => set + off as u64,
        None => return None,
    };
    let glyph: u16 = match be16_far(table, at) {
        Some(g) => g,
        None => return None,
    };
    let components: u16 = match be16_far(table, at + 2) {
        Some(n) => n,
        None => return None,
    };
    if components == 0 || components as usize - 1 > next.len() {
        return None;
    }
    let mut k: u16 = 0;
    while k < components - 1
        invariant
            components > 0,
            k <= components - 1,
            components - 1 <= next@.len(),
            at <= 0x1_0001_fffe,
            ligature_place(table@, set as int, j as int) == Some(at as int),
            word_at(table@, at + 2) == Some(components),
            forall|i: int|
                0 <= i < k ==> (#[trigger] word_at(table@, at + 4 + 2 * i)) is Some && word_at(
                    table@,
                    at + 4 + 2 * i,
                )->0 == next@[i],
        decreases components - k,
    {
        let same: bool = match be16_far(table, at + 4 + 2 * k as u64) {
            Some(g) => g as u32 == next[k as usize],
            None => false,
        };
        if !same {
            assert(!(word_at(table@, at + 4 + 2 * k) is Some && word_at(table@, at + 4 + 2 * k)->0
                == next@[k as int]));
            return None;
        }
        k += 1;
    }
    Some(Ligated { glyph: glyph as u32, components })
}

/// Whether `n` is how many of some sets, from the first on, have the glyph at
/// their position.
pub open spec fn held(sets: Seq<Arc<GlyphSet>>, glyphs: Seq<u32>, n: int) -> bool {
    &&& 0 <= n <= sets.len() && n <= glyphs.len()
    &&& forall|i: int| 0 <= i < n ==> (#[trigger] sets[i])@.contains(glyphs[i])
    &&& n < sets.len() && n < glyphs.len() ==> !sets[n]@.contains(glyphs[n])
}

fn count_held(sets: &Vec<Arc<GlyphSet>>, glyphs: &[u32]) -> (n: usize)
    requires
        sets_wf(sets@),
    ensures
        held(sets@, glyphs@, n as int),
{
    let mut i: usize = 0;
    while i < sets.len() && i < glyphs.len()
        invariant
            i <= sets@.len(),
            i <= glyphs@.len(),
            sets_wf(sets@),
            forall|k: int| 0 <= k < i ==> (#[trigger] sets@[k])@.contains(glyphs@[k]),
        decreases sets@.len() - i,
    {
        if !sets[i].contains(glyphs[i]) {
            return i;
        }
        i += 1;
    }
    i
}

/// What comparing a glyph's surroundings came to.
#[derive(Copy, Clone, Debug, PartialEq, Eq, Structural)]
pub struct ReverseMatch {
    /// The substitute, if all of them are right and there is one.
    pub glyph: Option<u32>,
    /// How many glyphs before and after are right: what a substitution makes
    /// unsafe to break.
    pub before: usize,
    pub after: usize,
}

/// The substitute of a glyph between the right glyphs: those before it, nearest
/// first, and those after it, which are looked at where all before are right.
pub fn at_reverse_chain(kind: &SubtableKind, table: &[u8], index: u32, before: &[u32], after: &[u32]) -> (r:
    ReverseMatch)
    requires
        kind.wf(),
    ensures
        match *kind {
            SubtableKind::ReverseChain { backtrack, lookahead, subst } => {
                &&& held(backtrack@, before@, r.before as int)
                &&& if r.before == backtrack@.len() {
                    held(lookahead@, after@, r.after as int)
                } else {
                    r.after == 0
                }
                &&& r.glyph == (if r.before == backtrack@.len() && r.after == lookahead@.len() && index
                    < subst.len {
                    match word_at(table@, subst.offset + index * 2) {
                        Some(g) => Some(g as u32),
                        None => None,
                    }
                } else {
                    None
                })
            },
            _ => r == (ReverseMatch { glyph: None, before: 0, after: 0 }),
        },
{
    match kind {
        SubtableKind::ReverseChain { backtrack, lookahead, subst } => {
            let behind: usize = count_held(backtrack, before);
            if behind < backtrack.len() {
                return ReverseMatch { glyph: None, before: behind, after: 0 };
            }
            let ahead: usize = count_held(lookahead, after);
            let glyph: Option<u32> = if ahead < lookahead.len() {
                None
            } else {
                match subst.get(table, index) {
                    Some(g) => Some(g as u32),
                    None => None,
                }
            };
            ReverseMatch { glyph, before: behind, after: ahead }
        },
        _ => ReverseMatch { glyph: None, before: 0, after: 0 },
    }
}

/// What a subtable of sequences can do to the length of a line.
#[derive(Copy, Clone, Debug, PartialEq, Eq, Structural)]
pub enum LengthEffect {
    Preserving,
    Shrinking,
    Growing,
}

/// How many glyphs sequence `i` of a subtable has, if it can be read.
pub open spec fn sequence_len(d: Seq<u8>, base: int, i: int) -> Option<u16> {
    match word_at(d, base + 6 + 2 * i) {
        Some(off) => if off == 0 {
            None
        } else {
            word_at(d, base + off)
        },
        None => None,
    }
}

/// How many sequences a subtable has: none, where their offsets run past the
/// end.
pub open spec fn sequence_count(d: Seq<u8>, base: int) -> int {
    match word_at(d, base + 4) {
        Some(n) => if base + 6 + 2 * n <= d.len() {
            n as int
        } else {
            0
        },
        None => 0,
    }
}

/// Whether one of the first `n` sequences grows a line: only more than one glyph
/// does.
pub open spec fn grows(d: Seq<u8>, base: int, n: int) -> bool {
    exists|i: int| 0 <= i < n && (#[trigger] sequence_len(d, base, i)) is Some && sequence_len(d, base, i)->0 > 1
}

/// Whether one of the first `n` sequences is empty, and so deletes its glyph.
pub open spec fn shrinks(d: Seq<u8>, base: int, n: int) -> bool {
    exists|i: int| 0 <= i < n && (#[trigger] sequence_len(d, base, i)) == Some(0u16)
}

/// What a subtable of sequences can do to the length of a line: one that can
/// grow it grows it, whatever else it does.
pub fn length_effect(table: &[u8], base: u32) -> (r: LengthEffect)
    ensures
        r == ({
            let n = sequence_count(table@, base as int);
            if grows(table@, base as int, n) {
                LengthEffect::Growing
            } else if shrinks(table@, base as int, n) {
                LengthEffect::Shrinking
            } else {
                LengthEffect::Preserving
            }
        }),
{
    let at: u64 = base as u64;
    let n: u64 = match be16_far(table, at + 4) {
        Some(n) => n as u64,
        None => return LengthEffect::Preserving,
    };
    if at + 6 + 2 * n > table.len() as u64 {
        return LengthEffect::Preserving;
    }
    let mut empty: bool = false;
    let mut i: u64 = 0;
    while i < n
        invariant
            i <= n <= 0xffff,
            at == base,
            n == sequence_count(table@, base as int),
            !grows(table@, base as int, i as int),
            empty == shrinks(table@, base as int, i as int),
        decreases n - i,
    {
        let len: Option<u16> = match be16_far(table, at + 6 + 2 * i) {
            Some(off) => if off == 0 {
                None
            } else {
                be16_far(table, at + off as u64)
            },
            None => None,
        };
        assert(len == sequence_len(table@, base as int, i as int));
        if let Some(len) = len {
            if len > 1 {
                return LengthEffect::Growing;
            }
            if len == 0 {
                empty = true;
            }
        }
        i += 1;
    }
    if empty {
        LengthEffect::Shrinking
    } else {
        LengthEffect::Preserving
    }
}

/// A shifted glyph is one of the sixteen-bit glyph space, and a whole number of
/// turns through it away from the sum.
pub proof fn a_shift_stays_in_the_glyph_space(glyph: u32, delta: i32)
    ensures
        0 <= shifted(glyph, delta) < 0x1_0000,
        (shifted(glyph, delta) - glyph - delta) % 0x1_0000 == 0,
        0 <= glyph + delta < 0x1_0000 ==> shifted(glyph, delta) == glyph + delta,
{
    let sum = glyph + delta;
    assert(sum == 0x1_0000 * (sum / 0x1_0000) + sum % 0x1_0000);
    assert((shifted(glyph, delta) - sum) == 0x1_0000 * (-(sum / 0x1_0000)));
    assert((0x1_0000 * (-(sum / 0x1_0000))) % 0x1_0000 == 0) by (nonlinear_arith);
}

/// Shifting there and back comes back.
pub proof fn shifting_back_undoes_shifting(glyph: u32, delta: i32)
    requires
        glyph < 0x1_0000,
        delta > i32::MIN,
    ensures
        shifted(shifted(glyph, delta), (-delta) as i32) == glyph,
{
    let sum = glyph + delta;
    let there = sum % 0x1_0000;
    let k = sum / 0x1_0000;
    assert(there - delta == glyph + 0x1_0000 * (-k));
    assert((glyph + 0x1_0000 * (-k)) % 0x1_0000 == glyph as int % 0x1_0000) by (nonlinear_arith);
}

/// The value of a feature picks an alternate: one the first that is listed for
/// the glyph, two the second, and so on; zero and a value past the last pick
/// none, and only a random pick makes the line unsafe to break.
pub proof fn a_value_picks_its_alternate(d: Seq<u8>, base: int, index: u32, value: u32, max_value: u32, random: Option<
    u32,
>)
    requires
        0 <= base,
        base + 6 + 2 * word(d, base + 4) <= d.len(),
        index < word(d, base + 4),
        ({
            let set = base + word(d, base + 6 + 2 * index);
            set + 2 + 2 * word(d, set) <= d.len()
        }),
    ensures
        ({
            let set = base + word(d, base + 6 + 2 * index);
            let n = word(d, set);
            let r = alternate_for(d, base, index, value, max_value, random);
            let by_chance = value == max_value && random is Some;
            &&& !by_chance ==> !r.unsafe_to_break
            &&& !by_chance && 1 <= value <= n ==> r.glyph is Some && r.glyph->0 == word(d, set + 2 * value)
            &&& !by_chance && (value == 0 || value > n) ==> r.glyph is None
            &&& by_chance && n > 0 ==> r.unsafe_to_break && r.glyph is Some && r.glyph->0 == word(
                d,
                set + 2 + 2 * (random->0 % (n as u32)),
            )
            &&& by_chance && n == 0 ==> r.glyph is None && !r.unsafe_to_break
        }),
{
}

/// A glyph past those that are listed has no alternates.
pub proof fn an_unlisted_glyph_has_no_alternate(d: Seq<u8>, base: int, index: u32, value: u32, max_value: u32, random: Option<
    u32,
>)
    requires
        0 <= base,
        base + 6 <= d.len(),
        index >= word(d, base + 4),
    ensures
        alternate_for(d, base, index, value, max_value, random).glyph is None,
        !alternate_for(d, base, index, value, max_value, random).unsafe_to_break,
{
}

/// What a feature was given as its value in a mask is what is read of it.
pub proof fn a_features_value_reads_back(shift: u32, ones: u32, value: u32, others: u32)
    requires
        shift < 32,
        ones & 1 == 1,
        (ones << shift) >> shift == ones,
        value & ones == value,
        others & (ones << shift) == 0,
    ensures
        feature_value(ones << shift, (value << shift) | others) == value,
{
    let mask = ones << shift;
    assert(mask != 0 && (mask >> shift) & 1 == 1) by (bit_vector)
        requires
            mask == ones << shift,
            shift < 32,
            ones & 1 == 1,
            (ones << shift) >> shift == ones,
    ;
    let t = mask.trailing_zeros();
    vstd::std_specs::bits::axiom_u32_trailing_zeros(mask);
    assert(t == shift) by {
        if t < shift {
            assert((mask >> t) & 1 == 0) by (bit_vector)
                requires
                    t < shift < 32,
                    mask == ones << shift,
            ;
        } else if t > shift {
            assert((mask >> shift) & 1 == 1);
        }
    }
    assert(((mask & ((value << shift) | others)) >> shift) == value) by (bit_vector)
        requires
            mask == ones << shift,
            shift < 32,
            (ones << shift) >> shift == ones,
            value & ones == value,
            others & (ones << shift) == 0,
    ;
}

/// A ligature is made of the glyphs that it lists, the first in the font's order
/// that is, and of no others.
pub proof fn a_ligature_lists_what_it_replaces(d: Seq<u8>, set: int, next: Seq<u32>, r: Option<Ligated>)
    requires
        0 <= set,
        first_ligature(d, set, next, r),
        set + 2 + 2 * word(d, set) <= d.len(),
    ensures
        r matches Some(l) ==> exists|j: int|
            0 <= j < word(d, set) && ({
                let at = set + #[trigger] word(d, set + 2 + 2 * j);
                &&& l.glyph == word(d, at) && l.components == word(d, at + 2)
                &&& 1 <= l.components <= next.len() + 1
                &&& forall|k: int| 0 <= k < l.components - 1 ==> #[trigger] next[k] == word(d, at + 4 + 2 * k)
            }),
        r is None ==> forall|j: int|
            0 <= j < word(d, set) ==> !({
                let at = set + #[trigger] word(d, set + 2 + 2 * j);
                let n = word(d, at + 2);
                &&& at + 4 + 2 * n <= d.len()
                &&& 1 <= n <= next.len() + 1
                &&& forall|k: int| 0 <= k < n - 1 ==> #[trigger] next[k] == word(d, at + 4 + 2 * k)
            }),
{
    if let Some(l) = r {
        let j = choose|j: int|
            0 <= j < word(d, set) && #[trigger] ligates(d, set, j, next) && l == ligated(d, set, j) && forall|k: int|
                0 <= k < j ==> !#[trigger] ligates(d, set, k, next);
        let at = set + word(d, set + 2 + 2 * j);
        assert forall|k: int| 0 <= k < l.components - 1 implies #[trigger] next[k] == word(d, at + 4 + 2 * k) by {
            assert(word_at(d, at + 4 + 2 * k) is Some);
        }
    } else {
        assert forall|j: int|
            0 <= j < word(d, set) implies !({
            let at = set + #[trigger] word(d, set + 2 + 2 * j);
            let n = word(d, at + 2);
            &&& at + 4 + 2 * n <= d.len()
            &&& 1 <= n <= next.len() + 1
            &&& forall|k: int| 0 <= k < n - 1 ==> #[trigger] next[k] == word(d, at + 4 + 2 * k)
        }) by {
            assert(!ligates(d, set, j, next));
            let at = set + word(d, set + 2 + 2 * j);
            let n = word(d, at + 2);
            if at + 4 + 2 * n <= d.len() && 1 <= n <= next.len() + 1 && (forall|k: int|
                0 <= k < n - 1 ==> #[trigger] next[k] == word(d, at + 4 + 2 * k)) {
                assert forall|k: int| 0 <= k < n - 1 implies (#[trigger] word_at(d, at + 4 + 2 * k)) is Some
                    && word_at(d, at + 4 + 2 * k)->0 == next[k] by {
                    assert(next[k] == word(d, at + 4 + 2 * k));
                }
            }
        }
    }
}

/// The earliest ligature that fits wins.
pub proof fn the_first_ligature_that_fits_wins(d: Seq<u8>, set: int, next: Seq<u32>, r: Option<Ligated>)
    requires
        0 <= set,
        first_ligature(d, set, next, r),
        set + 4 <= d.len(),
        word(d, set) > 0,
        ({
            let at = set + word(d, set + 2);
            let n = word(d, at + 2);
            &&& at + 4 + 2 * n <= d.len()
            &&& 1 <= n <= next.len() + 1
            &&& forall|k: int| 0 <= k < n - 1 ==> #[trigger] next[k] == word(d, at + 4 + 2 * k)
        }),
    ensures
        r is Some,
        r->0.glyph == word(d, set + word(d, set + 2)),
        r->0.components == word(d, set + word(d, set + 2) + 2),
{
    let at = set + word(d, set + 2);
    let n = word(d, at + 2);
    assert(ligates(d, set, 0, next)) by {
        assert forall|k: int| 0 <= k < n - 1 implies (#[trigger] word_at(d, at + 4 + 2 * k)) is Some && word_at(
            d,
            at + 4 + 2 * k,
        )->0 == next[k] by {
            assert(next[k] == word(d, at + 4 + 2 * k));
        }
    }
}

/// The sequence in a glyph's place is the list that the font has at its offset.
pub proof fn a_sequence_is_the_fonts_list(d: Seq<u8>, base: int, index: u32)
    requires
        0 <= base,
        base + 6 + 2 * word(d, base + 4) <= d.len(),
    ensures
        index >= word(d, base + 4) ==> entry_of(d, base, index) is None,
        index < word(d, base + 4) ==> {
            let at = base + word(d, base + 6 + 2 * index);
            let n = word(d, at);
            &&& entry_of(d, base, index) == Some(at)
            &&& at + 2 + 2 * n <= d.len() ==> {
                let s = counted_words(d, at);
                &&& s is Some
                &&& s->0.len() == n
                &&& forall|i: int| 0 <= i < n ==> #[trigger] s->0[i] == word(d, at + 2 + 2 * i)
            }
            &&& at + 2 <= d.len() < at + 2 + 2 * n ==> counted_words(d, at) is None
        },
{
    if index < word(d, base + 4) {
        let at = base + word(d, base + 6 + 2 * index);
        let n = word(d, at);
        if at + 2 <= d.len() < at + 2 + 2 * n {
            assert(word_at(d, at + 2 + 2 * (n - 1)) is None);
        }
    }
}

/// A subtable of sequences can grow a line where one of its sequences has more
/// than one glyph, and otherwise can shrink it where one has none.
pub proof fn only_long_sequences_grow_a_line(table: &[u8], base: u32, r: LengthEffect, i: int)
    requires
        call_ensures(length_effect, (table, base), r),
        base + 6 + 2 * word(table@, base + 4) <= table@.len(),
        0 <= i < word(table@, base + 4),
        word(table@, base + 6 + 2 * i) != 0,
        base + word(table@, base + 6 + 2 * i) + 2 <= table@.len(),
    ensures
        ({
            let len = word(table@, base + word(table@, base + 6 + 2 * i));
            &&& len >= 2 ==> r == LengthEffect::Growing
            &&& len == 0 ==> r != LengthEffect::Preserving
        }),
        (forall|k: int|
            0 <= k < word(table@, base + 4) ==> #[trigger] word(table@, base + 6 + 2 * k) != 0 && base + word(
                table@,
                base + 6 + 2 * k,
            ) + 2 <= table@.len() && word(table@, base + word(table@, base + 6 + 2 * k)) == 1) ==> r
            == LengthEffect::Preserving,
{
    let b = base as int;
    let n = sequence_count(table@, b);
    assert(n == word(table@, b + 4));
    assert(sequence_len(table@, b, i) == Some(word(table@, b + word(table@, b + 6 + 2 * i))));
    if forall|k: int|
        0 <= k < word(table@, b + 4) ==> #[trigger] word(table@, b + 6 + 2 * k) != 0 && b + word(
            table@,
            b + 6 + 2 * k,
        ) + 2 <= table@.len() && word(table@, b + word(table@, b + 6 + 2 * k)) == 1 {
        assert forall|k: int| 0 <= k < n implies #[trigger] sequence_len(table@, b, k) == Some(1u16) by {
            assert(word(table@, b + 6 + 2 * k) != 0);
        }
    }
}

} // verus!
