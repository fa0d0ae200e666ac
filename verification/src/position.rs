//! Where the positioning formats find the values that move a glyph, and what
//! they owe the line.
//!
//! Moving two glyphs relative to each other makes the pair unsafe to *break*,
//! but only if something moved: a record of all zeros is a match that changed
//! nothing, and that is a hazard for appending text only.

use vstd::prelude::*;

use crate::bytes::{be16_far, fits, word, word_at};
use crate::lookup::SubtableKind;
use crate::summary::{
    a_record_has_the_fields_of_its_format, field_bytes, or_open, pair_set_word, pair_stride, pair_summaries_reject_only_the_impossible, record_bytes,
    record_size, value_bit, SetDigests, VALUE_FORMAT_ALL,
};

verus! {

/// Where the record of a glyph stands: one shared by all, or each glyph's own.
pub fn at_single_pos(kind: &SubtableKind, index: u32) -> (r: Option<u64>)
    ensures
        r is Some <==> *kind is SinglePos,
        *kind matches SubtableKind::SinglePos { value_format, values, shared } ==> r->0 == (if shared {
            values as int
        } else {
            values + index * record_bytes(value_format)
        }),
{
    match kind {
        SubtableKind::SinglePos { value_format, values, shared } => {
            if *shared {
                Some(*values as u64)
            } else {
                let size: usize = record_size(*value_format);
                assert(0 <= index * size <= 0xffff_ffff * 16) by (nonlinear_arith)
                    requires
                        0 <= index <= 0xffff_ffff,
                        0 <= size <= 16,
                ;
                Some(*values as u64 + index as u64 * size as u64)
            }
        },
        _ => None,
    }
}

/// Where the pair set of a glyph stands, and how many records it has.
pub open spec fn pair_set(d: Seq<u8>, base: int, index: u32) -> Option<(int, u16)> {
    match word_at(d, base + 8) {
        Some(n) => if index < n {
            match word_at(d, base + 10 + index * 2) {
                Some(off) => match word_at(d, base + off) {
                    Some(count) => Some((base + off, count)),
                    None => None,
                },
                None => None,
            }
        } else {
            None
        },
        None => None,
    }
}

/// The record a search by halves comes to, among those from `lo` up to `hi`.
pub open spec fn searched(d: Seq<u8>, set: int, stride: int, want: u32, lo: int, hi: int) -> Option<int>
    decreases hi - lo,
{
    if lo >= hi {
        None
    } else {
        let mid = (lo + hi) / 2;
        let at = set + 2 + mid * stride;
        match word_at(d, at) {
            None => None,
            Some(g) => if g < want {
                searched(d, set, stride, want, mid + 1, hi)
            } else if g > want {
                searched(d, set, stride, want, lo, mid)
            } else {
                Some(at)
            },
        }
    }
}

/// A found record is one of the set's, and is the glyph's.
proof fn lemma_searched(d: Seq<u8>, set: int, stride: int, want: u32, lo: int, hi: int) -> (i: int)
    requires
        searched(d, set, stride, want, lo, hi) is Some,
    ensures
        lo <= i < hi,
        searched(d, set, stride, want, lo, hi) == Some(set + 2 + i * stride),
        word_at(d, set + 2 + i * stride) is Some,
        word_at(d, set + 2 + i * stride)->0 == want,
    decreases hi - lo,
{
    let mid = (lo + hi) / 2;
    let g = word_at(d, set + 2 + mid * stride)->0;
    if g < want {
        lemma_searched(d, set, stride, want, mid + 1, hi)
    } else if g > want {
        lemma_searched(d, set, stride, want, lo, mid)
    } else {
        mid
    }
}

/// Whether the records of a set can be read and are in order of their second
/// glyphs.
pub open spec fn pairs_sorted(d: Seq<u8>, set: int, stride: int, n: int) -> bool {
    &&& forall|i: int| 0 <= i < n ==> (#[trigger] word_at(d, set + 2 + i * stride)) is Some
    &&& forall|i: int, j: int|
        0 <= i < j < n ==> (#[trigger] word_at(d, set + 2 + i * stride))->0 < (#[trigger] word_at(
            d,
            set + 2 + j * stride,
        ))->0
}

/// In a set that is in order, a search finds a glyph's record wherever there is
/// one.
pub proof fn a_search_finds_what_is_there(
    d: Seq<u8>,
    set: int,
    stride: int,
    n: int,
    want: u32,
    lo: int,
    hi: int,
    i: int,
)
    requires
        pairs_sorted(d, set, stride, n),
        0 <= lo <= i < hi <= n,
        word_at(d, set + 2 + i * stride) matches Some(g) && g == want,
    ensures
        searched(d, set, stride, want, lo, hi) == Some(set + 2 + i * stride),
    decreases hi - lo,
{
    let mid = (lo + hi) / 2;
    assert(word_at(d, set + 2 + mid * stride) is Some);
    let g = word_at(d, set + 2 + mid * stride)->0;
    if g < want {
        assert(i > mid) by {
            if i < mid {
                assert(word_at(d, set + 2 + i * stride)->0 < word_at(d, set + 2 + mid * stride)->0);
            }
        }
        a_search_finds_what_is_there(d, set, stride, n, want, mid + 1, hi, i);
    } else if g > want {
        assert(i < mid) by {
            if mid < i {
                assert(word_at(d, set + 2 + mid * stride)->0 < word_at(d, set + 2 + i * stride)->0);
            }
        }
        a_search_finds_what_is_there(d, set, stride, n, want, lo, mid, i);
    } else if i < mid {
        assert(word_at(d, set + 2 + i * stride)->0 < word_at(d, set + 2 + mid * stride)->0);
    } else if mid < i {
        assert(word_at(d, set + 2 + mid * stride)->0 < word_at(d, set + 2 + i * stride)->0);
    }
}

/// The record of a pair, if the glyph's set lists it.
pub open spec fn pair_record(d: Seq<u8>, base: int, index: u32, stride: int, want: u32) -> Option<int> {
    match pair_set(d, base, index) {
        None => None,
        Some((set, count)) => searched(d, set, stride, want, 0, count as int),
    }
}

/// A found record is one of the records of the first glyph's set, and is the
/// second glyph's.
pub proof fn a_found_record_is_listed(d: Seq<u8>, base: int, index: u32, stride: int, want: u32) -> (i: int)
    requires
        pair_record(d, base, index, stride, want) is Some,
    ensures
        fits(d, base + 8, 2),
        index < word(d, base + 8),
        ({
            let set = base + word(d, base + 10 + index * 2);
            let at = set + 2 + i * stride;
            &&& 0 <= i < word(d, set)
            &&& pair_record(d, base, index, stride, want) == Some(at)
            &&& fits(d, at, 2)
            &&& word(d, at) == want
        }),
{
    let (set, count) = pair_set(d, base, index)->0;
    lemma_searched(d, set, stride, want, 0, count as int)
}

/// A summary of pair sets changes nothing: it rejects a glyph only where the
/// search would have failed.
pub proof fn a_rejected_pair_has_no_record(
    digests: SetDigests,
    d: Seq<u8>,
    base: int,
    index: u32,
    stride: int,
    want: u32,
)
    requires
        index < digests.slots@.len(),
        digests.slots@[index as int] == or_open(pair_set_word(d, base, index as int, stride)),
        digests.slots@[index as int] & value_bit(want) == 0,
    ensures
        pair_record(d, base, index, stride, want) is None,
{
    if let Some((set, count)) = pair_set(d, base, index) {
        if searched(d, set, stride, want, 0, count as int) is Some {
            let i = lemma_searched(d, set, stride, want, 0, count as int);
            let off = word_at(d, base + 10 + index * 2)->0;
            assert(set == base + off);
            pair_summaries_reject_only_the_impossible(
                d,
                base,
                index as int,
                stride,
                off,
                count,
                i,
                want as u16,
            );
        }
    }
}

/// Where the values of a pair stand: those of the first glyph, and right after
/// them those of the second.
#[derive(Copy, Clone, Debug, PartialEq, Eq, Structural)]
pub struct PairRecord {
    pub at: u64,
    pub first_format: u16,
    pub second_format: u16,
}

/// The values of a listed pair, if the summary admits the second glyph and the
/// first glyph's set lists it.
pub fn at_pair1(kind: &SubtableKind, table: &[u8], index: u32, want: u32) -> (r: Option<PairRecord>)
    ensures
        *kind matches SubtableKind::PairPos1 { seconds, offset, first_format, second_format } ==> {
            let found = pair_record(
                table@,
                offset as int,
                index,
                pair_stride(first_format, second_format),
                want,
            );
            let admitted = index >= seconds.slots@.len() || seconds.slots@[index as int] & value_bit(want)
                != 0;
            &&& r is Some <==> admitted && found is Some
            &&& r matches Some(p) ==> found == Some(p.at - 2) && p.first_format == first_format
                && p.second_format == second_format
        },
        !(*kind is PairPos1) ==> r is None,
{
    match kind {
        SubtableKind::PairPos1 { seconds, offset, first_format, second_format } => {
            if !seconds.may_hold(index, want) {
                return None;
            }
            let stride: u64 = 2 + record_size(*first_format) as u64 + record_size(*second_format) as u64;
            match find_pair(table, *offset, index, stride, want) {
                Some(at) => Some(
                    PairRecord {
                        at: at + 2,
                        first_format: *first_format,
                        second_format: *second_format,
                    },
                ),
                None => None,
            }
        },
        _ => None,
    }
}

/// The record of a pair, by a search by halves.
fn find_pair(table: &[u8], offset: u32, index: u32, stride: u64, want: u32) -> (r: Option<u64>)
    requires
        2 <= stride <= 34,
    ensures
        r is Some <==> pair_record(table@, offset as int, index, stride as int, want) is Some,
        r matches Some(at) ==> pair_record(table@, offset as int, index, stride as int, want) == Some(
            at as int,
        ) && at <= 0xffff_ffff_ffff,
{
    let base: u64 = offset as u64;
    match be16_far(table, base + 8) {
        Some(n) => {
            if index >= n as u32 {
                return None;
            }
        },
        None => return None,
    }
    let set: u64 = match be16_far(table, base + 10 + index as u64 * 2) {
        Some(off) => base + off as u64,
        None => return None,
    };
    let count: u64 = match be16_far(table, set) {
        Some(n) => n as u64,
        None => return None,
    };
    let mut lo: u64 = 0;
    let mut hi: u64 = count;
    while lo < hi
        invariant
            lo <= hi <= count <= 0xffff,
            2 <= stride <= 34,
            set <= 0x1_0000_ffff,
            pair_set(table@, offset as int, index) == Some((set as int, count as u16)),
            pair_record(table@, offset as int, index, stride as int, want) == searched(
                table@,
                set as int,
                stride as int,
                want,
                lo as int,
                hi as int,
            ),
        decreases hi - lo,
    {
        let mid: u64 = (lo + hi) / 2;
        assert(0 <= mid * stride <= 0xffff * 34) by (nonlinear_arith)
            requires
                0 <= mid <= 0xffff,
                0 <= stride <= 34,
        ;
        let at: u64 = set + 2 + mid * stride;
        let g: u32 = match be16_far(table, at) {
            Some(g) => g as u32,
            None => return None,
        };
        if g < want {
            lo = mid + 1;
        } else if g > want {
            hi = mid;
        } else {
            return Some(at);
        }
    }
    None
}

/// What two glyphs of a class matrix come to.
#[derive(Copy, Clone, Debug, PartialEq, Eq, Structural)]
pub enum PairCell {
    /// A match that moves nothing, with a record for the second glyph or not.
    Still { has_record2: bool },
    /// The values at a place.
    Record(PairRecord),
}

/// Whether a format has any field.
pub open spec fn has_fields(format: u16) -> bool {
    format & 0x00FF != 0
}

fn is_filled(format: u16) -> (r: bool)
    ensures
        r == has_fields(format),
{
    format & VALUE_FORMAT_ALL != 0
}

/// The values of two glyphs by their classes. A row that has nothing for the
/// second class is a match that moves nothing.
pub fn at_pair2(kind: &SubtableKind, first: u32, second: u32) -> (r: Option<PairCell>)
    requires
        kind.wf(),
    ensures
        r is Some <==> *kind is PairPos2,
        *kind matches SubtableKind::PairPos2 {
            rows,
            class1,
            class2,
            matrix,
            first_format,
            second_format,
            class2_count,
        } ==> {
            let c1 = class1.class_of(first);
            let c2 = class2.class_of(second);
            let admitted = c1 >= rows.slots@.len() || rows.slots@[c1 as int] & value_bit(c2 as u32) != 0;
            &&& !admitted ==> r == Some(PairCell::Still { has_record2: has_fields(second_format) })
            &&& admitted ==> r == Some(
                PairCell::Record(
                    PairRecord {
                        at: (matrix + (c1 * class2_count + c2) * (record_bytes(first_format)
                            + record_bytes(second_format))) as u64,
                        first_format,
                        second_format,
                    },
                ),
            )
        },
{
    match kind {
        SubtableKind::PairPos2 {
            rows,
            class1,
            class2,
            matrix,
            first_format,
            second_format,
            class2_count,
        } => {
            let c1: u16 = class1.get(first);
            let c2: u16 = class2.get(second);
            if !rows.may_hold(c1 as u32, c2 as u32) {
                return Some(PairCell::Still { has_record2: is_filled(*second_format) });
            }
            let pair: u64 = record_size(*first_format) as u64 + record_size(*second_format) as u64;
            assert(0 <= c1 * (*class2_count) <= 0xffff * 0xffff) by (nonlinear_arith)
                requires
                    0 <= c1 <= 0xffff,
                    0 <= *class2_count <= 0xffff,
            ;
            let cell: u64 = c1 as u64 * *class2_count as u64 + c2 as u64;
            assert(0 <= cell * pair <= 0xffff_ffff * 32) by (nonlinear_arith)
                requires
                    0 <= cell <= 0xffff_ffff,
                    0 <= pair <= 32,
            ;
            Some(
                PairCell::Record(
                    PairRecord {
                        at: *matrix as u64 + cell * pair,
                        first_format: *first_format,
                        second_format: *second_format,
                    },
                ),
            )
        },
        _ => None,
    }
}

impl PairRecord {
    /// Where the values of the second glyph stand.
    pub fn second_at(&self) -> (at: u64)
        requires
            self.at <= u64::MAX - 16,
        ensures
            at == self.at + record_bytes(self.first_format),
    {
        self.at + record_size(self.first_format) as u64
    }

    /// Whether a pair moved, and whether the second glyph has values of its own,
    /// from what applying each record said. A format without fields is not
    /// applied at all, and moves nothing.
    pub fn moved(&self, first: Option<bool>, second: Option<bool>) -> (r: (bool, bool))
        ensures
            r.0 == ((has_fields(self.first_format) && first == Some(true)) || (has_fields(
                self.second_format,
            ) && second == Some(true))),
            r.1 == has_fields(self.second_format),
    {
        let has_record2: bool = is_filled(self.second_format);
        let moved1: bool = is_filled(self.first_format) && matches!(first, Some(true));
        let moved2: bool = has_record2 && matches!(second, Some(true));
        (moved1 || moved2, has_record2)
    }
}

/// What a line may no longer have done to it between two positions.
#[derive(Copy, Clone, Debug, PartialEq, Eq, Structural)]
pub enum Hazard {
    /// No break inside.
    Break { from: usize, to: usize },
    /// No text appended without shaping again.
    Concat { from: usize, to: usize },
}

/// What a matched pair owes the line: the hazards in order, and where the cursor
/// goes.
#[derive(Copy, Clone, Debug, PartialEq, Eq, Structural)]
pub struct PairDone {
    pub hazard: Hazard,
    pub more: Option<Hazard>,
    pub cursor: usize,
}

/// What a matched pair owes the line.
///
/// Something moved, so the two positions depend on each other and a line may not
/// break between them; or nothing moved, and only appending text could change
/// which record matched. Where the second glyph has values of its own, the
/// cursor steps past it, and what it passes is unsafe to break as well.
pub fn pair_done(idx: usize, second: usize, cursor: usize, moved: bool, has_record2: bool) -> (r: PairDone)
    requires
        second < usize::MAX,
        cursor < usize::MAX - 1,
    ensures
        r.hazard == (if moved {
            Hazard::Break { from: idx, to: (second + 1) as usize }
        } else {
            Hazard::Concat { from: idx, to: (second + 1) as usize }
        }),
        r.more == (if has_record2 {
            Some(Hazard::Break { from: idx, to: (cursor + 2) as usize })
        } else {
            None
        }),
        r.cursor == (if has_record2 {
            cursor + 1
        } else {
            cursor as int
        }),
{
    let hazard = if moved {
        Hazard::Break { from: idx, to: second + 1 }
    } else {
        Hazard::Concat { from: idx, to: second + 1 }
    };
    if has_record2 {
        let cursor: usize = cursor + 1;
        PairDone { hazard, more: Some(Hazard::Break { from: idx, to: cursor + 1 }), cursor }
    } else {
        PairDone { hazard, more: None, cursor }
    }
}

/// What a glyph without a neighbour to pair with owes the line: appending text
/// would give it one.
pub fn second_glyph(idx: usize, next: Option<(usize, usize)>, unsafe_to: usize) -> (r: Result<
    (usize, usize),
    Hazard,
>)
    ensures
        r == (match next {
            Some(found) => Ok::<(usize, usize), Hazard>(found),
            None => Err(Hazard::Concat { from: idx, to: unsafe_to }),
        }),
{
    match next {
        Some(found) => Ok(found),
        None => Err(Hazard::Concat { from: idx, to: unsafe_to }),
    }
}

/// Where the entry and the exit anchor of a glyph stand, those that it has.
pub open spec fn anchors_at(d: Seq<u8>, records: int, base: int, count: u16, index: u32) -> Option<
    (Option<int>, Option<int>),
> {
    match (word_at(d, records + index * 4), word_at(d, records + index * 4 + 2)) {
        (Some(entry), Some(exit)) => if index < count {
            Some((anchor_place(base, entry), anchor_place(base, exit)))
        } else {
            None
        },
        _ => None,
    }
}

/// Where an anchor stands; nowhere for a null offset.
pub open spec fn anchor_place(base: int, off: u16) -> Option<int> {
    if off == 0 {
        None
    } else {
        Some(base + off)
    }
}

/// Places by their values.
pub open spec fn place_view(p: Option<u64>) -> Option<int> {
    match p {
        Some(at) => Some(at as int),
        None => None,
    }
}

/// Where the anchors of a glyph stand that is joined to its neighbours.
pub fn at_cursive(kind: &SubtableKind, table: &[u8], index: u32) -> (r: Option<(Option<u64>, Option<u64>)>)
    ensures
        match *kind {
            SubtableKind::Cursive { records, base, count } => match r {
                Some((entry, exit)) => anchors_at(table@, records as int, base as int, count, index) == Some(
                    (place_view(entry), place_view(exit)),
                ),
                None => anchors_at(table@, records as int, base as int, count, index) is None,
            },
            _ => r is None,
        },
{
    match kind {
        SubtableKind::Cursive { records, base, count } => {
            if index >= *count as u32 {
                return None;
            }
            let at: u64 = *records as u64 + index as u64 * 4;
            match (be16_far(table, at), be16_far(table, at + 2)) {
                (Some(entry), Some(exit)) => {
                    let entry_at: Option<u64> = if entry == 0 {
                        None
                    } else {
                        Some(*base as u64 + entry as u64)
                    };
                    let exit_at: Option<u64> = if exit == 0 {
                        None
                    } else {
                        Some(*base as u64 + exit as u64)
                    };
                    Some((entry_at, exit_at))
                },
                _ => None,
            }
        },
        _ => None,
    }
}

/// A pair that moved may not be broken, from its first glyph through its second,
/// and one that did not is a hazard to appending text there; the cursor stops
/// behind the second glyph only where that has values of its own, and then what
/// it passes may not be broken either.
pub proof fn a_moved_pair_stays_together(
    idx: usize,
    second: usize,
    cursor: usize,
    moved: bool,
    has_record2: bool,
    r: PairDone,
)
    requires
        idx <= second < usize::MAX,
        cursor < usize::MAX - 1,
        call_ensures(pair_done, (idx, second, cursor, moved, has_record2), r),
    ensures
        r.hazard is Break <==> moved,
        r.hazard matches Hazard::Break { from, to } ==> from == idx && from < to && to - 1 == second,
        r.hazard matches Hazard::Concat { from, to } ==> from == idx && from < to && to - 1 == second,
        r.cursor - cursor == (if has_record2 {
            1int
        } else {
            0
        }),
        r.more is Some <==> has_record2,
        r.more is Some ==> r.more->0 is Break && r.more->0->Break_from == idx && r.more->0->Break_to - 1
            == r.cursor,
{
}

/// A pair moved where either of its records moved its glyph; a record without
/// fields never did. The second glyph's values follow the first one's.
pub proof fn a_pair_moves_if_either_glyph_does(
    p: &PairRecord,
    first: Option<bool>,
    second: Option<bool>,
    r: (bool, bool),
    at: u64,
)
    requires
        p.at <= u64::MAX - 16,
        call_ensures(PairRecord::moved, (p, first, second), r),
        call_ensures(PairRecord::second_at, (p,), at),
    ensures
        r.0 ==> first == Some(true) || second == Some(true),
        first == Some(true) && p.first_format & 0x00FF != 0 ==> r.0,
        second == Some(true) && p.second_format & 0x00FF != 0 ==> r.0,
        p.first_format & 0x00FF == 0 && second != Some(true) ==> !r.0,
        p.second_format & 0x00FF == 0 && first != Some(true) ==> !r.0,
        r.1 <==> p.second_format & 0x00FF != 0,
        at - p.at == field_bytes(p.first_format, 1) + field_bytes(p.first_format, 2) + field_bytes(
            p.first_format,
            4,
        ) + field_bytes(p.first_format, 8) + field_bytes(p.first_format, 0x10) + field_bytes(
            p.first_format,
            0x20,
        ) + field_bytes(p.first_format, 0x40) + field_bytes(p.first_format, 0x80),
{
    a_record_has_the_fields_of_its_format(p.first_format);
}

/// A glyph with no neighbour to pair with is a hazard to appending text, up to
/// where a neighbour was looked for.
pub proof fn a_lone_glyph_may_be_completed(
    idx: usize,
    next: Option<(usize, usize)>,
    unsafe_to: usize,
    r: Result<(usize, usize), Hazard>,
)
    requires
        call_ensures(second_glyph, (idx, next, unsafe_to), r),
    ensures
        r is Ok <==> next is Some,
        next is Some ==> r->Ok_0 == next->0,
        r is Err ==> r->Err_0 is Concat && r->Err_0->Concat_from == idx && r->Err_0->Concat_to == unsafe_to,
{
}

} // verus!
