//! What running a compiled subtable comes to, in terms of the font alone:
//! compiling changes how fast a lookup runs, and not what it does.

use vstd::prelude::*;

use crate::bytes::{word, word_at};
use crate::compiler::{
    class_named, covered, ligature_offsets, ligature_open, ligature_seconds, made, rule_slots, set_open,
    set_readable, set_seconds,
};
use crate::contextual::{
    a_dismissed_set_has_no_such_rule, a_glyph_selects_its_rules, at_rules, dismisses, is_covered, Part, RuleSet,
};
use crate::layout::{offsets_at, Format};
use crate::lookup::Subtable;
use crate::order::lemma_ordered_exists;
use crate::position::{
    a_found_record_is_listed, a_rejected_pair_has_no_record, a_search_finds_what_is_there, at_cursive, at_pair1,
    at_pair2, at_single_pos, PairCell, PairRecord,
};
use crate::substitute::{
    a_features_value_reads_back, a_ligature_lists_what_it_replaces, a_sequence_is_the_fonts_list,
    a_shift_stays_in_the_glyph_space, a_value_picks_its_alternate, at_alternate, at_ligature, at_multiple,
    at_reverse_chain, at_single_delta, at_single_list, Alternate, Ligated, ReverseMatch,
};
use crate::summary::{
    a_record_has_the_fields_of_its_format, field_bytes, or_open, pair_stride, rule_set_word, value_bit,
};

verus! {

/// A single substitution by a difference puts the glyph in place that is that
/// far away, around the sixteen-bit glyph space.
pub proof fn a_compiled_difference_is_added(s: Subtable, data: Seq<u8>, at: int, glyph: u32, r: Option<u32>)
    requires
        made(s, data, Format::SingleDelta, at, true),
        call_ensures(at_single_delta, (&s.kind, glyph), r),
    ensures
        r is Some,
        0 <= r->0 < 0x1_0000,
        (r->0 - glyph - word(data, at + 4)) % 0x1_0000 == 0,
{
    let w = word(data, at + 4);
    let delta = if w < 0x8000 {
        w as i32
    } else {
        (w - 0x1_0000) as i32
    };
    a_shift_stays_in_the_glyph_space(glyph, delta);
}

/// A single substitution by a list puts the glyph in place that the font lists
/// at the glyph's place in the coverage.
pub proof fn a_compiled_list_is_the_fonts(
    s: Subtable,
    data: Seq<u8>,
    at: int,
    table: &[u8],
    index: u32,
    r: Option<u32>,
)
    requires
        made(s, data, Format::SingleList, at, true),
        table@ == data,
        0 <= at <= 0xF000_0000,
        at + 6 + 2 * word(data, at + 4) <= data.len(),
        call_ensures(at_single_list, (&s.kind, table, index), r),
    ensures
        r is Some <==> index < word(data, at + 4),
        r is Some ==> r->0 == word(data, at + 6 + 2 * index),
        s.rank,
{
}

/// A multiple substitution puts the sequence in place that the font has for the
/// glyph's place in the coverage.
pub proof fn a_compiled_sequence_is_the_fonts(
    s: Subtable,
    data: Seq<u8>,
    at: int,
    table: &[u8],
    index: u32,
    r: Option<Vec<u32>>,
)
    requires
        made(s, data, Format::Multiple, at, true),
        table@ == data,
        0 <= at <= 0xF000_0000,
        at + 6 + 2 * word(data, at + 4) <= data.len(),
        index < word(data, at + 4),
        ({
            let seq = at + word(data, at + 6 + 2 * index);
            seq + 2 + 2 * word(data, seq) <= data.len()
        }),
        call_ensures(at_multiple, (&s.kind, table, index), r),
    ensures
        s.rank,
        r is Some,
        ({
            let seq = at + word(data, at + 6 + 2 * index);
            &&& r->0@.len() == word(data, seq)
            &&& forall|i: int| 0 <= i < r->0@.len() ==> #[trigger] r->0@[i] == word(data, seq + 2 + 2 * i)
        }),
{
    a_sequence_is_the_fonts_list(data, at, index);
}

/// An alternate substitution puts the glyph in place that the font lists at the
/// feature's value, counted from one.
pub proof fn a_compiled_alternate_is_the_fonts(
    s: Subtable,
    data: Seq<u8>,
    at: int,
    table: &[u8],
    index: u32,
    shift: u32,
    ones: u32,
    value: u32,
    max_value: u32,
    r: Alternate,
)
    requires
        made(s, data, Format::Alternate, at, true),
        table@ == data,
        0 <= at <= 0xF000_0000,
        at + 6 + 2 * word(data, at + 4) <= data.len(),
        index < word(data, at + 4),
        ({
            let set = at + word(data, at + 6 + 2 * index);
            set + 2 + 2 * word(data, set) <= data.len()
        }),
        shift < 32,
        ones & 1 == 1,
        (ones << shift) >> shift == ones,
        value & ones == value,
        value != max_value,
        call_ensures(
            at_alternate,
            (&s.kind, table, index, ones << shift, value << shift, max_value, None::<u32>),
            r,
        ),
    ensures
        s.rank,
        !r.unsafe_to_break,
        ({
            let set = at + word(data, at + 6 + 2 * index);
            &&& r.glyph is Some <==> 1 <= value <= word(data, set)
            &&& r.glyph is Some ==> r.glyph->0 == word(data, set + 2 * value)
        }),
{
    let mask = ones << shift;
    let given = value << shift;
    assert(given | 0 == given && 0 & mask == 0) by (bit_vector);
    a_features_value_reads_back(shift, ones, value, 0);
    a_value_picks_its_alternate(data, at, index, value, max_value, None);
}

/// A ligature substitution puts the font's first ligature in place whose
/// components are the glyphs that follow.
pub proof fn a_compiled_ligature_is_the_fonts(
    s: Subtable,
    data: Seq<u8>,
    at: int,
    table: &[u8],
    index: u32,
    next: &[u32],
    r: Option<Ligated>,
)
    requires
        made(s, data, Format::Ligature, at, true),
        table@ == data,
        0 <= at <= 0xF000_0000,
        at + 6 + 2 * word(data, at + 4) <= data.len(),
        index < word(data, at + 4),
        ({
            let set = at + word(data, at + 6 + 2 * index);
            set + 2 + 2 * word(data, set) <= data.len()
        }),
        call_ensures(at_ligature, (&s.kind, table, index, next), r),
    ensures
        s.rank,
        r is Some ==> ({
            let set = at + word(data, at + 6 + 2 * index);
            exists|j: int|
                0 <= j < word(data, set) && ({
                    let lig = set + #[trigger] word(data, set + 2 + 2 * j);
                    &&& r->0.glyph == word(data, lig)
                    &&& r->0.components == word(data, lig + 2)
                    &&& 1 <= r->0.components <= next@.len() + 1
                    &&& forall|k: int|
                        0 <= k < r->0.components - 1 ==> #[trigger] next@[k] == word(data, lig + 4 + 2 * k)
                })
        }),
        r is None ==> ({
            let set = at + word(data, at + 6 + 2 * index);
            forall|j: int|
                0 <= j < word(data, set) ==> !({
                    let lig = set + #[trigger] word(data, set + 2 + 2 * j);
                    let n = word(data, lig + 2);
                    &&& lig + 4 + 2 * n <= data.len()
                    &&& 1 <= n <= next@.len() + 1
                    &&& forall|k: int| 0 <= k < n - 1 ==> #[trigger] next@[k] == word(data, lig + 4 + 2 * k)
                })
        }),
{
    let set = at + word(data, at + 6 + 2 * index);
    a_sequence_is_the_fonts_list(data, at, index);
    a_ligature_lists_what_it_replaces(data, set, next@, r);
}

/// What a ligature can be followed by is never ruled out: the second component of
/// each of the font's ligatures is admitted, or nothing is ruled out at all.
pub proof fn a_compiled_ligature_admits_its_seconds(s: Subtable, data: Seq<u8>, at: int, i: int, j: int)
    requires
        made(s, data, Format::Ligature, at, true),
        0 <= at,
        at + 6 + 2 * word(data, at + 4) <= data.len(),
        0 <= i < word(data, at + 4),
        i < s.cov@.len(),
        ({
            let set = at + word(data, at + 6 + 2 * i);
            &&& word(data, at + 6 + 2 * i) != 0
            &&& set + 2 + 2 * word(data, set) <= data.len()
            &&& 0 <= j < word(data, set)
            &&& word(data, set + 2 + 2 * j) != 0
            &&& ({
                let lig = set + word(data, set + 2 + 2 * j);
                let n = word(data, lig + 2);
                n >= 1 && lig + 4 + 2 * (n - 1) <= data.len()
            })
        }),
    ensures
        ({
            let set = at + word(data, at + 6 + 2 * i);
            let lig = set + word(data, set + 2 + 2 * j);
            &&& word(data, lig + 2) == 1 ==> s.next is None
            &&& s.next is Some && word(data, lig + 2) >= 2 ==> s.next->0@.contains(
                word(data, lig + 4) as u32,
            )
        }),
{
    let set = at + word(data, at + 6 + 2 * i);
    let lig = set + word(data, set + 2 + 2 * j);
    let n = s.cov@.len();
    lemma_seconds(data, at, n, i, j);
    lemma_ordered_exists(ligature_seconds(data, at, n));
}

/// The seconds of a subtable's ligatures are those of each of them.
proof fn lemma_seconds(data: Seq<u8>, at: int, n: nat, i: int, j: int)
    requires
        0 <= at,
        at + 6 + 2 * word(data, at + 4) <= data.len(),
        0 <= i < n,
        i < word(data, at + 4),
        ({
            let set = at + word(data, at + 6 + 2 * i);
            &&& word(data, at + 6 + 2 * i) != 0
            &&& set + 2 + 2 * word(data, set) <= data.len()
            &&& 0 <= j < word(data, set)
            &&& word(data, set + 2 + 2 * j) != 0
            &&& ({
                let lig = set + word(data, set + 2 + 2 * j);
                let c = word(data, lig + 2);
                c >= 1 && lig + 4 + 2 * (c - 1) <= data.len()
            })
        }),
    ensures
        ({
            let set = at + word(data, at + 6 + 2 * i);
            let lig = set + word(data, set + 2 + 2 * j);
            &&& word(data, lig + 2) == 1 ==> ligature_open(data, at, n)
            &&& word(data, lig + 2) >= 2 ==> ligature_seconds(data, at, n).contains(
                word(data, lig + 4) as u32,
            )
        }),
    decreases n,
{
    let sets = offsets_at(data, at + 6, word(data, at + 4));
    let set = at + word(data, at + 6 + 2 * i);
    let lig = set + word(data, set + 2 + 2 * j);
    let g = word(data, lig + 4) as u32;
    if i < n - 1 {
        lemma_seconds(data, at, (n - 1) as nat, i, j);
        if word(data, lig + 2) >= 2 {
            let before = ligature_seconds(data, at, (n - 1) as nat);
            let k = choose|k: int| 0 <= k < before.len() && before[k] == g;
            assert(ligature_seconds(data, at, n)[k] == g);
        }
    } else {
        assert(sets[i] == word(data, at + 6 + 2 * i));
        assert(set_readable(data, at, sets, i));
        let offsets = ligature_offsets(data, set);
        lemma_set_seconds(data, set, offsets, offsets.len(), j);
        if word(data, lig + 2) >= 2 {
            let before = ligature_seconds(data, at, (n - 1) as nat);
            let own = set_seconds(data, set, offsets, offsets.len());
            let k = choose|k: int| 0 <= k < own.len() && own[k] == g;
            assert(ligature_seconds(data, at, n)[before.len() + k] == g);
        }
    }
}

proof fn lemma_set_seconds(data: Seq<u8>, set: int, offsets: Seq<u16>, n: nat, j: int)
    requires
        0 <= set,
        0 <= j < n <= offsets.len(),
        offsets[j] != 0,
        ({
            let lig = set + offsets[j];
            let c = word(data, lig + 2);
            c >= 1 && lig + 4 + 2 * (c - 1) <= data.len()
        }),
    ensures
        ({
            let lig = set + offsets[j];
            &&& word(data, lig + 2) == 1 ==> set_open(data, set, offsets, n)
            &&& word(data, lig + 2) >= 2 ==> set_seconds(data, set, offsets, n).contains(
                word(data, lig + 4) as u32,
            )
        }),
    decreases n,
{
    let lig = set + offsets[j];
    let g = word(data, lig + 4) as u32;
    let before = set_seconds(data, set, offsets, (n - 1) as nat);
    let all = set_seconds(data, set, offsets, n);
    if j < n - 1 {
        lemma_set_seconds(data, set, offsets, (n - 1) as nat, j);
        if word(data, lig + 2) >= 2 {
            let k = choose|k: int| 0 <= k < before.len() && before[k] == g;
            assert(all[k] == g);
        }
    } else if word(data, lig + 2) >= 2 {
        assert(all.last() == g);
    }
}

/// A glyph that is moved by itself moves by the record that all share, or by the
/// record that the font lists at the glyph's place in the coverage.
pub proof fn a_compiled_single_positioning_is_the_fonts(
    s: Subtable,
    data: Seq<u8>,
    f: Format,
    at: int,
    index: u32,
    r: Option<u64>,
)
    requires
        f == Format::SinglePos1 || f == Format::SinglePos2,
        made(s, data, f, at, true),
        0 <= at <= 0xF000_0000,
        call_ensures(at_single_pos, (&s.kind, index), r),
    ensures
        r is Some,
        f == Format::SinglePos1 ==> r->0 == at + 6,
        f == Format::SinglePos2 ==> s.rank && r->0 - (at + 8) == index * (fields_of(
            s.kind->SinglePos_value_format,
        )),
        s.kind->SinglePos_value_format == word(data, at + 4) & 0x00ff,
{
    a_record_has_the_fields_of_its_format(s.kind->SinglePos_value_format);
}

/// How many bytes the fields of a value record take.
pub open spec fn fields_of(format: u16) -> int {
    field_bytes(format, 1) + field_bytes(format, 2) + field_bytes(format, 4) + field_bytes(format, 8)
        + field_bytes(format, 0x10) + field_bytes(format, 0x20) + field_bytes(format, 0x40) + field_bytes(
        format,
        0x80,
    )
}

/// Where the pair set of the glyph at `index` of the coverage stands.
pub open spec fn set_of(data: Seq<u8>, at: int, index: int) -> int {
    at + word(data, at + 10 + 2 * index)
}

/// A pair is moved by the record that the first glyph's set lists for the second
/// glyph: one that is listed is found, and what is found is listed.
pub proof fn a_compiled_pair_is_the_fonts(
    s: Subtable,
    data: Seq<u8>,
    at: int,
    table: &[u8],
    index: u32,
    want: u32,
    r: Option<PairRecord>,
)
    requires
        made(s, data, Format::Pair1, at, true),
        table@ == data,
        0 <= at <= 0xF000_0000,
        at + 10 + 2 * word(data, at + 8) <= data.len(),
        call_ensures(at_pair1, (&s.kind, table, index, want), r),
    ensures
        s.rank,
        r matches Some(p) ==> {
            let f1 = word(data, at + 4) & 0x00ff;
            let f2 = word(data, at + 6) & 0x00ff;
            &&& index < word(data, at + 8)
            &&& p.first_format == f1
            &&& p.second_format == f2
            &&& word(data, p.at - 2) == want
            &&& exists|i: int|
                0 <= i < word(data, set_of(data, at, index as int)) && p.at == #[trigger] record_of(
                    set_of(data, at, index as int),
                    f1,
                    f2,
                    i,
                )
        },
        index < word(data, at + 8) ==> ({
            let f1 = word(data, at + 4) & 0x00ff;
            let f2 = word(data, at + 6) & 0x00ff;
            let set = set_of(data, at, index as int);
            let n = word(data, set);
            set + 2 <= data.len() && (forall|i: int|
                0 <= i < n ==> #[trigger] record_of(set, f1, f2, i) <= data.len()) && (forall|i: int, j: int|
                0 <= i < j < n ==> word(data, #[trigger] record_of(set, f1, f2, i) - 2) < word(
                    data,
                    #[trigger] record_of(set, f1, f2, j) - 2,
                )) ==> forall|i: int|
                0 <= i < n && word(data, #[trigger] record_of(set, f1, f2, i) - 2) == want ==> r is Some
                    && r->0.at == record_of(set, f1, f2, i)
        }),
{
    let f1 = word(data, at + 4) & 0x00ff;
    let f2 = word(data, at + 6) & 0x00ff;
    let stride = pair_stride(f1, f2);
    a_record_has_the_fields_of_its_format(f1);
    a_record_has_the_fields_of_its_format(f2);
    let set = set_of(data, at, index as int);
    if r is Some {
        let p = r->0;
        let i = a_found_record_is_listed(data, at, index, stride, want);
        assert(p.at == record_of(set, f1, f2, i));
    }
    if index < word(data, at + 8) {
        let n = word(data, set);
        if set + 2 <= data.len() && (forall|i: int|
            0 <= i < n ==> #[trigger] record_of(set, f1, f2, i) <= data.len()) && (forall|i: int, j: int|
            0 <= i < j < n ==> word(data, #[trigger] record_of(set, f1, f2, i) - 2) < word(
                data,
                #[trigger] record_of(set, f1, f2, j) - 2,
            )) {
            assert forall|i: int|
                0 <= i < n && word(data, #[trigger] record_of(set, f1, f2, i) - 2) == want implies r is Some
                && r->0.at == record_of(set, f1, f2, i) by {
                assert forall|k: int| 0 <= k < n implies (#[trigger] word_at(data, set + 2 + k * stride))
                    is Some by {
                    assert(record_of(set, f1, f2, k) == set + 4 + k * stride);
                    assert(k * stride >= 0) by (nonlinear_arith)
                        requires
                            k >= 0,
                            stride >= 0,
                    ;
                }
                assert forall|k: int, l: int| 0 <= k < l < n implies (#[trigger] word_at(
                    data,
                    set + 2 + k * stride,
                ))->0 < (#[trigger] word_at(data, set + 2 + l * stride))->0 by {
                    assert(record_of(set, f1, f2, k) == set + 4 + k * stride);
                    assert(record_of(set, f1, f2, l) == set + 4 + l * stride);
                }
                assert(record_of(set, f1, f2, i) == set + 4 + i * stride);
                a_search_finds_what_is_there(data, set, stride, n as int, want, 0, n as int, i);
                let digests = s.kind->seconds;
                if digests.slots@[index as int] & value_bit(want) == 0 {
                    a_rejected_pair_has_no_record(digests, data, at, index, stride, want);
                }
            }
        }
    }
}

/// Where the values of record `i` of a pair set stand: after the count, the
/// records before it, and its second glyph.
pub open spec fn record_of(set: int, f1: u16, f2: u16, i: int) -> int {
    set + 4 + i * (2 + fields_of(f1) + fields_of(f2))
}

/// A class pair is moved by the record at its row and column, or it is all zeros
/// and moves nothing.
pub proof fn a_compiled_class_pair_is_the_fonts(
    s: Subtable,
    data: Seq<u8>,
    at: int,
    first: u32,
    second: u32,
    r: Option<PairCell>,
)
    requires
        made(s, data, Format::Pair2, at, true),
        s.wf(),
        0 <= at <= 0xF000_0000,
        call_ensures(at_pair2, (&s.kind, first, second), r),
    ensures
        r is Some,
        r->0 matches PairCell::Record(p) ==> {
            let f1 = word(data, at + 4) & 0x00ff;
            let f2 = word(data, at + 6) & 0x00ff;
            let row = class_named(data, at, word(data, at + 8), first);
            let column = class_named(data, at, word(data, at + 10), second);
            &&& p.at == at + 16 + (row * word(data, at + 14) + column) * (fields_of(f1) + fields_of(f2))
            &&& p.first_format == f1
            &&& p.second_format == f2
        },
        r->0 matches PairCell::Still { has_record2 } ==> has_record2 == (word(data, at + 6) & 0x00ff != 0),
{
    let f1 = word(data, at + 4) & 0x00ff;
    let f2 = word(data, at + 6) & 0x00ff;
    a_record_has_the_fields_of_its_format(f1);
    a_record_has_the_fields_of_its_format(f2);
    let row = class_named(data, at, word(data, at + 8), first);
    let column = class_named(data, at, word(data, at + 10), second);
    let n2 = word(data, at + 14);
    assert(s.kind->class1.class_of(first) == row);
    assert(s.kind->class2.class_of(second) == column);
    assert(0 <= row * n2 <= 0xffff * 0xffff) by (nonlinear_arith)
        requires
            0 <= row <= 0xffff,
            0 <= n2 <= 0xffff,
    ;
    let cell = row * n2 + column;
    let size = fields_of(f1) + fields_of(f2);
    assert(0 <= cell * size <= 0xffff_ffff * 32) by (nonlinear_arith)
        requires
            0 <= cell <= 0xffff_ffff,
            0 <= size <= 32,
    ;
    let w2 = word(data, at + 6);
    assert((w2 & 0x00ff) & 0x00ff == w2 & 0x00ff) by (bit_vector);
}

/// A glyph is joined at the anchors that the font lists at its place in the
/// coverage: first the one where it is entered, then the one where it is left.
pub proof fn a_compiled_cursive_glyph_is_the_fonts(
    s: Subtable,
    data: Seq<u8>,
    at: int,
    table: &[u8],
    index: u32,
    r: Option<(Option<u64>, Option<u64>)>,
)
    requires
        made(s, data, Format::Cursive, at, true),
        table@ == data,
        0 <= at <= 0xF000_0000,
        at + 6 + 4 * word(data, at + 4) <= data.len(),
        call_ensures(at_cursive, (&s.kind, table, index), r),
    ensures
        s.rank,
        r is Some <==> index < word(data, at + 4),
        r matches Some((entry, exit)) ==> {
            let entry_offset = word(data, at + 6 + 4 * index);
            let exit_offset = word(data, at + 8 + 4 * index);
            &&& entry is Some <==> entry_offset != 0
            &&& exit is Some <==> exit_offset != 0
            &&& entry is Some ==> entry->0 == at + entry_offset
            &&& exit is Some ==> exit->0 == at + exit_offset
        },
{
}

/// A glyph is substituted from the end of a line backwards where each coverage
/// before it and each one after it has the glyph that stands there, and then by
/// the one that the font lists at its place in the coverage.
pub proof fn a_compiled_reverse_chain_is_the_fonts(
    s: Subtable,
    data: Seq<u8>,
    at: int,
    table: &[u8],
    index: u32,
    before: &[u32],
    after: &[u32],
    r: ReverseMatch,
)
    requires
        made(s, data, Format::Reverse, at, true),
        table@ == data,
        s.wf(),
        0 <= at,
        at + 8 + 2 * word(data, at + 4) <= data.len(),
        at + 10 + 2 * word(data, at + 4) + 2 * word(data, at + 6 + 2 * word(data, at + 4)) <= data.len(),
        call_ensures(at_reverse_chain, (&s.kind, table, index, before, after), r),
    ensures
        s.rank,
        ({
            let behind = word(data, at + 4);
            let ahead = word(data, at + 6 + 2 * behind);
            let glyphs = at + 10 + 2 * behind + 2 * ahead;
            let fit = behind <= before@.len() && ahead <= after@.len() && (forall|i: int|
                0 <= i < behind ==> covered(data, at, word(data, at + 6 + 2 * i)).contains(
                    #[trigger] before@[i],
                )) && (forall|i: int|
                0 <= i < ahead ==> covered(data, at, word(data, at + 8 + 2 * behind + 2 * i)).contains(
                    #[trigger] after@[i],
                ));
            &&& r.glyph is Some ==> fit && index < word(data, glyphs - 2) && r.glyph->0 == word(
                data,
                glyphs + 2 * index,
            ) && r.before == behind && r.after == ahead
            &&& fit && index < word(data, glyphs - 2) && glyphs + 2 * word(data, glyphs - 2) <= data.len()
                ==> r.glyph is Some
            &&& r.before <= behind && r.after <= ahead
            &&& r.before < behind ==> r.after == 0
        }),
{
    let behind = word(data, at + 4);
    let ahead = word(data, at + 6 + 2 * behind);
    let before_sets = s.kind->ReverseChain_backtrack@;
    let after_sets = s.kind->ReverseChain_lookahead@;
    let glyphs = at + 10 + 2 * behind + 2 * ahead;
    assert(before_sets.len() == behind);
    assert(after_sets.len() == ahead);
    assert forall|i: int| 0 <= i < behind implies (#[trigger] before_sets[i])@ == covered(
        data,
        at,
        word(data, at + 6 + 2 * i),
    ) by {}
    assert forall|i: int| 0 <= i < ahead implies (#[trigger] after_sets[i])@ == covered(
        data,
        at,
        word(data, at + 8 + 2 * behind + 2 * i),
    ) by {}
    if r.glyph is Some {
        assert forall|i: int| 0 <= i < behind implies covered(data, at, word(data, at + 6 + 2 * i)).contains(
            #[trigger] before@[i],
        ) by {
            assert(before_sets[i]@.contains(before@[i]));
        }
        assert forall|i: int| 0 <= i < ahead implies covered(
            data,
            at,
            word(data, at + 8 + 2 * behind + 2 * i),
        ).contains(#[trigger] after@[i]) by {
            assert(after_sets[i]@.contains(after@[i]));
        }
    }
    if behind <= before@.len() && ahead <= after@.len() && (forall|i: int|
        0 <= i < behind ==> covered(data, at, word(data, at + 6 + 2 * i)).contains(#[trigger] before@[i]))
        && (forall|i: int|
        0 <= i < ahead ==> covered(data, at, word(data, at + 8 + 2 * behind + 2 * i)).contains(
            #[trigger] after@[i],
        )) {
        if r.before < behind {
            assert(covered(data, at, word(data, at + 6 + 2 * r.before)).contains(before@[r.before as int]));
            assert(before_sets[r.before as int]@.contains(before@[r.before as int]));
        }
        if r.after < ahead {
            assert(covered(data, at, word(data, at + 8 + 2 * behind + 2 * r.after)).contains(
                after@[r.after as int],
            ));
            assert(after_sets[r.after as int]@.contains(after@[r.after as int]));
        }
    }
}

/// A context made of coverages matches a position where the coverage that the
/// font lists for it has the glyph: first those before, then the input, then
/// those after. The start of the input is what the subtable covers.
pub proof fn a_compiled_chain_is_the_fonts(
    s: Subtable,
    data: Seq<u8>,
    at: int,
    i: u32,
    glyph: u32,
    before: bool,
    inside: bool,
    after: bool,
)
    requires
        made(s, data, Format::Chain3, at, true),
        s.wf(),
        0 <= at,
        ({
            let n0 = word(data, at + 2);
            let n1 = word(data, at + 4 + 2 * n0);
            let n2 = word(data, at + 6 + 2 * n0 + 2 * n1);
            &&& n1 > 0
            &&& at + 6 + 2 * n0 <= data.len()
            &&& at + 8 + 2 * n0 + 2 * n1 <= data.len()
            &&& at + 8 + 2 * n0 + 2 * n1 + 2 * n2 <= data.len()
        }),
        call_ensures(is_covered, (&s.kind, Part::Backtrack, i, glyph), before),
        call_ensures(is_covered, (&s.kind, Part::Input, i, glyph), inside),
        call_ensures(is_covered, (&s.kind, Part::Lookahead, i, glyph), after),
    ensures
        ({
            let n0 = word(data, at + 2);
            let n1 = word(data, at + 4 + 2 * n0);
            let n2 = word(data, at + 6 + 2 * n0 + 2 * n1);
            let input = at + 6 + 2 * n0;
            let lookahead = input + 2 * n1 + 2;
            &&& s.cov@ == covered(data, at, word(data, input))
            &&& before <==> i < n0 && covered(data, at, word(data, at + 4 + 2 * i)).contains(glyph)
            &&& inside <==> i + 1 < n1 && covered(data, at, word(data, input + 2 + 2 * i)).contains(glyph)
            &&& after <==> i < n2 && covered(data, at, word(data, lookahead + 2 * i)).contains(glyph)
            &&& s.next is Some <==> n1 > 1 || n2 > 0
            &&& n1 > 1 ==> s.next->0@ == covered(data, at, word(data, input + 2))
            &&& n1 == 1 && n2 > 0 ==> s.next->0@ == covered(data, at, word(data, lookahead))
        }),
{
    let n0 = word(data, at + 2);
    let n1 = word(data, at + 4 + 2 * n0);
    let n2 = word(data, at + 6 + 2 * n0 + 2 * n1);
    let input = s.kind->ChainCtx3_input@;
    let offsets = offsets_at(data, at + 6 + 2 * n0, n1);
    assert(offsets.len() == n1);
    assert(input.len() == n1 - 1);
    let rest = offsets.skip(1);
    assert forall|k: int| 0 <= k < n1 - 1 implies (#[trigger] input[k])@ == covered(
        data,
        at,
        word(data, at + 8 + 2 * n0 + 2 * k),
    ) by {
        assert(rest[k] == offsets[k + 1]);
    }
}

/// Whether a format lists its rules by glyph, and not by class.
pub open spec fn lists_glyphs(f: Format) -> bool {
    f == Format::Context1 || f == Format::Chain1
}

/// Whether the rules of a format are chained.
pub open spec fn chains(f: Format) -> bool {
    f == Format::Chain1 || f == Format::Chain2
}

/// How many bytes come before the list of rule sets.
pub open spec fn before_sets(f: Format) -> int {
    if lists_glyphs(f) {
        6
    } else if chains(f) {
        12
    } else {
        8
    }
}

/// What the input of a rule compares a glyph as: itself, or its class.
pub open spec fn input_value(data: Seq<u8>, f: Format, at: int, g: u32) -> u32 {
    if lists_glyphs(f) {
        g
    } else if chains(f) {
        class_named(data, at, word(data, at + 6), g) as u32
    } else {
        class_named(data, at, word(data, at + 4), g) as u32
    }
}

proof fn lemma_rules_made(s: Subtable, data: Seq<u8>, f: Format, at: int, g: u32)
    requires
        f == Format::Context1 || f == Format::Context2 || f == Format::Chain1 || f == Format::Chain2,
        made(s, data, f, at, true),
        0 <= at <= 0xF000_0000,
    ensures
        s.kind is Rules,
        s.kind->Rules_rule_sets == at + before_sets(f),
        s.kind->Rules_base == at,
        s.kind->Rules_rule_set_count == word(data, at + before_sets(f) - 2),
        s.kind->Rules_chained == chains(f),
        s.rank == lists_glyphs(f),
        s.kind->Rules_input_classes is None <==> lists_glyphs(f),
        s.kind->Rules_input_classes is Some ==> s.kind->Rules_input_classes->0.class_of(g) == input_value(
            data,
            f,
            at,
            g,
        ),
        s.kind->Rules_index.digests.slots@ == rule_slots(
            data,
            at + before_sets(f),
            at,
            word(data, at + before_sets(f) - 2),
            chains(f),
            true,
        ),
{
}

/// A context that lists its rules tries those of the font, in the font's order:
/// the rules of the set that the glyph's place in the coverage selects, or its
/// class.
pub proof fn a_compiled_rule_set_is_the_fonts(
    s: Subtable,
    data: Seq<u8>,
    f: Format,
    at: int,
    table: &[u8],
    glyph: u32,
    index: u32,
    r: Option<RuleSet>,
    i: int,
)
    requires
        f == Format::Context1 || f == Format::Context2 || f == Format::Chain1 || f == Format::Chain2,
        made(s, data, f, at, true),
        s.wf(),
        table@ == data,
        0 <= at <= 0xF000_0000,
        call_ensures(at_rules, (&s.kind, table, glyph, index), r),
        r is Some,
        0 <= i < r->0.rules@.len(),
    ensures
        s.rank == lists_glyphs(f),
        lists_glyphs(f) ==> r->0.index == index,
        !lists_glyphs(f) ==> r->0.index == input_value(data, f, at, glyph),
        r->0.index < word(data, at + before_sets(f) - 2),
        r->0.at == at + word(data, at + before_sets(f) + 2 * r->0.index),
        r->0.at != at,
        r->0.rules@.len() == word(data, r->0.at as int),
        r->0.rules@[i] == word(data, r->0.at + 2 + 2 * i),
{
    lemma_rules_made(s, data, f, at, glyph);
    a_glyph_selects_its_rules(&s.kind, table, glyph, index, r);
}

/// A set that is dismissed has no rule whose second input value is that of the
/// next glyph: nothing that could match is passed over.
#[verifier::rlimit(60)]
pub proof fn a_dismissed_rule_set_cannot_match(
    s: Subtable,
    data: Seq<u8>,
    f: Format,
    at: int,
    set: u32,
    next: u32,
    dismissed: bool,
    i: int,
)
    requires
        f == Format::Context1 || f == Format::Context2 || f == Format::Chain1 || f == Format::Chain2,
        made(s, data, f, at, true),
        s.wf(),
        0 <= at <= 0xF000_0000,
        call_ensures(dismisses, (&s.kind, set, next), dismissed),
        set < word(data, at + before_sets(f) - 2),
        at + before_sets(f) + 2 * word(data, at + before_sets(f) - 2) <= data.len(),
        word(data, at + before_sets(f) + 2 * set) != 0,
        ({
            let place = at + word(data, at + before_sets(f) + 2 * set);
            0 <= i < word(data, place) && place + 2 + 2 * word(data, place) <= data.len()
        }),
        dismissed,
    ensures
        ({
            let place = at + word(data, at + before_sets(f) + 2 * set);
            let rule = place + word(data, place + 2 + 2 * i);
            let count = rule + 2 + 2 * word(data, rule);
            &&& !chains(f) && rule + 6 <= data.len() && word(data, rule) >= 2 ==> word(data, rule + 4)
                != input_value(data, f, at, next)
            &&& chains(f) && rule + 2 <= data.len() && count + 4 <= data.len() && word(data, count) >= 2 ==> word(
                data,
                count + 2,
            ) != input_value(data, f, at, next)
        }),
{
    lemma_rules_made(s, data, f, at, next);
    let rule_sets = at + before_sets(f);
    let off = word(data, rule_sets + 2 * set);
    let place = at + off;
    let count = word(data, place);
    assert(word_at(data, rule_sets + set * 2) == Some(off));
    assert(word_at(data, place) == Some(count));
    let digests = s.kind->Rules_index.digests;
    assert(digests.slots@[set as int] == or_open(rule_set_word(data, rule_sets, at, set as int, chains(f))));
    a_dismissed_set_has_no_such_rule(
        digests,
        data,
        rule_sets,
        at,
        set,
        chains(f),
        off,
        count,
        i,
        input_value(data, f, at, next),
    );
    assert(word_at(data, place + 2 + i * 2) == Some(word(data, place + 2 + 2 * i)));
}

} // verus!
