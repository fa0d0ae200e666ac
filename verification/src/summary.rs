//! Words that summarise what a set in the font can accept.

use vstd::prelude::*;

use crate::bits::{bit, lemma_ones_above, lemma_ones_bounded, ones};
use crate::bytes::{be16_far, fits, word_at};

verus! {

/// Every bit a GPOS value format may legitimately set.
pub const VALUE_FORMAT_ALL: u16 = 0x00FF;

/// Pair set offsets follow a ten-byte header.
pub const PAIR_SET_OFFSETS: u64 = 10;

/// Bytes one value record of a format occupies: two per field present.
pub open spec fn record_bytes(format: u16) -> nat {
    ones((format & 0x00FF) as u64, 64) * 2
}

/// Bytes one record of this format occupies: two per field present.
#[inline]
pub fn record_size(format: u16) -> (n: usize)
    ensures
        n == record_bytes(format),
        n <= 16,
{
    let fields: u16 = format & VALUE_FORMAT_ALL;
    proof {
        let w = fields as u64;
        assert forall|i: int| 8 <= i < 64 implies !bit(w, i) by {
            let b = i as u64;
            assert((((format & 0x00FF) as u64) >> b) & 1 == 0) by (bit_vector)
                requires
                    8 <= b < 64,
            ;
        }
        lemma_ones_above(w, 8, 64);
        lemma_ones_bounded(w, 8);
    }
    (fields as u64).count_ones() as usize * 2
}

/// The bit one value occupies in a summary.
pub open spec fn value_bit(value: u32) -> u64 {
    1u64 << ((value & 63) as u64)
}

/// A summary, or a word that admits everything.
pub open spec fn or_open(w: Option<u64>) -> u64 {
    match w {
        Some(w) => w,
        None => u64::MAX,
    }
}

/// Whether a word is the summary that `of` may give for a set.
pub open spec fn slot_from<F: Fn(u32) -> Option<u64>>(of: F, set: u32, w: u64) -> bool {
    exists|o: Option<u64>| #[trigger] of.ensures((set,), o) && w == or_open(o)
}

/// One word per set, summarising the values that set can accept.
///
/// The font is full of the same shape: a list of alternatives, keyed by the
/// glyph a lookup is anchored on, of which a run takes at most one. The
/// alternatives fit in a word -- bit `v & 63` for each -- and if that word
/// shares no bit with what the buffer offers, the whole set is dead and none of
/// it needs to come out of the font.
#[derive(Clone, Debug, PartialEq, Eq)]
pub struct SetDigests {
    pub slots: Vec<u64>,
}

impl Default for SetDigests {
    fn default() -> (r: SetDigests)
        ensures
            r.slots@.len() == 0,
    {
        SetDigests { slots: Vec::new() }
    }
}

impl SetDigests {
    /// One word for each of at most as many sets as a font can count.
    pub open spec fn wf(&self) -> bool {
        self.slots@.len() <= 0xffff
    }

    /// The summary of a set: everything, for one there is no summary of.
    pub open spec fn word_of(&self, set: u32) -> u64 {
        if set < self.slots@.len() {
            self.slots@[set as int]
        } else {
            u64::MAX
        }
    }

    /// Summarise `count` sets, calling `of` for each. `None` from `of` means the
    /// set could not be summarised and must stay open.
    pub fn build<F: Fn(u32) -> Option<u64>>(count: u16, of: F) -> (r: SetDigests)
        requires
            forall|i: u32| i < count ==> #[trigger] of.requires((i,)),
        ensures
            r.wf(),
            r.slots@.len() == count,
            forall|i: int| 0 <= i < count ==> slot_from(of, i as u32, #[trigger] r.slots@[i]),
    {
        let mut slots: Vec<u64> = Vec::new();
        let mut i: u32 = 0;
        while i < count as u32
            invariant
                i <= count,
                slots@.len() == i,
                forall|i: u32| i < count ==> #[trigger] of.requires((i,)),
                forall|k: int| 0 <= k < i ==> slot_from(of, k as u32, #[trigger] slots@[k]),
            decreases count - i,
        {
            let ghost before = slots@;
            let o = of(i);
            let w: u64 = match o {
                Some(w) => w,
                None => u64::MAX,
            };
            slots.push(w);
            proof {
                assert forall|k: int| 0 <= k < i + 1 implies slot_from(of, k as u32, #[trigger] slots@[k]) by {
                    if k < i {
                        assert(slots@[k] == before[k]);
                    } else {
                        assert(of.ensures((k as u32,), o));
                    }
                }
            }
            i += 1;
        }
        SetDigests { slots }
    }

    /// Whether a set could hold `value`. True for a set there is no summary of,
    /// since a filter may only ever reject what truly cannot match.
    #[inline]
    pub fn may_hold(&self, set: u32, value: u32) -> (r: bool)
        ensures
            r == (set >= self.slots@.len() || self.slots@[set as int] & value_bit(value) != 0),
    {
        if (set as usize) < self.slots.len() {
            self.slots[set as usize] & SetDigests::bit(value) != 0
        } else {
            true
        }
    }

    /// Whether a set could hold any of the values in a summary.
    #[inline]
    pub fn may_hold_any(&self, set: u32, offered: u64) -> (r: bool)
        ensures
            r == (set >= self.slots@.len() || self.slots@[set as int] & offered != 0),
    {
        if (set as usize) < self.slots.len() {
            self.slots[set as usize] & offered != 0
        } else {
            true
        }
    }

    /// The raw summary word for one set, for callers building a coarser filter
    /// out of these.
    #[inline]
    pub fn word(&self, set: u32) -> (w: u64)
        ensures
            w == self.word_of(set),
    {
        if (set as usize) < self.slots.len() {
            self.slots[set as usize]
        } else {
            u64::MAX
        }
    }

    /// The bit one value occupies in a summary.
    #[inline]
    pub fn bit(value: u32) -> (w: u64)
        ensures
            w == value_bit(value),
    {
        let k: u32 = value & 63;
        assert(value & 63 < 64) by (bit_vector);
        1u64 << k
    }

    pub fn heap_bytes(&self) -> (n: usize)
        requires
            self.wf(),
        ensures
            n == self.slots@.len() * 8,
    {
        self.slots.len() * 8
    }
}

/// A context subtable's rule-set index: one word per set. See [`SetDigests`].
#[derive(Clone, Debug, PartialEq, Eq)]
pub struct RuleIndex {
    /// One word per rule set.
    pub digests: SetDigests,
}

impl RuleIndex {
    pub fn heap_bytes(&self) -> (n: usize)
        requires
            self.digests.wf(),
        ensures
            n == self.digests.slots@.len() * 8,
    {
        self.digests.heap_bytes()
    }
}

/// The value a rule requires at the position after the one it is anchored on,
/// where it requires any and can be read. A chained rule puts its backtrack
/// sequence first; another puts its lookup count between the input count and
/// the input sequence.
pub open spec fn second_value(data: Seq<u8>, rule: int, chained: bool) -> Option<u32> {
    if chained {
        match word_at(data, rule) {
            None => None,
            Some(n) => {
                let at = rule + 2 + n * 2;
                match word_at(data, at) {
                    None => None,
                    Some(count) => if count < 2 {
                        None
                    } else {
                        match word_at(data, at + 2) {
                            None => None,
                            Some(v) => Some(v as u32),
                        }
                    },
                }
            },
        }
    } else {
        match word_at(data, rule) {
            None => None,
            Some(count) => if count < 2 {
                None
            } else {
                match word_at(data, rule + 4) {
                    None => None,
                    Some(v) => Some(v as u32),
                }
            },
        }
    }
}

/// Where rule `i` of the set at `set_at` stands.
pub open spec fn rule_of(data: Seq<u8>, set_at: int, i: int) -> Option<int> {
    match word_at(data, set_at + 2 + i * 2) {
        None => None,
        Some(off) => Some(set_at + off),
    }
}

/// The values that the first `n` rules of a set begin with, folded into a word;
/// none where a rule begins with any value, or cannot be read.
pub open spec fn rules_word(data: Seq<u8>, set_at: int, n: nat, chained: bool) -> Option<u64>
    decreases n,
{
    if n == 0 {
        Some(0)
    } else {
        match rules_word(data, set_at, (n - 1) as nat, chained) {
            None => None,
            Some(before) => match rule_of(data, set_at, n - 1) {
                None => None,
                Some(at) => match second_value(data, at, chained) {
                    None => None,
                    Some(v) => Some(before | value_bit(v)),
                },
            },
        }
    }
}

/// The summary of one rule set: `1` for a set with a null offset, since nothing
/// in it matches; none where it has to stay open.
pub open spec fn rule_set_word(
    data: Seq<u8>,
    rule_sets: int,
    base: int,
    set: int,
    chained: bool,
) -> Option<u64> {
    match word_at(data, rule_sets + set * 2) {
        None => None,
        Some(off) => if off == 0 {
            Some(1)
        } else {
            match word_at(data, base + off) {
                None => None,
                Some(n) => match rules_word(data, base + off, n as nat, chained) {
                    None => None,
                    Some(w) => if w == 0 {
                        None
                    } else {
                        Some(w)
                    },
                },
            }
        },
    }
}

/// The value a rule requires at the position after the one it is anchored on.
pub fn first_input_value(data: &[u8], rule_at: u64, chained: bool) -> (r: Option<u32>)
    requires
        rule_at <= u64::MAX - 0x4_0000,
    ensures
        r == second_value(data@, rule_at as int, chained),
{
    let mut at: u64 = rule_at;
    if chained {
        at = match be16_far(data, at) {
            Some(n) => at + 2 + n as u64 * 2,
            None => return None,
        };
    }
    let input_count: u16 = match be16_far(data, at) {
        Some(n) => n,
        None => return None,
    };
    at = at + 2;
    if input_count < 2 {
        return None;
    }
    if !chained {
        at = at + 2;
    }
    match be16_far(data, at) {
        Some(v) => Some(v as u32),
        None => None,
    }
}

/// The summary of one rule set.
#[verifier::loop_isolation(false)]
fn summarise_rules(data: &[u8], rule_sets: u32, base: u32, set: u32, chained: bool) -> (r: Option<u64>)
    requires
        set < 0x1_0000,
    ensures
        r == rule_set_word(data@, rule_sets as int, base as int, set as int, chained),
{
    let set_off: u16 = match be16_far(data, rule_sets as u64 + set as u64 * 2) {
        Some(n) => n,
        None => return None,
    };
    if set_off == 0 {
        // A null offset means no rules for this class, so nothing matches.
        return Some(1);
    }
    let set_at: u64 = base as u64 + set_off as u64;
    let rule_count: u16 = match be16_far(data, set_at) {
        Some(n) => n,
        None => return None,
    };
    let mut summary: u64 = 0;
    let mut i: u16 = 0;
    while i < rule_count
        invariant
            i <= rule_count,
            set_at <= 0x2_0000_0000,
            rules_word(data@, set_at as int, i as nat, chained) == Some(summary),
        decreases rule_count - i,
    {
        proof {
            reveal_with_fuel(rules_word, 2);
        }
        let rule_off: u16 = match be16_far(data, set_at + 2 + i as u64 * 2) {
            Some(n) => n,
            None => {
                proof {
                    lemma_rules_stay_open(data@, set_at as int, (i + 1) as nat, rule_count as nat, chained);
                }
                return None;
            },
        };
        let at: u64 = set_at + rule_off as u64;
        // A rule that constrains nothing at its first input step forces the
        // whole set open, and so does anything malformed.
        let v: u32 = match first_input_value(data, at, chained) {
            Some(v) => v,
            None => {
                proof {
                    lemma_rules_stay_open(data@, set_at as int, (i + 1) as nat, rule_count as nat, chained);
                }
                return None;
            },
        };
        summary = summary | SetDigests::bit(v);
        i += 1;
    }
    if summary != 0 {
        Some(summary)
    } else {
        None
    }
}

/// Once a rule keeps its set open, later rules cannot close it.
proof fn lemma_rules_stay_open(data: Seq<u8>, set_at: int, n: nat, m: nat, chained: bool)
    requires
        n <= m,
        rules_word(data, set_at, n, chained) is None,
    ensures
        rules_word(data, set_at, m, chained) is None,
    decreases m,
{
    if n < m {
        lemma_rules_stay_open(data, set_at, n, (m - 1) as nat, chained);
    }
}

/// Summarise a context subtable's rule sets.
///
/// Each rule begins by testing the position after the one the lookup is
/// anchored on. Per set, the values its rules accept there fold into a word,
/// which throws away whole sets. A rule constraining nothing at that step
/// forces its set open; so does anything malformed.
pub fn rule_index(
    data: &[u8],
    rule_sets: u32,
    base: u32,
    count: u16,
    chained: bool,
    summarise: bool,
) -> (r: SetDigests)
    ensures
        r.wf(),
        !summarise ==> r.slots@.len() == 0,
        summarise ==> r.slots@ == Seq::new(
            count as nat,
            |i: int| or_open(rule_set_word(data@, rule_sets as int, base as int, i, chained)),
        ),
{
    if !summarise {
        // An empty summary admits everything, which is what a filter must do
        // when it knows nothing.
        return SetDigests::default();
    }
    let of = |set: u32| -> (o: Option<u64>)
        requires
            set < 0x1_0000,
        ensures
            o == rule_set_word(data@, rule_sets as int, base as int, set as int, chained),
        { summarise_rules(data, rule_sets, base, set, chained) };
    let r = SetDigests::build(count, of);
    proof {
        let want = Seq::new(
            count as nat,
            |i: int| or_open(rule_set_word(data@, rule_sets as int, base as int, i, chained)),
        );
        assert forall|i: int| 0 <= i < count implies r.slots@[i] == want[i] by {
            assert(slot_from(of, i as u32, r.slots@[i]));
        }
        assert(r.slots@ =~= want);
    }
    r
}

/// The second glyphs of the first `n` pairs of a pair set, folded into a word.
pub open spec fn pairs_word(data: Seq<u8>, set_at: int, n: nat, stride: int) -> Option<u64>
    decreases n,
{
    if n == 0 {
        Some(0)
    } else {
        match pairs_word(data, set_at, (n - 1) as nat, stride) {
            None => None,
            Some(before) => match word_at(data, set_at + 2 + (n - 1) * stride) {
                None => None,
                Some(g) => Some(before | value_bit(g as u32)),
            },
        }
    }
}

/// The summary of one pair set, or none where it has to stay open.
pub open spec fn pair_set_word(data: Seq<u8>, at: int, set: int, stride: int) -> Option<u64> {
    match word_at(data, at + PAIR_SET_OFFSETS + set * 2) {
        None => None,
        Some(off) => match word_at(data, at + off) {
            None => None,
            Some(n) => match pairs_word(data, at + off, n as nat, stride) {
                None => None,
                Some(w) => if w == 0 {
                    None
                } else {
                    Some(w)
                },
            },
        },
    }
}

/// How far apart the records of a pair set are.
pub open spec fn pair_stride(first_format: u16, second_format: u16) -> int {
    (2 + record_bytes(first_format) + record_bytes(second_format)) as int
}

proof fn lemma_pairs_stay_open(data: Seq<u8>, set_at: int, n: nat, m: nat, stride: int)
    requires
        n <= m,
        pairs_word(data, set_at, n, stride) is None,
    ensures
        pairs_word(data, set_at, m, stride) is None,
    decreases m,
{
    if n < m {
        lemma_pairs_stay_open(data, set_at, n, (m - 1) as nat, stride);
    }
}

#[verifier::loop_isolation(false)]
fn summarise_pairs(data: &[u8], at: u64, set: u32, stride: u64) -> (r: Option<u64>)
    requires
        set < 0x1_0000,
        at <= 0x1_0000_0000_0000,
        stride <= 64,
    ensures
        r == pair_set_word(data@, at as int, set as int, stride as int),
{
    let set_off: u16 = match be16_far(data, at + PAIR_SET_OFFSETS + set as u64 * 2) {
        Some(n) => n,
        None => return None,
    };
    let set_at: u64 = at + set_off as u64;
    let pair_count: u16 = match be16_far(data, set_at) {
        Some(n) => n,
        None => return None,
    };
    let mut summary: u64 = 0;
    let mut i: u16 = 0;
    while i < pair_count
        invariant
            i <= pair_count,
            set_at <= 0x2_0000_0000_0000,
            stride <= 64,
            pairs_word(data@, set_at as int, i as nat, stride as int) == Some(summary),
        decreases pair_count - i,
    {
        assert(i * stride <= 0xffff * 64) by (nonlinear_arith)
            requires
                i <= 0xffff,
                stride <= 64,
        ;
        let g: u16 = match be16_far(data, set_at + 2 + i as u64 * stride) {
            Some(g) => g,
            None => {
                proof {
                    lemma_pairs_stay_open(
                        data@,
                        set_at as int,
                        (i + 1) as nat,
                        pair_count as nat,
                        stride as int,
                    );
                }
                return None;
            },
        };
        summary = summary | SetDigests::bit(g as u32);
        i += 1;
    }
    if summary != 0 {
        Some(summary)
    } else {
        None
    }
}

/// Summarise every pair set of a pair positioning subtable that lists its
/// pairs: which glyphs each first glyph actually pairs with.
pub fn pair_digests(data: &[u8], at: usize, count: u16, first_format: u16, second_format: u16) -> (r:
    SetDigests)
    requires
        at <= data@.len(),
        data@.len() <= 0x1_0000_0000_0000,
    ensures
        r.wf(),
        r.slots@ == Seq::new(
            count as nat,
            |i: int|
                or_open(pair_set_word(data@, at as int, i, pair_stride(first_format, second_format))),
        ),
{
    let stride: u64 = 2 + record_size(first_format) as u64 + record_size(second_format) as u64;
    let start: u64 = at as u64;
    let of = |set: u32| -> (o: Option<u64>)
        requires
            set < 0x1_0000,
        ensures
            o == pair_set_word(data@, start as int, set as int, stride as int),
        { summarise_pairs(data, start, set, stride) };
    let r = SetDigests::build(count, of);
    proof {
        let want = Seq::new(
            count as nat,
            |i: int|
                or_open(pair_set_word(data@, at as int, i, pair_stride(first_format, second_format))),
        );
        assert forall|i: int| 0 <= i < count implies r.slots@[i] == want[i] by {
            assert(slot_from(of, i as u32, r.slots@[i]));
        }
        assert(r.slots@ =~= want);
    }
    r
}

/// Whether the record of `pair` bytes at `at` moves anything.
pub open spec fn record_moves(data: Seq<u8>, at: int, pair: int) -> bool {
    exists|i: int| 0 <= i < pair && #[trigger] data[at + i] != 0
}

/// The second classes that the first `n` records of a row move something for,
/// folded into a word; none where the row runs past the end.
pub open spec fn row_word(data: Seq<u8>, row: int, n: nat, pair: int) -> Option<u64>
    decreases n,
{
    if n == 0 {
        Some(0)
    } else {
        match row_word(data, row, (n - 1) as nat, pair) {
            None => None,
            Some(before) => {
                let at = row + (n - 1) * pair;
                if !fits(data, at, pair) {
                    None
                } else if record_moves(data, at, pair) {
                    Some(before | value_bit((n - 1) as u32))
                } else {
                    Some(before)
                }
            },
        }
    }
}

/// The summary of one row of a class matrix. A row of all zeros keeps a bit of
/// its own, so that it is not mistaken for one with no summary.
pub open spec fn class_row_word(data: Seq<u8>, row: int, class2_count: u16, pair: int) -> Option<u64> {
    match row_word(data, row, class2_count as nat, pair) {
        None => None,
        Some(w) => if w == 0 {
            Some(1u64 << 63u64)
        } else {
            Some(w)
        },
    }
}

/// What each row of a class matrix has non-zero records for. Without any values
/// nothing is ever holdable.
pub open spec fn class_rows(data: Seq<u8>, matrix: int, n1: u16, n2: u16, pair: int) -> Seq<u64> {
    Seq::new(
        n1 as nat,
        |i: int|
            if pair == 0 {
                1u64
            } else {
                or_open(class_row_word(data, matrix + i * n2 * pair, n2, pair))
            },
    )
}

proof fn lemma_row_stays_open(data: Seq<u8>, row: int, n: nat, m: nat, pair: int)
    requires
        n <= m,
        row_word(data, row, n, pair) is None,
    ensures
        row_word(data, row, m, pair) is None,
    decreases m,
{
    if n < m {
        lemma_row_stays_open(data, row, n, (m - 1) as nat, pair);
    }
}

/// Whether any of `pair` bytes is not zero; none where they run past the end.
fn any_byte(data: &[u8], at: u128, pair: u64) -> (r: Option<bool>)
    requires
        at <= 0x2_0000_0000_0000_0000,
    ensures
        r == (if fits(data@, at as int, pair as int) {
            Some(record_moves(data@, at as int, pair as int))
        } else {
            None
        }),
{
    if at + pair as u128 > data.len() as u128 {
        return None;
    }
    let end: usize = data.len();
    let from: usize = at as usize;
    let mut i: u64 = 0;
    while i < pair
        invariant
            i <= pair,
            from == at,
            end == data@.len(),
            at + pair <= end,
            forall|k: int| 0 <= k < i ==> #[trigger] data@[at + k] == 0,
        decreases pair - i,
    {
        if data[from + i as usize] != 0 {
            assert(data@[at + (i as int)] != 0);
            return Some(true);
        }
        i += 1;
    }
    Some(false)
}

#[verifier::loop_isolation(false)]
fn summarise_row(data: &[u8], matrix: u64, c1: u32, class2_count: u16, pair: u64) -> (r: Option<u64>)
    requires
        c1 < 0x1_0000,
        pair <= 32,
    ensures
        r == class_row_word(data@, matrix + c1 * class2_count * pair, class2_count, pair as int),
{
    assert(0 <= c1 * class2_count <= 0xffff * 0xffff) by (nonlinear_arith)
        requires
            c1 <= 0xffff,
            class2_count <= 0xffff,
    ;
    let cells: u64 = c1 as u64 * class2_count as u64;
    assert(cells * pair <= 0x1_0000_0000 * 32) by (nonlinear_arith)
        requires
            cells <= 0x1_0000_0000,
            pair <= 32,
    ;
    let row: u128 = matrix as u128 + (cells * pair) as u128;
    let mut summary: u64 = 0;
    let mut c2: u16 = 0;
    while c2 < class2_count
        invariant
            c2 <= class2_count,
            pair <= 32,
            row <= 0x1_8000_0000_0000_0000,
            row_word(data@, row as int, c2 as nat, pair as int) == Some(summary),
        decreases class2_count - c2,
    {
        assert(c2 * pair <= 0xffff * 32) by (nonlinear_arith)
            requires
                c2 <= 0xffff,
                pair <= 32,
        ;
        let at: u128 = row + (c2 as u64 * pair) as u128;
        match any_byte(data, at, pair) {
            None => {
                proof {
                    lemma_row_stays_open(
                        data@,
                        row as int,
                        (c2 + 1) as nat,
                        class2_count as nat,
                        pair as int,
                    );
                }
                return None;
            },
            Some(moves) => {
                if moves {
                    summary = summary | SetDigests::bit(c2 as u32);
                }
            },
        }
        c2 += 1;
    }
    if summary == 0 {
        Some(1u64 << 63u64)
    } else {
        Some(summary)
    }
}

/// Summarise which second classes each row of a class matrix has a non-zero
/// record for.
///
/// A class matrix holds one record per pair of classes and most of them are
/// zero. A zero record moves nothing, so reading it and walking its value
/// format is work with no result. This may say "maybe" when the answer is no,
/// but never the reverse, so a row it rules out truly holds nothing.
pub fn pair_class_digests(
    data: &[u8],
    matrix: usize,
    class1_count: u16,
    class2_count: u16,
    first_format: u16,
    second_format: u16,
) -> (r: SetDigests)
    ensures
        r.wf(),
        r.slots@ == class_rows(
            data@,
            matrix as int,
            class1_count,
            class2_count,
            (record_bytes(first_format) + record_bytes(second_format)) as int,
        ),
{
    let pair: u64 = record_size(first_format) as u64 + record_size(second_format) as u64;
    let ghost want = class_rows(data@, matrix as int, class1_count, class2_count, pair as int);
    if pair == 0 {
        // No values at all: every record is empty, so nothing is ever holdable.
        let of = |set: u32| -> (o: Option<u64>)
            ensures
                o == Some(1u64),
            { Some(1) };
        let r = SetDigests::build(class1_count, of);
        proof {
            assert forall|i: int| 0 <= i < class1_count implies r.slots@[i] == want[i] by {
                assert(slot_from(of, i as u32, r.slots@[i]));
            }
            assert(r.slots@ =~= want);
        }
        return r;
    }
    let start: u64 = matrix as u64;
    let of = |c1: u32| -> (o: Option<u64>)
        requires
            c1 < 0x1_0000,
        ensures
            o == class_row_word(data@, start + c1 * class2_count * pair, class2_count, pair as int),
        { summarise_row(data, start, c1, class2_count, pair) };
    let r = SetDigests::build(class1_count, of);
    proof {
        assert forall|i: int| 0 <= i < class1_count implies r.slots@[i] == want[i] by {
            assert(slot_from(of, i as u32, r.slots@[i]));
        }
        assert(r.slots@ =~= want);
    }
    r
}

/// Folding a value in makes its bit show, and hides none that showed.
proof fn lemma_value_shows(w: u64, v: u32, other: u64)
    ensures
        (w | value_bit(v)) & value_bit(v) != 0,
        w & other != 0 ==> (w | value_bit(v)) & other != 0,
        u64::MAX & value_bit(v) != 0,
{
    let b = (v & 63) as u64;
    assert(v & 63 < 64) by (bit_vector);
    let m = 1u64 << b;
    assert(m != 0) by (bit_vector)
        requires
            b < 64,
            m == 1u64 << b,
    ;
    assert(m != 0 ==> (w | m) & m != 0) by (bit_vector);
    assert(w & other != 0 ==> (w | m) & other != 0) by (bit_vector);
    assert(m != 0 ==> u64::MAX & m != 0) by (bit_vector);
}

proof fn lemma_rules_word_holds(data: Seq<u8>, set_at: int, n: nat, chained: bool, i: int, v: u32)
    requires
        0 <= i < n,
        rules_word(data, set_at, n, chained) is Some,
        rule_of(data, set_at, i) matches Some(at) && second_value(data, at, chained) == Some(v),
    ensures
        rules_word(data, set_at, n, chained)->0 & value_bit(v) != 0,
    decreases n,
{
    let before = rules_word(data, set_at, (n - 1) as nat, chained)->0;
    if i == n - 1 {
        lemma_value_shows(before, v, 0);
    } else {
        lemma_rules_word_holds(data, set_at, (n - 1) as nat, chained, i, v);
        let w = second_value(data, rule_of(data, set_at, n - 1)->0, chained)->0;
        lemma_value_shows(before, w, value_bit(v));
    }
}

/// A rule-set summary never rejects a value that one of the set's rules
/// accepts.
pub proof fn rule_summaries_reject_only_the_impossible(
    data: Seq<u8>,
    rule_sets: int,
    base: int,
    set: int,
    chained: bool,
    off: u16,
    count: u16,
    i: int,
    v: u32,
)
    requires
        word_at(data, rule_sets + set * 2) == Some(off),
        off != 0,
        word_at(data, base + off) == Some(count),
        0 <= i < count,
        rule_of(data, base + off, i) matches Some(at) && second_value(data, at, chained) == Some(v),
    ensures
        or_open(rule_set_word(data, rule_sets, base, set, chained)) & value_bit(v) != 0,
{
    lemma_value_shows(0, v, 0);
    if rules_word(data, base + off, count as nat, chained) is Some {
        lemma_rules_word_holds(data, base + off, count as nat, chained, i, v);
    }
}

proof fn lemma_pairs_word_holds(data: Seq<u8>, set_at: int, n: nat, stride: int, i: int, g: u16)
    requires
        0 <= i < n,
        pairs_word(data, set_at, n, stride) is Some,
        word_at(data, set_at + 2 + i * stride) == Some(g),
    ensures
        pairs_word(data, set_at, n, stride)->0 & value_bit(g as u32) != 0,
    decreases n,
{
    let before = pairs_word(data, set_at, (n - 1) as nat, stride)->0;
    if i == n - 1 {
        lemma_value_shows(before, g as u32, 0);
    } else {
        lemma_pairs_word_holds(data, set_at, (n - 1) as nat, stride, i, g);
        let w = word_at(data, set_at + 2 + (n - 1) * stride)->0;
        lemma_value_shows(before, w as u32, value_bit(g as u32));
    }
}

/// A pair-set summary never rejects a glyph that the set lists as a second.
pub proof fn pair_summaries_reject_only_the_impossible(
    data: Seq<u8>,
    at: int,
    set: int,
    stride: int,
    off: u16,
    count: u16,
    i: int,
    g: u16,
)
    requires
        word_at(data, at + PAIR_SET_OFFSETS + set * 2) == Some(off),
        word_at(data, at + off) == Some(count),
        0 <= i < count,
        word_at(data, at + off + 2 + i * stride) == Some(g),
    ensures
        or_open(pair_set_word(data, at, set, stride)) & value_bit(g as u32) != 0,
{
    lemma_value_shows(0, g as u32, 0);
    if pairs_word(data, at + off, count as nat, stride) is Some {
        lemma_pairs_word_holds(data, at + off, count as nat, stride, i, g);
    }
}

proof fn lemma_row_word_holds(data: Seq<u8>, row: int, n: nat, pair: int, c2: int)
    requires
        0 <= c2 < n <= 0xffff,
        row_word(data, row, n, pair) is Some,
        record_moves(data, row + c2 * pair, pair),
    ensures
        row_word(data, row, n, pair)->0 & value_bit(c2 as u32) != 0,
    decreases n,
{
    let before = row_word(data, row, (n - 1) as nat, pair)->0;
    if c2 == n - 1 {
        lemma_value_shows(before, c2 as u32, 0);
    } else {
        lemma_row_word_holds(data, row, (n - 1) as nat, pair, c2);
        lemma_value_shows(before, (n - 1) as u32, value_bit(c2 as u32));
    }
}

/// A row summary never rules out a second class whose record moves something.
pub proof fn row_summaries_reject_only_the_impossible(
    data: Seq<u8>,
    row: int,
    class2_count: u16,
    pair: int,
    c2: int,
)
    requires
        0 <= c2 < class2_count,
        record_moves(data, row + c2 * pair, pair),
    ensures
        or_open(class_row_word(data, row, class2_count, pair)) & value_bit(c2 as u32) != 0,
{
    lemma_value_shows(0, c2 as u32, 0);
    if row_word(data, row, class2_count as nat, pair) is Some {
        lemma_row_word_holds(data, row, class2_count as nat, pair, c2);
        let w = row_word(data, row, class2_count as nat, pair)->0;
        let b = value_bit(c2 as u32);
        assert(0u64 & b == 0) by (bit_vector);
    }
}

/// A cell that the summary of a class matrix rules out is all zeros, and a row
/// that runs past the end is never ruled out.
pub proof fn a_ruled_out_cell_is_all_zeros(
    data: Seq<u8>,
    matrix: int,
    n1: u16,
    n2: u16,
    pair: int,
    c1: int,
    c2: int,
)
    requires
        0 <= c1 < n1,
        0 <= c2 < n2,
        0 <= matrix,
        0 <= pair,
    ensures
        ({
            let w = class_rows(data, matrix, n1, n2, pair)[c1];
            let row = matrix + c1 * n2 * pair;
            let at = matrix + (c1 * n2 + c2) * pair;
            &&& pair > 0 && !fits(data, row, n2 * pair) ==> w == u64::MAX
            &&& w & value_bit(c2 as u32) == 0 && pair > 0 ==> fits(data, at, pair)
            &&& w & value_bit(c2 as u32) == 0 ==> forall|k: int|
                0 <= k < pair ==> #[trigger] data[at + k] == 0
        }),
{
    let w = class_rows(data, matrix, n1, n2, pair)[c1];
    let row = matrix + c1 * n2 * pair;
    let at = matrix + (c1 * n2 + c2) * pair;
    assert(at == row + c2 * pair && 0 <= c1 * n2 * pair && (n2 - 1) * pair + pair == n2 * pair && 0 <= c2 * pair
        && c2 * pair + pair <= n2 * pair) by (nonlinear_arith)
        requires
            at == matrix + (c1 * n2 + c2) * pair,
            row == matrix + c1 * n2 * pair,
            0 <= c1,
            0 <= c2 < n2,
            0 <= pair,
    ;
    lemma_value_shows(0, c2 as u32, 0);
    if pair > 0 && w & value_bit(c2 as u32) == 0 {
        if record_moves(data, at, pair) {
            row_summaries_reject_only_the_impossible(data, row, n2, pair, c2);
        }
    }
}

/// Two bytes for each of a record's fields.
pub open spec fn field_bytes(format: u16, field: u16) -> int {
    if format & field != 0 {
        2
    } else {
        0
    }
}

/// A value record takes two bytes for each of the eight fields that its format
/// says it has.
pub proof fn a_record_has_the_fields_of_its_format(format: u16)
    ensures
        record_bytes(format) == field_bytes(format, 1) + field_bytes(format, 2) + field_bytes(format, 4)
            + field_bytes(format, 8) + field_bytes(format, 0x10) + field_bytes(format, 0x20) + field_bytes(
            format,
            0x40,
        ) + field_bytes(format, 0x80),
{
    let w = (format & 0x00FF) as u64;
    assert forall|i: int| 8 <= i < 64 implies !bit(w, i) by {
        let b = i as u64;
        assert((((format & 0x00FF) as u64) >> b) & 1 == 0) by (bit_vector)
            requires
                8 <= b < 64,
        ;
    }
    lemma_ones_above(w, 8, 64);
    reveal_with_fuel(ones, 9);
    assert(((w >> 0u64) & 1 == 1 <==> format & 1 != 0) && ((w >> 1u64) & 1 == 1 <==> format & 2 != 0) && ((w
        >> 2u64) & 1 == 1 <==> format & 4 != 0) && ((w >> 3u64) & 1 == 1 <==> format & 8 != 0) && ((w >> 4u64)
        & 1 == 1 <==> format & 0x10 != 0) && ((w >> 5u64) & 1 == 1 <==> format & 0x20 != 0) && ((w >> 6u64) & 1
        == 1 <==> format & 0x40 != 0) && ((w >> 7u64) & 1 == 1 <==> format & 0x80 != 0)) by (bit_vector)
        requires
            w == (format & 0x00FF) as u64,
    ;
    assert(bit(w, 0) <==> format & 1 != 0);
    assert(bit(w, 1) <==> format & 2 != 0);
    assert(bit(w, 2) <==> format & 4 != 0);
    assert(bit(w, 3) <==> format & 8 != 0);
    assert(bit(w, 4) <==> format & 0x10 != 0);
    assert(bit(w, 5) <==> format & 0x20 != 0);
    assert(bit(w, 6) <==> format & 0x40 != 0);
    assert(bit(w, 7) <==> format & 0x80 != 0);
}

} // verus!
