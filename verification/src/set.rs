//! Compiled glyph sets.
//!
//! A coverage table answers two questions: is this glyph covered, and if so
//! what is its index. Each set is compiled once per font into whichever
//! representation is cheapest to probe *that still fits a byte budget*.
//!
//! The budget matters because bitmap cost scales with the glyph-id span, not
//! the member count: a set spread thinly over a large font falls back to range
//! or sorted forms.

use vstd::prelude::*;

use crate::glyphs::{
    ascending, bitmap_fits, bitmap_len, bitmap_list, bitmap_of, bitmap_test, count_runs,
    extend_bitmap, extend_list, extend_run, lemma_ascending_span, lemma_bitmap_at,
    lemma_bitmap_contains, lemma_bitmap_count, lemma_bitmap_list, lemma_bitmap_prefix,
    lemma_full_span_is_run, lemma_runs_at, lemma_runs_contain, lemma_runs_list, run, run_count,
    runs_in_order, runs_list, runs_of, search_runs, search_sorted,
};
use crate::bits::{bit, lemma_mask_below, lemma_ones_above, lemma_ones_agree};
use crate::pick::{pick, picked, Pick, DEFAULT_BUDGET, SLACK};

verus! {

/// How many 64-bit words a bitmap from the first to the last member takes.
pub open spec fn words_for(glyphs: Seq<u32>) -> int {
    (glyphs.last() - glyphs[0] + 64) / 64
}

/// Whether a list is one that can be compiled: ascending, not spanning every
/// id there is, and with room to count what each form of it would take.
pub open spec fn compilable(glyphs: Seq<u32>) -> bool {
    &&& ascending(glyphs)
    &&& glyphs.len() > 0 ==> glyphs.last() - glyphs[0] < u32::MAX
    &&& glyphs.len() * 12 <= usize::MAX
}

/// The forms a membership-only set may take, as `(form, speed rank, bytes)`.
pub open spec fn set_candidates(glyphs: Seq<u32>) -> Seq<(Pick, u8, usize)> {
    seq![
        (Pick::Bitmap, 0u8, (words_for(glyphs) * 8) as usize),
        (Pick::Ranges, 1u8, (run_count(glyphs) * 8) as usize),
        (Pick::Sorted, 1u8, (glyphs.len() * 4) as usize),
    ]
}

/// The forms an indexed set may take, as `(form, speed rank, bytes)`.
pub open spec fn coverage_candidates(glyphs: Seq<u32>) -> Seq<(Pick, u8, usize)> {
    seq![
        (Pick::Bitmap, 0u8, (words_for(glyphs) * 12) as usize),
        (Pick::Ranges, 1u8, (run_count(glyphs) * 12) as usize),
        (Pick::Sorted, 1u8, (glyphs.len() * 4) as usize),
    ]
}

/// The bytes that a form of a list takes, where each word of a bitmap and each
/// run takes `each`.
pub open spec fn form_bytes(glyphs: Seq<u32>, p: Pick, each: nat) -> nat {
    match p {
        Pick::Bitmap => words_for(glyphs) as nat * each,
        Pick::Ranges => run_count(glyphs) * each,
        _ => glyphs.len() * 4,
    }
}

/// The bytes a membership-only set of a list takes: none for a single run, eight
/// for each word of a bitmap and for each run, four for each listed id.
pub open spec fn set_size(glyphs: Seq<u32>, budget: usize) -> nat {
    if glyphs.len() == 0 || one_run(glyphs) {
        0
    } else {
        form_bytes(glyphs, picked(set_candidates(glyphs), budget, SLACK), 8)
    }
}

/// The bytes an indexed set of a list takes: none for a single run, twelve for
/// each word of a bitmap and for each run, four for each listed id.
pub open spec fn coverage_size(glyphs: Seq<u32>, budget: usize) -> nat {
    if glyphs.len() == 0 || one_run(glyphs) {
        0
    } else {
        form_bytes(glyphs, picked(coverage_candidates(glyphs), budget, SLACK), 12)
    }
}

/// Dropping the index saves a third of what a bitmap costs, and a third of what
/// runs do.
pub proof fn dropping_the_index_saves_a_third(glyphs: Seq<u32>, p: Pick)
    requires
        p is Bitmap || p is Ranges,
    ensures
        form_bytes(glyphs, p, 8) * 3 == form_bytes(glyphs, p, 12) * 2,
{
}

/// Whether a list is a single run of consecutive ids.
pub open spec fn one_run(glyphs: Seq<u32>) -> bool {
    glyphs.len() > 0 && glyphs.last() - glyphs[0] + 1 == glyphs.len()
}

/// A set of glyphs, membership only.
///
/// Most coverage tables in a font are read purely as sets; only a subtable
/// that indexes a parallel array -- a substitute list, a value array -- needs
/// [`Coverage`]. Dropping the index saves a third of a bitmap's cost and a
/// third of a range record's, so the two are separate types.
#[derive(Clone, Debug, PartialEq, Eq)]
pub enum GlyphSet {
    Empty,
    Range { first: u32, len: u32 },
    /// No rank table: membership is one bit test.
    Bitmap { base: u32, words: Vec<u64> },
    /// Inclusive `(start, end)` runs, binary searched.
    Ranges(Vec<(u32, u32)>),
    Sorted(Vec<u32>),
}

impl Default for GlyphSet {
    fn default() -> (r: GlyphSet)
        ensures
            r is Empty,
    {
        GlyphSet::Empty
    }
}

impl GlyphSet {
    /// The members, in ascending order.
    pub open spec fn view(&self) -> Seq<u32> {
        match *self {
            GlyphSet::Empty => seq![],
            GlyphSet::Range { first, len } => run(first, (first + len - 1) as u32),
            GlyphSet::Bitmap { base, words } => bitmap_list(
                words@,
                base as int,
                (words@.len() * 64) as nat,
            ),
            GlyphSet::Ranges(r) => runs_list(r@),
            GlyphSet::Sorted(s) => s@,
        }
    }

    /// What every built set keeps: only the empty form is empty, ids stay ids,
    /// and searched forms are in order.
    pub open spec fn wf(&self) -> bool {
        &&& self@.len() <= usize::MAX
        &&& match *self {
            GlyphSet::Empty => true,
            GlyphSet::Range { first, len } => len > 0 && first + len - 1 <= u32::MAX,
            GlyphSet::Bitmap { base, words } => {
                &&& bitmap_fits(words@, base as int)
                &&& 0 < words@.len() <= 0x400_0000
                &&& self@.len() > 0
            },
            GlyphSet::Ranges(r) => runs_in_order(r@) && r@.len() > 0 && r@.len() * 8 <= usize::MAX,
            GlyphSet::Sorted(s) => ascending(s@) && s@.len() > 0 && s@.len() * 4 <= usize::MAX,
        }
    }

    /// Whether the list of a range form would count past the last glyph id.
    pub open spec fn ends_at_the_last_id(&self) -> bool {
        *self matches GlyphSet::Range { first, len } && first + len > u32::MAX
    }

    /// The form this set was given.
    pub open spec fn has_form(&self, p: Pick) -> bool {
        match p {
            Pick::Bitmap => *self is Bitmap,
            Pick::Ranges => *self is Ranges,
            _ => *self is Sorted,
        }
    }

    /// The bytes each form holds on the heap.
    pub open spec fn bytes(&self) -> nat {
        match *self {
            GlyphSet::Empty => 0,
            GlyphSet::Range { .. } => 0,
            GlyphSet::Bitmap { base, words } => words@.len() * 8,
            GlyphSet::Ranges(r) => r@.len() * 8,
            GlyphSet::Sorted(s) => s@.len() * 4,
        }
    }

    /// Build from ascending, deduplicated glyph ids.
    pub fn build(glyphs: &[u32]) -> (r: GlyphSet)
        requires
            compilable(glyphs@),
        ensures
            r.wf(),
            r@ == glyphs@,
            r is Empty <==> glyphs@.len() == 0,
            r is Range <==> one_run(glyphs@),
            glyphs@.len() > 0 && !one_run(glyphs@) ==> r.has_form(
                picked(set_candidates(glyphs@), DEFAULT_BUDGET, SLACK),
            ),
            r.bytes() == set_size(glyphs@, DEFAULT_BUDGET),
            r matches GlyphSet::Bitmap { base, words } ==> base == glyphs@[0],
    {
        GlyphSet::build_with_budget(glyphs, DEFAULT_BUDGET)
    }

    pub fn build_with_budget(glyphs: &[u32], budget: usize) -> (r: GlyphSet)
        requires
            compilable(glyphs@),
        ensures
            r.wf(),
            r@ == glyphs@,
            r is Empty <==> glyphs@.len() == 0,
            r is Range <==> one_run(glyphs@),
            glyphs@.len() > 0 && !one_run(glyphs@) ==> r.has_form(
                picked(set_candidates(glyphs@), budget, SLACK),
            ),
            r.bytes() == set_size(glyphs@, budget),
            r matches GlyphSet::Bitmap { base, words } ==> base == glyphs@[0],
    {
        if glyphs.len() == 0 {
            let r = GlyphSet::Empty;
            assert(r@ =~= glyphs@);
            return r;
        }
        let first: u32 = glyphs[0];
        let last: u32 = glyphs[glyphs.len() - 1];
        proof {
            lemma_ascending_span(glyphs@, glyphs@.len() - 1);
        }
        let span: u32 = last - first + 1;
        if span as usize == glyphs.len() {
            proof {
                lemma_full_span_is_run(glyphs@);
            }
            return GlyphSet::Range { first, len: span };
        }
        let n_words: usize = ((span - 1) / 64 + 1) as usize;
        let runs: usize = count_runs(glyphs);
        let cands: [(Pick, u8, usize); 3] = [
            (Pick::Bitmap, 0, n_words * 8),
            (Pick::Ranges, 1, runs * 8),
            (Pick::Sorted, 1, glyphs.len() * 4),
        ];
        assert(cands@ =~= set_candidates(glyphs@));
        match pick(&cands, budget, SLACK) {
            Pick::Bitmap => GlyphSet::Bitmap { base: first, words: bitmap_of(glyphs, n_words) },
            Pick::Ranges => {
                let r = GlyphSet::Ranges(runs_of(glyphs));
                r
            },
            _ => {
                let mut s: Vec<u32> = Vec::new();
                extend_list(glyphs, &mut s);
                assert(s@ =~= glyphs@);
                GlyphSet::Sorted(s)
            },
        }
    }

    /// The number of members.
    pub fn len(&self) -> (n: usize)
        requires
            self.wf(),
        ensures
            n == self@.len(),
    {
        match self {
            GlyphSet::Empty => 0,
            GlyphSet::Range { first, len } => *len as usize,
            GlyphSet::Bitmap { base, words } => bitmap_len(words, *base),
            GlyphSet::Ranges(r) => runs_len(r),
            GlyphSet::Sorted(s) => s.len(),
        }
    }

    pub fn is_empty(&self) -> (r: bool)
        requires
            self.wf(),
        ensures
            r == (self@.len() == 0),
            r == (*self is Empty),
    {
        proof {
            if let GlyphSet::Ranges(r) = self {
                lemma_runs_list(r@);
            }
        }
        match self {
            GlyphSet::Empty => true,
            _ => false,
        }
    }

    #[inline]
    pub fn contains(&self, g: u32) -> (r: bool)
        requires
            self.wf(),
        ensures
            r == self@.contains(g),
    {
        match self {
            GlyphSet::Empty => false,
            GlyphSet::Range { first, len } => in_run(*first, *len, g),
            GlyphSet::Bitmap { base, words } => {
                proof {
                    lemma_bitmap_contains(words@, *base as int, g);
                }
                if g < *base {
                    false
                } else {
                    bitmap_test(words, g - *base)
                }
            },
            GlyphSet::Ranges(r) => {
                proof {
                    lemma_runs_contain(r@, g);
                }
                search_runs(r, g).is_some()
            },
            GlyphSet::Sorted(s) => {
                let found = search_sorted(s, g);
                found.is_some()
            },
        }
    }

    /// Heap bytes held, for budget accounting.
    pub fn heap_bytes(&self) -> (n: usize)
        requires
            self.wf(),
        ensures
            n == self.bytes(),
    {
        match self {
            GlyphSet::Empty => 0,
            GlyphSet::Range { first, len } => 0,
            GlyphSet::Bitmap { base, words } => words.len() * 8,
            GlyphSet::Ranges(r) => r.len() * 8,
            GlyphSet::Sorted(s) => s.len() * 4,
        }
    }

    /// Append every member, ascending, to `out`.
    pub fn extend_into(&self, out: &mut Vec<u32>)
        requires
            self.wf(),
            !self.ends_at_the_last_id(),
        ensures
            final(out)@ == old(out)@ + self@,
    {
        match self {
            GlyphSet::Empty => {
                assert(out@ =~= old(out)@ + self@);
            },
            GlyphSet::Range { first, len } => extend_run(*first, *first + *len - 1, out),
            GlyphSet::Bitmap { base, words } => extend_bitmap(words, *base, out),
            GlyphSet::Ranges(r) => extend_runs(r, out),
            GlyphSet::Sorted(s) => extend_list(s, out),
        }
    }

    pub fn to_vec(&self) -> (v: Vec<u32>)
        requires
            self.wf(),
            !self.ends_at_the_last_id(),
        ensures
            v@ == self@,
    {
        let mut v: Vec<u32> = Vec::with_capacity(self.len());
        self.extend_into(&mut v);
        assert(v@ =~= self@);
        v
    }
}

/// Whether `g` is one of the `len` ids from `first` up.
fn in_run(first: u32, len: u32, g: u32) -> (r: bool)
    requires
        len > 0,
        first + len - 1 <= u32::MAX,
    ensures
        r == run(first, (first + len - 1) as u32).contains(g),
{
    let r = g >= first && g - first < len;
    proof {
        let s = run(first, (first + len - 1) as u32);
        if r {
            assert(s[g - first] == g);
        }
    }
    r
}

/// The number of ids in runs.
fn runs_len(r: &[(u32, u32)]) -> (n: usize)
    requires
        runs_in_order(r@),
        runs_list(r@).len() <= usize::MAX,
    ensures
        n == runs_list(r@).len(),
{
    let mut n: usize = 0;
    let mut i: usize = 0;
    while i < r.len()
        invariant
            i <= r@.len(),
            runs_in_order(r@),
            runs_list(r@).len() <= usize::MAX,
            n == runs_list(r@.take(i as int)).len(),
        decreases r@.len() - i,
    {
        proof {
            assert(r@.take(i + 1).drop_last() =~= r@.take(i as int));
            lemma_runs_at(r@, i as int, r@[i as int].1);
        }
        let (a, b) = r[i];
        n = n + (b - a) as usize + 1;
        i += 1;
    }
    assert(r@.take(i as int) =~= r@);
    n
}

/// Appends what runs list.
fn extend_runs(r: &[(u32, u32)], out: &mut Vec<u32>)
    requires
        runs_in_order(r@),
    ensures
        final(out)@ == old(out)@ + runs_list(r@),
{
    let mut i: usize = 0;
    assert(out@ =~= old(out)@ + runs_list(r@.take(0)));
    while i < r.len()
        invariant
            i <= r@.len(),
            runs_in_order(r@),
            out@ == old(out)@ + runs_list(r@.take(i as int)),
        decreases r@.len() - i,
    {
        let (a, b) = r[i];
        extend_run(a, b, out);
        proof {
            assert(r@.take(i + 1).drop_last() =~= r@.take(i as int));
            assert(out@ =~= old(out)@ + runs_list(r@.take(i + 1)));
        }
        i += 1;
    }
    assert(r@.take(i as int) =~= r@);
}

/// One run of consecutive covered glyphs.
#[derive(Copy, Clone, Debug, PartialEq, Eq, Structural)]
pub struct CovRange {
    pub start: u32,
    /// Inclusive.
    pub end: u32,
    /// Coverage index of `start`.
    pub first_index: u32,
}

/// The runs without their indices.
pub open spec fn spans(r: Seq<CovRange>) -> Seq<(u32, u32)> {
    Seq::new(r.len(), |i: int| (r[i].start, r[i].end))
}

/// Each run's index is the number of glyphs in the runs before it.
pub open spec fn indexed(r: Seq<CovRange>) -> bool {
    forall|i: int| 0 <= i < r.len() ==> (#[trigger] r[i]).first_index == runs_list(spans(r).take(i)).len()
}

/// Each entry of a rank table counts the set bits below its word.
pub open spec fn ranked(words: Seq<u64>, base: int, rank: Seq<u32>) -> bool {
    &&& rank.len() == words.len()
    &&& forall|w: int|
        0 <= w < rank.len() ==> #[trigger] rank[w] == bitmap_list(words, base, (w * 64) as nat).len()
}

/// A set of glyphs that also assigns each member a dense index.
#[derive(Clone, Debug, PartialEq, Eq)]
pub enum Coverage {
    Empty,
    /// Contiguous: index is `g - first`.
    Range { first: u32, len: u32 },
    /// Rank-select bitmap: `contains` is one bit test, `index` is a rank lookup
    /// plus a popcount.
    Bitmap {
        base: u32,
        words: Vec<u64>,
        /// Set bits below each word, so index lookups take constant time.
        rank: Vec<u32>,
    },
    /// Sorted runs, binary searched.
    Ranges(Vec<CovRange>),
    /// Sorted glyph ids, binary searched. Used when members are so scattered
    /// that runs cost more than the ids themselves.
    Sorted(Vec<u32>),
}

impl Default for Coverage {
    fn default() -> (r: Coverage)
        ensures
            r is Empty,
    {
        Coverage::Empty
    }
}

impl Coverage {
    /// The covered glyphs, in ascending order: a glyph's index is its position.
    pub open spec fn view(&self) -> Seq<u32> {
        match *self {
            Coverage::Empty => seq![],
            Coverage::Range { first, len } => run(first, (first + len - 1) as u32),
            Coverage::Bitmap { base, words, rank } => bitmap_list(
                words@,
                base as int,
                (words@.len() * 64) as nat,
            ),
            Coverage::Ranges(r) => runs_list(spans(r@)),
            Coverage::Sorted(s) => s@,
        }
    }

    /// What every built coverage keeps.
    pub open spec fn wf(&self) -> bool {
        &&& self@.len() <= usize::MAX
        &&& match *self {
            Coverage::Empty => true,
            Coverage::Range { first, len } => len > 0 && first + len - 1 <= u32::MAX,
            Coverage::Bitmap { base, words, rank } => {
                &&& bitmap_fits(words@, base as int)
                &&& ranked(words@, base as int, rank@)
                &&& 0 < words@.len() <= 0x400_0000
                &&& self@.len() > 0
            },
            Coverage::Ranges(r) => {
                &&& runs_in_order(spans(r@))
                &&& indexed(r@)
                &&& r@.len() > 0
                &&& r@.len() * 12 <= usize::MAX
            },
            Coverage::Sorted(s) => ascending(s@) && s@.len() > 0 && s@.len() * 4 <= usize::MAX,
        }
    }

    /// Whether the list of a range form would count past the last glyph id.
    pub open spec fn ends_at_the_last_id(&self) -> bool {
        *self matches Coverage::Range { first, len } && first + len > u32::MAX
    }

    /// The form this coverage was given.
    pub open spec fn has_form(&self, p: Pick) -> bool {
        match p {
            Pick::Bitmap => *self is Bitmap,
            Pick::Ranges => *self is Ranges,
            _ => *self is Sorted,
        }
    }

    /// The bytes each form holds on the heap.
    pub open spec fn bytes(&self) -> nat {
        match *self {
            Coverage::Empty => 0,
            Coverage::Range { .. } => 0,
            Coverage::Bitmap { base, words, rank } => words@.len() * 8 + rank@.len() * 4,
            Coverage::Ranges(r) => r@.len() * 12,
            Coverage::Sorted(s) => s@.len() * 4,
        }
    }

    /// Compile from ascending, deduplicated glyph ids.
    pub fn build(glyphs: &[u32]) -> (r: Coverage)
        requires
            compilable(glyphs@),
        ensures
            r.wf(),
            r@ == glyphs@,
            r is Empty <==> glyphs@.len() == 0,
            r is Range <==> one_run(glyphs@),
            glyphs@.len() > 0 && !one_run(glyphs@) ==> r.has_form(
                picked(coverage_candidates(glyphs@), DEFAULT_BUDGET, SLACK),
            ),
            r.bytes() == coverage_size(glyphs@, DEFAULT_BUDGET),
            r matches Coverage::Bitmap { base, words, rank } ==> base == glyphs@[0],
    {
        Coverage::build_with_budget(glyphs, DEFAULT_BUDGET)
    }

    pub fn build_with_budget(glyphs: &[u32], budget: usize) -> (r: Coverage)
        requires
            compilable(glyphs@),
        ensures
            r.wf(),
            r@ == glyphs@,
            r is Empty <==> glyphs@.len() == 0,
            r is Range <==> one_run(glyphs@),
            glyphs@.len() > 0 && !one_run(glyphs@) ==> r.has_form(
                picked(coverage_candidates(glyphs@), budget, SLACK),
            ),
            r.bytes() == coverage_size(glyphs@, budget),
            r matches Coverage::Bitmap { base, words, rank } ==> base == glyphs@[0],
    {
        if glyphs.len() == 0 {
            let r = Coverage::Empty;
            assert(r@ =~= glyphs@);
            return r;
        }
        let first: u32 = glyphs[0];
        let last: u32 = glyphs[glyphs.len() - 1];
        proof {
            lemma_ascending_span(glyphs@, glyphs@.len() - 1);
        }
        let span: u32 = last - first + 1;
        if span as usize == glyphs.len() {
            proof {
                lemma_full_span_is_run(glyphs@);
            }
            return Coverage::Range { first, len: span };
        }
        // Size every candidate before building any of them, so a rejected
        // representation costs nothing.
        let n_words: usize = ((span - 1) / 64 + 1) as usize;
        let runs: usize = count_runs(glyphs);
        let cands: [(Pick, u8, usize); 3] = [
            (Pick::Bitmap, 0, n_words * 12),
            (Pick::Ranges, 1, runs * 12),
            (Pick::Sorted, 1, glyphs.len() * 4),
        ];
        assert(cands@ =~= coverage_candidates(glyphs@));
        match pick(&cands, budget, SLACK) {
            Pick::Bitmap => {
                let words = bitmap_of(glyphs, n_words);
                let rank = rank_of(&words, first);
                Coverage::Bitmap { base: first, words, rank }
            },
            Pick::Ranges => Coverage::Ranges(to_ranges(glyphs)),
            _ => {
                let mut s: Vec<u32> = Vec::new();
                extend_list(glyphs, &mut s);
                assert(s@ =~= glyphs@);
                Coverage::Sorted(s)
            },
        }
    }

    /// Number of covered glyphs.
    pub fn len(&self) -> (n: usize)
        requires
            self.wf(),
        ensures
            n == self@.len(),
    {
        match self {
            Coverage::Empty => 0,
            Coverage::Range { first, len } => *len as usize,
            Coverage::Bitmap { base, words, rank } => bitmap_len(words, *base),
            Coverage::Ranges(r) => {
                let last: CovRange = r[r.len() - 1];
                proof {
                    assert(spans(r@).drop_last() =~= spans(r@).take(r@.len() - 1));
                    lemma_runs_list(spans(r@));
                }
                last.first_index as usize + (last.end - last.start) as usize + 1
            },
            Coverage::Sorted(s) => s.len(),
        }
    }

    pub fn is_empty(&self) -> (r: bool)
        requires
            self.wf(),
        ensures
            r == (self@.len() == 0),
            r == (*self is Empty),
    {
        proof {
            if let Coverage::Ranges(r) = self {
                lemma_runs_list(spans(r@));
            }
        }
        match self {
            Coverage::Empty => true,
            _ => false,
        }
    }

    #[inline]
    pub fn contains(&self, g: u32) -> (r: bool)
        requires
            self.wf(),
        ensures
            r == self@.contains(g),
    {
        match self {
            Coverage::Empty => false,
            Coverage::Range { first, len } => in_run(*first, *len, g),
            Coverage::Bitmap { base, words, rank } => {
                proof {
                    lemma_bitmap_contains(words@, *base as int, g);
                }
                if g < *base {
                    false
                } else {
                    bitmap_test(words, g - *base)
                }
            },
            Coverage::Ranges(r) => {
                proof {
                    lemma_runs_contain(spans(r@), g);
                }
                find_range(r, g).is_some()
            },
            Coverage::Sorted(s) => {
                let found = search_sorted(s, g);
                found.is_some()
            },
        }
    }

    /// The coverage index of `g`, or `None` if not covered.
    #[inline]
    pub fn index(&self, g: u32) -> (r: Option<u32>)
        requires
            self.wf(),
        ensures
            r is Some <==> self@.contains(g),
            r matches Some(i) ==> i < self@.len() && self@[i as int] == g,
    {
        match self {
            Coverage::Empty => None,
            Coverage::Range { first, len } => {
                if in_run(*first, *len, g) {
                    Some(g - *first)
                } else {
                    None
                }
            },
            Coverage::Bitmap { base, words, rank } => {
                proof {
                    lemma_bitmap_contains(words@, *base as int, g);
                }
                if g < *base || !bitmap_test(words, g - *base) {
                    return None;
                }
                let o: u32 = g - *base;
                let w: usize = (o / 64) as usize;
                let b: u32 = o % 64;
                let word: u64 = words[w];
                proof {
                    let n = (words@.len() * 64) as nat;
                    lemma_bitmap_at(words@, *base as int, o as int, n);
                    lemma_bitmap_count(words@, *base as int, w as int, b as nat);
                    lemma_bitmap_list(words@, *base as int, n);
                    let at = bitmap_list(words@, *base as int, o as nat).len() as int;
                    lemma_ascending_span(self@, at);
                    lemma_mask_below(word, b as int, 0);
                    let masked = word & (((1u64 << (b as u64)) - 1) as u64);
                    assert forall|i: int| 0 <= i < 64 implies #[trigger] bit(masked, i) == (bit(
                        word,
                        i,
                    ) && i < b) by {
                        lemma_mask_below(word, b as int, i);
                    }
                    lemma_ones_agree(masked, word, b as nat);
                    lemma_ones_above(masked, b as nat, 64);
                }
                // Rank of this bit: whole words below it, plus set bits below
                // it within its own word.
                let below: u32 = (word & ((1u64 << b) - 1)).count_ones();
                Some(rank[w] + below)
            },
            Coverage::Ranges(r) => {
                proof {
                    lemma_runs_contain(spans(r@), g);
                }
                match find_range(r, g) {
                    None => None,
                    Some(i) => {
                        let c: CovRange = r[i];
                        proof {
                            lemma_runs_at(spans(r@), i as int, g);
                            lemma_runs_list(spans(r@));
                            let at = c.first_index + (g - c.start);
                            lemma_ascending_span(self@, at);
                        }
                        Some(c.first_index + (g - c.start))
                    },
                }
            },
            Coverage::Sorted(s) => {
                match search_sorted(s, g) {
                    None => None,
                    Some(i) => {
                        proof {
                            lemma_ascending_span(s@, i as int);
                        }
                        Some(i as u32)
                    },
                }
            },
        }
    }

    /// Heap bytes held, for budget accounting.
    pub fn heap_bytes(&self) -> (n: usize)
        requires
            self.wf(),
        ensures
            n == self.bytes(),
    {
        match self {
            Coverage::Empty => 0,
            Coverage::Range { first, len } => 0,
            Coverage::Bitmap { base, words, rank } => words.len() * 8 + rank.len() * 4,
            Coverage::Ranges(r) => r.len() * 12,
            Coverage::Sorted(s) => s.len() * 4,
        }
    }

    /// Append every covered glyph, ascending, to `out`.
    pub fn extend_into(&self, out: &mut Vec<u32>)
        requires
            self.wf(),
            !self.ends_at_the_last_id(),
        ensures
            final(out)@ == old(out)@ + self@,
    {
        match self {
            Coverage::Empty => {
                assert(out@ =~= old(out)@ + self@);
            },
            Coverage::Range { first, len } => extend_run(*first, *first + *len - 1, out),
            Coverage::Bitmap { base, words, rank } => extend_bitmap(words, *base, out),
            Coverage::Ranges(r) => {
                let mut i: usize = 0;
                assert(out@ =~= old(out)@ + runs_list(spans(r@).take(0)));
                while i < r.len()
                    invariant
                        i <= r@.len(),
                        runs_in_order(spans(r@)),
                        out@ == old(out)@ + runs_list(spans(r@).take(i as int)),
                    decreases r@.len() - i,
                {
                    assert(spans(r@)[i as int].0 <= spans(r@)[i as int].1);
                    extend_run(r[i].start, r[i].end, out);
                    proof {
                        assert(spans(r@).take(i + 1).drop_last() =~= spans(r@).take(i as int));
                        assert(out@ =~= old(out)@ + runs_list(spans(r@).take(i + 1)));
                    }
                    i += 1;
                }
                assert(spans(r@).take(i as int) =~= spans(r@));
            },
            Coverage::Sorted(s) => extend_list(s, out),
        }
    }

    /// Rebuild as a membership-only set, dropping the index.
    pub fn to_set(&self) -> (r: GlyphSet)
        requires
            self.wf(),
            !self.ends_at_the_last_id(),
            compilable(self@),
        ensures
            r.wf(),
            r@ == self@,
            r is Empty <==> self@.len() == 0,
            r is Range <==> one_run(self@),
            self@.len() > 0 && !one_run(self@) ==> r.has_form(
                picked(set_candidates(self@), DEFAULT_BUDGET, SLACK),
            ),
            r.bytes() == set_size(self@, DEFAULT_BUDGET),
    {
        let v = self.to_vec();
        GlyphSet::build(&v)
    }

    /// Convenience for tests and tools; allocates.
    pub fn to_vec(&self) -> (v: Vec<u32>)
        requires
            self.wf(),
            !self.ends_at_the_last_id(),
        ensures
            v@ == self@,
    {
        let mut v: Vec<u32> = Vec::with_capacity(self.len());
        self.extend_into(&mut v);
        assert(v@ =~= self@);
        v
    }
}

/// The rank table of a bitmap.
fn rank_of(words: &[u64], base: u32) -> (rank: Vec<u32>)
    requires
        bitmap_list(words@, base as int, (words@.len() * 64) as nat).len() <= u32::MAX,
    ensures
        ranked(words@, base as int, rank@),
{
    let mut rank: Vec<u32> = Vec::with_capacity(words.len());
    let mut acc: u32 = 0;
    let mut w: usize = 0;
    while w < words.len()
        invariant
            w <= words@.len(),
            bitmap_list(words@, base as int, (words@.len() * 64) as nat).len() <= u32::MAX,
            acc == bitmap_list(words@, base as int, (w * 64) as nat).len(),
            rank@.len() == w,
            forall|k: int|
                0 <= k < w ==> #[trigger] rank@[k] == bitmap_list(
                    words@,
                    base as int,
                    (k * 64) as nat,
                ).len(),
        decreases words@.len() - w,
    {
        proof {
            lemma_bitmap_count(words@, base as int, w as int, 64);
            lemma_bitmap_prefix(
                words@,
                base as int,
                (w * 64 + 64) as nat,
                (words@.len() * 64) as nat,
            );
        }
        rank.push(acc);
        acc += words[w].count_ones();
        w += 1;
    }
    rank
}

/// The maximal runs of an ascending list, each with the index of its start.
fn to_ranges(glyphs: &[u32]) -> (out: Vec<CovRange>)
    requires
        ascending(glyphs@),
    ensures
        runs_in_order(spans(out@)),
        runs_list(spans(out@)) == glyphs@,
        indexed(out@),
        out@.len() == run_count(glyphs@),
{
    let runs = runs_of(glyphs);
    let total: usize = glyphs.len();
    let mut out: Vec<CovRange> = Vec::with_capacity(runs.len());
    let mut i: usize = 0;
    let mut at: usize = 0;
    while i < runs.len()
        invariant
            i <= runs@.len(),
            runs_in_order(runs@),
            runs_list(runs@) == glyphs@,
            total == glyphs@.len(),
            ascending(glyphs@),
            out@.len() == i,
            spans(out@) == runs@.take(i as int),
            at == runs_list(runs@.take(i as int)).len(),
            indexed(out@),
        decreases runs@.len() - i,
    {
        let (start, end) = runs[i];
        let ghost before = out@;
        proof {
            lemma_runs_at(runs@, i as int, start);
            lemma_runs_at(runs@, i as int, end);
            lemma_ascending_span(glyphs@, at as int);
        }
        out.push(CovRange { start, end, first_index: at as u32 });
        proof {
            assert(runs@.take(i + 1).drop_last() =~= runs@.take(i as int));
            assert(spans(out@) =~= runs@.take(i + 1));
            assert forall|k: int| 0 <= k < out@.len() implies (#[trigger] out@[k]).first_index
                == runs_list(spans(out@).take(k)).len() by {
                if k < before.len() {
                    assert(spans(out@).take(k) =~= spans(before).take(k));
                    assert(out@[k] == before[k]);
                } else {
                    assert(spans(out@).take(k) =~= runs@.take(i as int));
                }
            }
        }
        at = at + (end - start) as usize + 1;
        i += 1;
    }
    assert(runs@.take(i as int) =~= runs@);
    out
}

/// The run that holds `g`, by binary search.
#[inline]
fn find_range(ranges: &[CovRange], g: u32) -> (r: Option<usize>)
    requires
        runs_in_order(spans(ranges@)),
    ensures
        r matches Some(i) ==> i < ranges@.len() && spans(ranges@)[i as int].0 <= g <= spans(ranges@)[i as int].1,
        r is None ==> forall|i: int|
            0 <= i < ranges@.len() ==> !((#[trigger] spans(ranges@)[i]).0 <= g <= spans(ranges@)[i].1),
{
    let mut lo: usize = 0;
    let mut hi: usize = ranges.len();
    while lo < hi
        invariant
            lo <= hi <= ranges@.len(),
            runs_in_order(spans(ranges@)),
            forall|i: int| 0 <= i < lo ==> (#[trigger] spans(ranges@)[i]).1 < g,
            forall|i: int| hi <= i < ranges@.len() ==> g < (#[trigger] spans(ranges@)[i]).0,
        decreases hi - lo,
    {
        let mid: usize = lo + (hi - lo) / 2;
        let c: CovRange = ranges[mid];
        assert(spans(ranges@)[mid as int] == (c.start, c.end));
        if g < c.start {
            hi = mid;
        } else if g > c.end {
            lo = mid + 1;
        } else {
            return Some(mid);
        }
    }
    None
}

/// The members of a set are in order, each once, whatever its form.
pub proof fn a_sets_members_are_in_order(s: &GlyphSet)
    requires
        s.wf(),
    ensures
        ascending(s@),
{
    match s {
        GlyphSet::Bitmap { base, words } => {
            lemma_bitmap_list(words@, *base as int, (words@.len() * 64) as nat);
        },
        GlyphSet::Ranges(r) => {
            lemma_runs_list(r@);
        },
        _ => {},
    }
}

/// The glyphs of a coverage are in order, so each has one index.
pub proof fn lemma_coverage_in_order(c: &Coverage)
    requires
        c.wf(),
    ensures
        ascending(c@),
{
    match c {
        Coverage::Bitmap { base, words, rank } => {
            lemma_bitmap_list(words@, *base as int, (words@.len() * 64) as nat);
        },
        Coverage::Ranges(r) => {
            lemma_runs_list(spans(r@));
        },
        _ => {},
    }
}

/// Whatever form each was given, two coverages of one list give every glyph
/// the same index, and a set of that list has exactly the same members.
pub proof fn every_form_agrees(a: Coverage, b: Coverage, s: GlyphSet, glyphs: Seq<u32>, g: u32, i: u32, j: u32)
    requires
        a.wf(),
        b.wf(),
        s.wf(),
        a@ == glyphs,
        b@ == glyphs,
        s@ == glyphs,
        i < a@.len() && a@[i as int] == g,
        j < b@.len() && b@[j as int] == g,
    ensures
        i == j,
        s@.contains(g),
{
    lemma_coverage_in_order(&a);
    assert(s@[i as int] == g);
}

/// What a set takes follows from its form: nothing for a run, eight bytes for
/// each sixty-four ids of a bitmap's span and for each of some ranges, and four for
/// each id of a list; a coverage takes four more for each word or range, to find
/// places by.
pub proof fn a_form_takes_its_own_bytes(s: &GlyphSet, n: usize, c: &Coverage, m: usize)
    requires
        s.wf(),
        c.wf(),
        call_ensures(GlyphSet::heap_bytes, (s,), n),
        call_ensures(Coverage::heap_bytes, (c,), m),
    ensures
        *s is Empty || *s is Range ==> n == 0,
        *s is Bitmap ==> n == 8 * s->Bitmap_words@.len(),
        *s is Ranges ==> n == 8 * s->Ranges_0@.len(),
        *s is Sorted ==> n == 4 * s->Sorted_0@.len(),
        *c is Empty || *c is Range ==> m == 0,
        *c is Bitmap ==> m == 8 * c->Bitmap_words@.len() + 4 * c->Bitmap_rank@.len(),
        *c is Ranges ==> m == 12 * c->Ranges_0@.len(),
        *c is Sorted ==> m == 4 * c->Sorted_0@.len(),
{
}

} // verus!
