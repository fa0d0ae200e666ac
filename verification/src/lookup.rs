//! Compiled lookups.
//!
//! **Compile the index, borrow the payload.** Coverage and class tables are
//! probed for every glyph, so they are worth compiling into a fast owned form.
//! Substitute arrays, ligature sets, value records and anchors are read only
//! when a lookup actually applies; they stay in the font, and a byte offset to
//! them is kept.
//!
//! Every offset here is relative to the start of the layout table, which the
//! caller supplies again at apply time, so the compiled form carries no
//! lifetime.

use std::sync::Arc;
use vstd::prelude::*;

use crate::bytes::U16Array;
use crate::class_map::ClassMap;
use crate::digest::{a_digest_admits_its_glyphs, words_of, Digest};
use crate::glyphs::{ascending, lemma_ascending_span, run};
use crate::order::{lemma_ordered, ordered, put_in_order, same_members};
use crate::pick::{picked, DEFAULT_BUDGET, SLACK};
use crate::set::{
    compilable, lemma_coverage_in_order, one_run, set_candidates, set_size, Coverage, GlyphSet,
};
use crate::summary::{RuleIndex, SetDigests};

verus! {

/// What a mark attaches to, which decides both how to find the target and how
/// its anchors are laid out.
#[derive(Copy, Clone, PartialEq, Eq, Debug, Structural)]
pub enum AttachTo {
    /// A letter, found by looking past any intervening marks.
    Base,
    /// The mark immediately before, which is what stacks diacritics.
    Mark,
    /// A ligature, whose anchors are per component.
    Ligature,
}

/// "Apply lookup `lookup_index` at input position `seq_index`."
#[derive(Copy, Clone, Debug, PartialEq, Eq, Structural)]
pub struct SeqRecord {
    pub seq_index: u16,
    pub lookup_index: u16,
}

/// What one format of subtable keeps beyond its gate.
#[derive(Clone, Debug, PartialEq, Eq)]
pub enum SubtableKind {
    /// The substitute is `(glyph + delta) & 0xFFFF`.
    SingleDelta { delta: i32 },
    /// Substitute glyph ids stay in the font; applying is one indexed read at
    /// the coverage index.
    SingleList { subst: U16Array },
    /// Ligature sets stay in the font in their entirety.
    Ligature {
        /// Offset of the subtable within the layout table. Ligature set
        /// offsets follow its six-byte header.
        offset: u32,
    },
    /// One glyph becomes a sequence, which stays in the font.
    Multiple { offset: u32 },
    /// One value record per covered glyph, or one shared by all of them.
    SinglePos {
        /// Which fields each record carries.
        value_format: u16,
        /// Offset of the record, or of the array of them.
        values: u32,
        /// Format 1 shares a single record; format 2 indexes by coverage.
        shared: bool,
    },
    /// Pair positioning, format 1: the pairs are listed explicitly.
    PairPos1 {
        /// One word per pair set: which glyphs its first glyph pairs with.
        seconds: SetDigests,
        offset: u32,
        first_format: u16,
        second_format: u16,
    },
    /// Pair positioning, format 2: a class matrix. The classes are compiled
    /// because every probe reads them; the matrix itself stays in the font.
    PairPos2 {
        /// One word per first-class row: which second classes that row has a
        /// non-zero record for.
        rows: SetDigests,
        class1: Arc<ClassMap>,
        class2: Arc<ClassMap>,
        /// Offset of the first class-1 record.
        matrix: u32,
        first_format: u16,
        second_format: u16,
        class2_count: u16,
    },
    /// Joins a glyph's entry anchor to the previous glyph's exit anchor.
    Cursive {
        /// Offset of the entry/exit record array.
        records: u32,
        /// What the anchor offsets inside those records are relative to.
        base: u32,
        count: u16,
    },
    /// One of several variants, chosen by the feature's value.
    Alternate { offset: u32 },
    /// Mark attachment. What is compiled is the outer gate: a mark either
    /// starts an attachment here or it does not.
    MarkTo {
        /// Offset of the subtable itself.
        offset: u32,
        /// What the marks attach to.
        to: AttachTo,
    },
    /// Rule-based context: sequence and chained-sequence contexts, formats 1
    /// and 2. They differ only in how a position is compared -- against a glyph
    /// id or against a class -- and in whether the rule carries backtrack and
    /// lookahead. The rules themselves stay in the font.
    Rules {
        /// `None` means the rule compares glyph ids directly.
        input_classes: Option<Arc<ClassMap>>,
        backtrack_classes: Option<Arc<ClassMap>>,
        lookahead_classes: Option<Arc<ClassMap>>,
        /// Offset of the rule-set offset array.
        rule_sets: u32,
        /// What those offsets are relative to: the subtable itself.
        base: u32,
        rule_set_count: u16,
        /// One word per rule set.
        index: Box<RuleIndex>,
        /// Whether rules carry backtrack and lookahead sequences.
        chained: bool,
    },
    /// Sequence context, format 3. Every coverage here is a pure membership
    /// test.
    ChainCtx3 {
        /// Offset of the subtable itself.
        offset: u32,
        /// Nearest preceding glyph first.
        backtrack: Vec<Arc<GlyphSet>>,
        /// The input coverages after the first, which gates.
        input: Vec<Arc<GlyphSet>>,
        lookahead: Vec<Arc<GlyphSet>>,
        records: Vec<SeqRecord>,
        /// Whether this came from a chained format rather than a plain one.
        /// They part company on how a match is reported, and a chained context
        /// with empty backtrack and lookahead is legal.
        chained: bool,
    },
    /// Reverse chaining single substitution: a single-glyph input with a context
    /// on both sides, run from the end of the buffer towards the start.
    ReverseChain {
        /// Nearest preceding glyph first.
        backtrack: Vec<Arc<GlyphSet>>,
        /// Nearest following glyph first.
        lookahead: Vec<Arc<GlyphSet>>,
        subst: U16Array,
    },
}

/// Every set in a list is as built.
pub open spec fn sets_wf(sets: Seq<Arc<GlyphSet>>) -> bool {
    forall|i: int| 0 <= i < sets.len() ==> (#[trigger] sets[i]).wf()
}

/// The space one shared pointer takes.
pub open spec fn pointer() -> nat {
    vstd::layout::size_of::<Arc<Coverage>>()
}

/// The space one shared pointer to a set takes.
pub open spec fn set_pointer() -> nat {
    vstd::layout::size_of::<Arc<GlyphSet>>()
}

impl SubtableKind {
    pub open spec fn wf(&self) -> bool {
        match *self {
            SubtableKind::PairPos1 { seconds, .. } => seconds.wf(),
            SubtableKind::PairPos2 { rows, class1, class2, .. } => rows.wf() && class1.wf()
                && class2.wf(),
            SubtableKind::Rules { input_classes, backtrack_classes, lookahead_classes, index, .. } => {
                &&& index.digests.wf()
                &&& input_classes matches Some(c) ==> c.wf()
                &&& backtrack_classes matches Some(c) ==> c.wf()
                &&& lookahead_classes matches Some(c) ==> c.wf()
            },
            SubtableKind::ChainCtx3 { backtrack, input, lookahead, .. } => sets_wf(backtrack@)
                && sets_wf(input@) && sets_wf(lookahead@),
            SubtableKind::ReverseChain { backtrack, lookahead, .. } => sets_wf(backtrack@) && sets_wf(
                lookahead@,
            ),
            _ => true,
        }
    }

    /// Heap bytes a kind owns.
    pub open spec fn bytes(&self) -> nat {
        match *self {
            SubtableKind::PairPos1 { seconds, .. } => seconds.slots@.len() * 8,
            SubtableKind::PairPos2 { rows, .. } => pointer() * 2 + rows.slots@.len() * 8,
            SubtableKind::Rules { index, .. } => pointer() * 3 + index.digests.slots@.len() * 8,
            SubtableKind::MarkTo { .. } => pointer(),
            SubtableKind::ChainCtx3 { backtrack, input, lookahead, records, .. } => backtrack@.len()
                * set_pointer() + input@.len() * set_pointer() + lookahead@.len() * set_pointer()
                + records@.len() * vstd::layout::size_of::<SeqRecord>(),
            SubtableKind::ReverseChain { backtrack, lookahead, .. } => backtrack@.len() * set_pointer()
                + lookahead@.len() * set_pointer(),
            _ => 0,
        }
    }

    /// Heap bytes the kind owns, beyond its gate and its pair key.
    pub fn heap_bytes(&self) -> (n: usize)
        requires
            self.wf(),
            self.bytes() <= usize::MAX,
        ensures
            n == self.bytes(),
    {
        let shared: usize = core::mem::size_of::<Arc<Coverage>>();
        let set: usize = core::mem::size_of::<Arc<GlyphSet>>();
        let record: usize = core::mem::size_of::<SeqRecord>();
        match self {
            SubtableKind::PairPos1 { seconds, .. } => seconds.heap_bytes(),
            SubtableKind::PairPos2 { rows, .. } => shared * 2 + rows.heap_bytes(),
            SubtableKind::Rules { index, .. } => shared * 3 + index.heap_bytes(),
            SubtableKind::MarkTo { .. } => shared,
            SubtableKind::ChainCtx3 { backtrack, input, lookahead, records, .. } => {
                backtrack.len() * set + input.len() * set + lookahead.len() * set + records.len()
                    * record
            },
            SubtableKind::ReverseChain { backtrack, lookahead, .. } => {
                backtrack.len() * set + lookahead.len() * set
            },
            _ => 0,
        }
    }
}

/// One subtable, split into what every format has and what only one does.
///
/// Every format is gated by a coverage: a glyph either starts a match here or
/// it does not.
#[derive(Clone, Debug, PartialEq, Eq)]
pub struct Subtable {
    /// What decides whether this subtable can start at a glyph.
    pub cov: Arc<Coverage>,
    /// What may occupy the position after the start, when the format says
    /// anything about it.
    pub next: Option<Arc<GlyphSet>>,
    /// Whether the *index* into that coverage is used, or only membership.
    pub rank: bool,
    pub kind: SubtableKind,
}

/// What a gate answers for a glyph: its position in the coverage where the
/// format reads it, zero where it only needs to know that the glyph is covered.
pub open spec fn gate_answers(cov: Coverage, rank: bool, g: u32, r: Option<u32>) -> bool {
    &&& r is Some <==> cov@.contains(g)
    &&& r matches Some(i) ==> if rank {
        i < cov@.len() && cov@[i as int] == g
    } else {
        i == 0
    }
}

/// What a coverage answers, read this way. The two shapes that answer without a
/// search come first.
#[inline]
fn gate_for(cov: &Coverage, rank: bool, g: u32) -> (r: Option<u32>)
    requires
        cov.wf(),
    ensures
        gate_answers(*cov, rank, g, r),
{
    if rank {
        cov.index(g)
    } else if cov.contains(g) {
        Some(0)
    } else {
        None
    }
}

impl Subtable {
    pub open spec fn wf(&self) -> bool {
        &&& self.cov.wf()
        &&& !self.cov.ends_at_the_last_id()
        &&& self.next matches Some(n) ==> n.wf() && !n.ends_at_the_last_id()
        &&& self.kind.wf()
    }

    /// Heap bytes a subtable owns.
    pub open spec fn bytes(&self) -> nat {
        pointer() + (if self.next is Some {
            pointer()
        } else {
            0
        }) + self.kind.bytes()
    }

    /// A subtable whose coverage index is read, not just tested.
    pub fn ranked(cov: Arc<Coverage>, kind: SubtableKind) -> (r: Subtable)
        ensures
            r.cov == cov,
            r.kind == kind,
            r.next is None,
            r.rank,
    {
        Subtable { cov, next: None, rank: true, kind }
    }

    /// A subtable that only asks whether the glyph is covered.
    pub fn member(cov: Arc<Coverage>, kind: SubtableKind) -> (r: Subtable)
        ensures
            r.cov == cov,
            r.kind == kind,
            r.next is None,
            !r.rank,
    {
        Subtable { cov, next: None, rank: false, kind }
    }

    /// Record what may follow the starting position.
    pub fn following(self, next: Option<Arc<GlyphSet>>) -> (r: Subtable)
        ensures
            r.cov == self.cov,
            r.kind == self.kind,
            r.rank == self.rank,
            r.next == next,
    {
        Subtable { cov: self.cov, next, rank: self.rank, kind: self.kind }
    }

    /// Whether this subtable can start at `glyph`, and where in its coverage.
    #[inline]
    pub fn gate(&self, glyph: u32) -> (r: Option<u32>)
        requires
            self.wf(),
        ensures
            gate_answers(*self.cov, self.rank, glyph, r),
    {
        gate_for(&self.cov, self.rank, glyph)
    }

    /// Append every glyph this subtable can match at the starting position.
    fn extend_reach(&self, out: &mut Vec<u32>)
        requires
            self.wf(),
        ensures
            final(out)@ == old(out)@ + self.cov@,
    {
        self.cov.extend_into(out)
    }

    /// Heap bytes this subtable owns.
    ///
    /// Excludes two things by design: whatever stayed in the font, and whatever
    /// is shared through the interner. A subtable holding a shared table is
    /// charged for the pointer.
    pub fn heap_bytes(&self) -> (n: usize)
        requires
            self.wf(),
            self.bytes() <= usize::MAX,
        ensures
            n == self.bytes(),
    {
        let shared: usize = core::mem::size_of::<Arc<Coverage>>();
        let pair: usize = if self.next.is_some() {
            shared
        } else {
            0
        };
        shared + pair + self.kind.heap_bytes()
    }
}

/// Every subtable is as built.
pub open spec fn subtables_wf(subs: Seq<Subtable>) -> bool {
    forall|i: int| 0 <= i < subs.len() ==> (#[trigger] subs[i]).wf()
}

/// What the subtables cover, one after another.
pub open spec fn all_reach(subs: Seq<Subtable>) -> Seq<u32>
    decreases subs.len(),
{
    if subs.len() == 0 {
        seq![]
    } else {
        all_reach(subs.drop_last()) + subs.last().cov@
    }
}

/// Every glyph a lookup could apply at, in order.
pub open spec fn reach_list(subs: Seq<Subtable>) -> Seq<u32> {
    ordered(all_reach(subs))
}

/// What may follow the start of each subtable, one after another.
pub open spec fn all_next(subs: Seq<Subtable>) -> Seq<u32>
    decreases subs.len(),
{
    if subs.len() == 0 {
        seq![]
    } else {
        all_next(subs.drop_last()) + (match subs.last().next {
            Some(n) => n@,
            None => seq![],
        })
    }
}

/// Whether every subtable, of at least one, constrains what follows a start.
pub open spec fn pair_keyed(subs: Seq<Subtable>) -> bool {
    subs.len() > 0 && forall|i: int| 0 <= i < subs.len() ==> (#[trigger] subs[i]).next is Some
}

/// Whether a subtable has to run from the end towards the start.
pub open spec fn runs_backward(subs: Seq<Subtable>) -> bool {
    exists|i: int| 0 <= i < subs.len() && (#[trigger] subs[i]).kind is ReverseChain
}

/// A glyph is covered where a subtable covers it.
pub proof fn lemma_reach(subs: Seq<Subtable>, g: u32)
    ensures
        all_reach(subs).contains(g) <==> exists|i: int|
            0 <= i < subs.len() && (#[trigger] subs[i]).cov@.contains(g),
    decreases subs.len(),
{
    if subs.len() > 0 {
        let less = subs.drop_last();
        let last = subs.last().cov@;
        let all = all_reach(subs);
        lemma_reach(less, g);
        if all.contains(g) {
            let k = choose|k: int| 0 <= k < all.len() && all[k] == g;
            if k < all_reach(less).len() {
                assert(all_reach(less)[k] == g);
                let i = choose|i: int| 0 <= i < less.len() && (#[trigger] less[i]).cov@.contains(g);
                assert(subs[i].cov@.contains(g));
            } else {
                assert(last[k - all_reach(less).len()] == g);
                assert(subs[subs.len() - 1].cov@.contains(g));
            }
        }
        if exists|i: int| 0 <= i < subs.len() && (#[trigger] subs[i]).cov@.contains(g) {
            let i = choose|i: int| 0 <= i < subs.len() && (#[trigger] subs[i]).cov@.contains(g);
            if i < less.len() {
                assert(less[i].cov@.contains(g));
                let k = choose|k: int| 0 <= k < all_reach(less).len() && all_reach(less)[k] == g;
                assert(all[k] == g);
            } else {
                let k = choose|k: int| 0 <= k < last.len() && last[k] == g;
                assert(all[all_reach(less).len() + k] == g);
            }
        }
    }
}

/// An ascending list of members of another is no longer than it.
proof fn lemma_no_longer(s: Seq<u32>, t: Seq<u32>)
    requires
        ascending(s),
        same_members(s, t),
    ensures
        s.len() <= t.len(),
{
    assert(s.no_duplicates());
    s.unique_seq_to_set();
    t.lemma_cardinality_of_set();
    assert(s.to_set() =~= t.to_set()) by {
        assert forall|x: u32| s.to_set().contains(x) <==> t.to_set().contains(x) by {
            assert(s.contains(x) <==> t.contains(x));
        }
    }
}

/// The subtables among the first `n` that can start at a glyph, in order.
pub open spec fn row_list(subs: Seq<Subtable>, g: u32, n: nat) -> Seq<u16>
    decreases n,
{
    if n == 0 {
        seq![]
    } else if subs[n - 1].cov@.contains(g) {
        row_list(subs, g, (n - 1) as nat).push((n - 1) as u16)
    } else {
        row_list(subs, g, (n - 1) as nat)
    }
}

/// Below this many subtables the linear walk is cheaper than the indirection.
pub const DISPATCH_MIN_SUBTABLES: usize = 4;

/// Cap on the index's size, in (glyph, subtable) pairs.
pub const DISPATCH_MAX_ENTRIES: usize = 4096;

/// How much wider than the glyphs it covers a span-indexed row table may be
/// before ranking is worth its cost.
pub const DISPATCH_SPAN_SLACK: usize = 2;

/// Whether an index over these subtables is worth its memory: enough of them,
/// few enough pairs, and rows that are short against the list.
pub open spec fn indexable(subs: Seq<Subtable>) -> bool {
    &&& DISPATCH_MIN_SUBTABLES <= subs.len() <= 0xffff
    &&& 0 < all_reach(subs).len() <= DISPATCH_MAX_ENTRIES
    &&& all_reach(subs).len() * 2 <= reach_list(subs).len() * subs.len()
}

/// Which subtables of a lookup can start at a given glyph.
///
/// A lookup tries its subtables in order and takes the first that applies. A
/// subtable's reach is exactly what gates it, so this inverts the question once
/// -- glyph to subtables, rather than subtable to glyphs.
#[derive(Clone, Debug, PartialEq, Eq)]
pub struct Dispatch {
    /// Turns a glyph into a row of `starts`.
    pub cov: Coverage,
    /// Where each row starts, with a terminator.
    pub starts: Vec<u32>,
    /// Subtable indices, ascending within each glyph's list.
    pub subs: Vec<u16>,
}

/// The glyphs that have a row: the whole span where the union is nearly
/// contiguous, which answers with a subtract; else the union.
pub open spec fn row_glyphs(union: Seq<u32>) -> Seq<u32> {
    if union.last() - union[0] + 1 <= union.len() * DISPATCH_SPAN_SLACK {
        run(union[0], union.last())
    } else {
        union
    }
}

impl Dispatch {
    pub open spec fn wf(&self) -> bool {
        &&& self.cov.wf()
        &&& self.starts@.len() == self.cov@.len() + 1
        &&& forall|r: int|
            0 <= r < self.cov@.len() ==> #[trigger] self.starts@[r] <= self.starts@[r + 1]
                <= self.subs@.len()
    }

    /// The row of a glyph: nothing where it has none.
    pub open spec fn row_of(&self, g: u32) -> Seq<u16> {
        if self.cov@.contains(g) {
            let r = self.cov@.index_of(g);
            self.subs@.subrange(self.starts@[r] as int, self.starts@[r + 1] as int)
        } else {
            seq![]
        }
    }

    /// Whether this is the index of some subtables.
    pub open spec fn indexes(&self, subs: Seq<Subtable>) -> bool {
        &&& self.wf()
        &&& subs.len() <= 0xffff
        &&& self.cov@ == row_glyphs(reach_list(subs))
        &&& forall|g: u32| #[trigger] self.row_of(g) == row_list(subs, g, subs.len())
    }

    fn build(subtables: &[Subtable], union: &[u32]) -> (r: Option<Dispatch>)
        requires
            subtables_wf(subtables@),
            union@ == reach_list(subtables@),
            ascending(union@),
            same_members(union@, all_reach(subtables@)),
            compilable(union@),
        ensures
            r is Some <==> indexable(subtables@),
            r matches Some(d) ==> d.indexes(subtables@),
    {
        let n: usize = subtables.len();
        if n < DISPATCH_MIN_SUBTABLES || n > 0xffff {
            return None;
        }
        let mut total: usize = 0;
        let mut t: usize = 0;
        while t < n
            invariant
                t <= n,
                n == subtables@.len(),
                subtables_wf(subtables@),
                total == all_reach(subtables@.take(t as int)).len(),
                total <= DISPATCH_MAX_ENTRIES,
            decreases n - t,
        {
            let len: usize = subtables[t].cov.len();
            proof {
                assert(subtables@.take(t + 1).drop_last() =~= subtables@.take(t as int));
                lemma_reach_grows(subtables@, t + 1);
            }
            if len > DISPATCH_MAX_ENTRIES || total + len > DISPATCH_MAX_ENTRIES {
                return None;
            }
            total = total + len;
            t += 1;
        }
        assert(subtables@.take(t as int) =~= subtables@);
        proof {
            lemma_no_longer(union@, all_reach(subtables@));
        }
        if union.len() == 0 {
            proof {
                if total > 0 {
                    assert(all_reach(subtables@).contains(all_reach(subtables@)[0]));
                    assert(union@.contains(all_reach(subtables@)[0]));
                }
            }
            return None;
        }
        assert(total > 0);
        assert(0 <= union@.len() * n <= 4096 * 0xffff) by (nonlinear_arith)
            requires
                union@.len() <= 4096,
                n <= 0xffff,
        ;
        if total * 2 > union.len() * n {
            return None;
        }
        let base: u32 = union[0];
        let last: u32 = union[union.len() - 1];
        proof {
            lemma_ascending_span(union@, union@.len() - 1);
        }
        let span: u32 = last - base + 1;
        let cov = if span as usize <= union.len() * DISPATCH_SPAN_SLACK {
            Coverage::Range { first: base, len: span }
        } else {
            Coverage::build(union)
        };
        assert(cov@ =~= row_glyphs(union@));
        proof {
            assert forall|g: u32| union@.contains(g) implies cov@.contains(g) by {
                let k = choose|k: int| 0 <= k < union@.len() && union@[k] == g;
                lemma_ascending_span(union@, k);
                if cov@ == run(base, last) {
                    assert(cov@[g - base] == g);
                }
            }
            assert(ascending(cov@));
        }
        let count: usize = cov.len();
        let rows = fill_rows(subtables, &cov, count);
        flatten_rows(subtables, cov, rows)
    }

    /// The subtables that can start at `glyph`, in the order they must be tried.
    #[inline]
    pub fn row<'a>(&'a self, glyph: u32) -> (r: &'a [u16])
        requires
            self.wf(),
        ensures
            r@ == self.row_of(glyph),
    {
        match self.cov.index(glyph) {
            None => vstd::slice::slice_subrange(self.subs.as_slice(), 0, 0),
            Some(i) => {
                proof {
                    lemma_only_position(*self, glyph, i as int);
                }
                let from: u32 = self.starts[i as usize];
                let to: u32 = self.starts[i as usize + 1];
                vstd::slice::slice_subrange(self.subs.as_slice(), from as usize, to as usize)
            },
        }
    }

    pub open spec fn bytes(&self) -> nat {
        self.cov.bytes() + self.starts@.len() * 4 + self.subs@.len() * 2
    }

    pub fn heap_bytes(&self) -> (n: usize)
        requires
            self.wf(),
            self.bytes() <= usize::MAX,
        ensures
            n == self.bytes(),
    {
        self.cov.heap_bytes() + self.starts.len() * 4 + self.subs.len() * 2
    }
}

/// What more subtables cover is no less.
proof fn lemma_reach_grows(subs: Seq<Subtable>, n: int)
    requires
        0 <= n <= subs.len(),
    ensures
        all_reach(subs.take(n)).len() <= all_reach(subs).len(),
    decreases subs.len() - n,
{
    if n < subs.len() {
        assert(subs.take(n + 1).drop_last() =~= subs.take(n));
        lemma_reach_grows(subs, n + 1);
    } else {
        assert(subs.take(n) =~= subs);
    }
}

/// A covered glyph has one position.
proof fn lemma_only_position(d: Dispatch, g: u32, i: int)
    requires
        d.cov.wf(),
        0 <= i < d.cov@.len(),
        d.cov@[i] == g,
    ensures
        d.cov@.contains(g),
        d.cov@.index_of(g) == i,
{
    lemma_coverage_in_order(&d.cov);
    let k = d.cov@.index_of(g);
    assert(d.cov@[k] == g);
}

/// For each glyph of a coverage, the subtables that can start at it.
fn fill_rows(subtables: &[Subtable], cov: &Coverage, count: usize) -> (rows: Vec<Vec<u16>>)
    requires
        subtables_wf(subtables@),
        subtables@.len() <= 0xffff,
        cov.wf(),
        count == cov@.len(),
        forall|g: u32| all_reach(subtables@).contains(g) ==> cov@.contains(g),
    ensures
        rows@.len() == cov@.len(),
        forall|j: int|
            0 <= j < rows@.len() ==> (#[trigger] rows@[j])@ == row_list(
                subtables@,
                cov@[j],
                subtables@.len(),
            ),
{
    let mut rows: Vec<Vec<u16>> = Vec::new();
    let mut r: usize = 0;
    while r < count
        invariant
            r <= count,
            count == cov@.len(),
            rows@.len() == r,
            forall|j: int| 0 <= j < rows@.len() ==> (#[trigger] rows@[j])@ == Seq::<u16>::empty(),
        decreases count - r,
    {
        rows.push(Vec::new());
        r += 1;
    }
    proof {
        lemma_coverage_in_order(cov);
    }
    let mut i: usize = 0;
    while i < subtables.len()
        invariant
            i <= subtables@.len(),
            subtables@.len() <= 0xffff,
            subtables_wf(subtables@),
            cov.wf(),
            ascending(cov@),
            forall|g: u32| all_reach(subtables@).contains(g) ==> cov@.contains(g),
            rows@.len() == cov@.len(),
            forall|j: int|
                0 <= j < rows@.len() ==> (#[trigger] rows@[j])@ == row_list(subtables@, cov@[j], i as nat),
        decreases subtables@.len() - i,
    {
        let list = subtables[i].cov.to_vec();
        proof {
            lemma_coverage_in_order(&subtables@[i as int].cov);
        }
        let mut k: usize = 0;
        while k < list.len()
            invariant
                k <= list@.len(),
                i < subtables@.len() <= 0xffff,
                list@ == subtables@[i as int].cov@,
                ascending(list@),
                cov.wf(),
                ascending(cov@),
                forall|g: u32| all_reach(subtables@).contains(g) ==> cov@.contains(g),
                rows@.len() == cov@.len(),
                forall|j: int|
                    0 <= j < rows@.len() ==> (#[trigger] rows@[j])@ == (if list@.take(k as int).contains(
                        cov@[j],
                    ) {
                        row_list(subtables@, cov@[j], i as nat).push(i as u16)
                    } else {
                        row_list(subtables@, cov@[j], i as nat)
                    }),
            decreases list@.len() - k,
        {
            let g: u32 = list[k];
            proof {
                assert(subtables@[i as int].cov@.contains(g));
                lemma_reach(subtables@, g);
            }
            let at: u32 = cov.index(g).unwrap();
            let ghost before = rows@;
            rows[at as usize].push(i as u16);
            proof {
                assert forall|j: int| 0 <= j < rows@.len() implies (#[trigger] rows@[j])@ == (if list@.take(
                    k + 1,
                ).contains(cov@[j]) {
                    row_list(subtables@, cov@[j], i as nat).push(i as u16)
                } else {
                    row_list(subtables@, cov@[j], i as nat)
                }) by {
                    let now = list@.take(k + 1);
                    let then = list@.take(k as int);
                    if j == at {
                        assert(now[k as int] == g);
                        if then.contains(g) {
                            let m = choose|m: int| 0 <= m < then.len() && then[m] == g;
                            assert(list@[m] == g);
                        }
                    } else {
                        assert(rows@[j] == before[j]);
                        if now.contains(cov@[j]) {
                            let m = choose|m: int| 0 <= m < now.len() && now[m] == cov@[j];
                            assert(m < k) by {
                                if m == k {
                                    assert(cov@[j] == cov@[at as int]);
                                }
                            }
                            assert(then[m] == cov@[j]);
                        }
                        if then.contains(cov@[j]) {
                            let m = choose|m: int| 0 <= m < then.len() && then[m] == cov@[j];
                            assert(now[m] == cov@[j]);
                        }
                    }
                }
            }
            k += 1;
        }
        assert(list@.take(k as int) =~= list@);
        i += 1;
    }
    rows
}

proof fn lemma_row_len(subs: Seq<Subtable>, g: u32, n: nat)
    ensures
        row_list(subs, g, n).len() <= n,
    decreases n,
{
    if n > 0 {
        lemma_row_len(subs, g, (n - 1) as nat);
    }
}

/// Lay the rows end to end.
fn flatten_rows(subtables: &[Subtable], cov: Coverage, rows: Vec<Vec<u16>>) -> (r: Option<Dispatch>)
    requires
        subtables@.len() <= 0xffff,
        cov.wf(),
        cov@.len() <= 0x2000,
        cov@ == row_glyphs(reach_list(subtables@)),
        rows@.len() == cov@.len(),
        forall|j: int|
            0 <= j < rows@.len() ==> (#[trigger] rows@[j])@ == row_list(
                subtables@,
                cov@[j],
                subtables@.len(),
            ),
        forall|g: u32| all_reach(subtables@).contains(g) ==> cov@.contains(g),
    ensures
        r matches Some(d) && d.indexes(subtables@),
{
    let mut starts: Vec<u32> = Vec::new();
    let mut subs: Vec<u16> = Vec::new();
    let mut j: usize = 0;
    while j < rows.len()
        invariant
            j <= rows@.len(),
            rows@.len() <= 0x2000,
            rows@.len() == cov@.len(),
            subtables@.len() <= 0xffff,
            starts@.len() == j,
            subs@.len() <= j * 0xffff,
            forall|k: int|
                0 <= k < rows@.len() ==> (#[trigger] rows@[k])@ == row_list(
                    subtables@,
                    cov@[k],
                    subtables@.len(),
                ),
            forall|k: int|
                0 <= k < j ==> {
                    let end = if k + 1 < j {
                        starts@[k + 1] as int
                    } else {
                        subs@.len() as int
                    };
                    &&& #[trigger] starts@[k] <= end <= subs@.len()
                    &&& subs@.subrange(starts@[k] as int, end) == rows@[k]@
                },
        decreases rows@.len() - j,
    {
        let ghost before = subs@;
        let ghost before_starts = starts@;
        starts.push(subs.len() as u32);
        let row = &rows[j];
        let mut k: usize = 0;
        assert(subs@ =~= before + row@.take(0));
        while k < row.len()
            invariant
                k <= row@.len(),
                subs@ == before + row@.take(k as int),
            decreases row@.len() - k,
        {
            subs.push(row[k]);
            assert(subs@ =~= before + row@.take(k + 1));
            k += 1;
        }
        proof {
            assert(row@.take(k as int) =~= row@);
            lemma_row_len(subtables@, cov@[j as int], subtables@.len());
            assert forall|k: int| 0 <= k < j + 1 implies {
                let end = if k + 1 < j + 1 {
                    starts@[k + 1] as int
                } else {
                    subs@.len() as int
                };
                &&& #[trigger] starts@[k] <= end <= subs@.len()
                &&& subs@.subrange(starts@[k] as int, end) == rows@[k]@
            } by {
                if k < j {
                    assert(starts@[k] == before_starts[k]);
                    let end = if k + 1 < j {
                        before_starts[k + 1] as int
                    } else {
                        before.len() as int
                    };
                    assert(starts@[k + 1] == end);
                    assert(subs@.subrange(starts@[k] as int, end) =~= before.subrange(
                        before_starts[k] as int,
                        end,
                    ));
                } else {
                    assert(subs@.subrange(before.len() as int, subs@.len() as int) =~= row@);
                }
            }
        }
        j += 1;
    }
    let ghost rows_end = starts@;
    starts.push(subs.len() as u32);
    let d = Dispatch { cov, starts, subs };
    proof {
        assert forall|r: int| 0 <= r < d.cov@.len() implies #[trigger] d.starts@[r] <= d.starts@[r + 1]
            <= d.subs@.len() by {
            assert(d.starts@[r] == rows_end[r]);
        }
        assert forall|g: u32| #[trigger] d.row_of(g) == row_list(subtables@, g, subtables@.len()) by {
            if d.cov@.contains(g) {
                let r = d.cov@.index_of(g);
                assert(d.starts@[r] == rows_end[r]);
                assert(d.row_of(g) =~= rows@[r]@);
            } else {
                lemma_reach(subtables@, g);
                lemma_no_row(subtables@, g, subtables@.len());
            }
        }
    }
    Some(d)
}

proof fn lemma_no_row(subs: Seq<Subtable>, g: u32, n: nat)
    requires
        n <= subs.len(),
        forall|i: int| 0 <= i < subs.len() ==> !(#[trigger] subs[i]).cov@.contains(g),
    ensures
        row_list(subs, g, n) == Seq::<u16>::empty(),
    decreases n,
{
    if n > 0 {
        lemma_no_row(subs, g, (n - 1) as nat);
        assert(!subs[n - 1].cov@.contains(g));
    }
}

/// Whether a lookup can be built over these subtables: what they cover, and
/// what may follow, can each be compiled to a set.
pub open spec fn buildable(subs: Seq<Subtable>) -> bool {
    &&& subtables_wf(subs)
    &&& compilable(reach_list(subs))
    &&& pair_keyed(subs) ==> {
        let next = ordered(all_next(subs));
        &&& !runs_backward(subs)
        &&& compilable(next)
        &&& !(one_run(next) && next.last() == u32::MAX)
    }
}

/// A lookup, resolved into owned filters plus offsets into the font.
#[derive(Clone, Debug)]
pub struct CompiledLookup {
    pub props: u32,
    pub subtables: Vec<Subtable>,
    /// Union of every subtable's coverage: the lookup-level candidate filter.
    /// Tested, never indexed, so it carries no rank table.
    pub reach: GlyphSet,
    /// Three-word summary of `reach`, so a lookup that cannot touch a buffer is
    /// thrown away before the buffer is scanned at all.
    pub digest: Digest,
    /// Three-word summary of what may follow a start, when the formats in this
    /// lookup all constrain it.
    pub pair_digest: Digest,
    /// Glyph-to-subtable index, for lookups with enough subtables to want one.
    pub dispatch: Option<Box<Dispatch>>,
    /// Whether the candidate loop must run from the end of the buffer towards
    /// the start. True only for reverse chaining substitution.
    pub reverse: bool,
}

/// What the subtables own between them.
pub open spec fn subtable_bytes(subs: Seq<Subtable>) -> nat
    decreases subs.len(),
{
    if subs.len() == 0 {
        0
    } else {
        subtable_bytes(subs.drop_last()) + subs.last().bytes()
    }
}

proof fn lemma_subtable_bytes(subs: Seq<Subtable>, n: int)
    requires
        0 <= n <= subs.len(),
    ensures
        subtable_bytes(subs.take(n)) <= subtable_bytes(subs),
    decreases subs.len() - n,
{
    if n < subs.len() {
        assert(subs.take(n + 1).drop_last() =~= subs.take(n));
        lemma_subtable_bytes(subs, n + 1);
    } else {
        assert(subs.take(n) =~= subs);
    }
}

impl CompiledLookup {
    /// What every built lookup keeps.
    pub open spec fn wf(&self) -> bool {
        &&& subtables_wf(self.subtables@)
        &&& self.reach.wf()
        &&& self.reach@ == reach_list(self.subtables@)
        &&& same_members(self.reach@, all_reach(self.subtables@))
        &&& self.digest.words@ == words_of(self.reach@)
        &&& self.reverse == runs_backward(self.subtables@)
        &&& pair_keyed(self.subtables@) ==> self.pair_digest.words@ == words_of(
            ordered(all_next(self.subtables@)),
        )
        &&& !pair_keyed(self.subtables@) ==> self.pair_digest.words@ == seq![
            u64::MAX,
            u64::MAX,
            u64::MAX,
        ]
        &&& self.dispatch matches Some(d) ==> d.indexes(self.subtables@)
    }

    /// Whether the lookup could apply at a glyph: some subtable covers it.
    pub open spec fn reaches(&self, g: u32) -> bool {
        exists|i: int| 0 <= i < self.subtables@.len() && (#[trigger] self.subtables@[i]).cov@.contains(g)
    }

    /// The union set.
    #[inline]
    pub fn reach(&self) -> (r: &GlyphSet)
        ensures
            *r == self.reach,
    {
        &self.reach
    }

    /// Whether this lookup could apply at `glyph`.
    ///
    /// A lookup with one subtable has a reach which *is* that subtable's
    /// coverage, so it asks the coverage and the union set is not consulted.
    #[inline]
    pub fn may_reach(&self, glyph: u32) -> (r: bool)
        requires
            self.wf(),
        ensures
            r == self.reaches(glyph),
    {
        proof {
            lemma_reach(self.subtables@, glyph);
            assert(self.reach@.contains(glyph) <==> all_reach(self.subtables@).contains(glyph));
        }
        if self.subtables.len() == 1 {
            let r = self.subtables[0].cov.contains(glyph);
            proof {
                if r {
                    assert(self.subtables@[0].cov@.contains(glyph));
                }
            }
            r
        } else {
            self.reach.contains(glyph)
        }
    }

    /// Every glyph this lookup could apply at, appended to `out`.
    pub fn reach_into(&self, out: &mut Vec<u32>)
        requires
            self.wf(),
            !self.reach.ends_at_the_last_id(),
        ensures
            final(out)@ == old(out)@ + reach_list(self.subtables@),
    {
        if self.subtables.len() == 1 {
            proof {
                lemma_single_reach(self.subtables@);
            }
            self.subtables[0].cov.extend_into(out)
        } else {
            self.reach.extend_into(out)
        }
    }

    /// How many glyphs it could apply at.
    pub fn reach_len(&self) -> (n: usize)
        requires
            self.wf(),
        ensures
            n == reach_list(self.subtables@).len(),
    {
        if self.subtables.len() == 1 {
            proof {
                lemma_single_reach(self.subtables@);
            }
            self.subtables[0].cov.len()
        } else {
            self.reach.len()
        }
    }

    /// Build with the index, under the default budget.
    pub fn new(props: u32, subtables: Vec<Subtable>) -> (r: CompiledLookup)
        requires
            buildable(subtables@),
        ensures
            r.wf(),
            r.props == props,
            r.subtables == subtables,
            r.dispatch is Some <==> indexable(subtables@),
    {
        CompiledLookup::new_with(props, subtables, true, DEFAULT_BUDGET)
    }

    /// Build, optionally without the glyph-to-subtable dispatch index.
    pub fn new_with(props: u32, subtables: Vec<Subtable>, accelerate: bool, scan_budget: usize) -> (r:
        CompiledLookup)
        requires
            buildable(subtables@),
        ensures
            r.wf(),
            r.props == props,
            r.subtables == subtables,
            r.dispatch is Some <==> accelerate && indexable(subtables@),
            r.reach is Empty <==> reach_list(subtables@).len() == 0,
            r.reach is Range <==> one_run(reach_list(subtables@)),
            reach_list(subtables@).len() > 0 && !one_run(reach_list(subtables@)) ==> r.reach.has_form(
                picked(
                    set_candidates(reach_list(subtables@)),
                    scan_budget,
                    SLACK,
                ),
            ),
            r.reach.bytes() == set_size(reach_list(subtables@), scan_budget),
    {
        let n: usize = subtables.len();
        let mut union: Vec<u32> = Vec::new();
        let mut reverse: bool = false;
        let mut keyed: bool = n > 0;
        let mut i: usize = 0;
        while i < n
            invariant
                i <= n,
                n == subtables@.len(),
                subtables_wf(subtables@),
                union@ == all_reach(subtables@.take(i as int)),
                reverse == exists|k: int| 0 <= k < i && (#[trigger] subtables@[k]).kind is ReverseChain,
                keyed == (n > 0 && forall|k: int| 0 <= k < i ==> (#[trigger] subtables@[k]).next is Some),
            decreases n - i,
        {
            let sub = &subtables[i];
            sub.extend_reach(&mut union);
            proof {
                assert(subtables@.take(i + 1).drop_last() =~= subtables@.take(i as int));
            }
            if let SubtableKind::ReverseChain { .. } = &sub.kind {
                reverse = true;
                assert(subtables@[i as int].kind is ReverseChain);
            }
            if sub.next.is_none() {
                keyed = false;
                assert(subtables@[i as int].next is None);
            }
            i += 1;
        }
        assert(subtables@.take(i as int) =~= subtables@);
        put_in_order(&mut union);
        let reach = GlyphSet::build_with_budget(&union, scan_budget);
        let digest = Digest::from_glyphs(&union);
        // Pair-keyable only if *every* subtable constrains the next position. A
        // subtable that does not can match regardless of what follows, and its
        // candidates must survive. No pair key means no extra constraint, so
        // the digest must admit everything rather than reject.
        let pair_digest = if keyed {
            let key = union_sets_in(&subtables);
            let listed = key.to_vec();
            Digest::from_glyphs(&listed)
        } else {
            Digest::full()
        };
        let dispatch = if accelerate {
            match Dispatch::build(&subtables, &union) {
                Some(d) => Some(Box::new(d)),
                None => None,
            }
        } else {
            None
        };
        CompiledLookup { props, subtables, reach, digest, pair_digest, dispatch, reverse }
    }

    /// Heap bytes a lookup owns: the list of subtables, what they own, the
    /// reach and the index.
    pub open spec fn bytes(&self) -> nat {
        self.subtables@.len() * vstd::layout::size_of::<Subtable>() + subtable_bytes(self.subtables@)
            + self.reach.bytes() + (match self.dispatch {
            Some(d) => vstd::layout::size_of::<Dispatch>() + d.bytes(),
            None => 0,
        })
    }

    pub fn heap_bytes(&self) -> (n: usize)
        requires
            self.wf(),
            self.bytes() <= usize::MAX,
        ensures
            n == self.bytes(),
    {
        let each: usize = core::mem::size_of::<Subtable>();
        let index: usize = core::mem::size_of::<Dispatch>();
        let mut owned: usize = 0;
        let mut i: usize = 0;
        while i < self.subtables.len()
            invariant
                i <= self.subtables@.len(),
                self.wf(),
                self.bytes() <= usize::MAX,
                owned == subtable_bytes(self.subtables@.take(i as int)),
            decreases self.subtables@.len() - i,
        {
            proof {
                assert(self.subtables@.take(i + 1).drop_last() =~= self.subtables@.take(i as int));
                lemma_subtable_bytes(self.subtables@, i + 1);
            }
            owned = owned + self.subtables[i].heap_bytes();
            i += 1;
        }
        assert(self.subtables@.take(i as int) =~= self.subtables@);
        let indexed: usize = match &self.dispatch {
            Some(d) => index + d.heap_bytes(),
            None => 0,
        };
        self.subtables.len() * each + owned + self.reach.heap_bytes() + indexed
    }
}

/// The reach of a single subtable is its coverage.
proof fn lemma_single_reach(subs: Seq<Subtable>)
    requires
        subtables_wf(subs),
        subs.len() == 1,
    ensures
        reach_list(subs) == subs[0].cov@,
{
    assert(subs.drop_last() =~= Seq::<Subtable>::empty());
    assert(all_reach(subs.drop_last()) =~= Seq::<u32>::empty());
    assert(all_reach(subs) =~= subs[0].cov@);
    lemma_coverage_in_order(&subs[0].cov);
    lemma_ordered(all_reach(subs), subs[0].cov@);
}

/// Union of what may follow each subtable's start.
fn union_sets_in(subtables: &[Subtable]) -> (r: GlyphSet)
    requires
        subtables_wf(subtables@),
        pair_keyed(subtables@),
        compilable(ordered(all_next(subtables@))),
        !(one_run(ordered(all_next(subtables@))) && ordered(all_next(subtables@)).last() == u32::MAX),
    ensures
        r.wf(),
        r@ == ordered(all_next(subtables@)),
        !r.ends_at_the_last_id(),
{
    let mut scratch: Vec<u32> = Vec::new();
    let mut i: usize = 0;
    while i < subtables.len()
        invariant
            i <= subtables@.len(),
            subtables_wf(subtables@),
            pair_keyed(subtables@),
            scratch@ == all_next(subtables@.take(i as int)),
        decreases subtables@.len() - i,
    {
        proof {
            assert(subtables@.take(i + 1).drop_last() =~= subtables@.take(i as int));
            assert(subtables@[i as int].next is Some);
        }
        if let Some(set) = &subtables[i].next {
            set.extend_into(&mut scratch);
        }
        i += 1;
    }
    assert(subtables@.take(i as int) =~= subtables@);
    put_in_order(&mut scratch);
    GlyphSet::build(&scratch)
}

/// An index gives, for every glyph, exactly the subtables whose gate admits it,
/// in the order the lookup tries them.
pub proof fn a_row_lists_the_subtables_that_cover(subs: Seq<Subtable>, g: u32, n: nat, i: u16)
    requires
        n <= subs.len() <= 0xffff,
    ensures
        row_list(subs, g, n).contains(i) <==> i < n && subs[i as int].cov@.contains(g),
        forall|a: int, b: int|
            0 <= a < b < row_list(subs, g, n).len() ==> row_list(subs, g, n)[a] < row_list(subs, g, n)[b],
    decreases n,
{
    if n > 0 {
        a_row_lists_the_subtables_that_cover(subs, g, (n - 1) as nat, i);
        let less = row_list(subs, g, (n - 1) as nat);
        let all = row_list(subs, g, n);
        if subs[n - 1].cov@.contains(g) {
            assert(all[less.len() as int] == n - 1);
            if less.contains(i) {
                let k = choose|k: int| 0 <= k < less.len() && less[k] == i;
                assert(all[k] == i);
            }
            if all.contains(i) {
                let k = choose|k: int| 0 <= k < all.len() && all[k] == i;
                if k < less.len() {
                    assert(less[k] == i);
                }
            }
            assert forall|a: int, b: int| 0 <= a < b < all.len() implies all[a] < all[b] by {
                if b == less.len() {
                    let x = all[a];
                    assert(less[a] == x);
                    a_row_lists_the_subtables_that_cover(subs, g, (n - 1) as nat, x);
                }
            }
        }
    }
}

/// A digest of a lookup's reach never denies a glyph that a subtable covers.
pub proof fn a_lookups_digest_admits_its_reach(l: CompiledLookup, g: u32)
    requires
        l.wf(),
        l.reaches(g),
    ensures
        l.digest.admits(g),
{
    lemma_reach(l.subtables@, g);
    assert(all_reach(l.subtables@).contains(g));
    assert(l.reach@.contains(g));
    let i = choose|i: int| 0 <= i < l.reach@.len() && l.reach@[i] == g;
    a_digest_admits_its_glyphs(l.reach@, l.digest, i);
}

} // verus!
