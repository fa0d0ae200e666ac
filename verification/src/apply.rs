//! Driving the compiled lookups over a line.
//!
//! Every decision about *which* format runs was already made when the lookup
//! was compiled. What is left is which subtables to try at a glyph, in which
//! order, and which glyphs to try them at. The formats that need the line say
//! what they need in steps, and take what came of it.

use vstd::prelude::*;

use crate::buffer::GlyphInfo;
use crate::lookup::{gate_answers, row_list, CompiledLookup, Subtable};
use crate::set::lemma_coverage_in_order;

verus! {

/// What a subtable is handed for a glyph it covers: the glyph's place in the
/// coverage, for the formats that read it.
pub open spec fn rank_in(sub: Subtable, g: u32) -> u32 {
    if sub.rank {
        sub.cov@.index_of(g) as u32
    } else {
        0
    }
}

/// Which of the first `n` subtables can start at a glyph, in order, and what
/// each is handed.
pub open spec fn tries(subs: Seq<Subtable>, g: u32, n: nat) -> Seq<(usize, u32)>
    decreases n,
{
    if n == 0 {
        seq![]
    } else if subs[n - 1].cov@.contains(g) {
        tries(subs, g, (n - 1) as nat).push(((n - 1) as usize, rank_in(subs[n - 1], g)))
    } else {
        tries(subs, g, (n - 1) as nat)
    }
}

/// What a gate answers is what the subtable is handed.
proof fn lemma_gate(sub: Subtable, g: u32, r: Option<u32>)
    requires
        sub.wf(),
        gate_answers(*sub.cov, sub.rank, g, r),
    ensures
        r is Some <==> sub.cov@.contains(g),
        r matches Some(i) ==> i == rank_in(sub, g),
{
    lemma_coverage_in_order(&*sub.cov);
    if let Some(i) = r {
        if sub.rank {
            let k = sub.cov@.index_of(g);
            assert(sub.cov@[k] == g);
            assert(sub.cov@[i as int] == g);
            if k < i {
                assert(sub.cov@[k] < sub.cov@[i as int]);
            }
            if i < k {
                assert(sub.cov@[i as int] < sub.cov@[k]);
            }
        }
    }
}

/// The tries are the row, each with what it is handed.
proof fn lemma_row_tries(subs: Seq<Subtable>, g: u32, n: nat)
    requires
        n <= subs.len() <= 0xffff,
    ensures
        tries(subs, g, n).len() == row_list(subs, g, n).len(),
        forall|k: int|
            0 <= k < row_list(subs, g, n).len() ==> {
                let at = #[trigger] row_list(subs, g, n)[k];
                &&& at < n
                &&& subs[at as int].cov@.contains(g)
                &&& tries(subs, g, n)[k] == (at as usize, rank_in(subs[at as int], g))
            },
    decreases n,
{
    if n > 0 {
        lemma_row_tries(subs, g, (n - 1) as nat);
    }
}

/// The subtables to try at a glyph, in the order they must be, until one
/// applies, with what each is handed.
///
/// Without an index every subtable asks its own coverage. With one, only the
/// subtables that can start on the glyph are considered: a row is built from the
/// subtables' own coverages, so only the formats that read the coverage index
/// still have to ask.
pub fn apply_at(lookup: &CompiledLookup, glyph: u32) -> (out: Vec<(usize, u32)>)
    requires
        lookup.wf(),
    ensures
        out@ == tries(lookup.subtables@, glyph, lookup.subtables@.len()),
{
    let mut out: Vec<(usize, u32)> = Vec::new();
    let mut i: usize = 0;
    if let Some(dispatch) = &lookup.dispatch {
        let row = dispatch.row(glyph);
        proof {
            lemma_row_tries(lookup.subtables@, glyph, lookup.subtables@.len());
            assert(row@ == row_list(lookup.subtables@, glyph, lookup.subtables@.len()));
            assert(out@ =~= tries(lookup.subtables@, glyph, lookup.subtables@.len()).take(0));
        }
        while i < row.len()
            invariant
                i <= row@.len(),
                lookup.wf(),
                row@ == row_list(lookup.subtables@, glyph, lookup.subtables@.len()),
                tries(lookup.subtables@, glyph, lookup.subtables@.len()).len() == row@.len(),
                forall|k: int|
                    0 <= k < row@.len() ==> {
                        let at = #[trigger] row@[k];
                        &&& at < lookup.subtables@.len()
                        &&& lookup.subtables@[at as int].cov@.contains(glyph)
                        &&& tries(lookup.subtables@, glyph, lookup.subtables@.len())[k] == (
                            at as usize,
                            rank_in(lookup.subtables@[at as int], glyph),
                        )
                    },
                out@ == tries(lookup.subtables@, glyph, lookup.subtables@.len()).take(i as int),
            decreases row@.len() - i,
        {
            let at: usize = row[i] as usize;
            assert(at == row@[i as int]);
            let sub = &lookup.subtables[at];
            let index: u32 = if sub.rank {
                let r = sub.gate(glyph);
                proof {
                    lemma_gate(*sub, glyph, r);
                }
                r.unwrap()
            } else {
                0
            };
            out.push((at, index));
            assert(out@ =~= tries(lookup.subtables@, glyph, lookup.subtables@.len()).take(i + 1));
            i += 1;
        }
        assert(out@ =~= tries(lookup.subtables@, glyph, lookup.subtables@.len()));
        return out;
    }
    assert(out@ =~= seq![]);
    while i < lookup.subtables.len()
        invariant
            i <= lookup.subtables@.len(),
            lookup.wf(),
            out@ == tries(lookup.subtables@, glyph, i as nat),
        decreases lookup.subtables@.len() - i,
    {
        let sub = &lookup.subtables[i];
        let r = sub.gate(glyph);
        proof {
            lemma_gate(*sub, glyph, r);
        }
        if let Some(index) = r {
            out.push((i, index));
        }
        i += 1;
    }
    out
}

/// The same, where the glyph is known to be in the lookup's reach.
///
/// A lookup with one subtable has a reach which *is* that subtable's coverage,
/// so a gate that only asks about membership asks a question that was just
/// answered.
pub fn apply_at_reached(lookup: &CompiledLookup, glyph: u32) -> (out: Vec<(usize, u32)>)
    requires
        lookup.wf(),
        lookup.reaches(glyph),
    ensures
        out@ == tries(lookup.subtables@, glyph, lookup.subtables@.len()),
{
    if lookup.subtables.len() == 1 {
        let sub = &lookup.subtables[0];
        if !sub.rank {
            let mut out: Vec<(usize, u32)> = Vec::new();
            out.push((0, 0));
            proof {
                let i = choose|i: int|
                    0 <= i < lookup.subtables@.len() && (#[trigger] lookup.subtables@[i]).cov@.contains(
                        glyph,
                    );
                assert(i == 0);
                assert(tries(lookup.subtables@, glyph, 0) == Seq::<(usize, u32)>::empty());
                assert(tries(lookup.subtables@, glyph, 1) == tries(lookup.subtables@, glyph, 0).push(
                    (0usize, 0u32),
                ));
                assert(out@ =~= tries(lookup.subtables@, glyph, 1));
            }
            return out;
        }
    }
    apply_at(lookup, glyph)
}

/// Whether a lookup could touch a glyph: it is in the lookup's reach, one of the
/// lookup's features is on for it, and the lookup's flags keep it.
pub open spec fn touchable(lookup: CompiledLookup, info: GlyphInfo, mask: u32, kept: bool) -> bool {
    lookup.reaches(info.glyph_id) && info.mask & mask != 0 && kept
}

/// A line as a pass sees it: its glyphs, and which of them the lookup's flags
/// keep.
pub struct PassLine<'a> {
    pub infos: &'a [GlyphInfo],
    pub kept: &'a [bool],
}

impl<'a> PassLine<'a> {
    pub open spec fn wf(&self) -> bool {
        self.infos@.len() == self.kept@.len()
    }

    /// Whether the lookup could touch position `i`.
    pub open spec fn open_at(&self, lookup: CompiledLookup, mask: u32, i: int) -> bool {
        touchable(lookup, self.infos@[i], mask, self.kept@[i])
    }

    fn is_open(&self, lookup: &CompiledLookup, mask: u32, i: usize) -> (r: bool)
        requires
            self.wf(),
            lookup.wf(),
            i < self.infos@.len(),
        ensures
            r == self.open_at(*lookup, mask, i as int),
    {
        let info: GlyphInfo = self.infos[i];
        lookup.may_reach(info.glyph_id) && info.mask & mask != 0 && self.kept[i]
    }
}

/// What a pass does next.
#[derive(Clone, Debug, PartialEq, Eq)]
pub enum Step {
    /// Move the cursor to `at` and try these subtables there, in order.
    Try { at: usize, subtables: Vec<(usize, u32)> },
    /// The pass is over, with the cursor at `at`.
    Finish { at: usize },
}

/// Whether `j` is the first position from `idx` on that a lookup could touch, or
/// the end of the line.
pub open spec fn first_open(line: PassLine, lookup: CompiledLookup, mask: u32, idx: int, j: int) -> bool {
    &&& idx <= j <= line.infos@.len()
    &&& forall|k: int| idx <= k < j ==> !#[trigger] line.open_at(lookup, mask, k)
    &&& j < line.infos@.len() ==> line.open_at(lookup, mask, j)
}

/// The next step of a forward pass from a cursor: scan to the next position the
/// lookup could touch and try it there. A line that failed is left alone.
pub fn apply_forward(
    line: &PassLine,
    lookup: &CompiledLookup,
    mask: u32,
    successful: bool,
    idx: usize,
) -> (step: Step)
    requires
        line.wf(),
        lookup.wf(),
        idx <= line.infos@.len(),
    ensures
        !successful ==> step == (Step::Finish { at: idx }),
        successful ==> match step {
            Step::Try { at, subtables } => {
                &&& at < line.infos@.len()
                &&& first_open(*line, *lookup, mask, idx as int, at as int)
                &&& subtables@ == tries(
                    lookup.subtables@,
                    line.infos@[at as int].glyph_id,
                    lookup.subtables@.len(),
                )
                &&& subtables@.len() > 0
            },
            Step::Finish { at } => {
                &&& at == line.infos@.len()
                &&& first_open(*line, *lookup, mask, idx as int, at as int)
            },
        },
{
    if !successful {
        return Step::Finish { at: idx };
    }
    let mut j: usize = idx;
    while j < line.infos.len() && !line.is_open(lookup, mask, j)
        invariant
            idx <= j <= line.infos@.len(),
            line.wf(),
            lookup.wf(),
            forall|k: int| idx <= k < j ==> !#[trigger] line.open_at(*lookup, mask, k),
        decreases line.infos@.len() - j,
    {
        j += 1;
    }
    if j >= line.infos.len() {
        return Step::Finish { at: j };
    }
    proof {
        lemma_tries_found(*lookup, line.infos@[j as int].glyph_id);
    }
    Step::Try { at: j, subtables: apply_at_reached(lookup, line.infos[j].glyph_id) }
}

/// A lookup has something to try at every glyph in its reach.
proof fn lemma_tries_found(lookup: CompiledLookup, g: u32)
    requires
        lookup.reaches(g),
    ensures
        tries(lookup.subtables@, g, lookup.subtables@.len()).len() > 0,
{
    let i = choose|i: int|
        0 <= i < lookup.subtables@.len() && (#[trigger] lookup.subtables@[i]).cov@.contains(g);
    lemma_tries_grow(lookup.subtables@, g, (i + 1) as nat, lookup.subtables@.len());
}

proof fn lemma_tries_grow(subs: Seq<Subtable>, g: u32, n: nat, m: nat)
    requires
        n <= m,
    ensures
        tries(subs, g, n).len() <= tries(subs, g, m).len(),
    decreases m,
{
    if n < m {
        lemma_tries_grow(subs, g, n, (m - 1) as nat);
    }
}

/// Where the cursor goes after a try: a format that applied has already moved it
/// past what it consumed; one that did not leaves it to the pass.
pub fn forward_after(at: usize, applied: Option<usize>) -> (next: usize)
    requires
        at < usize::MAX,
    ensures
        next == (match applied {
            Some(to) => to,
            None => (at + 1) as usize,
        }),
{
    match applied {
        Some(to) => to,
        None => at + 1,
    }
}

/// Whether `at` is the last position up to `idx` that a lookup could touch.
pub open spec fn last_open(line: PassLine, lookup: CompiledLookup, mask: u32, idx: int, at: int) -> bool {
    &&& 0 <= at <= idx
    &&& line.open_at(lookup, mask, at)
    &&& forall|k: int| at < k <= idx ==> !#[trigger] line.open_at(lookup, mask, k)
}

/// Whether a lookup could touch no position up to `idx`.
pub open spec fn none_open(line: PassLine, lookup: CompiledLookup, mask: u32, idx: int) -> bool {
    forall|k: int| 0 <= k <= idx ==> !#[trigger] line.open_at(lookup, mask, k)
}

/// The next step of a descending pass from a cursor: each position's rule may
/// depend on the one to its right having been decided, so the pass runs from the
/// end of the line. What it tries is in place.
pub fn apply_backward(line: &PassLine, lookup: &CompiledLookup, mask: u32, idx: usize) -> (step: Step)
    requires
        line.wf(),
        lookup.wf(),
        idx < line.infos@.len(),
    ensures
        match step {
            Step::Try { at, subtables } => {
                &&& last_open(*line, *lookup, mask, idx as int, at as int)
                &&& subtables@ == tries(
                    lookup.subtables@,
                    line.infos@[at as int].glyph_id,
                    lookup.subtables@.len(),
                )
                &&& subtables@.len() > 0
            },
            Step::Finish { at } => {
                &&& at == 0
                &&& none_open(*line, *lookup, mask, idx as int)
            },
        },
{
    let len: usize = line.infos.len();
    assert(idx < len);
    let mut j: usize = idx + 1;
    while j > 0
        invariant
            j <= idx + 1,
            idx < line.infos@.len(),
            line.wf(),
            lookup.wf(),
            forall|k: int| j <= k <= idx ==> !#[trigger] line.open_at(*lookup, mask, k),
        decreases j,
    {
        j -= 1;
        if line.is_open(lookup, mask, j) {
            proof {
                lemma_tries_found(*lookup, line.infos@[j as int].glyph_id);
            }
            return Step::Try { at: j, subtables: apply_at_reached(lookup, line.infos[j].glyph_id) };
        }
    }
    Step::Finish { at: 0 }
}

/// Where a descending pass goes on after a try, if there is anything left.
pub fn backward_after(at: usize) -> (next: Option<usize>)
    ensures
        next == (if at == 0 {
            None
        } else {
            Some((at - 1) as usize)
        }),
{
    if at == 0 {
        None
    } else {
        Some(at - 1)
    }
}

/// What a nested lookup must not be able to see or disturb, and the two budgets
/// that stop a font recursing forever.
#[derive(Clone, Debug)]
pub struct Nesting {
    pub nesting_level_left: usize,
    pub max_ops: i32,
    pub successful: bool,
    pub lookup_props: u32,
    pub lookup_index: u16,
    pub match_positions: Vec<u32>,
    pub match_positions_len: usize,
}

/// What was put aside while a nested lookup runs.
#[derive(Clone, Debug)]
pub struct Saved {
    pub lookup_props: u32,
    pub lookup_index: u16,
    pub match_positions: Vec<u32>,
    pub match_positions_len: usize,
}

/// Whether there is budget for another nested lookup.
pub open spec fn may_nest(n: Nesting) -> bool {
    n.nesting_level_left > 0 && n.max_ops > 0
}

impl Nesting {
    /// Start a nested lookup, and say which subtables to try at the cursor: none
    /// where there is no such lookup. Without budget the line has failed.
    pub fn recurse(&mut self, lookup_index: u16, nested: Option<&CompiledLookup>, glyph: u32) -> (r: Option<
        (Saved, Vec<(usize, u32)>),
    >)
        requires
            old(self).max_ops > i32::MIN,
            nested matches Some(l) ==> l.wf(),
        ensures
            r is Some <==> may_nest(*old(self)),
            final(self).max_ops == (if old(self).nesting_level_left == 0 {
                old(self).max_ops as int
            } else {
                old(self).max_ops - 1
            }),
            r is None ==> {
                &&& !final(self).successful
                &&& final(self).nesting_level_left == old(self).nesting_level_left
                &&& final(self).lookup_props == old(self).lookup_props
                &&& final(self).lookup_index == old(self).lookup_index
                &&& final(self).match_positions@ == old(self).match_positions@
                &&& final(self).match_positions_len == old(self).match_positions_len
            },
            r matches Some((saved, subtables)) ==> {
                &&& final(self).successful == old(self).successful
                &&& final(self).nesting_level_left == old(self).nesting_level_left - 1
                &&& final(self).lookup_index == lookup_index
                &&& final(self).lookup_props == (match nested {
                    Some(l) => l.props,
                    None => old(self).lookup_props,
                })
                &&& final(self).match_positions@ == seq![0u32]
                &&& final(self).match_positions_len == old(self).match_positions_len
                &&& saved.holds(*old(self))
                &&& subtables@ == (match nested {
                    Some(l) => tries(l.subtables@, glyph, l.subtables@.len()),
                    None => seq![],
                })
            },
    {
        if self.nesting_level_left == 0 {
            self.successful = false;
            return None;
        }
        self.max_ops = self.max_ops - 1;
        if self.max_ops < 0 {
            self.successful = false;
            return None;
        }
        self.nesting_level_left = self.nesting_level_left - 1;
        let mut positions: Vec<u32> = Vec::new();
        positions.push(0);
        assert(positions@ =~= seq![0u32]);
        core::mem::swap(&mut self.match_positions, &mut positions);
        let saved = Saved {
            lookup_props: self.lookup_props,
            lookup_index: self.lookup_index,
            match_positions: positions,
            match_positions_len: self.match_positions_len,
        };
        self.lookup_index = lookup_index;
        let subtables: Vec<(usize, u32)> = match nested {
            Some(l) => {
                self.lookup_props = l.props;
                apply_at(l, glyph)
            },
            None => {
                let none: Vec<(usize, u32)> = Vec::new();
                assert(none@ =~= seq![]);
                none
            },
        };
        Some((saved, subtables))
    }

    /// Go back to the lookup that started a nested one.
    pub fn leave(&mut self, saved: Saved)
        requires
            old(self).nesting_level_left < usize::MAX,
        ensures
            saved.holds(*final(self)),
            final(self).nesting_level_left == old(self).nesting_level_left + 1,
            final(self).max_ops == old(self).max_ops,
            final(self).successful == old(self).successful,
    {
        self.lookup_props = saved.lookup_props;
        self.lookup_index = saved.lookup_index;
        self.match_positions = saved.match_positions;
        self.match_positions_len = saved.match_positions_len;
        self.nesting_level_left = self.nesting_level_left + 1;
    }
}

impl Saved {
    /// Whether this is what a state has.
    pub open spec fn holds(&self, n: Nesting) -> bool {
        &&& self.lookup_props == n.lookup_props
        &&& self.lookup_index == n.lookup_index
        &&& self.match_positions@ == n.match_positions@
        &&& self.match_positions_len == n.match_positions_len
    }
}

/// What a nested lookup could see is put back when it is left: the properties,
/// the index and the match positions are as before, and so is the nesting level
/// once everything nested in it was left too.
pub proof fn leaving_undoes_entering(before: Nesting, saved: Saved, inside: Nesting, after: Nesting)
    requires
        before.nesting_level_left > 0,
        saved.holds(before),
        inside.nesting_level_left == before.nesting_level_left - 1,
        saved.holds(after),
        after.nesting_level_left == inside.nesting_level_left + 1,
    ensures
        after.lookup_props == before.lookup_props,
        after.lookup_index == before.lookup_index,
        after.match_positions@ == before.match_positions@,
        after.match_positions_len == before.match_positions_len,
        after.nesting_level_left == before.nesting_level_left,
{
}

/// What is tried at a glyph does not depend on whether the lookup has an index:
/// lookups of the same subtables try the same.
pub proof fn an_index_changes_nothing(a: CompiledLookup, b: CompiledLookup, g: u32)
    requires
        a.subtables@ == b.subtables@,
    ensures
        tries(a.subtables@, g, a.subtables@.len()) == tries(b.subtables@, g, b.subtables@.len()),
        a.reaches(g) == b.reaches(g),
{
}

/// A glyph outside a lookup's reach has nothing tried at it.
pub proof fn nothing_is_tried_out_of_reach(l: CompiledLookup, g: u32, n: nat)
    requires
        !l.reaches(g),
        n <= l.subtables@.len(),
    ensures
        tries(l.subtables@, g, n).len() == 0,
    decreases n,
{
    if n > 0 {
        nothing_is_tried_out_of_reach(l, g, (n - 1) as nat);
        assert(!l.subtables@[n - 1].cov@.contains(g));
    }
}

/// In ascending order a number is no less than its place.
proof fn lemma_place_below(s: Seq<u32>, i: int)
    requires
        forall|j: int, k: int| 0 <= j < k < s.len() ==> s[j] < s[k],
        0 <= i < s.len(),
    ensures
        i <= s[i],
    decreases i,
{
    if i > 0 {
        lemma_place_below(s, i - 1);
        assert(s[i - 1] < s[i]);
    }
}

proof fn lemma_tries(subs: Seq<Subtable>, g: u32, n: nat)
    requires
        n <= subs.len() <= usize::MAX,
        forall|i: int| 0 <= i < subs.len() ==> (#[trigger] subs[i]).wf(),
    ensures
        forall|k: int|
            0 <= k < tries(subs, g, n).len() ==> {
                let (i, rank) = #[trigger] tries(subs, g, n)[k];
                &&& i < n
                &&& subs[i as int].cov@.contains(g)
                &&& subs[i as int].rank ==> rank < subs[i as int].cov@.len() && subs[i as int].cov@[rank as int]
                    == g
                &&& !subs[i as int].rank ==> rank == 0
            },
        forall|j: int, k: int|
            0 <= j < k < tries(subs, g, n).len() ==> (#[trigger] tries(subs, g, n)[j]).0 < (
            #[trigger] tries(subs, g, n)[k]).0,
        forall|i: int|
            0 <= i < n && (#[trigger] subs[i]).cov@.contains(g) ==> exists|k: int|
                0 <= k < tries(subs, g, n).len() && (#[trigger] tries(subs, g, n)[k]).0 == i,
    decreases n,
{
    if n > 0 {
        let m = (n - 1) as nat;
        lemma_tries(subs, g, m);
        let before = tries(subs, g, m);
        let all = tries(subs, g, n);
        let sub = subs[m as int];
        lemma_coverage_in_order(&*sub.cov);
        if sub.cov@.contains(g) {
            let at = sub.cov@.index_of(g);
            assert(sub.cov@[at] == g);
            lemma_place_below(sub.cov@, at);
            assert(all[before.len() as int].0 == m);
        }
        assert forall|i: int| 0 <= i < n && (#[trigger] subs[i]).cov@.contains(g) implies exists|k: int|
            0 <= k < all.len() && (#[trigger] all[k]).0 == i by {
            if i < m {
                let k = choose|k: int| 0 <= k < before.len() && (#[trigger] before[k]).0 == i;
                assert(all[k].0 == i);
            }
        }
    }
}

/// What is tried at a glyph is every subtable that covers it and no other, in
/// the lookup's order; one that reads the glyph's place in its coverage is handed
/// that place.
pub proof fn every_covering_subtable_is_tried_in_order(
    lookup: &CompiledLookup,
    glyph: u32,
    out: Vec<(usize, u32)>,
)
    requires
        lookup.wf(),
        call_ensures(apply_at, (lookup, glyph), out) || (lookup.reaches(glyph) && call_ensures(
            apply_at_reached,
            (lookup, glyph),
            out,
        )),
    ensures
        forall|k: int|
            0 <= k < out@.len() ==> {
                let (i, rank) = #[trigger] out@[k];
                let sub = lookup.subtables@[i as int];
                &&& i < lookup.subtables@.len()
                &&& sub.cov@.contains(glyph)
                &&& sub.rank ==> rank < sub.cov@.len() && sub.cov@[rank as int] == glyph
                &&& !sub.rank ==> rank == 0
            },
        forall|j: int, k: int| 0 <= j < k < out@.len() ==> (#[trigger] out@[j]).0 < (#[trigger] out@[k]).0,
        forall|i: int|
            0 <= i < lookup.subtables@.len() && (#[trigger] lookup.subtables@[i]).cov@.contains(glyph)
                ==> exists|k: int| 0 <= k < out@.len() && (#[trigger] out@[k]).0 == i,
{
    assert(lookup.subtables.len() == lookup.subtables@.len());
    lemma_tries(lookup.subtables@, glyph, lookup.subtables@.len());
}

/// A pass stops at no glyph that is out of the lookup's reach, that none of its
/// features is on for, or that its flags pass over, and passes by no other: going
/// forwards it takes the nearest one ahead, going backwards the nearest one
/// behind, the cursor's own position first.
pub proof fn a_pass_stops_where_the_lookup_may_act(
    line: &PassLine,
    lookup: &CompiledLookup,
    mask: u32,
    idx: usize,
    forward: Step,
    backward: Step,
    i: int,
)
    requires
        line.wf(),
        lookup.wf(),
        idx < line.infos@.len(),
        call_ensures(apply_forward, (line, lookup, mask, true, idx), forward),
        call_ensures(apply_backward, (line, lookup, mask, idx), backward),
        0 <= i < line.infos@.len(),
    ensures
        forward is Try ==> forward->Try_at >= idx,
        forward is Try && forward->Try_at == i ==> acts_on(*line, *lookup, mask, i),
        forward is Try && idx <= i < forward->Try_at ==> !acts_on(*line, *lookup, mask, i),
        forward is Finish && idx <= i ==> !acts_on(*line, *lookup, mask, i),
        forward is Finish ==> forward->Finish_at == line.infos@.len(),
        backward is Try ==> backward->Try_at <= idx,
        backward is Try && backward->Try_at == i ==> acts_on(*line, *lookup, mask, i),
        backward is Try && backward->Try_at < i <= idx ==> !acts_on(*line, *lookup, mask, i),
        backward is Finish && i <= idx ==> !acts_on(*line, *lookup, mask, i),
        backward is Finish ==> backward->Finish_at == 0,
{
    assert(lookup.reaches(line.infos@[i].glyph_id) ==> exists|s: int|
        0 <= s < lookup.subtables@.len() && (#[trigger] lookup.subtables@[s]).cov@.contains(
            line.infos@[i].glyph_id,
        ));
    assert(line.open_at(*lookup, mask, i) == acts_on(*line, *lookup, mask, i));
}

/// Whether a subtable covers the glyph at a position, one of the lookup's
/// features is on for it, and its flags keep it.
pub open spec fn acts_on(line: PassLine, lookup: CompiledLookup, mask: u32, i: int) -> bool {
    &&& exists|s: int|
        0 <= s < lookup.subtables@.len() && (#[trigger] lookup.subtables@[s]).cov@.contains(
            line.infos@[i].glyph_id,
        )
    &&& line.infos@[i].mask & mask != 0
    &&& line.kept@[i]
}

/// Where a pass stops, it tries what the lookup has for the glyph there, in
/// whichever direction it goes; and a line that failed is not gone over.
pub proof fn a_pass_tries_what_the_glyph_there_has(
    line: &PassLine,
    lookup: &CompiledLookup,
    mask: u32,
    idx: usize,
    forward: Step,
    backward: Step,
    failed: Step,
    at: usize,
    tried: Vec<(usize, u32)>,
)
    requires
        line.wf(),
        lookup.wf(),
        idx < line.infos@.len(),
        call_ensures(apply_forward, (line, lookup, mask, true, idx), forward),
        call_ensures(apply_backward, (line, lookup, mask, idx), backward),
        call_ensures(apply_forward, (line, lookup, mask, false, idx), failed),
        at < line.infos@.len(),
        call_ensures(apply_at, (lookup, line.infos@[at as int].glyph_id), tried),
    ensures
        forward is Try && forward->Try_at == at ==> forward->Try_subtables@ == tried@ && tried@.len() > 0,
        backward is Try && backward->Try_at == at ==> backward->Try_subtables@ == tried@ && tried@.len() > 0,
        failed is Finish && failed->Finish_at == idx,
{
}

/// After a try a pass goes on past what was consumed, and past the glyph where
/// nothing applied; going backwards it goes on at the glyph before, to the start
/// of the line.
pub proof fn a_pass_always_goes_on(
    at: usize,
    applied: Option<usize>,
    next: usize,
    before: Option<usize>,
)
    requires
        at < usize::MAX,
        call_ensures(forward_after, (at, applied), next),
        call_ensures(backward_after, (at,), before),
    ensures
        applied is None ==> next == at + 1,
        applied is Some ==> next == applied->0,
        before is None <==> at == 0,
        before is Some ==> before->0 + 1 == at,
{
}

/// A nested lookup starts only while there are levels and operations left, and
/// uses up one of each; it sees its own index and flags and no match but its own.
/// Where none may start, the line has failed.
pub proof fn nesting_uses_up_its_budgets(
    n: &mut Nesting,
    lookup_index: u16,
    nested: Option<&CompiledLookup>,
    glyph: u32,
    r: Option<(Saved, Vec<(usize, u32)>)>,
    tried: Vec<(usize, u32)>,
)
    requires
        old(n).max_ops > i32::MIN,
        nested is Some ==> nested->0.wf() && call_ensures(apply_at, (nested->0, glyph), tried),
        call_ensures(Nesting::recurse, (n, lookup_index, nested, glyph), r),
    ensures
        r is Some <==> old(n).nesting_level_left >= 1 && old(n).max_ops >= 1,
        r is Some ==> {
            &&& old(n).nesting_level_left - final(n).nesting_level_left == 1
            &&& old(n).max_ops - final(n).max_ops == 1
            &&& final(n).max_ops >= 0
            &&& final(n).lookup_index == lookup_index
            &&& nested is Some ==> final(n).lookup_props == nested->0.props && (r->0).1@ == tried@
            &&& nested is None ==> (r->0).1@.len() == 0
            &&& final(n).match_positions@.len() == 1
            &&& final(n).match_positions@[0] == 0
            &&& final(n).successful == old(n).successful
        },
        r is None ==> !final(n).successful,
{
}

/// Leaving a nested lookup puts everything back that entering it put aside, but
/// for the operations that were used up.
pub proof fn what_was_entered_is_left_as_before(
    n: &mut Nesting,
    lookup_index: u16,
    nested: Option<&CompiledLookup>,
    glyph: u32,
    r: Option<(Saved, Vec<(usize, u32)>)>,
    m: &mut Nesting,
)
    requires
        old(n).max_ops > i32::MIN,
        nested is Some ==> nested->0.wf(),
        call_ensures(Nesting::recurse, (n, lookup_index, nested, glyph), r),
        r is Some,
        *old(m) == *final(n),
        call_ensures(Nesting::leave, (m, (r->0).0), ()),
    ensures
        final(m).lookup_props == old(n).lookup_props,
        final(m).lookup_index == old(n).lookup_index,
        final(m).match_positions@ == old(n).match_positions@,
        final(m).match_positions_len == old(n).match_positions_len,
        final(m).nesting_level_left == old(n).nesting_level_left,
        final(m).max_ops == old(n).max_ops - 1,
        final(m).successful == old(n).successful,
{
}

} // verus!
