//! Running a `kern` table on a line: attach the glyphs, turn the line, and kern
//! with each subtable in order.

use vstd::prelude::*;

use crate::buffer::GlyphPosition;
use crate::kern_table::{
    a_line_is_turned_back, hb_ot_layout_kern, kern_pair, may_be_first, may_be_second, meets_of, part_runs, planned, readable,
    simple_kerning, suits, turned, turned_back, turns, KernLine, KernPart, KernRun, KernSubtableCache,
};
use crate::kerning::{
    a_drive_moves_glyphs_of_the_line, a_line_without_kerning_keeps_its_pairs,
    a_line_without_kerning_keeps_its_place, apply_actions, apply_state_machine_kerning, below_zero, driven,
    machine_kern, moved_all, moves, pairs_kerned, spans_of, started, steps_forward, KernDirection, Kerned, PairStep,
};

verus! {

/// How a glyph is attached in a chain.
pub const ATTACH_CURSIVE: u8 = 2;

/// Which glyph a pair takes after one: those that kerning passes over are left
/// out. Where there is none, how far the search got.
#[derive(Copy, Clone, Debug, PartialEq, Eq, Structural)]
pub enum NextGlyph {
    At(usize),
    Nothing { unsafe_to: usize },
}

/// Whether each answer lies ahead, and inside a line of `n` glyphs.
pub open spec fn lies_ahead(next: Seq<NextGlyph>, n: int) -> bool {
    &&& next.len() == n
    &&& forall|i: int|
        0 <= i < n ==> match #[trigger] next[i] {
            NextGlyph::At(j) => i < j < n,
            NextGlyph::Nothing { unsafe_to } => i < unsafe_to,
        }
}

/// What kerning is told of a line: the bits that turn it on for a glyph, and the
/// glyph after each, along the line and along the line turned around.
#[derive(Clone, Debug)]
pub struct KernLook {
    pub kern_mask: u32,
    pub forward: Vec<NextGlyph>,
    pub backward: Vec<NextGlyph>,
}

/// What a function of numbers gives.
pub open spec fn value_of<F: Fn(i32) -> i32>(f: F, v: i32) -> i32 {
    choose|r: i32| call_ensures(f, (v,), r)
}

/// A function of numbers, as a mathematical one.
pub open spec fn map_of<F: Fn(i32) -> i32>(f: F) -> spec_fn(i32) -> i32 {
    |v: i32| value_of(f, v)
}

/// Whether a function takes every number and gives it one.
pub open spec fn is_map<F: Fn(i32) -> i32>(f: F) -> bool {
    &&& forall|v: i32| #[trigger] call_requires(f, (v,))
    &&& forall|v: i32, a: i32, b: i32|
        #[trigger] call_ensures(f, (v,), a) && #[trigger] call_ensures(f, (v,), b) ==> a == b
}

/// How a line is looked at: which way it runs, the bits that turn kerning on, the
/// glyph after each, and what values come to along each axis.
pub struct Looks {
    pub horizontal: bool,
    pub kern_mask: u32,
    pub forward: Seq<NextGlyph>,
    pub backward: Seq<NextGlyph>,
    pub scale_x: spec_fn(i32) -> i32,
    pub scale_y: spec_fn(i32) -> i32,
}

/// A line under kerning. Its glyphs, masks and positions are in the order in
/// which it stands; the spans it may not be broken in are in the order in which
/// it was given.
#[verifier::ext_equal]
pub struct LineState {
    pub glyphs: Seq<u32>,
    pub masks: Seq<u32>,
    pub pos: Seq<GlyphPosition>,
    /// Whether the line stands turned around.
    pub reversed: bool,
    /// Whether a glyph was moved with those attached to it.
    pub attached: bool,
    /// Whether no text may be appended anywhere without shaping again.
    pub unsafe_to_concat: bool,
    pub breaks: Seq<(int, int)>,
    pub ops: int,
}

/// What a pair comes to, in the font's units.
pub open spec fn kern_value(p: KernPart, left: u32, right: u32) -> i32 {
    if !may_be_first(p, left) || !may_be_second(p, right) {
        0
    } else {
        match kern_pair(p.data@, p.named_format(), p.aat, left, right) {
            Some(v) => v,
            None => 0,
        }
    }
}

/// The pairs of a line, each with what it comes to.
pub open spec fn pair_steps(
    p: KernPart,
    glyphs: Seq<u32>,
    next: Seq<NextGlyph>,
    scale: spec_fn(i32) -> i32,
) -> Seq<PairStep> {
    Seq::new(
        glyphs.len(),
        |i: int|
            match next[i] {
                NextGlyph::At(j) => PairStep::Next {
                    at: j,
                    kern: scale(kern_value(p, glyphs[i], glyphs[j as int])),
                },
                NextGlyph::Nothing { unsafe_to } => PairStep::Nothing { unsafe_to },
            },
    )
}

/// Spans of a line turned around, counted from its other end.
pub open spec fn mirrored(spans: Seq<(int, int)>, n: int) -> Seq<(int, int)> {
    Seq::new(spans.len(), |i: int| (n - spans[i].1, n - spans[i].0))
}

/// Spans of a line as it stands, as spans of the line as it was given.
pub open spec fn as_given(s: LineState, spans: Seq<(int, int)>) -> Seq<(int, int)> {
    if s.reversed {
        mirrored(spans, s.glyphs.len() as int)
    } else {
        spans
    }
}

/// What values come to that move glyphs in a direction.
pub open spec fn scale_for(l: Looks, cross_stream: bool) -> spec_fn(i32) -> i32 {
    if l.horizontal != cross_stream {
        l.scale_x
    } else {
        l.scale_y
    }
}

/// A line after its pairs were kerned.
pub open spec fn simple_ran(p: KernPart, l: Looks, s: LineState, cross_stream: bool) -> LineState {
    let next = if s.reversed {
        l.backward
    } else {
        l.forward
    };
    let k = pairs_kerned(
        Kerned { pos: s.pos, attached: false, breaks: seq![] },
        s.masks,
        l.kern_mask,
        KernDirection { horizontal: l.horizontal, cross_stream },
        pair_steps(p, s.glyphs, next, scale_for(l, cross_stream)),
        0,
    );
    LineState {
        pos: k.pos,
        attached: s.attached || k.attached,
        unsafe_to_concat: true,
        breaks: s.breaks + as_given(s, k.breaks),
        ..s
    }
}

/// Values by position, as the machine holds them.
pub open spec fn as_actions(m: Seq<(int, int)>) -> Seq<(usize, i32)> {
    Seq::new(m.len(), |i: int| (m[i].0 as usize, m[i].1 as i32))
}

/// A line after a machine was driven over it.
pub open spec fn machine_ran(p: KernPart, l: Looks, s: LineState, cross_stream: bool) -> LineState {
    let end = driven(p.data@, s.glyphs, started(p.data@, s.ops));
    let actions = as_actions(end.actions);
    let scale = scale_for(l, cross_stream);
    let (pos, attached) = moved_all(
        s.pos,
        s.masks,
        l.kern_mask,
        KernDirection { horizontal: l.horizontal, cross_stream },
        actions,
        Seq::new(actions.len(), |i: int| scale(actions[i].1)),
        actions.len(),
    );
    LineState {
        pos,
        attached: s.attached || attached,
        breaks: s.breaks + as_given(s, end.breaks),
        ops: end.ops,
        ..s
    }
}

/// Every glyph attached to its neighbour, at a distance.
pub open spec fn chained(pos: Seq<GlyphPosition>, step: i16) -> Seq<GlyphPosition> {
    Seq::new(
        pos.len(),
        |i: int| GlyphPosition { attach_type: ATTACH_CURSIVE, attach_chain: step, ..pos[i] },
    )
}

/// A line after one run.
pub open spec fn run_once(parts: Seq<KernPart>, l: Looks, s: LineState, run: KernRun) -> LineState {
    match run {
        KernRun::Chain { step } => LineState { pos: chained(s.pos, step), ..s },
        KernRun::Reverse => LineState {
            glyphs: s.glyphs.reverse(),
            masks: s.masks.reverse(),
            pos: s.pos.reverse(),
            reversed: !s.reversed,
            ..s
        },
        KernRun::Simple { index, cross_stream } => simple_ran(parts[index as int], l, s, cross_stream),
        KernRun::Machine { index, cross_stream } => machine_ran(parts[index as int], l, s, cross_stream),
    }
}

/// A line after some runs, in order.
pub open spec fn ran(parts: Seq<KernPart>, l: Looks, s: LineState, runs: Seq<KernRun>) -> LineState
    decreases runs.len(),
{
    if runs.len() == 0 {
        s
    } else {
        run_once(parts, l, ran(parts, l, s, runs.drop_last()), runs.last())
    }
}

/// A line that is being kerned.
#[derive(Clone, Debug)]
pub struct KernedLine {
    pub glyphs: Vec<u32>,
    pub masks: Vec<u32>,
    pub pos: Vec<GlyphPosition>,
    pub reversed: bool,
    pub attached: bool,
    pub unsafe_to_concat: bool,
    pub breaks: Vec<(usize, usize)>,
    pub max_ops: i32,
}

impl KernedLine {
    pub open spec fn view(&self) -> LineState {
        LineState {
            glyphs: self.glyphs@,
            masks: self.masks@,
            pos: self.pos@,
            reversed: self.reversed,
            attached: self.attached,
            unsafe_to_concat: self.unsafe_to_concat,
            breaks: spans_of(self.breaks@),
            ops: self.max_ops as int,
        }
    }

    pub open spec fn wf(&self) -> bool {
        self.masks@.len() == self.glyphs@.len() && self.pos@.len() == self.glyphs@.len()
    }

    /// A line as it is given, with the operations it may take.
    pub fn new(glyphs: Vec<u32>, masks: Vec<u32>, pos: Vec<GlyphPosition>, max_ops: i32) -> (r: KernedLine)
        requires
            masks@.len() == glyphs@.len(),
            pos@.len() == glyphs@.len(),
        ensures
            r.wf(),
            r@ == (LineState {
                glyphs: glyphs@,
                masks: masks@,
                pos: pos@,
                reversed: false,
                attached: false,
                unsafe_to_concat: false,
                breaks: seq![],
                ops: max_ops as int,
            }),
    {
        let r = KernedLine {
            glyphs,
            masks,
            pos,
            reversed: false,
            attached: false,
            unsafe_to_concat: false,
            breaks: Vec::new(),
            max_ops,
        };
        assert(r@.breaks =~= seq![]);
        r
    }

    /// Note spans of the line as it stands.
    fn note_breaks(&mut self, spans: &[(usize, usize)])
        requires
            forall|i: int|
                0 <= i < spans@.len() ==> (#[trigger] spans@[i]).0 < spans@[i].1 <= old(self).glyphs@.len(),
        ensures
            final(self)@ == (LineState {
                breaks: old(self)@.breaks + as_given(old(self)@, spans_of(spans@)),
                ..old(self)@
            }),
    {
        let n: usize = self.glyphs.len();
        let ghost given = as_given(self@, spans_of(spans@));
        let mut i: usize = 0;
        assert(given.take(0) =~= seq![]);
        assert(old(self)@.breaks + given.take(0) =~= old(self)@.breaks);
        while i < spans.len()
            invariant
                i <= spans@.len(),
                n == self.glyphs@.len(),
                n == old(self).glyphs@.len(),
                given == as_given(old(self)@, spans_of(spans@)),
                self.reversed == old(self).reversed,
                self@ == (LineState {
                    breaks: old(self)@.breaks + given.take(i as int),
                    ..old(self)@
                }),
                forall|i: int|
                    0 <= i < spans@.len() ==> (#[trigger] spans@[i]).0 < spans@[i].1 <= old(
                        self,
                    ).glyphs@.len(),
            decreases spans@.len() - i,
        {
            let (from, to) = spans[i];
            assert(spans@[i as int].0 < spans@[i as int].1 <= n);
            let ghost before = self.breaks@;
            if self.reversed {
                self.breaks.push((n - to, n - from));
            } else {
                self.breaks.push((from, to));
            }
            proof {
                assert(spans_of(self.breaks@) =~= spans_of(before).push(given[i as int]));
                assert(given.take(i + 1) =~= given.take(i as int).push(given[i as int]));
                assert(spans_of(self.breaks@) =~= old(self)@.breaks + given.take(i + 1));
            }
            i += 1;
        }
        assert(given.take(i as int) =~= given);
    }
}

/// A list in the other order.
fn turn<T: Copy>(v: &mut Vec<T>)
    ensures
        final(v)@ == old(v)@.reverse(),
{
    let mut out: Vec<T> = Vec::new();
    let n: usize = v.len();
    let mut i: usize = 0;
    while i < n
        invariant
            i <= n,
            n == v@.len(),
            *v == *old(v),
            out@ == v@.reverse().take(i as int),
        decreases n - i,
    {
        out.push(v[n - 1 - i]);
        assert(out@ =~= v@.reverse().take(i + 1));
        i += 1;
    }
    assert(out@ =~= v@.reverse());
    *v = out;
}

/// A value as it comes to.
fn apply_scale<F: Fn(i32) -> i32>(f: &F, v: i32) -> (r: i32)
    requires
        is_map(*f),
    ensures
        r == map_of(*f)(v),
{
    f(v)
}

/// Whether each thing worked out is for its subtable.
pub open spec fn serve_all(caches: Seq<KernSubtableCache>, parts: Seq<KernPart>) -> bool {
    &&& caches.len() <= parts.len()
    &&& forall|k: int| 0 <= k < caches.len() ==> (#[trigger] caches[k]).serves(parts[k])
}

/// The subtables that can be read from the first few are the first few of those
/// that can be read.
proof fn lemma_readable_prefix(parts: Seq<Option<KernPart>>, i: int)
    requires
        0 <= i <= parts.len(),
    ensures
        readable(parts.take(i)).len() <= readable(parts).len(),
        forall|k: int|
            0 <= k < readable(parts.take(i)).len() ==> #[trigger] readable(parts.take(i))[k] == readable(
                parts,
            )[k],
    decreases parts.len() - i,
{
    if i < parts.len() {
        lemma_readable_prefix(parts, i + 1);
        assert(parts.take(i + 1).drop_last() =~= parts.take(i));
        let here = readable(parts.take(i));
        let next = readable(parts.take(i + 1));
        assert forall|k: int| 0 <= k < here.len() implies #[trigger] here[k] == readable(parts)[k] by {
            assert(next[k] == here[k]);
        }
    } else {
        assert(parts.take(i) =~= parts);
    }
}

/// The subtable that is the `k`-th of those that can be read.
fn find_part(parts: &[Option<KernPart>], k: usize) -> (at: usize)
    requires
        k < readable(parts@).len(),
    ensures
        at < parts@.len(),
        parts@[at as int] == Some(readable(parts@)[k as int]),
{
    let mut count: usize = 0;
    let mut i: usize = 0;
    while i < parts.len()
        invariant
            i <= parts@.len(),
            count == readable(parts@.take(i as int)).len(),
            count <= k < readable(parts@).len(),
            count <= i,
        ensures
            i == parts@.len(),
            count == readable(parts@.take(i as int)).len(),
            count <= k < readable(parts@).len(),
        decreases parts@.len() - i,
    {
        proof {
            assert(parts@.take(i + 1).drop_last() =~= parts@.take(i as int));
            lemma_readable_prefix(parts@, i + 1);
        }
        if parts[i].is_some() {
            if count == k {
                assert(readable(parts@.take(i + 1))[k as int] == parts@[i as int]->0);
                return i;
            }
            count += 1;
        }
        i += 1;
    }
    assert(parts@.take(i as int) =~= parts@);
    i
}

/// Whether a run is one that can be done: it names a subtable that something was
/// worked out for, and drives only machines.
pub open spec fn can_run(parts: Seq<KernPart>, known: int, run: KernRun) -> bool {
    match run {
        KernRun::Simple { index, .. } => index < known && index < parts.len(),
        KernRun::Machine { index, .. } => index < known && index < parts.len() && parts[index as int].format()
            == Some(1u8),
        _ => true,
    }
}

/// How many of some runs drive a machine.
pub open spec fn drives(runs: Seq<KernRun>) -> nat
    decreases runs.len(),
{
    if runs.len() == 0 {
        0
    } else {
        drives(runs.drop_last()) + if runs.last() is Machine {
            1nat
        } else {
            0
        }
    }
}

proof fn lemma_drives_add(a: Seq<KernRun>, b: Seq<KernRun>)
    ensures
        drives(a + b) == drives(a) + drives(b),
    decreases b.len(),
{
    if b.len() == 0 {
        assert(a + b =~= a);
    } else {
        lemma_drives_add(a, b.drop_last());
        assert((a + b).drop_last() =~= a + b.drop_last());
    }
}

proof fn lemma_drives_prefix(runs: Seq<KernRun>, i: int)
    requires
        0 <= i <= runs.len(),
    ensures
        drives(runs.take(i)) <= drives(runs),
{
    lemma_drives_add(runs.take(i), runs.skip(i));
    assert(runs.take(i) + runs.skip(i) =~= runs);
}

/// What one subtable adds can be done.
proof fn lemma_part_runs(
    parts: Seq<KernPart>,
    known: int,
    line: KernLine,
    k: int,
    seen: bool,
    reversed: bool,
)
    requires
        0 <= k < known <= usize::MAX,
        k < parts.len(),
    ensures
        drives(part_runs(parts[k], line, k, seen, reversed)) <= 1,
        forall|j: int|
            0 <= j < part_runs(parts[k], line, k, seen, reversed).len() ==> can_run(
                parts,
                known,
                #[trigger] part_runs(parts[k], line, k, seen, reversed)[j],
            ),
{
    let runs = part_runs(parts[k], line, k, seen, reversed);
    reveal_with_fuel(drives, 4);
    assert(runs.len() <= 3);
}

/// Every planned run can be done.
#[verifier::rlimit(40)]
proof fn lemma_planned(
    parts: Seq<Option<KernPart>>,
    meets: Seq<bool>,
    line: KernLine,
    i: int,
    k: int,
    seen: bool,
    reversed: bool,
)
    requires
        0 <= i <= parts.len(),
        k == readable(parts.take(i)).len(),
        meets.len() <= usize::MAX,
    ensures
        forall|j: int|
            0 <= j < planned(parts, meets, line, i, k, seen, reversed).len() ==> can_run(
                readable(parts),
                meets.len() as int,
                #[trigger] planned(parts, meets, line, i, k, seen, reversed)[j],
            ),
        drives(planned(parts, meets, line, i, k, seen, reversed)) <= parts.len() - i,
    decreases parts.len() - i,
{
    let all = planned(parts, meets, line, i, k, seen, reversed);
    reveal_with_fuel(drives, 2);
    assert(seq![KernRun::Reverse].drop_last() =~= seq![]);
    assert(drives(turned_back(reversed)) == 0);
    if i < parts.len() {
        assert(parts.take(i + 1).drop_last() =~= parts.take(i));
        match parts[i] {
            None => {
                lemma_planned(parts, meets, line, i + 1, k, seen, reversed);
            },
            Some(p) => {
                lemma_readable_prefix(parts, i + 1);
                assert(readable(parts.take(i + 1)) == readable(parts.take(i)).push(p));
                assert(readable(parts.take(i + 1))[k] == p);
                if k < meets.len() {
                    if suits(p, line, meets[k]) {
                        let here = part_runs(p, line, k, seen, reversed);
                        let now = turned(p, line, reversed);
                        let rest = planned(parts, meets, line, i + 1, k + 1, seen || p.across(), now);
                        lemma_planned(parts, meets, line, i + 1, k + 1, seen || p.across(), now);
                        assert(all == here + rest);
                        lemma_drives_add(here, rest);
                        lemma_part_runs(readable(parts), meets.len() as int, line, k, seen, reversed);
                        assert forall|j: int| 0 <= j < all.len() implies can_run(
                            readable(parts),
                            meets.len() as int,
                            #[trigger] all[j],
                        ) by {
                            if j >= here.len() {
                                assert(all[j] == rest[j - here.len()]);
                            } else {
                                assert(all[j] == here[j]);
                            }
                        }
                    } else {
                        lemma_planned(parts, meets, line, i + 1, k + 1, seen, reversed);
                    }
                }
            },
        }
    }
}

/// The pairs of a line, each with what it comes to.
fn find_pairs<F: Fn(i32) -> i32>(
    cache: &KernSubtableCache,
    p: &KernPart,
    glyphs: &[u32],
    next: &[NextGlyph],
    scale: &F,
) -> (steps: Vec<PairStep>)
    requires
        cache.serves(*p),
        lies_ahead(next@, glyphs@.len() as int),
        is_map(*scale),
    ensures
        steps@ == pair_steps(*p, glyphs@, next@, map_of(*scale)),
        steps_forward(steps@),
{
    let mut steps: Vec<PairStep> = Vec::new();
    let ghost all = pair_steps(*p, glyphs@, next@, map_of(*scale));
    let mut i: usize = 0;
    while i < glyphs.len()
        invariant
            i <= glyphs@.len(),
            cache.serves(*p),
            lies_ahead(next@, glyphs@.len() as int),
            is_map(*scale),
            all == pair_steps(*p, glyphs@, next@, map_of(*scale)),
            steps@ == all.take(i as int),
        decreases glyphs@.len() - i,
    {
        let step = match next[i] {
            NextGlyph::At(j) => {
                assert(next@[i as int] == NextGlyph::At(j));
                let kern: i32 = simple_kerning(cache, p, glyphs[i], glyphs[j]);
                assert(cache.first_set.has(glyphs@[i as int]) <==> may_be_first(*p, glyphs@[i as int]));
                assert(cache.second_set.has(glyphs@[j as int]) <==> may_be_second(*p, glyphs@[j as int]));
                PairStep::Next { at: j, kern: apply_scale(scale, kern) }
            },
            NextGlyph::Nothing { unsafe_to } => PairStep::Nothing { unsafe_to },
        };
        steps.push(step);
        assert(steps@ =~= all.take(i + 1));
        i += 1;
    }
    proof {
        assert(all.take(i as int) =~= all);
        assert forall|i: int| 0 <= i < all.len() implies match #[trigger] all[i] {
            PairStep::Next { at, kern } => i < at < all.len(),
            PairStep::Nothing { unsafe_to } => i < unsafe_to,
        } by {
            let _ = next@[i];
        }
    }
    steps
}

impl KernedLine {
    /// Kern the pairs of the line as it stands.
    fn kern_pairs<F: Fn(i32) -> i32>(
        &mut self,
        cache: &KernSubtableCache,
        p: &KernPart,
        look: &KernLook,
        dir: KernDirection,
        scale: &F,
        l: Ghost<Looks>,
    )
        requires
            old(self).wf(),
            cache.serves(*p),
            lies_ahead(look.forward@, old(self).glyphs@.len() as int),
            lies_ahead(look.backward@, old(self).glyphs@.len() as int),
            is_map(*scale),
            l@.horizontal == dir.horizontal,
            l@.kern_mask == look.kern_mask,
            l@.forward == look.forward@,
            l@.backward == look.backward@,
            scale_for(l@, dir.cross_stream) == map_of(*scale),
        ensures
            final(self).wf(),
            final(self)@ == simple_ran(*p, l@, old(self)@, dir.cross_stream),
    {
        let next = if self.reversed {
            look.backward.as_slice()
        } else {
            look.forward.as_slice()
        };
        let steps = find_pairs(cache, p, &self.glyphs, next, scale);
        let ghost before = self@;
        let ghost k = pairs_kerned(
            Kerned { pos: before.pos, attached: false, breaks: seq![] },
            before.masks,
            look.kern_mask,
            dir,
            steps@,
            0,
        );
        let (attached, breaks) = machine_kern(&mut self.pos, &self.masks, look.kern_mask, dir, &steps);
        assert(k == (Kerned { pos: self.pos@, attached, breaks: spans_of(breaks@) }));
        if attached {
            self.attached = true;
        }
        self.unsafe_to_concat = true;
        self.note_breaks(&breaks);
    }

    /// Drive a machine over the line as it stands.
    fn drive<F: Fn(i32) -> i32>(
        &mut self,
        cache: &mut KernSubtableCache,
        p: &KernPart,
        kern_mask: u32,
        dir: KernDirection,
        scale: &F,
        l: Ghost<Looks>,
    )
        requires
            old(self).wf(),
            old(cache).serves(*p),
            p.format() == Some(1u8),
            is_map(*scale),
            below_zero(old(self).max_ops as int) - old(self).glyphs@.len() >= i32::MIN,
            l@.horizontal == dir.horizontal,
            l@.kern_mask == kern_mask,
            scale_for(l@, dir.cross_stream) == map_of(*scale),
        ensures
            final(self).wf(),
            final(cache).serves(*p),
            final(cache).first_set == old(cache).first_set,
            final(self)@ == machine_ran(*p, l@, old(self)@, dir.cross_stream),
            final(self).max_ops >= below_zero(old(self).max_ops as int) - old(self).glyphs@.len(),
    {
        let ghost before = self@;
        let r = apply_state_machine_kerning(
            &p.data,
            cache.decoded.as_ref(),
            cache.start_end_safe_to_break,
            &self.glyphs,
            self.max_ops,
            &mut cache.class_cache,
        );
        let ghost end = driven(p.data@, before.glyphs, started(p.data@, before.ops));
        let ghost all = as_actions(end.actions);
        assert(all =~= r.actions@) by {
            assert forall|i: int| 0 <= i < all.len() implies all[i] == r.actions@[i] by {
                assert(moves(r.actions@)[i] == end.actions[i]);
            }
        }
        let mut scaled: Vec<i32> = Vec::new();
        let mut i: usize = 0;
        while i < r.actions.len()
            invariant
                i <= r.actions@.len(),
                is_map(*scale),
                scaled@ == Seq::new(i as nat, |k: int| map_of(*scale)(r.actions@[k].1)),
            decreases r.actions@.len() - i,
        {
            scaled.push(apply_scale(scale, r.actions[i].1));
            assert(scaled@ =~= Seq::new((i + 1) as nat, |k: int| map_of(*scale)(r.actions@[k].1)));
            i += 1;
        }
        let ghost f = scale_for(l@, dir.cross_stream);
        assert(scaled@ =~= Seq::new(all.len(), |i: int| f(all[i].1)));
        let attached = apply_actions(&mut self.pos, &self.masks, kern_mask, dir, &r.actions, &scaled);
        if attached {
            self.attached = true;
        }
        self.max_ops = r.max_ops;
        self.note_breaks(&r.breaks);
    }
}

/// How a line is looked at, from what is given.
pub open spec fn looks<F: Fn(i32) -> i32, G: Fn(i32) -> i32>(
    line: KernLine,
    look: KernLook,
    scale_x: F,
    scale_y: G,
) -> Looks {
    Looks {
        horizontal: line.horizontal,
        kern_mask: look.kern_mask,
        forward: look.forward@,
        backward: look.backward@,
        scale_x: map_of(scale_x),
        scale_y: map_of(scale_y),
    }
}

/// Kern a line by a table: the runs that are planned for it, in order. What
/// values come to is asked of `scale_x` and `scale_y`.
pub fn kern_line<F: Fn(i32) -> i32, G: Fn(i32) -> i32>(
    parts: &[Option<KernPart>],
    caches: &mut Vec<KernSubtableCache>,
    line: KernLine,
    look: &KernLook,
    scale_x: F,
    scale_y: G,
    state: &mut KernedLine,
)
    requires
        serve_all(old(caches)@, readable(parts@)),
        old(state).wf(),
        !old(state).reversed,
        lies_ahead(look.forward@, old(state).glyphs@.len() as int),
        lies_ahead(look.backward@, old(state).glyphs@.len() as int),
        is_map(scale_x),
        is_map(scale_y),
        below_zero(old(state).max_ops as int) - old(state).glyphs@.len() * parts@.len() >= i32::MIN,
    ensures
        final(caches)@.len() == old(caches)@.len(),
        serve_all(final(caches)@, readable(parts@)),
        final(state).wf(),
        final(state)@ == ran(
            readable(parts@),
            looks(line, *look, scale_x, scale_y),
            old(state)@,
            planned(
                parts@,
                meets_of(old(caches)@, old(state).glyphs@),
                line,
                0,
                0,
                false,
                false,
            ),
        ),
        final(state).glyphs@ == old(state).glyphs@,
        final(state).masks@ == old(state).masks@,
        !final(state).reversed,
{
    let runs = hb_ot_layout_kern(parts, caches.as_slice(), &state.glyphs, line);
    let ghost l = looks(line, *look, scale_x, scale_y);
    let ghost all = readable(parts@);
    let ghost n = state.glyphs@.len();
    let ghost known = caches@.len();
    let ghost most = parts@.len();
    let ghost least = below_zero(state.max_ops as int);
    proof {
        assert(caches@.len() == caches.len());
        assert(parts@.take(0) =~= seq![]);
        lemma_planned(parts@, meets_of(caches@, state.glyphs@), line, 0, 0, false, false);
        assert(runs@.take(0) =~= seq![]);
    }
    let mut i: usize = 0;
    while i < runs.len()
        invariant
            i <= runs@.len(),
            drives(runs@) <= most,
            least - n * most >= i32::MIN,
            least <= 0,
            l == looks(line, *look, scale_x, scale_y),
            all == readable(parts@),
            known == caches@.len(),
            known == old(caches)@.len(),
            serve_all(caches@, all),
            n == old(state).glyphs@.len(),
            state.glyphs@.len() == n,
            state.wf(),
            lies_ahead(look.forward@, n as int),
            lies_ahead(look.backward@, n as int),
            is_map(scale_x),
            is_map(scale_y),
            forall|j: int| 0 <= j < runs@.len() ==> can_run(all, known as int, #[trigger] runs@[j]),
            state@ == ran(all, l, old(state)@, runs@.take(i as int)),
            state.max_ops >= least - drives(runs@.take(i as int)) * n,
        decreases runs@.len() - i,
    {
        let ghost before = state@;
        proof {
            assert(runs@.take(i + 1).drop_last() =~= runs@.take(i as int));
            assert(can_run(all, known as int, runs@[i as int]));
            let done = drives(runs@.take(i as int));
            lemma_drives_prefix(runs@, i + 1);
            assert((done + 1) * n == done * n + n && (done + 1 <= most ==> (done + 1) * n <= n * most) && (
            done <= most ==> done * n <= n * most)) by (nonlinear_arith)
                requires
                    0 <= done,
                    0 <= n,
                    0 <= most,
            ;
        }
        match runs[i] {
            KernRun::Chain { step } => {
                chain(&mut state.pos, step);
            },
            KernRun::Reverse => {
                turn(&mut state.glyphs);
                turn(&mut state.masks);
                turn(&mut state.pos);
                state.reversed = !state.reversed;
            },
            KernRun::Simple { index, cross_stream } => {
                let at: usize = find_part(parts, index);
                let dir = KernDirection { horizontal: line.horizontal, cross_stream };
                assert(caches@[index as int].serves(all[index as int]));
                if let Some(p) = &parts[at] {
                    if dir.uses_x_scale() {
                        state.kern_pairs(&caches[index], p, look, dir, &scale_x, Ghost(l));
                    } else {
                        state.kern_pairs(&caches[index], p, look, dir, &scale_y, Ghost(l));
                    }
                }
            },
            KernRun::Machine { index, cross_stream } => {
                let at: usize = find_part(parts, index);
                let dir = KernDirection { horizontal: line.horizontal, cross_stream };
                assert(caches@[index as int].serves(all[index as int]));
                if let Some(p) = &parts[at] {
                    if dir.uses_x_scale() {
                        state.drive(&mut caches[index], p, look.kern_mask, dir, &scale_x, Ghost(l));
                    } else {
                        state.drive(&mut caches[index], p, look.kern_mask, dir, &scale_y, Ghost(l));
                    }
                }
            },
        }
        assert(state@ =~= run_once(all, l, before, runs@[i as int]));
        i += 1;
    }
    proof {
        assert(runs@.take(i as int) =~= runs@);
        a_line_is_turned_back(
            parts@,
            meets_of(old(caches)@, old(state).glyphs@),
            line,
            0,
            0,
            false,
            false,
        );
        kerning_keeps_the_glyphs(all, l, old(state)@, runs@);
    }
}

/// Attach every glyph to its neighbour.
fn chain(pos: &mut Vec<GlyphPosition>, step: i16)
    ensures
        final(pos)@ == chained(old(pos)@, step),
{
    let mut i: usize = 0;
    while i < pos.len()
        invariant
            i <= pos@.len(),
            pos@.len() == old(pos)@.len(),
            forall|k: int| 0 <= k < i ==> #[trigger] pos@[k] == chained(old(pos)@, step)[k],
            forall|k: int| i <= k < pos@.len() ==> #[trigger] pos@[k] == old(pos)@[k],
        decreases pos@.len() - i,
    {
        let mut p: GlyphPosition = pos[i];
        p.attach_type = ATTACH_CURSIVE;
        p.attach_chain = step;
        pos.set(i, p);
        i += 1;
    }
    assert(pos@ =~= chained(old(pos)@, step));
}

/// Kerning moves glyphs and changes none: after any runs a line has its glyphs in
/// their order, turned around where the runs turned it an odd number of times.
pub proof fn kerning_keeps_the_glyphs(parts: Seq<KernPart>, l: Looks, s: LineState, runs: Seq<KernRun>)
    ensures
        turns(runs) % 2 == 0 ==> {
            let r = ran(parts, l, s, runs);
            r.glyphs == s.glyphs && r.masks == s.masks && r.reversed == s.reversed
        },
        turns(runs) % 2 == 1 ==> {
            let r = ran(parts, l, s, runs);
            r.glyphs == s.glyphs.reverse() && r.masks == s.masks.reverse() && r.reversed == !s.reversed
        },
    decreases runs.len(),
{
    if runs.len() > 0 {
        kerning_keeps_the_glyphs(parts, l, s, runs.drop_last());
        assert(s.glyphs.reverse().reverse() =~= s.glyphs);
        assert(s.masks.reverse().reverse() =~= s.masks);
    }
}

/// A line that is turned around twice is as it was.
pub proof fn turning_twice_changes_nothing(parts: Seq<KernPart>, l: Looks, s: LineState)
    ensures
        run_once(parts, l, run_once(parts, l, s, KernRun::Reverse), KernRun::Reverse) == s,
        ({
            let r = run_once(parts, l, s, KernRun::Reverse);
            &&& r.glyphs.len() == s.glyphs.len()
            &&& forall|i: int|
                0 <= i < s.glyphs.len() ==> #[trigger] r.glyphs[i] == s.glyphs[s.glyphs.len() - 1 - i]
            &&& forall|i: int| 0 <= i < s.pos.len() ==> #[trigger] r.pos[i] == s.pos[s.pos.len() - 1 - i]
            &&& forall|i: int|
                0 <= i < s.masks.len() ==> #[trigger] r.masks[i] == s.masks[s.masks.len() - 1 - i]
        }),
{
    let r = run_once(parts, l, run_once(parts, l, s, KernRun::Reverse), KernRun::Reverse);
    assert(r.glyphs =~= s.glyphs);
    assert(r.masks =~= s.masks);
    assert(r.pos =~= s.pos);
}

/// A span of a line that stands turned around is of the same glyphs as the span
/// that is noted: a position is in the one where its glyph's own position is in
/// the other.
pub proof fn a_span_is_of_the_same_glyphs(s: LineState, spans: Seq<(int, int)>, k: int, i: int)
    requires
        0 <= k < spans.len(),
        0 <= i < s.glyphs.len(),
    ensures
        as_given(s, spans).len() == spans.len(),
        ({
            let own = if s.reversed {
                s.glyphs.len() - 1 - i
            } else {
                i
            };
            let noted = as_given(s, spans)[k];
            spans[k].0 <= i < spans[k].1 <==> noted.0 <= own < noted.1
        }),
{
}

/// Attaching glyphs to their neighbours moves none.
pub proof fn attaching_moves_nothing(parts: Seq<KernPart>, l: Looks, s: LineState, step: i16, i: int)
    requires
        0 <= i < s.pos.len(),
    ensures
        ({
            let r = run_once(parts, l, s, KernRun::Chain { step });
            &&& r.pos.len() == s.pos.len()
            &&& r.pos[i].x_advance == s.pos[i].x_advance
            &&& r.pos[i].y_advance == s.pos[i].y_advance
            &&& r.pos[i].x_offset == s.pos[i].x_offset
            &&& r.pos[i].y_offset == s.pos[i].y_offset
            &&& r.pos[i].attach_chain == step
            &&& r.pos[i].attach_type == ATTACH_CURSIVE
            &&& r.glyphs == s.glyphs && r.masks == s.masks && r.breaks == s.breaks && r.ops == s.ops
        }),
{
}

/// What a pair of a line comes to is what the subtable has for its two glyphs, in
/// the units of the axis that it moves them along: with the line for kerning
/// along it, and the other for kerning across.
pub proof fn a_pair_is_scaled_along_its_axis(
    p: KernPart,
    l: Looks,
    s: LineState,
    cross_stream: bool,
    next: Seq<NextGlyph>,
    i: int,
)
    requires
        0 <= i < s.glyphs.len(),
        next.len() == s.glyphs.len(),
        next[i] is At,
        may_be_first(p, s.glyphs[i]),
        may_be_second(p, s.glyphs[next[i]->At_0 as int]),
        kern_pair(p.data@, p.named_format(), p.aat, s.glyphs[i], s.glyphs[next[i]->At_0 as int]) is Some,
    ensures
        ({
            let v = kern_pair(
                p.data@,
                p.named_format(),
                p.aat,
                s.glyphs[i],
                s.glyphs[next[i]->At_0 as int],
            )->0;
            let step = pair_steps(p, s.glyphs, next, scale_for(l, cross_stream))[i];
            &&& step is Next
            &&& step->at == next[i]->At_0
            &&& l.horizontal && !cross_stream ==> step->kern == (l.scale_x)(v)
            &&& l.horizontal && cross_stream ==> step->kern == (l.scale_y)(v)
            &&& !l.horizontal && !cross_stream ==> step->kern == (l.scale_y)(v)
            &&& !l.horizontal && cross_stream ==> step->kern == (l.scale_x)(v)
        }),
{
}

/// A line that is read backwards is kerned as the line that reads the same
/// forwards: turned around, kerned and turned back, its positions are those of
/// the other, from the other end.
pub proof fn a_backward_line_is_kerned_like_its_mirror(
    parts: Seq<KernPart>,
    l: Looks,
    s: LineState,
    m: Looks,
    t: LineState,
    index: usize,
    cross_stream: bool,
)
    requires
        !s.reversed && !t.reversed,
        t.glyphs == s.glyphs.reverse(),
        t.masks == s.masks.reverse(),
        t.pos == s.pos.reverse(),
        m.forward == l.backward,
        m.horizontal == l.horizontal,
        m.kern_mask == l.kern_mask,
        m.scale_x == l.scale_x,
        m.scale_y == l.scale_y,
        t.ops == s.ops,
        t.attached == s.attached,
    ensures
        ({
            let simple = KernRun::Simple { index, cross_stream };
            let a = ran(parts, l, s, seq![KernRun::Reverse, simple, KernRun::Reverse]);
            let b = ran(parts, m, t, seq![simple]);
            &&& a.pos == b.pos.reverse()
            &&& a.glyphs == s.glyphs
            &&& a.attached == b.attached
            &&& a.unsafe_to_concat == b.unsafe_to_concat
        }),
        ({
            let machine = KernRun::Machine { index, cross_stream };
            let a = ran(parts, l, s, seq![KernRun::Reverse, machine, KernRun::Reverse]);
            let b = ran(parts, m, t, seq![machine]);
            &&& a.pos == b.pos.reverse()
            &&& a.glyphs == s.glyphs
            &&& a.attached == b.attached
            &&& a.ops == b.ops
        }),
{
    assert(s.glyphs.reverse().reverse() =~= s.glyphs);
    lemma_there_and_back(parts, l, s, KernRun::Simple { index, cross_stream });
    lemma_there_and_back(parts, l, s, KernRun::Machine { index, cross_stream });
    reveal_with_fuel(ran, 2);
    assert(seq![KernRun::Simple { index, cross_stream }].drop_last() =~= seq![]);
    assert(seq![KernRun::Machine { index, cross_stream }].drop_last() =~= seq![]);
}

proof fn lemma_there_and_back(parts: Seq<KernPart>, l: Looks, s: LineState, run: KernRun)
    ensures
        ran(parts, l, s, seq![KernRun::Reverse, run, KernRun::Reverse]) == run_once(
            parts,
            l,
            run_once(parts, l, run_once(parts, l, s, KernRun::Reverse), run),
            KernRun::Reverse,
        ),
{
    reveal_with_fuel(ran, 4);
    let all = seq![KernRun::Reverse, run, KernRun::Reverse];
    assert(all.drop_last() =~= seq![KernRun::Reverse, run]);
    assert(all.drop_last().drop_last() =~= seq![KernRun::Reverse]);
    assert(all.drop_last().drop_last().drop_last() =~= seq![]);
}

/// Kerning pairs makes a line unsafe to append to, uses up no operations, and
/// forgets no span that may not be broken; nor does a machine.
pub proof fn kerning_only_adds_hazards(
    parts: Seq<KernPart>,
    l: Looks,
    s: LineState,
    index: usize,
    cross_stream: bool,
)
    ensures
        ({
            let r = run_once(parts, l, s, KernRun::Simple { index, cross_stream });
            &&& r.unsafe_to_concat
            &&& r.ops == s.ops
            &&& s.attached ==> r.attached
            &&& s.breaks.is_prefix_of(r.breaks)
        }),
        ({
            let r = run_once(parts, l, s, KernRun::Machine { index, cross_stream });
            &&& r.unsafe_to_concat == s.unsafe_to_concat
            &&& s.attached ==> r.attached
            &&& s.breaks.is_prefix_of(r.breaks)
        }),
{
}

/// Where kerning is off for every glyph of a line, neither pairs nor a machine
/// along it move anything.
pub proof fn a_line_with_kerning_off_stays(
    parts: Seq<KernPart>,
    l: Looks,
    s: LineState,
    index: usize,
    cross_stream: bool,
)
    requires
        s.masks.len() == s.glyphs.len(),
        s.pos.len() == s.glyphs.len(),
        s.glyphs.len() <= usize::MAX,
        forall|j: int| 0 <= j < s.masks.len() ==> #[trigger] s.masks[j] & l.kern_mask == 0,
    ensures
        run_once(parts, l, s, KernRun::Simple { index, cross_stream }).pos == s.pos,
        run_once(parts, l, s, KernRun::Simple { index, cross_stream }).breaks == s.breaks,
        !cross_stream ==> run_once(parts, l, s, KernRun::Machine { index, cross_stream }).pos == s.pos,
{
    let p = parts[index as int];
    let next = if s.reversed {
        l.backward
    } else {
        l.forward
    };
    let steps = pair_steps(p, s.glyphs, next, scale_for(l, cross_stream));
    let dir = KernDirection { horizontal: l.horizontal, cross_stream };
    let start = Kerned { pos: s.pos, attached: false, breaks: seq![] };
    a_line_without_kerning_keeps_its_pairs(start, s.masks, l.kern_mask, dir, steps, 0);
    let r = run_once(parts, l, s, KernRun::Simple { index, cross_stream });
    assert(as_given(s, seq![]) =~= seq![]);
    assert(r.breaks =~= s.breaks);
    if !cross_stream {
        let begun = started(p.data@, s.ops);
        let end = driven(p.data@, s.glyphs, begun);
        let actions = as_actions(end.actions);
        let scale = scale_for(l, cross_stream);
        let scaled = Seq::new(actions.len(), |i: int| scale(actions[i].1));
        assert forall|k: int| 0 <= k < actions.len() implies s.masks[(#[trigger] actions[k]).0 as int]
            & l.kern_mask == 0 && actions[k].0 < s.pos.len() by {
            a_drive_moves_glyphs_of_the_line(p.data@, s.glyphs, s.ops, k);
            assert(actions[k].0 == end.actions[k].0);
        }
        a_line_without_kerning_keeps_its_place(
            s.pos,
            s.masks,
            l.kern_mask,
            l.horizontal,
            actions,
            scaled,
            actions.len(),
        );
    }
}

} // verus!
