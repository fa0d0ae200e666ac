//! Kerning by a font's `kern` table.
//!
//! A state machine pushes glyphs and later pops them to be moved; a simple
//! subtable gives a value for a pair. What each decides is worked out here on
//! plain values, and the flags a line owes are handed back as spans.

use vstd::prelude::*;

use crate::aat_glyph_set::{GlyphSet, DELETED_GLYPH};
use crate::buffer::{halved, saturated, saturating_add, GlyphPosition};
use crate::bytes::{be16, fits, word, word_at};
use crate::kern_machine::{
    actionable, advances, cache_sound, class_for, decodable, decoding_keeps_every_transition,
    ends_match, entry, get_class, has_advance, has_offset, has_push, is_action_initiable,
    is_actionable, machine_entry, machine_readable, pushes, state_bytes, transition_of,
    transition_raw, value_offset, ClassCache, DecodedStateMachine, Transition, CLASS_DELETED_GLYPH,
    CLASS_END_OF_TEXT, START_OF_TEXT,
};

verus! {

/// How many glyphs the kerning stack holds.
pub const STACK_SIZE: usize = 8;

/// Where a drive stands: the position, the state (minus one for any that has no
/// row), the pushed positions, the operations left, the kerning values to
/// apply as `(position, value)`, and the spans a line may not be broken in.
#[verifier::ext_equal]
pub struct Drive {
    pub idx: int,
    pub state: int,
    pub stack: Seq<int>,
    pub ops: int,
    pub actions: Seq<(int, int)>,
    pub breaks: Seq<(int, int)>,
}

/// A state by its row: those with no row are all the same.
pub open spec fn row_of(d: Seq<u8>, state: u16) -> int {
    if state * word(d, 0) >= state_bytes(d) {
        -1
    } else {
        state as int
    }
}

/// The transition out of a row.
pub open spec fn row_transition(d: Seq<u8>, row: int, class: u8) -> Option<Transition> {
    if row < 0 {
        None
    } else {
        transition_of(d, row as u16, class)
    }
}

/// The class under the cursor.
pub open spec fn class_at(d: Seq<u8>, glyphs: Seq<u32>, idx: int) -> u8 {
    if idx < glyphs.len() {
        class_for(d, glyphs[idx])
    } else {
        CLASS_END_OF_TEXT
    }
}

/// A kerning value in the table; zero past the end.
pub open spec fn value_at(d: Seq<u8>, offset: int) -> int {
    match word_at(d, offset) {
        Some(w) => if w < 0x8000 {
            w as int
        } else {
            w - 0x1_0000
        },
        None => 0,
    }
}

/// A value without the bit that marks the end of its list.
pub open spec fn even(v: int) -> int {
    v - v % 2
}

/// Popping the stack along a list of values from `offset` on: each value moves
/// the glyph it is popped for, up to the one that is odd. A position past the
/// end is popped for nothing, and does not end the list.
pub open spec fn popped(d: Seq<u8>, len: int, stack: Seq<int>, offset: int) -> (Seq<int>, Seq<(int, int)>)
    decreases stack.len(),
{
    if stack.len() == 0 {
        (stack, seq![])
    } else {
        let at = stack.last();
        let rest = stack.drop_last();
        let v = value_at(d, offset);
        if at >= len {
            popped(d, len, rest, offset + 2)
        } else if v % 2 != 0 {
            (rest, seq![(at, even(v))])
        } else {
            let (end, more) = popped(d, len, rest, offset + 2);
            (end, seq![(at, even(v))] + more)
        }
    }
}

/// Pushing a position: a full stack is emptied instead.
pub open spec fn pushed(stack: Seq<int>, idx: int, flags: u16) -> Seq<int> {
    if !pushes(flags) {
        stack
    } else if stack.len() < STACK_SIZE {
        stack.push(idx)
    } else {
        seq![]
    }
}

/// What a transition does to the stack, and the values it applies. A list that
/// cannot be read empties the stack.
pub open spec fn acted(d: Seq<u8>, len: int, stack: Seq<int>, idx: int, flags: u16) -> (Seq<int>, Seq<
    (int, int),
>) {
    let full = pushed(stack, idx, flags);
    let offset = (flags & 0x3FFF) as int;
    if !actionable(flags) || full.len() == 0 {
        (full, seq![])
    } else if !fits(d, offset, 2) {
        (seq![], seq![])
    } else {
        popped(d, len, full, offset)
    }
}

/// One transition of a drive. The line may not be broken before a glyph that
/// the transition depends on.
pub open spec fn stepped(d: Seq<u8>, glyphs: Seq<u32>, m: Drive, t: Transition) -> Drive {
    let n = glyphs.len() as int;
    let (stack, values) = acted(d, n, m.stack, m.idx, t.flags);
    let ops = if m.idx < n {
        m.ops - 1
    } else {
        m.ops
    };
    Drive {
        idx: if m.idx < n && (advances(t.flags) || ops <= 0) {
            m.idx + 1
        } else {
            m.idx
        },
        state: row_of(d, t.next_state),
        stack,
        ops,
        actions: m.actions + values,
        breaks: if !t.safe && 0 < m.idx < n {
            m.breaks.push((m.idx - 1, m.idx + 1))
        } else {
            m.breaks
        },
    }
}

/// A drive to its end: until there is no transition, or past the transition at
/// the end of the text.
pub open spec fn driven(d: Seq<u8>, glyphs: Seq<u32>, m: Drive) -> Drive
    decreases glyphs.len() - m.idx + (if m.ops > 0 { m.ops } else { 0 }) + 1,
{
    if m.idx < 0 || m.idx > glyphs.len() {
        m
    } else {
        match row_transition(d, m.state, class_at(d, glyphs, m.idx)) {
            None => m,
            Some(t) => if m.idx >= glyphs.len() {
                stepped(d, glyphs, m, t)
            } else {
                driven(d, glyphs, stepped(d, glyphs, m, t))
            },
        }
    }
}

/// A drive at its start.
pub open spec fn started(d: Seq<u8>, ops: int) -> Drive {
    Drive {
        idx: 0,
        state: row_of(d, START_OF_TEXT),
        stack: seq![],
        ops,
        actions: seq![],
        breaks: seq![],
    }
}

/// Positions as numbers.
pub open spec fn places(s: Seq<usize>) -> Seq<int> {
    Seq::new(s.len(), |i: int| s[i] as int)
}

/// Values by position, as numbers.
pub open spec fn moves(s: Seq<(usize, i32)>) -> Seq<(int, int)> {
    Seq::new(s.len(), |i: int| (s[i].0 as int, s[i].1 as int))
}

/// Spans as numbers.
pub open spec fn spans_of(s: Seq<(usize, usize)>) -> Seq<(int, int)> {
    Seq::new(s.len(), |i: int| (s[i].0 as int, s[i].1 as int))
}

/// A kerning value in the table; zero past the end.
fn read_value(d: &[u8], offset: usize) -> (v: i32)
    ensures
        v == value_at(d@, offset as int),
        -0x8000 <= v <= 0x7fff,
{
    match be16(d, offset) {
        Some(w) => {
            if w < 0x8000 {
                w as i32
            } else {
                w as i32 - 0x1_0000
            }
        },
        None => 0,
    }
}

/// What one transition does: push the glyph, then pop glyphs along the list of
/// values that the flags point at.
fn state_machine_transition(
    d: &[u8],
    len: usize,
    flags: u16,
    idx: usize,
    stack: &mut Vec<usize>,
    actions: &mut Vec<(usize, i32)>,
)
    requires
        old(stack)@.len() <= STACK_SIZE,
    ensures
        final(stack)@.len() <= STACK_SIZE,
        places(final(stack)@) == acted(d@, len as int, places(old(stack)@), idx as int, flags).0,
        moves(final(actions)@) == moves(old(actions)@) + acted(
            d@,
            len as int,
            places(old(stack)@),
            idx as int,
            flags,
        ).1,
{
    if has_push(flags) {
        if stack.len() < STACK_SIZE {
            stack.push(idx);
        } else {
            stack.clear();
        }
    }
    let ghost full = pushed(places(old(stack)@), idx as int, flags);
    assert(places(stack@) =~= full);
    assert(moves(actions@) =~= moves(old(actions)@) + Seq::<(int, int)>::empty());
    if !has_offset(flags) || stack.len() == 0 {
        return;
    }
    let mut offset: usize = value_offset(flags) as usize;
    let ghost first = offset as int;
    if be16(d, offset).is_none() {
        stack.clear();
        assert(places(stack@) =~= Seq::<int>::empty());
        return;
    }
    // Each pops one glyph from the kerning stack and applies the kerning value
    // to it. The end of the list is marked by an odd value.
    let mut last: bool = false;
    let ghost mut done: Seq<(int, int)> = seq![];
    while !last && stack.len() > 0
        invariant
            stack@.len() <= STACK_SIZE,
            offset <= 0x3FFF + 2 * (STACK_SIZE - stack@.len()) + 2,
            moves(actions@) == moves(old(actions)@) + done,
            last ==> popped(d@, len as int, full, first) == (places(stack@), done),
            !last ==> popped(d@, len as int, full, first) == (
                popped(d@, len as int, places(stack@), offset as int).0,
                done + popped(d@, len as int, places(stack@), offset as int).1,
            ),
        ensures
            stack@.len() <= STACK_SIZE,
            moves(actions@) == moves(old(actions)@) + done,
            popped(d@, len as int, full, first) == (places(stack@), done),
        decreases stack@.len(),
    {
        let ghost before = places(stack@);
        let ghost before_moves = moves(actions@);
        let at: usize = stack.pop().unwrap();
        assert(places(stack@) =~= before.drop_last());
        let v: i32 = read_value(d, offset);
        let ghost here = offset as int;
        offset = offset + 2;
        if at < len {
            last = v % 2 != 0;
            let value: i32 = if last {
                v - 1
            } else {
                v
            };
            assert(last == (v as int % 2 != 0) && value == even(v as int)) by {
                lemma_parity(v);
            }
            actions.push((at, value));
            proof {
                let more = popped(d@, len as int, before.drop_last(), here + 2).1;
                assert(moves(actions@) =~= before_moves.push((at as int, value as int)));
                if !last {
                    assert(done + (seq![(at as int, value as int)] + more) =~= done.push(
                        (at as int, value as int),
                    ) + more);
                } else {
                    assert(done + seq![(at as int, value as int)] =~= done.push((at as int, value as int)));
                }
                done = done.push((at as int, value as int));
                assert(moves(actions@) =~= moves(old(actions)@) + done);
            }
        }
    }
    proof {
        assert(done + Seq::<(int, int)>::empty() =~= done);
    }
}

/// The remainder of a truncating division agrees with the mathematical one on
/// which numbers are odd.
proof fn lemma_parity(v: i32)
    ensures
        (v % 2 != 0) == (v as int % 2 != 0),
{
}

/// What a drive hands back: values to apply, as `(position, value)`, spans that
/// a line may not be broken in, and the operations left.
#[derive(Clone, Debug)]
pub struct DriveOutcome {
    pub actions: Vec<(usize, i32)>,
    pub breaks: Vec<(usize, usize)>,
    pub max_ops: i32,
}

/// The next transition: from the decoded array where there is one, else from
/// the font.
fn next_transition(
    d: &[u8],
    decoded: Option<&DecodedStateMachine>,
    ends: u64,
    state: u16,
    class: u8,
) -> (r: Option<Transition>)
    requires
        ends_match(d@, ends),
        decoded matches Some(m) ==> m.decodes(d@),
    ensures
        match transition_of(d@, state, class) {
            None => r is None,
            Some(t) => r matches Some(u) && u.flags == t.flags && u.safe == t.safe && row_of(d@, u.next_state)
                == row_of(d@, t.next_state),
        },
{
    match decoded {
        Some(m) => {
            proof {
                decoding_keeps_every_transition(*m, d@, state, class);
                if let Some(t) = transition_of(d@, state, class) {
                    lemma_clipped_row(d@, t.next_state);
                }
            }
            m.transition(state, class)
        },
        None => transition_raw(d, ends, state, class),
    }
}

/// A state too large to pack has no row, and neither has what it is packed as.
proof fn lemma_clipped_row(d: Seq<u8>, state: u16)
    requires
        decodable(d),
    ensures
        row_of(d, vstd::math::min(state as int, 0x3FFF) as u16) == row_of(d, state),
{
    let n = word(d, 0) as int;
    let bytes = state_bytes(d);
    if state >= 0x3FFF {
        assert(0x3FFF * n >= bytes) by (nonlinear_arith)
            requires
                n > 0,
                bytes > 0,
                (bytes + n - 1) / n <= 0x3FFE,
        ;
        assert(state * n >= 0x3FFF * n) by (nonlinear_arith)
            requires
                state >= 0x3FFF,
                n > 0,
        ;
    }
}

/// A state without a row has no transition.
proof fn lemma_no_row(d: Seq<u8>, state: u16, class: u8)
    requires
        row_of(d, state) < 0,
    ensures
        transition_of(d, state, class) is None,
{
    let n = word(d, 0) as int;
    assert(state * n >= 0) by (nonlinear_arith)
        requires
            state >= 0,
            n >= 0,
    ;
}

/// What of a number lies below zero.
pub open spec fn below_zero(n: int) -> int {
    if n < 0 {
        n
    } else {
        0
    }
}

/// Whether this is what driving a machine over a line comes to.
pub open spec fn is_outcome(d: Seq<u8>, glyphs: Seq<u32>, max_ops: i32, r: DriveOutcome) -> bool {
    let end = driven(d, glyphs, started(d, max_ops as int));
    &&& moves(r.actions@) == end.actions
    &&& spans_of(r.breaks@) == end.breaks
    &&& r.max_ops == end.ops
}

/// Driving a machine over a line comes to one thing, whether the machine was
/// decoded or is read from the font.
pub proof fn decoding_changes_no_outcome(
    d: Seq<u8>,
    glyphs: Seq<u32>,
    max_ops: i32,
    a: DriveOutcome,
    b: DriveOutcome,
)
    requires
        is_outcome(d, glyphs, max_ops, a),
        is_outcome(d, glyphs, max_ops, b),
    ensures
        a.actions@ == b.actions@,
        a.breaks@ == b.breaks@,
        a.max_ops == b.max_ops,
{
    assert(a.actions@ =~= b.actions@) by {
        assert(moves(a.actions@).len() == moves(b.actions@).len());
        assert forall|i: int| 0 <= i < a.actions@.len() implies a.actions@[i] == b.actions@[i] by {
            assert(moves(a.actions@)[i] == moves(b.actions@)[i]);
        }
    }
    assert(a.breaks@ =~= b.breaks@) by {
        assert(spans_of(a.breaks@).len() == spans_of(b.breaks@).len());
        assert forall|i: int| 0 <= i < a.breaks@.len() implies a.breaks@[i] == b.breaks@[i] by {
            assert(spans_of(a.breaks@)[i] == spans_of(b.breaks@)[i]);
        }
    }
}

/// Whether everything a drive hands back lies inside a line of `n` glyphs.
pub open spec fn inside(m: Drive, n: int) -> bool {
    &&& forall|i: int| 0 <= i < m.actions.len() ==> (#[trigger] m.actions[i]).0 < n
    &&& forall|i: int|
        0 <= i < m.breaks.len() ==> 0 <= (#[trigger] m.breaks[i]).0 < m.breaks[i].1 <= n
}

/// Values are popped only for positions of the line.
proof fn lemma_popped_inside(d: Seq<u8>, len: int, stack: Seq<int>, offset: int)
    ensures
        forall|i: int|
            0 <= i < popped(d, len, stack, offset).1.len() ==> (#[trigger] popped(
                d,
                len,
                stack,
                offset,
            ).1[i]).0 < len,
    decreases stack.len(),
{
    if stack.len() > 0 {
        lemma_popped_inside(d, len, stack.drop_last(), offset + 2);
        let all = popped(d, len, stack, offset).1;
        let more = popped(d, len, stack.drop_last(), offset + 2).1;
        assert forall|i: int| 0 <= i < all.len() implies (#[trigger] all[i]).0 < len by {
            if stack.last() >= len {
                assert(all[i] == more[i]);
            } else if i > 0 {
                assert(all[i] == more[i - 1]);
            }
        }
    }
}

/// A drive stays inside the line, and what it takes of the operations once there
/// are none left is at most one for each glyph.
proof fn lemma_driven_inside(d: Seq<u8>, glyphs: Seq<u32>, m: Drive)
    requires
        inside(m, glyphs.len() as int),
        0 <= m.idx <= glyphs.len(),
    ensures
        inside(driven(d, glyphs, m), glyphs.len() as int),
        driven(d, glyphs, m).ops >= below_zero(m.ops) - (glyphs.len() - m.idx),
        driven(d, glyphs, m).ops <= m.ops,
    decreases glyphs.len() - m.idx + (if m.ops > 0 { m.ops } else { 0 }) + 1,
{
    let n = glyphs.len() as int;
    if let Some(t) = row_transition(d, m.state, class_at(d, glyphs, m.idx)) {
        let next = stepped(d, glyphs, m, t);
        let full = pushed(m.stack, m.idx, t.flags);
        lemma_popped_inside(d, n, full, (t.flags & 0x3FFF) as int);
        let values = acted(d, n, m.stack, m.idx, t.flags).1;
        assert forall|i: int| 0 <= i < next.actions.len() implies (#[trigger] next.actions[i]).0 < n by {
            if i < m.actions.len() {
                assert(next.actions[i] == m.actions[i]);
            } else {
                assert(next.actions[i] == values[i - m.actions.len()]);
            }
        }
        assert(inside(next, n));
        if m.idx < n {
            lemma_driven_inside(d, glyphs, next);
        }
    }
}

/// Drive a machine over a line.
pub fn apply_state_machine_kerning(
    d: &[u8],
    decoded: Option<&DecodedStateMachine>,
    ends: u64,
    glyphs: &[u32],
    max_ops: i32,
    cache: &mut ClassCache,
) -> (r: DriveOutcome)
    requires
        ends_match(d@, ends),
        decoded matches Some(m) ==> m.decodes(d@),
        cache_sound(d@, *old(cache)),
        below_zero(max_ops as int) - glyphs@.len() >= i32::MIN,
    ensures
        cache_sound(d@, *final(cache)),
        is_outcome(d@, glyphs@, max_ops, r),
        forall|i: int| 0 <= i < r.actions@.len() ==> (#[trigger] r.actions@[i]).0 < glyphs@.len(),
        forall|i: int|
            0 <= i < r.breaks@.len() ==> (#[trigger] r.breaks@[i]).0 < r.breaks@[i].1 <= glyphs@.len(),
        r.max_ops >= below_zero(max_ops as int) - glyphs@.len(),
        r.max_ops <= max_ops,
{
    let n: usize = glyphs.len();
    let mut stack: Vec<usize> = Vec::new();
    let mut actions: Vec<(usize, i32)> = Vec::new();
    let mut breaks: Vec<(usize, usize)> = Vec::new();
    let mut ops: i32 = max_ops;
    let mut state: u16 = START_OF_TEXT;
    let mut idx: usize = 0;
    let ghost end = driven(d@, glyphs@, started(d@, max_ops as int));
    let ghost mut m: Drive = started(d@, max_ops as int);
    assert(places(stack@) =~= m.stack && moves(actions@) =~= m.actions && spans_of(breaks@) =~= m.breaks);
    loop
        invariant_except_break
            driven(d@, glyphs@, m) == end,
            m.idx == idx <= n,
            m.state == row_of(d@, state),
        invariant
            ends_match(d@, ends),
            decoded matches Some(m) ==> m.decodes(d@),
            cache_sound(d@, *cache),
            stack@.len() <= STACK_SIZE,
            n == glyphs@.len(),
            below_zero(max_ops as int) - n >= i32::MIN,
            ops >= below_zero(max_ops as int) - idx,
            idx <= n,
            m.stack == places(stack@),
            m.ops == ops,
            m.actions == moves(actions@),
            m.breaks == spans_of(breaks@),
        ensures
            m == end,
        decreases n - idx + (if ops > 0 { ops as int } else { 0 }) + 1,
    {
        let class: u8 = if idx < n {
            get_class(d, glyphs[idx], cache)
        } else {
            CLASS_END_OF_TEXT
        };
        proof {
            if row_of(d@, state) < 0 {
                lemma_no_row(d@, state, class);
            }
        }
        let t: Transition = match next_transition(d, decoded, ends, state, class) {
            Some(t) => t,
            None => {
                break;
            },
        };
        let ghost full = row_transition(d@, m.state, class)->0;
        let ghost before = m;
        if !t.safe && idx > 0 && idx < n {
            breaks.push((idx - 1, idx + 1));
            assert(spans_of(breaks@) =~= before.breaks.push((idx - 1, idx + 1)));
        }
        state_machine_transition(d, n, t.flags, idx, &mut stack, &mut actions);
        state = t.next_state;
        proof {
            m = stepped(d@, glyphs@, before, full);
            assert(m.stack == places(stack@));
            assert(m.actions == moves(actions@));
        }
        if idx >= n {
            break;
        }
        ops = ops - 1;
        if has_advance(t.flags) || ops <= 0 {
            idx = idx + 1;
        }
    }
    proof {
        lemma_driven_inside(d@, glyphs@, started(d@, max_ops as int));
        assert forall|i: int| 0 <= i < actions@.len() implies (#[trigger] actions@[i]).0 < n by {
            assert(moves(actions@)[i] == (actions@[i].0 as int, actions@[i].1 as int));
        }
        assert forall|i: int| 0 <= i < breaks@.len() implies (#[trigger] breaks@[i]).0 < breaks@[i].1 <= n by {
            assert(spans_of(breaks@)[i] == (breaks@[i].0 as int, breaks@[i].1 as int));
        }
    }
    DriveOutcome { actions, breaks, max_ops: ops }
}

/// Which way a kerning value applies.
#[derive(Copy, Clone, Debug, PartialEq, Eq, Structural)]
pub struct KernDirection {
    /// Whether the text runs horizontally.
    pub horizontal: bool,
    /// Whether values move glyphs across the line rather than along it.
    pub cross_stream: bool,
}

impl KernDirection {
    /// Whether values are horizontal distances.
    pub fn uses_x_scale(self) -> (r: bool)
        ensures
            r == (self.horizontal != self.cross_stream),
    {
        self.horizontal != self.cross_stream
    }
}

/// The value that takes a glyph out of a chain of attachments.
pub const KERN_RESET: i32 = -0x8000;

/// What a machine's value does to a position, and whether it leaves the line
/// with an attachment. `value` is as in the table, `scaled` what it comes to,
/// and `kerned` whether the glyph has kerning on.
pub open spec fn moved(p: GlyphPosition, dir: KernDirection, value: i32, scaled: i32, kerned: bool) -> (
    GlyphPosition,
    bool,
) {
    if dir.cross_stream {
        if value == KERN_RESET {
            let q = GlyphPosition { attach_type: 0, attach_chain: 0, ..p };
            if dir.horizontal {
                (GlyphPosition { y_offset: 0, ..q }, false)
            } else {
                (GlyphPosition { x_offset: 0, ..q }, false)
            }
        } else if p.attach_type != 0 {
            if dir.horizontal {
                (GlyphPosition { y_offset: saturated(p.y_offset + scaled), ..p }, true)
            } else {
                (GlyphPosition { x_offset: saturated(p.x_offset + scaled), ..p }, true)
            }
        } else {
            (p, false)
        }
    } else if !kerned {
        (p, false)
    } else if dir.horizontal {
        (
            GlyphPosition {
                x_advance: saturated(p.x_advance + scaled),
                x_offset: saturated(p.x_offset + scaled),
                ..p
            },
            false,
        )
    } else if p.y_offset == 0 {
        (
            GlyphPosition {
                y_advance: saturated(p.y_advance + scaled),
                y_offset: saturated(p.y_offset + scaled),
                ..p
            },
            false,
        )
    } else {
        (p, false)
    }
}

/// Apply a machine's value to a position.
pub fn apply_value(p: &mut GlyphPosition, dir: KernDirection, value: i32, scaled: i32, kerned: bool) -> (
    attached: bool)
    ensures
        (*final(p), attached) == moved(*old(p), dir, value, scaled, kerned),
{
    if dir.cross_stream {
        // The reset is described only in an example of the table.
        if value == KERN_RESET {
            p.attach_type = 0;
            p.attach_chain = 0;
            if dir.horizontal {
                p.y_offset = 0;
            } else {
                p.x_offset = 0;
            }
            false
        } else if p.attach_type != 0 {
            if dir.horizontal {
                p.y_offset = saturating_add(p.y_offset, scaled);
            } else {
                p.x_offset = saturating_add(p.x_offset, scaled);
            }
            true
        } else {
            false
        }
    } else {
        if kerned {
            if dir.horizontal {
                p.x_advance = saturating_add(p.x_advance, scaled);
                p.x_offset = saturating_add(p.x_offset, scaled);
            } else if p.y_offset == 0 {
                p.y_advance = saturating_add(p.y_advance, scaled);
                p.y_offset = saturating_add(p.y_offset, scaled);
            }
        }
        false
    }
}

/// The positions after the first `n` values of a drive, and whether one of them
/// left an attachment.
pub open spec fn moved_all(
    pos: Seq<GlyphPosition>,
    masks: Seq<u32>,
    kern_mask: u32,
    dir: KernDirection,
    actions: Seq<(usize, i32)>,
    scaled: Seq<i32>,
    n: nat,
) -> (Seq<GlyphPosition>, bool)
    decreases n,
{
    if n == 0 {
        (pos, false)
    } else {
        let (before, attached) = moved_all(pos, masks, kern_mask, dir, actions, scaled, (n - 1) as nat);
        let at = actions[n - 1].0 as int;
        let (p, more) = moved(
            before[at],
            dir,
            actions[n - 1].1,
            scaled[n - 1],
            masks[at] & kern_mask != 0,
        );
        (before.update(at, p), attached || more)
    }
}

/// Apply the values of a drive in order. `scaled` holds what each comes to in
/// the units of the line.
pub fn apply_actions(
    pos: &mut Vec<GlyphPosition>,
    masks: &[u32],
    kern_mask: u32,
    dir: KernDirection,
    actions: &[(usize, i32)],
    scaled: &[i32],
) -> (attached: bool)
    requires
        old(pos)@.len() == masks@.len(),
        scaled@.len() == actions@.len(),
        forall|i: int| 0 <= i < actions@.len() ==> (#[trigger] actions@[i]).0 < masks@.len(),
    ensures
        final(pos)@.len() == old(pos)@.len(),
        (final(pos)@, attached) == moved_all(
            old(pos)@,
            masks@,
            kern_mask,
            dir,
            actions@,
            scaled@,
            actions@.len(),
        ),
{
    let mut attached: bool = false;
    let mut i: usize = 0;
    while i < actions.len()
        invariant
            i <= actions@.len(),
            pos@.len() == masks@.len(),
            scaled@.len() == actions@.len(),
            forall|i: int| 0 <= i < actions@.len() ==> (#[trigger] actions@[i]).0 < masks@.len(),
            (pos@, attached) == moved_all(old(pos)@, masks@, kern_mask, dir, actions@, scaled@, i as nat),
        decreases actions@.len() - i,
    {
        let (at, value) = actions[i];
        assert(actions@[i as int].0 < masks@.len());
        let mut p: GlyphPosition = pos[at];
        let kerned: bool = masks[at] & kern_mask != 0;
        if apply_value(&mut p, dir, value, scaled[i], kerned) {
            attached = true;
        }
        pos.set(at, p);
        i += 1;
    }
    attached
}

/// What a line offers a pair kerner at one position: the next glyph a pattern
/// would see and what the pair comes to, or how far the search got.
#[derive(Copy, Clone, Debug, PartialEq, Eq, Structural)]
pub enum PairStep {
    Next { at: usize, kern: i32 },
    Nothing { unsafe_to: usize },
}

/// The positions, whether something is attached, and the spans a line may not
/// be broken in.
#[verifier::ext_equal]
pub struct Kerned {
    pub pos: Seq<GlyphPosition>,
    pub attached: bool,
    pub breaks: Seq<(int, int)>,
}

/// What one pair does. Along the line the value is split between the two
/// glyphs; across it the second is moved.
pub open spec fn pair_moved(k: Kerned, dir: KernDirection, i: int, j: int, kern: i32) -> Kerned {
    let kern1 = kern as int / 2;
    let kern2 = kern - kern1;
    if kern == 0 {
        k
    } else {
        let breaks = k.breaks.push((i, j + 1));
        if dir.cross_stream {
            let q = if dir.horizontal {
                GlyphPosition { y_offset: kern, ..k.pos[j] }
            } else {
                GlyphPosition { x_offset: kern, ..k.pos[j] }
            };
            Kerned { pos: k.pos.update(j, q), attached: true, breaks }
        } else {
            let p = k.pos[i];
            let q = k.pos[j];
            let p1 = if dir.horizontal {
                GlyphPosition { x_advance: saturated(p.x_advance + kern1), ..p }
            } else {
                GlyphPosition { y_advance: saturated(p.y_advance + kern1), ..p }
            };
            let q1 = if dir.horizontal {
                GlyphPosition {
                    x_advance: saturated(q.x_advance + kern2),
                    x_offset: saturated(q.x_offset + kern2),
                    ..q
                }
            } else {
                GlyphPosition {
                    y_advance: saturated(q.y_advance + kern2),
                    y_offset: saturated(q.y_offset + kern2),
                    ..q
                }
            };
            Kerned { pos: k.pos.update(i, p1).update(j, q1), attached: k.attached, breaks }
        }
    }
}

/// Whether each step goes forward and stays inside the line.
pub open spec fn steps_forward(steps: Seq<PairStep>) -> bool {
    forall|i: int|
        0 <= i < steps.len() ==> match #[trigger] steps[i] {
            PairStep::Next { at, kern } => i < at < steps.len(),
            PairStep::Nothing { unsafe_to } => i < unsafe_to,
        }
}

/// Kerning pairs from position `i` on. A glyph without kerning is passed over;
/// after a pair the second glyph is next.
pub open spec fn pairs_kerned(
    k: Kerned,
    masks: Seq<u32>,
    kern_mask: u32,
    dir: KernDirection,
    steps: Seq<PairStep>,
    i: int,
) -> Kerned
    decreases (if i < steps.len() { steps.len() - i } else { 0 }),
{
    if i < 0 || i >= steps.len() || !steps_forward(steps) {
        k
    } else if masks[i] & kern_mask == 0 {
        pairs_kerned(k, masks, kern_mask, dir, steps, i + 1)
    } else {
        match steps[i] {
            PairStep::Nothing { unsafe_to } => pairs_kerned(
                k,
                masks,
                kern_mask,
                dir,
                steps,
                unsafe_to as int,
            ),
            PairStep::Next { at, kern } => pairs_kerned(
                pair_moved(k, dir, i, at as int, kern),
                masks,
                kern_mask,
                dir,
                steps,
                at as int,
            ),
        }
    }
}

/// Kern the pairs of a line. `steps` says for each position which glyph would
/// be next and what the pair comes to, in the units of the line. Hands back
/// whether something is attached, and the spans a line may not be broken in.
pub fn machine_kern(
    pos: &mut Vec<GlyphPosition>,
    masks: &[u32],
    kern_mask: u32,
    dir: KernDirection,
    steps: &[PairStep],
) -> (r: (bool, Vec<(usize, usize)>))
    requires
        old(pos)@.len() == masks@.len(),
        steps@.len() == masks@.len(),
        steps_forward(steps@),
    ensures
        final(pos)@.len() == old(pos)@.len(),
        (Kerned { pos: final(pos)@, attached: r.0, breaks: spans_of(r.1@) }) == pairs_kerned(
            Kerned { pos: old(pos)@, attached: false, breaks: seq![] },
            masks@,
            kern_mask,
            dir,
            steps@,
            0,
        ),
        forall|i: int|
            0 <= i < r.1@.len() ==> (#[trigger] r.1@[i]).0 < r.1@[i].1 <= masks@.len(),
{
    let mut attached: bool = false;
    let mut breaks: Vec<(usize, usize)> = Vec::new();
    let n: usize = steps.len();
    let mut i: usize = 0;
    let ghost start = Kerned { pos: old(pos)@, attached: false, breaks: seq![] };
    let ghost mut now = start;
    assert(spans_of(breaks@) =~= Seq::<(int, int)>::empty());
    while i < n
        invariant
            n == steps@.len(),
            pos@.len() == masks@.len(),
            steps@.len() == masks@.len(),
            steps_forward(steps@),
            now == (Kerned { pos: pos@, attached, breaks: spans_of(breaks@) }),
            forall|i: int|
                0 <= i < breaks@.len() ==> (#[trigger] breaks@[i]).0 < breaks@[i].1 <= masks@.len(),
            pairs_kerned(now, masks@, kern_mask, dir, steps@, i as int) == pairs_kerned(
                start,
                masks@,
                kern_mask,
                dir,
                steps@,
                0,
            ),
        decreases (if i < n { n - i } else { 0 }),
    {
        if masks[i] & kern_mask == 0 {
            i += 1;
            continue;
        }
        match steps[i] {
            PairStep::Nothing { unsafe_to } => {
                assert(steps@[i as int] == PairStep::Nothing { unsafe_to });
                i = unsafe_to;
            },
            PairStep::Next { at, kern } => {
                assert(steps@[i as int] == PairStep::Next { at, kern });
                let j: usize = at;
                let ghost before = now;
                if kern != 0 {
                    if dir.cross_stream {
                        let mut q: GlyphPosition = pos[j];
                        if dir.horizontal {
                            q.y_offset = kern;
                        } else {
                            q.x_offset = kern;
                        }
                        pos.set(j, q);
                        attached = true;
                    } else {
                        let kern1: i32 = halved(kern);
                        let kern2: i32 = kern - kern1;
                        let mut p: GlyphPosition = pos[i];
                        let mut q: GlyphPosition = pos[j];
                        if dir.horizontal {
                            p.x_advance = saturating_add(p.x_advance, kern1);
                            q.x_advance = saturating_add(q.x_advance, kern2);
                            q.x_offset = saturating_add(q.x_offset, kern2);
                        } else {
                            p.y_advance = saturating_add(p.y_advance, kern1);
                            q.y_advance = saturating_add(q.y_advance, kern2);
                            q.y_offset = saturating_add(q.y_offset, kern2);
                        }
                        pos.set(i, p);
                        pos.set(j, q);
                    }
                    breaks.push((i, j + 1));
                    assert(spans_of(breaks@) =~= before.breaks.push((i as int, j + 1)));
                }
                proof {
                    now = pair_moved(before, dir, i as int, j as int, kern);
                    assert(now.pos =~= pos@);
                }
                i = j;
            },
        }
    }
    (attached, breaks)
}

/// The halves of a kerning value make up the whole, and differ by at most one.
pub proof fn a_pair_gets_the_whole_value(kern: i32)
    ensures
        kern as int / 2 + (kern - kern as int / 2) == kern,
        0 <= (kern - kern as int / 2) - kern as int / 2 <= 1,
{
}

/// Whether a class can start something: its transition out of the start state
/// goes elsewhere, pushes, or acts.
pub open spec fn initial(d: Seq<u8>, class: u8) -> bool {
    &&& class < word(d, 0)
    &&& machine_entry(d, START_OF_TEXT, class) matches Some(e) && !(e.0 == START_OF_TEXT && !pushes(e.1)
        && !actionable(e.1))
}

/// Whether a machine's class table puts a glyph in a class that can start
/// something.
pub open spec fn starts(d: Seq<u8>, g: u32) -> bool {
    let table = word(d, 2) as int;
    let first = word(d, table);
    let n = word(d, table + 2);
    &&& first <= g < first + n
    &&& fits(d, table + 4, n as int)
    &&& initial(d, d[table + 4 + (g - first)])
}

/// Whether a class can start something.
fn is_initial(d: &[u8], class: u8) -> (r: bool)
    requires
        machine_readable(d@),
    ensures
        r == initial(d@, class),
{
    let n: u16 = be16(d, 0).unwrap();
    if class as u16 >= n {
        return false;
    }
    match entry(d, START_OF_TEXT, class) {
        Some(e) => !(e.0 == START_OF_TEXT && !is_action_initiable(e.1) && !is_actionable(e.1)),
        None => false,
    }
}

/// Add the glyphs that a machine can start on.
pub fn collect_initial_glyphs(d: &[u8], glyphs: &mut GlyphSet)
    requires
        machine_readable(d@),
        old(glyphs).wf(),
    ensures
        final(glyphs).wf(),
        forall|g: u32| #[trigger]
            final(glyphs).has(g) <==> old(glyphs).has(g) || (g == DELETED_GLYPH && initial(
                d@,
                CLASS_DELETED_GLYPH,
            )) || (g <= DELETED_GLYPH && starts(d@, g)),
{
    if is_initial(d, CLASS_DELETED_GLYPH) {
        glyphs.insert(DELETED_GLYPH);
    }
    let ghost begun = *glyphs;
    let table: usize = be16(d, 2).unwrap() as usize;
    let first: u32 = be16(d, table).unwrap() as u32;
    let n: usize = be16(d, table + 2).unwrap() as usize;
    if d.len() - table - 4 < n {
        return;
    }
    let mut i: usize = 0;
    while i < n
        invariant
            i <= n <= 0xffff,
            machine_readable(d@),
            table == word(d@, 2),
            first == word(d@, table as int),
            n == word(d@, table + 2),
            fits(d@, table + 4, n as int),
            glyphs.wf(),
            forall|g: u32| #[trigger]
                glyphs.has(g) <==> begun.has(g) || (g <= DELETED_GLYPH && g < first + i && starts(d@, g)),
        decreases n - i,
    {
        let class: u8 = d[table + 4 + i];
        let gid: u32 = first + i as u32;
        let ghost before = *glyphs;
        if is_initial(d, class) {
            glyphs.insert(gid);
        }
        proof {
            assert forall|g: u32| #[trigger] glyphs.has(g) <==> begun.has(g) || (g <= DELETED_GLYPH && g
                < first + i + 1 && starts(d@, g)) by {
                assert(before.has(g) <==> begun.has(g) || (g <= DELETED_GLYPH && g < first + i && starts(
                    d@,
                    g,
                )));
            }
        }
        i += 1;
    }
}

/// What the values for one glyph add up to, among the first `n`.
pub open spec fn values_for(actions: Seq<(usize, i32)>, scaled: Seq<i32>, i: int, n: nat) -> int
    decreases n,
{
    if n == 0 {
        0
    } else {
        values_for(actions, scaled, i, (n - 1) as nat) + if actions[n - 1].0 == i {
            scaled[n - 1] as int
        } else {
            0
        }
    }
}

/// A machine that kerns along the line leaves a glyph alone that kerning is off
/// for, and one that no value is for.
pub proof fn kerning_that_is_off_moves_nothing(
    pos: Seq<GlyphPosition>,
    masks: Seq<u32>,
    kern_mask: u32,
    dir: KernDirection,
    actions: Seq<(usize, i32)>,
    scaled: Seq<i32>,
    n: nat,
    i: int,
)
    requires
        n <= actions.len(),
        scaled.len() == actions.len(),
        pos.len() == masks.len(),
        forall|k: int| 0 <= k < actions.len() ==> (#[trigger] actions[k]).0 < masks.len(),
        0 <= i < pos.len(),
        (!dir.cross_stream && masks[i] & kern_mask == 0) || forall|k: int|
            0 <= k < n ==> (#[trigger] actions[k]).0 != i,
    ensures
        moved_all(pos, masks, kern_mask, dir, actions, scaled, n).0.len() == pos.len(),
        moved_all(pos, masks, kern_mask, dir, actions, scaled, n).0[i] == pos[i],
    decreases n,
{
    if n > 0 {
        assert(actions[n - 1].0 < masks.len());
        kerning_that_is_off_moves_nothing(pos, masks, kern_mask, dir, actions, scaled, (n - 1) as nat, i);
    }
}

/// A machine that kerns along a horizontal line makes a glyph that kerning is on
/// for that much wider, and puts it that much further, as the values for it add
/// up to, and attaches nothing.
pub proof fn a_glyph_moves_by_all_its_values(
    pos: Seq<GlyphPosition>,
    masks: Seq<u32>,
    kern_mask: u32,
    dir: KernDirection,
    actions: Seq<(usize, i32)>,
    scaled: Seq<i32>,
    n: nat,
    i: int,
)
    requires
        n <= actions.len(),
        scaled.len() == actions.len(),
        pos.len() == masks.len(),
        forall|k: int| 0 <= k < actions.len() ==> (#[trigger] actions[k]).0 < masks.len(),
        0 <= i < pos.len(),
        dir.horizontal,
        !dir.cross_stream,
        masks[i] & kern_mask != 0,
        forall|m: nat|
            m <= n ==> i32::MIN <= pos[i].x_advance + #[trigger] values_for(actions, scaled, i, m)
                <= i32::MAX && i32::MIN <= pos[i].x_offset + values_for(actions, scaled, i, m) <= i32::MAX,
    ensures
        ({
            let r = moved_all(pos, masks, kern_mask, dir, actions, scaled, n);
            let v = values_for(actions, scaled, i, n);
            &&& r.0.len() == pos.len()
            &&& r.0[i].x_advance == pos[i].x_advance + v
            &&& r.0[i].x_offset == pos[i].x_offset + v
            &&& r.0[i].y_advance == pos[i].y_advance
            &&& r.0[i].y_offset == pos[i].y_offset
            &&& r.0[i].attach_type == pos[i].attach_type
            &&& r.0[i].attach_chain == pos[i].attach_chain
            &&& !r.1
        }),
    decreases n,
{
    assert(i32::MIN <= pos[i].x_advance + values_for(actions, scaled, i, n) <= i32::MAX);
    if n > 0 {
        assert(actions[n - 1].0 < masks.len());
        a_glyph_moves_by_all_its_values(pos, masks, kern_mask, dir, actions, scaled, (n - 1) as nat, i);
    }
}

/// A vertical line takes one value for each glyph: the first along the line, for
/// a glyph that nothing put elsewhere yet and that kerning is on for.
pub proof fn a_vertical_glyph_moves_once(p: GlyphPosition, value: i32, scaled: i32)
    requires
        i32::MIN <= p.y_advance + scaled <= i32::MAX,
    ensures
        ({
            let dir = KernDirection { horizontal: false, cross_stream: false };
            let (q, attached) = moved(p, dir, value, scaled, true);
            &&& !attached
            &&& q.x_advance == p.x_advance && q.x_offset == p.x_offset
            &&& q.attach_type == p.attach_type && q.attach_chain == p.attach_chain
            &&& p.y_offset == 0 ==> q.y_advance == p.y_advance + scaled && q.y_offset == scaled
            &&& p.y_offset != 0 ==> q == p
            &&& moved(p, dir, value, scaled, false) == (p, false)
        }),
{
}

/// Across the line a value moves a glyph that is attached, and only it, and says
/// so; the lowest value there is takes a glyph out of the chain and back to the
/// line. Whether kerning is on does not matter.
pub proof fn across_the_line_only_attached_glyphs_move(
    p: GlyphPosition,
    horizontal: bool,
    value: i32,
    scaled: i32,
    kerned: bool,
)
    requires
        i32::MIN <= p.x_offset + scaled <= i32::MAX,
        i32::MIN <= p.y_offset + scaled <= i32::MAX,
    ensures
        ({
            let (q, attached) = moved(p, KernDirection { horizontal, cross_stream: true }, value, scaled, kerned);
            &&& q.x_advance == p.x_advance && q.y_advance == p.y_advance
            &&& attached <==> value != -0x8000 && p.attach_type != 0
            &&& value == -0x8000 ==> q.attach_type == 0 && q.attach_chain == 0
            &&& value != -0x8000 ==> q.attach_type == p.attach_type && q.attach_chain == p.attach_chain
            &&& horizontal ==> q.x_offset == p.x_offset
            &&& !horizontal ==> q.y_offset == p.y_offset
            &&& horizontal && value == -0x8000 ==> q.y_offset == 0
            &&& !horizontal && value == -0x8000 ==> q.x_offset == 0
            &&& value != -0x8000 && p.attach_type != 0 ==> (if horizontal {
                q.y_offset == p.y_offset + scaled
            } else {
                q.x_offset == p.x_offset + scaled
            })
            &&& value != -0x8000 && p.attach_type == 0 ==> q == p
        }),
{
}

/// Whether each glyph's next is the one beside it.
pub open spec fn side_by_side(steps: Seq<PairStep>) -> bool {
    &&& steps.len() > 0
    &&& forall|i: int| 0 <= i < steps.len() - 1 ==> (#[trigger] steps[i]) is Next && steps[i]->at == i + 1
    &&& steps[steps.len() - 1] is Nothing && steps[steps.len() - 1]->unsafe_to == steps.len()
}

/// What the pair that starts at a glyph comes to, where kerning is on for it.
pub open spec fn pair_at(masks: Seq<u32>, kern_mask: u32, steps: Seq<PairStep>, i: int) -> int {
    if 0 <= i < steps.len() - 1 && masks[i] & kern_mask != 0 {
        steps[i]->kern as int
    } else {
        0
    }
}

/// Whether kerning has gone over the pairs before `i` of a line of neighbours.
spec fn kerned_before(
    pos: Seq<GlyphPosition>,
    k: Kerned,
    masks: Seq<u32>,
    kern_mask: u32,
    steps: Seq<PairStep>,
    i: int,
) -> bool {
    &&& k.pos.len() == pos.len()
    &&& forall|j: int|
        0 <= j < pos.len() ==> {
            let before = if j <= i {
                pair_at(masks, kern_mask, steps, j - 1)
            } else {
                0
            };
            let own = if j < i {
                pair_at(masks, kern_mask, steps, j)
            } else {
                0
            };
            &&& (#[trigger] k.pos[j]).x_advance == pos[j].x_advance + own / 2 + (before - before / 2)
            &&& k.pos[j].x_offset == pos[j].x_offset + (before - before / 2)
            &&& k.pos[j] == (GlyphPosition {
                x_advance: k.pos[j].x_advance,
                x_offset: k.pos[j].x_offset,
                ..pos[j]
            })
        }
    &&& forall|j: int|
        0 <= j < i && pair_at(masks, kern_mask, steps, j) != 0 ==> #[trigger] k.breaks.contains((j, j + 2))
    &&& forall|b: int|
        0 <= b < k.breaks.len() ==> {
            let s = #[trigger] k.breaks[b];
            s.1 == s.0 + 2 && 0 <= s.0 < i && pair_at(masks, kern_mask, steps, s.0) != 0
        }
    &&& !k.attached
}

proof fn lemma_neighbours(
    pos: Seq<GlyphPosition>,
    k: Kerned,
    masks: Seq<u32>,
    kern_mask: u32,
    dir: KernDirection,
    steps: Seq<PairStep>,
    i: int,
)
    requires
        dir.horizontal,
        !dir.cross_stream,
        side_by_side(steps),
        pos.len() == steps.len(),
        masks.len() == steps.len(),
        0 <= i <= steps.len(),
        kerned_before(pos, k, masks, kern_mask, steps, i),
        forall|j: int| 0 <= j < pos.len() ==> -0x1000_0000 <= (#[trigger] pos[j]).x_advance <= 0x1000_0000,
        forall|j: int| 0 <= j < pos.len() ==> -0x1000_0000 <= (#[trigger] pos[j]).x_offset <= 0x1000_0000,
        forall|j: int|
            0 <= j < steps.len() - 1 ==> -0x1000_0000 <= (#[trigger] steps[j])->kern <= 0x1000_0000,
    ensures
        kerned_before(
            pos,
            pairs_kerned(k, masks, kern_mask, dir, steps, i),
            masks,
            kern_mask,
            steps,
            steps.len() as int,
        ),
    decreases steps.len() - i,
{
    let n = steps.len() as int;
    assert(steps_forward(steps)) by {
        assert forall|j: int| 0 <= j < n implies match #[trigger] steps[j] {
            PairStep::Next { at, kern } => j < at < n,
            PairStep::Nothing { unsafe_to } => j < unsafe_to,
        } by {
            if j < n - 1 {
                assert(steps[j] is Next);
            }
        }
    }
    if i < n {
        let next = if masks[i] & kern_mask != 0 && i < n - 1 {
            pair_moved(k, dir, i, i + 1, steps[i]->kern)
        } else {
            k
        };
        if i < n - 1 {
            assert(steps[i] is Next && steps[i]->at == i + 1);
        }
        let v = pair_at(masks, kern_mask, steps, i);
        assert(kerned_before(pos, next, masks, kern_mask, steps, i + 1)) by {
            assert forall|j: int| 0 <= j < pos.len() implies ({
                let before = if j <= i + 1 {
                    pair_at(masks, kern_mask, steps, j - 1)
                } else {
                    0
                };
                let own = if j < i + 1 {
                    pair_at(masks, kern_mask, steps, j)
                } else {
                    0
                };
                &&& (#[trigger] next.pos[j]).x_advance == pos[j].x_advance + own / 2 + (before - before / 2)
                &&& next.pos[j].x_offset == pos[j].x_offset + (before - before / 2)
                &&& next.pos[j] == (GlyphPosition {
                    x_advance: next.pos[j].x_advance,
                    x_offset: next.pos[j].x_offset,
                    ..pos[j]
                })
            }) by {
                assert(k.pos[j].x_offset == k.pos[j].x_offset);
                assert(-0x1000_0000 <= pos[j].x_advance <= 0x1000_0000);
                assert(-0x1000_0000 <= pos[j].x_offset <= 0x1000_0000);
                if 0 < j < n {
                    assert(-0x1000_0000 <= steps[j - 1]->kern <= 0x1000_0000);
                }
                if j < n - 1 {
                    assert(-0x1000_0000 <= steps[j]->kern <= 0x1000_0000);
                }
            }
            assert forall|j: int|
                0 <= j < i + 1 && pair_at(masks, kern_mask, steps, j) != 0 implies #[trigger] next.breaks.contains(
                (j, j + 2),
            ) by {
                if j < i {
                    assert(k.breaks.contains((j, j + 2)));
                    let b = choose|b: int| 0 <= b < k.breaks.len() && k.breaks[b] == (j, j + 2);
                    assert(next.breaks[b] == (j, j + 2));
                } else {
                    assert(next.breaks.last() == (i, i + 2));
                }
            }
            assert forall|b: int| 0 <= b < next.breaks.len() implies ({
                let s = #[trigger] next.breaks[b];
                s.1 == s.0 + 2 && 0 <= s.0 < i + 1 && pair_at(masks, kern_mask, steps, s.0) != 0
            }) by {
                if b < k.breaks.len() {
                    assert(next.breaks[b] == k.breaks[b]);
                }
            }
        }
        lemma_neighbours(pos, next, masks, kern_mask, dir, steps, i + 1);
    }
}

/// Along a horizontal line of neighbours every pair is kerned whose first glyph
/// kerning is on for, and no other: a glyph gets one half of the value of the
/// pair that it starts and the other half of that which it ends, and is put
/// further by the latter. Exactly the pairs that moved may not be broken.
pub proof fn every_pair_of_neighbours_is_kerned(
    pos: Seq<GlyphPosition>,
    masks: Seq<u32>,
    kern_mask: u32,
    steps: Seq<PairStep>,
)
    requires
        side_by_side(steps),
        pos.len() == steps.len(),
        masks.len() == steps.len(),
        forall|j: int| 0 <= j < pos.len() ==> -0x1000_0000 <= (#[trigger] pos[j]).x_advance <= 0x1000_0000,
        forall|j: int| 0 <= j < pos.len() ==> -0x1000_0000 <= (#[trigger] pos[j]).x_offset <= 0x1000_0000,
        forall|j: int|
            0 <= j < steps.len() - 1 ==> -0x1000_0000 <= (#[trigger] steps[j])->kern <= 0x1000_0000,
    ensures
        ({
            let dir = KernDirection { horizontal: true, cross_stream: false };
            let r = pairs_kerned(
                Kerned { pos, attached: false, breaks: seq![] },
                masks,
                kern_mask,
                dir,
                steps,
                0,
            );
            &&& !r.attached
            &&& r.pos.len() == pos.len()
            &&& forall|j: int|
                0 <= j < pos.len() ==> {
                    let own = pair_at(masks, kern_mask, steps, j);
                    let before = pair_at(masks, kern_mask, steps, j - 1);
                    &&& (#[trigger] r.pos[j]).x_advance - pos[j].x_advance == own / 2 + (before - before / 2)
                    &&& r.pos[j].x_offset - pos[j].x_offset == before - before / 2
                    &&& r.pos[j].y_advance == pos[j].y_advance && r.pos[j].y_offset == pos[j].y_offset
                }
            &&& forall|j: int|
                0 <= j < steps.len() ==> (pair_at(masks, kern_mask, steps, j) != 0
                    <==> #[trigger] r.breaks.contains((j, j + 2)))
            &&& forall|b: int| 0 <= b < r.breaks.len() ==> (#[trigger] r.breaks[b]).1 == r.breaks[b].0 + 2
        }),
{
    let dir = KernDirection { horizontal: true, cross_stream: false };
    let k = Kerned { pos, attached: false, breaks: seq![] };
    let r = pairs_kerned(k, masks, kern_mask, dir, steps, 0);
    lemma_neighbours(pos, k, masks, kern_mask, dir, steps, 0);
    assert forall|j: int| 0 <= j < steps.len() implies (pair_at(masks, kern_mask, steps, j) != 0
        <==> #[trigger] r.breaks.contains((j, j + 2))) by {
        if r.breaks.contains((j, j + 2)) {
            let b = choose|b: int| 0 <= b < r.breaks.len() && r.breaks[b] == (j, j + 2);
            assert(r.breaks[b].0 == j);
        }
    }
}

/// What a line's advances add up to, over its first `n` glyphs.
pub open spec fn total_advance(pos: Seq<GlyphPosition>, n: nat) -> int
    decreases n,
{
    if n == 0 {
        0
    } else {
        total_advance(pos, (n - 1) as nat) + pos[n - 1].x_advance
    }
}

/// What the first `n` pairs of a line come to together.
pub open spec fn total_kern(masks: Seq<u32>, kern_mask: u32, steps: Seq<PairStep>, n: nat) -> int
    decreases n,
{
    if n == 0 {
        0
    } else {
        total_kern(masks, kern_mask, steps, (n - 1) as nat) + pair_at(masks, kern_mask, steps, n - 1)
    }
}

/// Kerning makes a line longer by what its pairs come to together.
pub proof fn a_line_grows_by_all_its_pairs(
    pos: Seq<GlyphPosition>,
    masks: Seq<u32>,
    kern_mask: u32,
    steps: Seq<PairStep>,
)
    requires
        side_by_side(steps),
        pos.len() == steps.len(),
        masks.len() == steps.len(),
        forall|j: int| 0 <= j < pos.len() ==> -0x1000_0000 <= (#[trigger] pos[j]).x_advance <= 0x1000_0000,
        forall|j: int| 0 <= j < pos.len() ==> -0x1000_0000 <= (#[trigger] pos[j]).x_offset <= 0x1000_0000,
        forall|j: int|
            0 <= j < steps.len() - 1 ==> -0x1000_0000 <= (#[trigger] steps[j])->kern <= 0x1000_0000,
    ensures
        total_advance(
            pairs_kerned(
                Kerned { pos, attached: false, breaks: seq![] },
                masks,
                kern_mask,
                KernDirection { horizontal: true, cross_stream: false },
                steps,
                0,
            ).pos,
            steps.len(),
        ) == total_advance(pos, steps.len()) + total_kern(masks, kern_mask, steps, steps.len()),
{
    every_pair_of_neighbours_is_kerned(pos, masks, kern_mask, steps);
    let r = pairs_kerned(
        Kerned { pos, attached: false, breaks: seq![] },
        masks,
        kern_mask,
        KernDirection { horizontal: true, cross_stream: false },
        steps,
        0,
    );
    lemma_totals(pos, r.pos, masks, kern_mask, steps, steps.len());
}

proof fn lemma_totals(
    pos: Seq<GlyphPosition>,
    after: Seq<GlyphPosition>,
    masks: Seq<u32>,
    kern_mask: u32,
    steps: Seq<PairStep>,
    n: nat,
)
    requires
        n <= steps.len(),
        pos.len() == steps.len(),
        after.len() == steps.len(),
        forall|j: int|
            0 <= j < pos.len() ==> {
                let own = pair_at(masks, kern_mask, steps, j);
                let before = pair_at(masks, kern_mask, steps, j - 1);
                (#[trigger] after[j]).x_advance - pos[j].x_advance == own / 2 + (before - before / 2)
            },
    ensures
        ({
            let last = pair_at(masks, kern_mask, steps, n - 1);
            total_advance(after, n) == total_advance(pos, n) + total_kern(masks, kern_mask, steps, n) - (last
                - last / 2)
        }),
    decreases n,
{
    if n > 0 {
        lemma_totals(pos, after, masks, kern_mask, steps, (n - 1) as nat);
        assert(after[n - 1].x_advance == after[n - 1].x_advance);
    }
}

/// A pair on a vertical line: the first glyph gets one half of the value, the
/// second the other, and is put that much further down.
pub proof fn a_vertical_pair_shares_its_value(k: Kerned, i: int, j: int, kern: i32)
    requires
        0 <= i < j < k.pos.len(),
        kern != 0,
        -0x1000_0000 <= kern <= 0x1000_0000,
        -0x1000_0000 <= k.pos[i].y_advance <= 0x1000_0000,
        -0x1000_0000 <= k.pos[j].y_advance <= 0x1000_0000,
        -0x1000_0000 <= k.pos[j].y_offset <= 0x1000_0000,
    ensures
        ({
            let r = pair_moved(k, KernDirection { horizontal: false, cross_stream: false }, i, j, kern);
            &&& r.pos[i].y_advance + r.pos[j].y_advance == k.pos[i].y_advance + k.pos[j].y_advance + kern
            &&& 2 * (r.pos[i].y_advance - k.pos[i].y_advance) <= kern <= 2 * (r.pos[i].y_advance
                - k.pos[i].y_advance) + 1
            &&& r.pos[j].y_offset - k.pos[j].y_offset == r.pos[j].y_advance - k.pos[j].y_advance
            &&& r.pos[i].y_offset == k.pos[i].y_offset
            &&& r.pos[i].x_advance == k.pos[i].x_advance && r.pos[j].x_advance == k.pos[j].x_advance
            &&& r.pos[i].x_offset == k.pos[i].x_offset && r.pos[j].x_offset == k.pos[j].x_offset
            &&& r.pos.len() == k.pos.len()
            &&& forall|m: int| 0 <= m < k.pos.len() && m != i && m != j ==> #[trigger] r.pos[m] == k.pos[m]
            &&& r.attached == k.attached
            &&& r.breaks.len() == k.breaks.len() + 1 && r.breaks.last() == (i, j + 1)
        }),
{
}

/// A pair across the line puts the second glyph off the line by its value, in
/// place of what put it there before, and attaches it; no advance changes.
pub proof fn a_pair_across_puts_the_second_off_the_line(k: Kerned, horizontal: bool, i: int, j: int, kern: i32)
    requires
        0 <= i < j < k.pos.len(),
        kern != 0,
    ensures
        ({
            let r = pair_moved(k, KernDirection { horizontal, cross_stream: true }, i, j, kern);
            &&& r.attached
            &&& horizontal ==> r.pos[j].y_offset == kern && r.pos[j].x_offset == k.pos[j].x_offset
            &&& !horizontal ==> r.pos[j].x_offset == kern && r.pos[j].y_offset == k.pos[j].y_offset
            &&& r.pos[j].x_advance == k.pos[j].x_advance && r.pos[j].y_advance == k.pos[j].y_advance
            &&& forall|m: int| 0 <= m < k.pos.len() && m != j ==> #[trigger] r.pos[m] == k.pos[m]
            &&& r.breaks.len() == k.breaks.len() + 1 && r.breaks.last() == (i, j + 1)
        }),
{
}

/// Values go to the glyphs on the stack from the top down, one for each, in the
/// order in which they are listed, two bytes apart, without the mark of the
/// last; the list ends with the first odd value, and what is left stays.
pub proof fn values_are_popped_from_the_top(d: Seq<u8>, len: int, stack: Seq<int>, offset: int)
    requires
        forall|i: int| 0 <= i < stack.len() ==> 0 <= #[trigger] stack[i] < len,
    ensures
        ({
            let (rest, values) = popped(d, len, stack, offset);
            &&& rest.len() + values.len() == stack.len()
            &&& rest == stack.take(rest.len() as int)
            &&& forall|k: int|
                0 <= k < values.len() ==> {
                    let v = value_at(d, offset + 2 * k);
                    &&& (#[trigger] values[k]).0 == stack[stack.len() - 1 - k]
                    &&& values[k].1 % 2 == 0 && v - 1 <= values[k].1 <= v
                    &&& k < values.len() - 1 ==> v % 2 == 0
                    &&& k == values.len() - 1 && rest.len() > 0 ==> v % 2 == 1
                }
        }),
    decreases stack.len(),
{
    if stack.len() > 0 {
        let less = stack.drop_last();
        assert forall|i: int| 0 <= i < less.len() implies 0 <= #[trigger] less[i] < len by {
            assert(less[i] == stack[i]);
        }
        values_are_popped_from_the_top(d, len, less, offset + 2);
        let (rest, values) = popped(d, len, stack, offset);
        let (less_rest, more) = popped(d, len, less, offset + 2);
        let top = stack[stack.len() - 1];
        assert(0 <= top < len);
        let v = value_at(d, offset);
        if v % 2 != 0 {
            assert(rest =~= stack.take(rest.len() as int));
        } else {
            assert(less_rest =~= stack.take(less_rest.len() as int));
            assert(values.len() == more.len() + 1);
            assert forall|k: int| 0 <= k < values.len() implies ({
                let v = value_at(d, offset + 2 * k);
                &&& (#[trigger] values[k]).0 == stack[stack.len() - 1 - k]
                &&& values[k].1 % 2 == 0 && v - 1 <= values[k].1 <= v
                &&& k < values.len() - 1 ==> v % 2 == 0
                &&& k == values.len() - 1 && rest.len() > 0 ==> v % 2 == 1
            }) by {
                if k > 0 {
                    assert(values[k] == more[k - 1]);
                    assert(offset + 2 + 2 * (k - 1) == offset + 2 * k);
                    assert(less[less.len() - 1 - (k - 1)] == stack[stack.len() - 1 - k]);
                }
            }
            if less.len() > 0 {
                assert(0 <= less[less.len() - 1] < len);
            }
        }
    } else {
        assert(popped(d, len, stack, offset).0 =~= stack.take(0));
    }
}

/// A glyph that is pushed is on top of the stack, over what was there, up to
/// eight; one more empties it. One that is not pushed changes nothing.
pub proof fn the_stack_holds_eight(stack: Seq<int>, idx: int, flags: u16)
    ensures
        flags & 0x8000 == 0 ==> pushed(stack, idx, flags) == stack,
        flags & 0x8000 != 0 && stack.len() < 8 ==> pushed(stack, idx, flags) == stack + seq![idx],
        flags & 0x8000 != 0 && stack.len() >= 8 ==> pushed(stack, idx, flags).len() == 0,
{
    assert(stack.push(idx) =~= stack + seq![idx]);
}

/// One transition goes on to the next glyph unless its flags say to stay, and
/// where no operations are left in any case; it takes one operation for each
/// glyph looked at, and marks at most the place before the glyph.
pub proof fn a_transition_goes_on(d: Seq<u8>, glyphs: Seq<u32>, m: Drive, t: Transition)
    requires
        0 <= m.idx < glyphs.len(),
    ensures
        ({
            let r = stepped(d, glyphs, m, t);
            &&& r.ops == m.ops - 1
            &&& r.idx == m.idx || r.idx == m.idx + 1
            &&& r.idx == m.idx <==> t.flags & 0x4000 != 0 && m.ops > 1
            &&& t.safe || m.idx == 0 ==> r.breaks == m.breaks
            &&& !t.safe && m.idx > 0 ==> r.breaks == m.breaks + seq![(m.idx - 1, m.idx + 1)]
            &&& t.flags & 0x3FFF == 0 ==> r.actions == m.actions
            &&& t.flags & 0x3FFF == 0 && t.flags & 0x8000 == 0 ==> r.stack == m.stack
        }),
{
    let r = stepped(d, glyphs, m, t);
    assert(m.breaks.push((m.idx - 1, m.idx + 1)) =~= m.breaks + seq![(m.idx - 1, m.idx + 1)]);
    assert(m.actions + Seq::<(int, int)>::empty() =~= m.actions);
}

/// Along a horizontal line the values of a drive make a glyph wider and put it
/// further by all that is for it where kerning is on for the glyph, and leave it
/// as it is where kerning is off or nothing is for it.
pub proof fn a_drive_moves_glyphs_that_kerning_is_on_for(
    pos: &mut Vec<GlyphPosition>,
    masks: &[u32],
    kern_mask: u32,
    actions: &[(usize, i32)],
    scaled: &[i32],
    attached: bool,
    i: int,
)
    requires
        old(pos)@.len() == masks@.len(),
        scaled@.len() == actions@.len(),
        forall|k: int| 0 <= k < actions@.len() ==> (#[trigger] actions@[k]).0 < masks@.len(),
        0 <= i < old(pos)@.len(),
        forall|m: nat|
            m <= actions@.len() ==> i32::MIN <= old(pos)@[i].x_advance + #[trigger] values_for(
                actions@,
                scaled@,
                i,
                m,
            ) <= i32::MAX && i32::MIN <= old(pos)@[i].x_offset + values_for(actions@, scaled@, i, m) <= i32::MAX,
        call_ensures(
            apply_actions,
            (
                pos,
                masks,
                kern_mask,
                (KernDirection { horizontal: true, cross_stream: false }),
                actions,
                scaled,
            ),
            attached,
        ),
    ensures
        final(pos)@.len() == old(pos)@.len(),
        masks@[i] & kern_mask == 0 ==> final(pos)@[i] == old(pos)@[i],
        masks@[i] & kern_mask != 0 ==> {
            let v = values_for(actions@, scaled@, i, actions@.len());
            &&& final(pos)@[i].x_advance - old(pos)@[i].x_advance == v
            &&& final(pos)@[i].x_offset - old(pos)@[i].x_offset == v
            &&& final(pos)@[i].y_advance == old(pos)@[i].y_advance
            &&& final(pos)@[i].y_offset == old(pos)@[i].y_offset
        },
{
    let dir = KernDirection { horizontal: true, cross_stream: false };
    let n = actions@.len();
    if masks@[i] & kern_mask == 0 {
        kerning_that_is_off_moves_nothing(old(pos)@, masks@, kern_mask, dir, actions@, scaled@, n, i);
    } else {
        a_glyph_moves_by_all_its_values(old(pos)@, masks@, kern_mask, dir, actions@, scaled@, n, i);
    }
}

/// Kerning a horizontal line of neighbours widens it by what all its pairs come
/// to, those whose first glyph kerning is on for; each glyph takes its share of
/// the pair that it starts and of the one that it ends, and exactly the pairs
/// that come to something may not be broken.
pub proof fn a_line_is_kerned_pair_by_pair(
    pos: &mut Vec<GlyphPosition>,
    masks: &[u32],
    kern_mask: u32,
    steps: &[PairStep],
    r: (bool, Vec<(usize, usize)>),
    j: int,
)
    requires
        side_by_side(steps@),
        old(pos)@.len() == steps@.len(),
        masks@.len() == steps@.len(),
        forall|j: int|
            0 <= j < old(pos)@.len() ==> -0x1000_0000 <= (#[trigger] old(pos)@[j]).x_advance <= 0x1000_0000,
        forall|j: int|
            0 <= j < old(pos)@.len() ==> -0x1000_0000 <= (#[trigger] old(pos)@[j]).x_offset <= 0x1000_0000,
        forall|j: int|
            0 <= j < steps@.len() - 1 ==> -0x1000_0000 <= (#[trigger] steps@[j])->kern <= 0x1000_0000,
        call_ensures(
            machine_kern,
            (pos, masks, kern_mask, (KernDirection { horizontal: true, cross_stream: false }), steps),
            r,
        ),
        0 <= j < steps@.len(),
    ensures
        final(pos)@.len() == old(pos)@.len(),
        !r.0,
        ({
            let own = pair_at(masks@, kern_mask, steps@, j);
            let before = pair_at(masks@, kern_mask, steps@, j - 1);
            &&& final(pos)@[j].x_advance - old(pos)@[j].x_advance == own / 2 + (before - before / 2)
            &&& final(pos)@[j].x_offset - old(pos)@[j].x_offset == before - before / 2
            &&& own != 0 <==> spans_of(r.1@).contains((j, j + 2))
        }),
        total_advance(final(pos)@, final(pos)@.len()) - total_advance(old(pos)@, old(pos)@.len())
            == total_kern(masks@, kern_mask, steps@, steps@.len()),
{
    every_pair_of_neighbours_is_kerned(old(pos)@, masks@, kern_mask, steps@);
    a_line_grows_by_all_its_pairs(old(pos)@, masks@, kern_mask, steps@);
    let k = pairs_kerned(
        Kerned { pos: old(pos)@, attached: false, breaks: seq![] },
        masks@,
        kern_mask,
        KernDirection { horizontal: true, cross_stream: false },
        steps@,
        0,
    );
    assert(k.pos == final(pos)@ && k.attached == r.0 && k.breaks == spans_of(r.1@));
    assert(k.pos[j] == final(pos)@[j]);
}

/// A drive starts at the first glyph in the state of the start of text, with
/// nothing pushed, and only goes on: it keeps the values it gave and the spans it
/// noted, takes an operation for each glyph it passes, and stops inside a line only
/// where the machine has no transition.
pub proof fn a_drive_only_goes_on(d: Seq<u8>, glyphs: Seq<u32>, m: Drive)
    requires
        0 <= m.idx <= glyphs.len(),
    ensures
        ({
            let e = driven(d, glyphs, m);
            &&& m.idx <= e.idx <= glyphs.len()
            &&& m.actions.is_prefix_of(e.actions)
            &&& m.breaks.is_prefix_of(e.breaks)
            &&& e.idx - m.idx <= m.ops - e.ops
            &&& e.idx < glyphs.len() ==> e.state < 0 || transition_of(
                d,
                e.state as u16,
                class_for(d, glyphs[e.idx]),
            ) is None
        }),
        started(d, m.ops).idx == 0 && started(d, m.ops).stack.len() == 0 && started(d, m.ops).actions.len() == 0,
        state_bytes(d) > 0 ==> started(d, m.ops).state == 0,
    decreases glyphs.len() - m.idx + (if m.ops > 0 { m.ops } else { 0 }) + 1,
{
    let found = row_transition(d, m.state, class_at(d, glyphs, m.idx));
    if found is Some {
        let next = stepped(d, glyphs, m, found->0);
        assert(m.actions.is_prefix_of(next.actions));
        assert(m.breaks.is_prefix_of(next.breaks));
        if m.idx < glyphs.len() {
            a_drive_only_goes_on(d, glyphs, next);
            let e = driven(d, glyphs, next);
            assert(m.actions.is_prefix_of(e.actions)) by {
                assert forall|k: int| 0 <= k < m.actions.len() implies m.actions[k] == e.actions[k] by {
                    assert(m.actions[k] == next.actions[k]);
                    assert(next.actions[k] == e.actions[k]);
                }
            }
            assert(m.breaks.is_prefix_of(e.breaks)) by {
                assert forall|k: int| 0 <= k < m.breaks.len() implies m.breaks[k] == e.breaks[k] by {
                    assert(m.breaks[k] == next.breaks[k]);
                    assert(next.breaks[k] == e.breaks[k]);
                }
            }
        }
    }
}

/// A machine can start on a glyph exactly where its class takes the machine out of
/// the start state, pushes the glyph or applies values; on any other it stays as
/// it was.
pub proof fn a_glyph_that_starts_nothing_leaves_the_machine_at_its_start(
    d: &[u8],
    glyphs: &mut GlyphSet,
    g: u32,
    e: Option<(u16, u16)>,
)
    requires
        machine_readable(d@),
        old(glyphs).wf(),
        !old(glyphs).has(g),
        g < DELETED_GLYPH,
        call_ensures(collect_initial_glyphs, (d, glyphs), ()),
        ({
            let table = word(d@, 2) as int;
            let first = word(d@, table);
            let n = word(d@, table + 2);
            &&& first <= g < first + n
            &&& table + 4 + n <= d@.len()
            &&& d@[table + 4 + g - first] < word(d@, 0)
            &&& call_ensures(entry, (d, 0u16, d@[table + 4 + g - first]), e)
        }),
    ensures
        e is None ==> !final(glyphs).has(g),
        e is Some ==> ({
            let (next, flags) = e->0;
            final(glyphs).has(g) <==> next != 0 || flags >= 0x8000 || flags % 0x4000 != 0
        }),
{
    assert(final(glyphs).has(g) <==> starts(d@, g));
    if e is Some {
        let flags = (e->0).1;
        assert((flags & 0x8000 != 0 <==> flags >= 0x8000) && (flags & 0x3FFF != 0 <==> flags % 0x4000 != 0))
            by (bit_vector);
    }
}

/// Where kerning is off for every glyph of a line, its pairs move nothing and may
/// be broken.
pub proof fn a_line_without_kerning_keeps_its_pairs(
    k: Kerned,
    masks: Seq<u32>,
    kern_mask: u32,
    dir: KernDirection,
    steps: Seq<PairStep>,
    i: int,
)
    requires
        forall|j: int| 0 <= j < steps.len() ==> #[trigger] masks[j] & kern_mask == 0,
    ensures
        pairs_kerned(k, masks, kern_mask, dir, steps, i) == k,
    decreases (if i < steps.len() { steps.len() - i } else { 0 }),
{
    if 0 <= i < steps.len() && steps_forward(steps) {
        assert(masks[i] & kern_mask == 0);
        a_line_without_kerning_keeps_its_pairs(k, masks, kern_mask, dir, steps, i + 1);
    }
}

/// Where kerning is off for every glyph of a line, the values of a drive along
/// it move nothing.
pub proof fn a_line_without_kerning_keeps_its_place(
    pos: Seq<GlyphPosition>,
    masks: Seq<u32>,
    kern_mask: u32,
    horizontal: bool,
    actions: Seq<(usize, i32)>,
    scaled: Seq<i32>,
    n: nat,
)
    requires
        n <= actions.len(),
        forall|k: int|
            0 <= k < actions.len() ==> masks[(#[trigger] actions[k]).0 as int] & kern_mask == 0 && actions[k].0
                < pos.len(),
    ensures
        moved_all(
            pos,
            masks,
            kern_mask,
            KernDirection { horizontal, cross_stream: false },
            actions,
            scaled,
            n,
        ) == (pos, false),
    decreases n,
{
    if n > 0 {
        a_line_without_kerning_keeps_its_place(
            pos,
            masks,
            kern_mask,
            horizontal,
            actions,
            scaled,
            (n - 1) as nat,
        );
        let at = actions[n - 1].0 as int;
        assert(masks[at] & kern_mask == 0);
        assert(pos.update(at, pos[at]) =~= pos);
    }
}

/// Whether values are for positions of a line.
spec fn on_the_line(values: Seq<(int, int)>, len: int) -> bool {
    forall|k: int| 0 <= k < values.len() ==> 0 <= (#[trigger] values[k]).0 < len
}

/// Whether no position is before the start of a line.
spec fn none_before(stack: Seq<int>) -> bool {
    forall|i: int| 0 <= i < stack.len() ==> 0 <= #[trigger] stack[i]
}

proof fn lemma_popped_on_the_line(d: Seq<u8>, len: int, stack: Seq<int>, offset: int)
    requires
        none_before(stack),
    ensures
        on_the_line(popped(d, len, stack, offset).1, len),
        none_before(popped(d, len, stack, offset).0),
    decreases stack.len(),
{
    if stack.len() > 0 {
        let rest = stack.drop_last();
        let top = stack[stack.len() - 1];
        assert(0 <= top);
        assert(none_before(rest)) by {
            assert forall|i: int| 0 <= i < rest.len() implies 0 <= #[trigger] rest[i] by {
                assert(rest[i] == stack[i]);
            }
        }
        lemma_popped_on_the_line(d, len, rest, offset + 2);
        let (end, more) = popped(d, len, rest, offset + 2);
        let v = value_at(d, offset);
        let one = seq![(top, even(v))];
        if top < len {
            assert(on_the_line(one, len));
            assert(on_the_line(one + more, len)) by {
                assert forall|k: int| 0 <= k < (one + more).len() implies 0 <= (#[trigger] (one + more)[k]).0
                    < len by {
                    if k > 0 {
                        assert((one + more)[k] == more[k - 1]);
                    }
                }
            }
        }
    }
}

/// The values of a drive are for glyphs of the line.
pub proof fn a_drive_moves_glyphs_of_the_line(d: Seq<u8>, glyphs: Seq<u32>, ops: int, k: int)
    requires
        0 <= k < driven(d, glyphs, started(d, ops)).actions.len(),
    ensures
        0 <= driven(d, glyphs, started(d, ops)).actions[k].0 < glyphs.len(),
{
    lemma_driven_on_the_line(d, glyphs, started(d, ops));
}

proof fn lemma_driven_on_the_line(d: Seq<u8>, glyphs: Seq<u32>, m: Drive)
    requires
        0 <= m.idx <= glyphs.len(),
        none_before(m.stack),
        on_the_line(m.actions, glyphs.len() as int),
    ensures
        on_the_line(driven(d, glyphs, m).actions, glyphs.len() as int),
    decreases glyphs.len() - m.idx + (if m.ops > 0 { m.ops } else { 0 }) + 1,
{
    let found = row_transition(d, m.state, class_at(d, glyphs, m.idx));
    if found is Some {
        let t = found->0;
        let next = stepped(d, glyphs, m, t);
        let full = pushed(m.stack, m.idx, t.flags);
        let n = glyphs.len() as int;
        assert(none_before(full)) by {
            assert forall|i: int| 0 <= i < full.len() implies 0 <= #[trigger] full[i] by {
                if i < m.stack.len() {
                    assert(full[i] == m.stack[i]);
                }
            }
        }
        lemma_popped_on_the_line(d, n, full, (t.flags & 0x3FFF) as int);
        let values = acted(d, n, m.stack, m.idx, t.flags).1;
        assert(on_the_line(values, n));
        assert(none_before(next.stack));
        assert(on_the_line(next.actions, n)) by {
            assert forall|k: int| 0 <= k < next.actions.len() implies 0 <= (#[trigger] next.actions[k]).0 < n by {
                if k < m.actions.len() {
                    assert(next.actions[k] == m.actions[k]);
                } else {
                    assert(next.actions[k] == values[k - m.actions.len()]);
                }
            }
        }
        if m.idx < glyphs.len() {
            lemma_driven_on_the_line(d, glyphs, next);
        }
    }
}

} // verus!
