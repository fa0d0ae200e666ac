//! The state machines of a `kern` table, read from the font and decoded.
//!
//! A machine is a header, a table of glyph classes, an array with one byte per
//! state and class that names an entry, and the entries: the next state and a
//! word of flags. The flags say whether the glyph is pushed, whether the line
//! advances, and where the list of kerning values stands.

use read_fonts::tables::aat::StateTable;
use read_fonts::types::GlyphId16;
use read_fonts::FontData;
use vstd::prelude::*;

use crate::bits::{bit, lemma_set_bit, lemma_zero_has_no_bits};
use crate::bytes::{be16, fits, word};
use crate::cache::hb_cache_t;
use crate::tables::resolves;

verus! {

/// The state every line starts in.
pub const START_OF_TEXT: u16 = 0;

/// The class after the last glyph.
pub const CLASS_END_OF_TEXT: u8 = 0;

/// The class of a glyph that the class table does not name.
pub const CLASS_OUT_OF_BOUNDS: u8 = 1;

/// The class of a deleted glyph.
pub const CLASS_DELETED_GLYPH: u8 = 2;

/// Whether a machine starts here: its header can be read, it has a class, and
/// its three parts lie inside.
pub open spec fn machine_readable(d: Seq<u8>) -> bool {
    &&& fits(d, 0, 8)
    &&& word(d, 0) != 0
    &&& resolves(d, 0, word(d, 2) as int)
    &&& fits(d, word(d, 2) as int, 4)
    &&& resolves(d, 0, word(d, 4) as int)
    &&& resolves(d, 0, word(d, 6) as int)
}

/// The entry for a state and a class, as `(next state, flags)`. A class the
/// machine does not have is out of bounds. The font gives the next state as a
/// byte offset; one before the state array, by less than a row, is the first.
pub open spec fn machine_entry(d: Seq<u8>, state: u16, class: u8) -> Option<(u16, u16)> {
    let n = word(d, 0) as int;
    let c = if class >= n {
        CLASS_OUT_OF_BOUNDS as int
    } else {
        class as int
    };
    let cell = word(d, 4) + state * n + c;
    if !machine_readable(d) || cell >= d.len() {
        None
    } else {
        let entry = word(d, 6) + d[cell] * 4;
        if !fits(d, entry, 4) {
            None
        } else {
            let distance = word(d, entry) - word(d, 4);
            if distance >= 0 {
                Some(((distance / n) as u16, word(d, entry + 2)))
            } else if -distance < n {
                Some((0u16, word(d, entry + 2)))
            } else {
                None
            }
        }
    }
}

/// The class of a glyph, if the machine names one.
pub open spec fn machine_class(d: Seq<u8>, glyph: u16) -> Option<u8> {
    let table = word(d, 2) as int;
    let first = word(d, table);
    let n = word(d, table + 2);
    if !machine_readable(d) {
        None
    } else if glyph == 0xffff {
        Some(CLASS_DELETED_GLYPH)
    } else if first <= glyph && glyph - first < n && fits(d, table + 4, n as int) {
        Some(d[table + 4 + (glyph - first)])
    } else {
        None
    }
}

/// `StateTable::read` and `StateTable::entry`: the entry named by the byte of the
/// state's row, with a class past the row's end read as out of bounds, and the
/// next state turned from a byte offset into an index.
#[verifier::external_body]
fn read_entry(d: &[u8], state: u16, class: u8) -> (r: Option<(u16, u16)>)
    ensures
        r == machine_entry(d@, state, class),
{
    let machine = StateTable::read(FontData::new(d)).ok()?;
    let entry = machine.entry(state, class).ok()?;
    Some((entry.new_state, entry.flags))
}

/// `StateTable::read` and `StateTable::class`: the byte of the class array for
/// the glyph, and a class of its own for the deleted glyph.
#[verifier::external_body]
fn read_class(d: &[u8], glyph: u16) -> (r: Option<u8>)
    ensures
        r == machine_class(d@, glyph),
{
    let machine = StateTable::read(FontData::new(d)).ok()?;
    machine.class(GlyphId16::new(glyph)).ok()
}

/// The entry for a state and a class.
pub fn entry(d: &[u8], state: u16, class: u8) -> (r: Option<(u16, u16)>)
    ensures
        r == machine_entry(d@, state, class),
{
    read_entry(d, state, class)
}

/// Whether an entry applies kerning values.
pub open spec fn actionable(flags: u16) -> bool {
    flags & 0x3FFF != 0
}

/// Whether the line advances past the glyph.
pub open spec fn advances(flags: u16) -> bool {
    flags & 0x4000 == 0
}

/// Whether the glyph is pushed for a later action.
pub open spec fn pushes(flags: u16) -> bool {
    flags & 0x8000 != 0
}

pub fn is_actionable(flags: u16) -> (r: bool)
    ensures
        r == actionable(flags),
{
    flags & 0x3FFF != 0
}

pub fn is_action_initiable(flags: u16) -> (r: bool)
    ensures
        r == pushes(flags),
{
    flags & 0x8000 != 0
}

pub fn has_offset(flags: u16) -> (r: bool)
    ensures
        r == actionable(flags),
{
    flags & 0x3FFF != 0
}

pub fn value_offset(flags: u16) -> (r: u16)
    ensures
        r == flags & 0x3FFF,
        r <= 0x3FFF,
{
    assert(flags & 0x3FFF <= 0x3FFF) by (bit_vector);
    flags & 0x3FFF
}

pub fn has_advance(flags: u16) -> (r: bool)
    ensures
        r == advances(flags),
{
    flags & 0x4000 == 0
}

pub fn has_push(flags: u16) -> (r: bool)
    ensures
        r == pushes(flags),
{
    flags & 0x8000 != 0
}

/// A class cache: sixteen-bit keys, eight-bit values.
pub type ClassCache = hb_cache_t<16, 8, 256, 16>;

/// The class of a glyph: out of bounds where the machine names none.
pub open spec fn class_for(d: Seq<u8>, glyph: u32) -> u8 {
    match machine_class(d, glyph as u16) {
        Some(c) => c,
        None => CLASS_OUT_OF_BOUNDS,
    }
}

/// Whether every class in a cache is the machine's.
pub open spec fn cache_sound(d: Seq<u8>, cache: ClassCache) -> bool {
    &&& cache.wf()
    &&& forall|g: u32| (#[trigger] cache.cached(g)) is Some ==> cache.cached(g) == Some(class_for(d, g) as u32)
}

/// The class of a glyph, through the cache.
pub fn get_class(d: &[u8], glyph: u32, cache: &mut ClassCache) -> (r: u8)
    requires
        cache_sound(d@, *old(cache)),
    ensures
        r == class_for(d@, glyph),
        cache_sound(d@, *final(cache)),
{
    if let Some(class) = cache.get(glyph) {
        return class as u8;
    }
    let class: u8 = match read_class(d, glyph as u16) {
        Some(c) => c,
        None => CLASS_OUT_OF_BOUNDS,
    };
    let ghost before = *cache;
    cache.set(glyph, class as u32);
    proof {
        assert forall|g: u32| (#[trigger] cache.cached(g)) is Some implies cache.cached(g) == Some(
            class_for(d@, g) as u32,
        ) by {
            if g != glyph {
                assert(before.cached(g) is Some ==> before.cached(g) == Some(class_for(d@, g) as u32));
            }
        }
    }
    class
}

/// What is known of a transition: the next state, the flags, and whether a
/// line may be broken before the glyph.
#[derive(Copy, Clone, Debug, PartialEq, Eq, Structural)]
pub struct Transition {
    pub next_state: u16,
    pub flags: u16,
    pub safe: bool,
}

/// Whether no action fires when the line ends in a state.
pub open spec fn quiet_end(d: Seq<u8>, state: u16) -> bool {
    match machine_entry(d, state, CLASS_END_OF_TEXT) {
        Some(e) => !actionable(e.1),
        None => state < 64,
    }
}

/// Whether a line may be broken before a glyph without changing the result:
///
/// 1. there is no action in this transition; and
/// 2. the results are the same if the line starts here: the machine is in the
///    start state already, or goes to it without advancing, or would get from
///    the start state, without an action, to the same state as now, advancing
///    or not as now; and
/// 3. no action fires after the glyph before if the line ends there.
pub open spec fn break_is_safe(d: Seq<u8>, state: u16, class: u8, next: u16, flags: u16) -> bool {
    &&& !actionable(flags)
    &&& {
        ||| state == START_OF_TEXT
        ||| !advances(flags) && next == START_OF_TEXT
        ||| match machine_entry(d, START_OF_TEXT, class) {
            Some(e) => !actionable(e.1) && next == e.0 && advances(flags) == advances(e.1),
            None => false,
        }
    }
    &&& quiet_end(d, state)
}

/// The transition of a machine, read from the font.
pub open spec fn transition_of(d: Seq<u8>, state: u16, class: u8) -> Option<Transition> {
    match machine_entry(d, state, class) {
        None => None,
        Some(e) => Some(
            Transition {
                next_state: e.0,
                flags: e.1,
                safe: break_is_safe(d, state, class, e.0, e.1),
            },
        ),
    }
}

/// The first 64 states' quiet ends, a bit each.
pub open spec fn ends_match(d: Seq<u8>, bits: u64) -> bool {
    forall|state: u16| state < 64 ==> #[trigger] bit(bits, state as int) == quiet_end(d, state)
}

/// Which of the first 64 states end quietly, a bit each. A state without an
/// entry for the end of text ends quietly.
pub fn collect_start_end_safe_to_break(d: &[u8]) -> (bits: u64)
    ensures
        ends_match(d@, bits),
{
    let mut bits: u64 = 0;
    let mut state: u16 = 0;
    proof {
        assert forall|k: u16| k < 64 implies !#[trigger] bit(bits, k as int) by {
            lemma_zero_has_no_bits(k as int);
        }
    }
    while state < 64
        invariant
            state <= 64,
            forall|k: u16|
                k < 64 ==> #[trigger] bit(bits, k as int) == (k < state && quiet_end(d@, k)),
        decreases 64 - state,
    {
        let quiet: bool = match read_entry(d, state, CLASS_END_OF_TEXT) {
            Some(e) => !is_actionable(e.1),
            None => true,
        };
        let ghost before = bits;
        if quiet {
            bits = bits | (1u64 << state);
        }
        proof {
            assert forall|k: u16| k < 64 implies #[trigger] bit(bits, k as int) == (k < state + 1
                && quiet_end(d@, k)) by {
                lemma_set_bit(before, state as int, k as int);
                assert(bit(before, k as int) == (k < state && quiet_end(d@, k)));
            }
        }
        state += 1;
    }
    bits
}

/// The transition of a machine, with the safe-to-break conditions worked out by
/// probing two more entries.
pub fn transition_raw(d: &[u8], ends: u64, state: u16, class: u8) -> (r: Option<Transition>)
    requires
        ends_match(d@, ends),
    ensures
        r == transition_of(d@, state, class),
{
    let (next, flags) = match read_entry(d, state, class) {
        Some(e) => e,
        None => return None,
    };
    let same_from_start: bool = state == START_OF_TEXT || (!has_advance(flags) && next == START_OF_TEXT)
        || match read_entry(d, START_OF_TEXT, class) {
        Some(e) => !is_actionable(e.1) && next == e.0 && has_advance(flags) == has_advance(e.1),
        None => false,
    };
    let quiet: bool = if state < 64 {
        assert(bit(ends, state as int) == quiet_end(d@, state));
        let b: u64 = (ends >> state) & 1;
        b == 1
    } else {
        match read_entry(d, state, CLASS_END_OF_TEXT) {
            Some(e) => !is_actionable(e.1),
            None => false,
        }
    };
    Some(
        Transition { next_state: next, flags, safe: !is_actionable(flags) && same_from_start && quiet },
    )
}

/// How many bytes the state array has: it runs to the end of the data.
pub open spec fn state_bytes(d: Seq<u8>) -> int {
    d.len() - word(d, 4)
}

/// The most cells a machine may be decoded to.
pub const DECODED_MAX_ENTRIES: usize = 0x10_0000;

/// The most states: the next state packs into fourteen bits, with the last
/// value reserved for one that is always out of bounds.
pub const DECODED_MAX_STATES: usize = 0x3FFE;

/// The bit that marks a cell whose entry could not be read.
pub const DECODED_POISON: u32 = 0x4000;

/// Whether a machine is small and regular enough to decode: out of bounds has
/// to be one of its classes, so that the clamp never reaches into the next
/// state's row.
pub open spec fn decodable(d: Seq<u8>) -> bool {
    let n = word(d, 0) as int;
    &&& machine_readable(d)
    &&& n > CLASS_OUT_OF_BOUNDS
    &&& 0 < state_bytes(d) <= DECODED_MAX_ENTRIES
    &&& (state_bytes(d) + n - 1) / n <= DECODED_MAX_STATES
}

/// A decoded transition in one word: the flags, the safe-to-break bit, a bit
/// for a cell that could not be read, and the next state. A next state that
/// does not fit is one that is always out of bounds.
pub open spec fn packed(t: Option<Transition>) -> int {
    match t {
        None => DECODED_POISON as int,
        Some(t) => t.flags * 0x1_0000 + (if t.safe {
            0x8000int
        } else {
            0
        }) + vstd::math::min(t.next_state as int, 0x3FFF),
    }
}

/// What a cell of the state array decodes to. Classes come from bytes, so the
/// columns past those are unreachable.
pub open spec fn cell_word(d: Seq<u8>, i: int) -> int {
    let n = word(d, 0) as int;
    if i % n > 0xff {
        DECODED_POISON as int
    } else {
        packed(transition_of(d, (i / n) as u16, (i % n) as u8))
    }
}

/// A machine decoded into a flat array, one word per byte of the state array.
/// One load replaces the reading of an entry, and the precomputed bit replaces
/// the probes behind it.
#[derive(Clone, Debug)]
pub struct DecodedStateMachine {
    pub n_classes: usize,
    pub entries: Vec<u32>,
}

/// The transition as the drive sees it: a next state that cannot be reached is
/// only known to be out of bounds.
pub open spec fn clipped(t: Transition) -> Transition {
    Transition { next_state: vstd::math::min(t.next_state as int, 0x3FFF) as u16, flags: t.flags, safe: t.safe }
}

impl DecodedStateMachine {
    /// Whether this is the machine in some data.
    pub open spec fn decodes(&self, d: Seq<u8>) -> bool {
        &&& decodable(d)
        &&& self.n_classes == word(d, 0)
        &&& self.entries@.len() == state_bytes(d)
        &&& forall|i: int| 0 <= i < self.entries@.len() ==> #[trigger] self.entries@[i] == cell_word(d, i)
    }

    /// Decode a machine, if it can be.
    pub fn new(d: &[u8], ends: u64) -> (r: Option<DecodedStateMachine>)
        requires
            ends_match(d@, ends),
        ensures
            r is Some <==> decodable(d@),
            r matches Some(m) ==> m.decodes(d@),
    {
        if !is_readable(d) {
            return None;
        }
        let n_classes: usize = be16(d, 0).unwrap() as usize;
        let at: usize = be16(d, 4).unwrap() as usize;
        let len: usize = d.len() - at;
        if n_classes <= CLASS_OUT_OF_BOUNDS as usize || len == 0 || len > DECODED_MAX_ENTRIES {
            return None;
        }
        if (len + n_classes - 1) / n_classes > DECODED_MAX_STATES {
            return None;
        }
        let mut entries: Vec<u32> = Vec::new();
        let mut i: usize = 0;
        while i < len
            invariant
                i <= len,
                len == state_bytes(d@),
                n_classes == word(d@, 0),
                decodable(d@),
                ends_match(d@, ends),
                entries@.len() == i,
                forall|k: int| 0 <= k < i ==> #[trigger] entries@[k] == cell_word(d@, k),
            decreases len - i,
        {
            let state: usize = i / n_classes;
            let class: usize = i % n_classes;
            proof {
                lemma_row_in_range(i as int, len as int, n_classes as int);
            }
            if class > 0xff {
                entries.push(DECODED_POISON);
            } else {
                let w: u32 = match transition_raw(d, ends, state as u16, class as u8) {
                    None => DECODED_POISON,
                    Some(t) => {
                        let next: u32 = if t.next_state > 0x3FFF {
                            0x3FFF
                        } else {
                            t.next_state as u32
                        };
                        let safe: u32 = if t.safe {
                            0x8000
                        } else {
                            0
                        };
                        t.flags as u32 * 0x1_0000 + safe + next
                    },
                };
                entries.push(w);
            }
            i += 1;
        }
        Some(DecodedStateMachine { n_classes, entries })
    }

    pub open spec fn wf(&self) -> bool {
        CLASS_OUT_OF_BOUNDS < self.n_classes <= 0xffff
    }

    /// What the array has for a state and a class.
    pub open spec fn look(&self, state: u16, class: u8) -> Option<Transition> {
        let n = self.n_classes as int;
        let at = state * n + (if class >= n {
            CLASS_OUT_OF_BOUNDS as int
        } else {
            class as int
        });
        if at >= self.entries@.len() {
            None
        } else {
            unpacked(self.entries@[at])
        }
    }

    /// The transition for a state and a class.
    #[inline]
    pub fn transition(&self, state: u16, class: u8) -> (r: Option<Transition>)
        requires
            self.wf(),
        ensures
            r == self.look(state, class),
    {
        let column: usize = if class as usize >= self.n_classes {
            CLASS_OUT_OF_BOUNDS as usize
        } else {
            class as usize
        };
        let ghost n = self.n_classes as int;
        assert(0 <= state * n <= 0xffff * 0xffff) by (nonlinear_arith)
            requires
                0 <= state <= 0xffff,
                0 <= n <= 0xffff,
        ;
        let at: u64 = state as u64 * self.n_classes as u64 + column as u64;
        if at >= self.entries.len() as u64 {
            return None;
        }
        let packed: u32 = self.entries[at as usize];
        if (packed / 0x4000) % 2 == 1 {
            return None;
        }
        Some(
            Transition {
                next_state: (packed % 0x4000) as u16,
                flags: (packed / 0x1_0000) as u16,
                safe: (packed / 0x8000) % 2 == 1,
            },
        )
    }
}

/// A word taken apart again.
pub open spec fn unpacked(w: u32) -> Option<Transition> {
    if (w / 0x4000) % 2 == 1 {
        None
    } else {
        Some(
            Transition {
                next_state: (w % 0x4000) as u16,
                flags: (w / 0x1_0000) as u16,
                safe: (w / 0x8000) % 2 == 1,
            },
        )
    }
}

proof fn lemma_unpacked(t: Option<Transition>, w: u32)
    requires
        w == packed(t),
    ensures
        unpacked(w) == (match t {
            None => None,
            Some(t) => Some(clipped(t)),
        }),
{
    if let Some(t) = t {
        let next = vstd::math::min(t.next_state as int, 0x3FFF);
        let safe = if t.safe {
            1int
        } else {
            0
        };
        assert(w == t.flags * 0x1_0000 + safe * 0x8000 + next);
        assert(w / 0x4000 == t.flags * 4 + safe * 2);
        assert(w % 0x4000 == next);
        assert(w / 0x1_0000 == t.flags);
        assert(w / 0x8000 == t.flags * 2 + safe);
    }
}

/// A decoded machine transitions exactly as the one it was decoded from: the
/// same clamp of the class, nothing exactly where that has nothing, and the
/// same next state, flags and safe-to-break otherwise, but for a next state
/// that is out of bounds either way.
pub proof fn decoding_keeps_every_transition(m: DecodedStateMachine, d: Seq<u8>, state: u16, class: u8)
    requires
        m.decodes(d),
    ensures
        m.wf(),
        m.look(state, class) == (match transition_of(d, state, class) {
            None => None,
            Some(t) => Some(clipped(t)),
        }),
{
    let n = m.n_classes as int;
    let column = if class >= n {
        CLASS_OUT_OF_BOUNDS
    } else {
        class
    };
    let at = state * n + column;
    lemma_class_clamp(d, state, class, column);
    assert(at / n == state && at % n == column && at >= 0) by (nonlinear_arith)
        requires
            at == state * n + column,
            0 <= column < n,
            state >= 0,
    ;
    if at < m.entries@.len() {
        assert(m.entries@[at] == cell_word(d, at));
        lemma_unpacked(transition_of(d, state, column), m.entries@[at]);
    }
}

/// A class past the row's end transitions like out of bounds.
proof fn lemma_class_clamp(d: Seq<u8>, state: u16, class: u8, column: u8)
    requires
        decodable(d),
        column == (if class >= word(d, 0) {
            CLASS_OUT_OF_BOUNDS
        } else {
            class
        }),
    ensures
        transition_of(d, state, class) == transition_of(d, state, column),
{
    assert(machine_entry(d, state, class) == machine_entry(d, state, column));
    assert(machine_entry(d, START_OF_TEXT, class) == machine_entry(d, START_OF_TEXT, column));
}

/// The row of a cell is one of the states a decoded machine may have.
proof fn lemma_row_in_range(i: int, len: int, n: int)
    requires
        0 <= i < len,
        n > 0,
        (len + n - 1) / n <= DECODED_MAX_STATES,
    ensures
        0 <= i / n < DECODED_MAX_STATES,
        0 <= i % n < n,
{
    assert(0 <= i / n && i / n + 1 <= (len + n - 1) / n && 0 <= i % n && i % n < n) by (nonlinear_arith)
        requires
            0 <= i < len,
            n > 0,
    ;
}

/// Whether a machine starts here.
pub fn is_readable(d: &[u8]) -> (r: bool)
    ensures
        r == machine_readable(d@),
{
    if d.len() < 8 {
        return false;
    }
    let n: u16 = be16(d, 0).unwrap();
    let class: usize = be16(d, 2).unwrap() as usize;
    let state: usize = be16(d, 4).unwrap() as usize;
    let entry: usize = be16(d, 6).unwrap() as usize;
    n != 0 && class != 0 && class <= d.len() && d.len() - class >= 4 && state != 0 && state <= d.len()
        && entry != 0 && entry <= d.len()
}

/// What the flags of an entry stand for: the low bits are where the values are,
/// and there is an action where there are any; the next bit keeps the line from
/// advancing, and the highest pushes the glyph.
pub proof fn flags_say_what_an_entry_does(
    flags: u16,
    acts: bool,
    has_values: bool,
    at: u16,
    goes_on: bool,
    pushed: bool,
    initiates: bool,
)
    requires
        call_ensures(is_actionable, (flags,), acts),
        call_ensures(has_offset, (flags,), has_values),
        call_ensures(value_offset, (flags,), at),
        call_ensures(has_advance, (flags,), goes_on),
        call_ensures(has_push, (flags,), pushed),
        call_ensures(is_action_initiable, (flags,), initiates),
    ensures
        at == flags % 0x4000,
        acts <==> at != 0,
        has_values <==> at != 0,
        goes_on <==> (flags / 0x4000) % 2 == 0,
        pushed <==> flags >= 0x8000,
        initiates <==> flags >= 0x8000,
{
    assert(flags & 0x3FFF == flags % 0x4000 && (flags & 0x4000 == 0 <==> (flags / 0x4000) % 2 == 0) && (flags
        & 0x8000 != 0 <==> flags >= 0x8000)) by (bit_vector);
}

/// A line may be broken before a glyph exactly where nothing can tell: the
/// transition applies no values; a line that started at the glyph would go on the
/// same way, for the machine is at the start or goes back there without
/// advancing, or it would get from the start to the same state with no values and
/// the same advance; and a line that ended before the glyph would apply none
/// either.
pub proof fn a_break_is_safe_where_nothing_can_tell(
    d: &[u8],
    ends: u64,
    state: u16,
    class: u8,
    t: Option<Transition>,
    here: Option<(u16, u16)>,
    from_start: Option<(u16, u16)>,
    at_end: Option<(u16, u16)>,
)
    requires
        call_ensures(collect_start_end_safe_to_break, (d,), ends),
        call_ensures(transition_raw, (d, ends, state, class), t),
        call_ensures(entry, (d, state, class), here),
        call_ensures(entry, (d, 0u16, class), from_start),
        call_ensures(entry, (d, state, 0u8), at_end),
    ensures
        t is Some <==> here is Some,
        t is Some ==> {
            let (next, flags) = here->0;
            let no_values = flags % 0x4000 == 0;
            let goes_on = (flags / 0x4000) % 2 == 0;
            let same_from_start = from_start is Some && (from_start->0).0 == next && (from_start->0).1 % 0x4000
                == 0 && goes_on == (((from_start->0).1 / 0x4000) % 2 == 0);
            let quiet = if at_end is Some {
                (at_end->0).1 % 0x4000 == 0
            } else {
                state < 64
            };
            &&& t->0.next_state == next
            &&& t->0.flags == flags
            &&& t->0.safe <==> no_values && quiet && (state == 0 || (next == 0 && !goes_on) || same_from_start)
        },
{
    if here is Some {
        let flags = (here->0).1;
        assert(flags & 0x3FFF == flags % 0x4000 && (flags & 0x4000 == 0 <==> (flags / 0x4000) % 2 == 0))
            by (bit_vector);
    }
    if from_start is Some {
        let flags = (from_start->0).1;
        assert(flags & 0x3FFF == flags % 0x4000 && (flags & 0x4000 == 0 <==> (flags / 0x4000) % 2 == 0))
            by (bit_vector);
    }
    if at_end is Some {
        let flags = (at_end->0).1;
        assert(flags & 0x3FFF == flags % 0x4000) by (bit_vector);
    }
}

/// A glyph has the class that the machine's array names for it: the deleted glyph
/// has its own, and a glyph outside the array is out of bounds.
pub proof fn a_glyph_has_its_machine_class(d: &[u8], glyph: u32, cache: &mut ClassCache, class: u8)
    requires
        cache_sound(d@, *old(cache)),
        machine_readable(d@),
        glyph <= 0xffff,
        call_ensures(get_class, (d, glyph, cache), class),
    ensures
        ({
            let table = word(d@, 2) as int;
            let first = word(d@, table);
            let n = word(d@, table + 2);
            &&& glyph == 0xffff ==> class == 2
            &&& glyph < first ==> class == 1 || glyph == 0xffff
            &&& glyph != 0xffff && glyph >= first + n ==> class == 1
            &&& glyph != 0xffff && first <= glyph < first + n && table + 4 + n <= d@.len() ==> class
                == d@[table + 4 + glyph - first]
        }),
{
}

} // verus!
