//! The state machines of a `morx` table, read from the font and decoded.
//!
//! The font stores one as two arrays and a header: a state array of entry
//! indices, one row per state and one column per class, and an entry table those
//! indices name. Reaching an entry from a state and a class means an indexed
//! read into the first, a multiply, a slice of the second, and a parse, per
//! glyph and per subtable. None of that depends on the text, so it is done once.

use read_fonts::tables::aat::{ExtendedStateTable, NoPayload, StateTableParts};
use read_fonts::tables::morx::{ContextualEntryData, InsertionEntryData};
use read_fonts::types::{BigEndian, GlyphId};
use read_fonts::{FontData, FontRead};
use vstd::prelude::*;

use crate::bits::bit;
use crate::bytes::{be16, fits, long, word};
use crate::kern_machine::{
    ClassCache, CLASS_DELETED_GLYPH, CLASS_END_OF_TEXT, CLASS_OUT_OF_BOUNDS, START_OF_TEXT,
};
use crate::tables::resolves;

verus! {

/// What the entries of a machine carry beside the next state and the flags:
/// nothing, two indices of substitutions, an index of actions, or two indices
/// of glyphs to insert.
#[derive(Copy, Clone, Debug, PartialEq, Eq, Structural)]
pub enum Payload {
    Rearrangement,
    Contextual,
    Ligature,
    Insertion,
}

/// How many bytes a payload takes.
pub open spec fn payload_bytes(p: Payload) -> int {
    match p {
        Payload::Rearrangement => 0,
        Payload::Contextual => 4,
        Payload::Ligature => 2,
        Payload::Insertion => 4,
    }
}

/// An entry of a machine. The words of the payload that there are not are zero.
#[derive(Copy, Clone, Debug, PartialEq, Eq, Structural)]
pub struct StateEntry {
    pub new_state: u16,
    pub flags: u16,
    pub first: u16,
    pub second: u16,
}

/// The entry whose bytes start at `at`.
pub open spec fn entry_at(d: Seq<u8>, p: Payload, at: int) -> StateEntry {
    StateEntry {
        new_state: word(d, at),
        flags: word(d, at + 2),
        first: if payload_bytes(p) >= 2 {
            word(d, at + 4)
        } else {
            0
        },
        second: if payload_bytes(p) >= 4 {
            word(d, at + 6)
        } else {
            0
        },
    }
}

/// Whether a table of values by glyph starts at `at`: its format is known and
/// its header can be read.
pub open spec fn lookup_readable(d: Seq<u8>, at: int) -> bool {
    let f = word(d, at);
    &&& fits(d, at, 2)
    &&& f == 0 || ((f == 2 || f == 4 || f == 6) && fits(d, at, 12)) || (f == 8 && fits(d, at, 6)) || (f
        == 10 && fits(d, at, 8))
}

/// Whether a machine starts here: its header can be read, and its three parts
/// lie inside.
pub open spec fn ext_readable(d: Seq<u8>) -> bool {
    &&& fits(d, 0, 16)
    &&& resolves(d, 0, long(d, 4) as int)
    &&& lookup_readable(d, long(d, 4) as int)
    &&& resolves(d, 0, long(d, 8) as int)
    &&& resolves(d, 0, long(d, 12) as int)
}

/// How many cells the state array has: it runs to the end of the data.
pub open spec fn ext_cells(d: Seq<u8>) -> int {
    (d.len() - long(d, 8)) / 2
}

/// The column of a class: one the machine does not have is out of bounds.
pub open spec fn column(n: int, class: u16) -> int {
    if class >= n {
        CLASS_OUT_OF_BOUNDS as int
    } else {
        class as int
    }
}

/// The entry that a cell of the state array names.
pub open spec fn named_entry(d: Seq<u8>, p: Payload, cell: int) -> Option<StateEntry> {
    let at = long(d, 12) + word(d, long(d, 8) + 2 * cell) * (4 + payload_bytes(p));
    if fits(d, at, 4 + payload_bytes(p)) {
        Some(entry_at(d, p, at))
    } else {
        None
    }
}

/// The entry for a state and a class.
pub open spec fn ext_entry(d: Seq<u8>, p: Payload, state: u16, class: u16) -> Option<StateEntry> {
    let n = long(d, 0) as int;
    let cell = state * n + column(n, class);
    if !ext_readable(d) || cell >= ext_cells(d) {
        None
    } else {
        named_entry(d, p, cell)
    }
}

/// Whether a cell's number fits any address.
pub open spec fn near(d: Seq<u8>, state: u16, class: u16) -> bool {
    fits(d, 0, 16) ==> state * long(d, 0) + column(long(d, 0) as int, class) <= u32::MAX
}

/// The class of a glyph, if the machine names one.
pub uninterp spec fn ext_class(d: Seq<u8>, glyph: u32) -> Option<u16>;

/// `StateTableParts::read`: the four fields of the header, the number of classes
/// and the places of the class table, the state array and the entries.
#[verifier::external_body]
fn read_parts(d: &[u8]) -> (r: Option<(u32, u32, u32, u32)>)
    ensures
        r is Some <==> fits(d@, 0, 16),
        r matches Some(p) ==> p == (long(d@, 0), long(d@, 4), long(d@, 8), long(d@, 12)),
{
    let p = StateTableParts::read(FontData::new(d)).ok()?;
    Some((p.n_classes, p.class_table_offset, p.state_array_offset, p.entry_table_offset))
}

/// `ExtendedStateTable::read` and `ExtendedStateTable::entry`, for entries
/// without a payload: the entry named by the cell of the state's row, with a
/// class past the row's end read as out of bounds.
#[verifier::external_body]
fn read_rearrangement(d: &[u8], state: u16, class: u16) -> (r: Option<StateEntry>)
    requires
        near(d@, state, class),
    ensures
        r == ext_entry(d@, Payload::Rearrangement, state, class),
{
    let machine = ExtendedStateTable::<NoPayload>::read(FontData::new(d)).ok()?;
    let e = machine.entry(state, class).ok()?;
    Some(StateEntry { new_state: e.new_state, flags: e.flags, first: 0, second: 0 })
}

/// `ExtendedStateTable::read` and `ExtendedStateTable::entry`, for entries with two
/// indices of substitutions: the entry that the same cell names, with both words.
#[verifier::external_body]
fn read_contextual(d: &[u8], state: u16, class: u16) -> (r: Option<StateEntry>)
    requires
        near(d@, state, class),
    ensures
        r == ext_entry(d@, Payload::Contextual, state, class),
{
    let machine = ExtendedStateTable::<ContextualEntryData>::read(FontData::new(d)).ok()?;
    let e = machine.entry(state, class).ok()?;
    let (first, second) = (e.payload.mark_index(), e.payload.current_index());
    Some(StateEntry { new_state: e.new_state, flags: e.flags, first, second })
}

/// `ExtendedStateTable::read` and `ExtendedStateTable::entry`, for entries with an
/// index of actions: the entry that the same cell names, with its word.
#[verifier::external_body]
fn read_ligature(d: &[u8], state: u16, class: u16) -> (r: Option<StateEntry>)
    requires
        near(d@, state, class),
    ensures
        r == ext_entry(d@, Payload::Ligature, state, class),
{
    let machine = ExtendedStateTable::<BigEndian<u16>>::read(FontData::new(d)).ok()?;
    let e = machine.entry(state, class).ok()?;
    Some(StateEntry { new_state: e.new_state, flags: e.flags, first: e.payload.get(), second: 0 })
}

/// `ExtendedStateTable::read` and `ExtendedStateTable::entry`, for entries with two
/// indices of glyphs to insert: the entry that the same cell names, with both
/// words.
#[verifier::external_body]
fn read_insertion(d: &[u8], state: u16, class: u16) -> (r: Option<StateEntry>)
    requires
        near(d@, state, class),
    ensures
        r == ext_entry(d@, Payload::Insertion, state, class),
{
    let machine = ExtendedStateTable::<InsertionEntryData>::read(FontData::new(d)).ok()?;
    let e = machine.entry(state, class).ok()?;
    let (first, second) = (e.payload.current_insert_index(), e.payload.marked_insert_index());
    Some(StateEntry { new_state: e.new_state, flags: e.flags, first, second })
}

/// `ExtendedStateTable::read` and `ExtendedStateTable::class`: what the class
/// table says of the glyph. The deleted glyph has a class of its own, and ids of
/// more than sixteen bits have none.
#[verifier::external_body]
fn read_class(d: &[u8], glyph: u32) -> (r: Option<u16>)
    ensures
        r == ext_class(d@, glyph),
        !ext_readable(d@) || glyph > 0xffff ==> r is None,
        ext_readable(d@) && glyph == 0xffff ==> r == Some(CLASS_DELETED_GLYPH as u16),
{
    let machine = ExtendedStateTable::<NoPayload>::read(FontData::new(d)).ok()?;
    machine.class(GlyphId::new(glyph)).ok()
}

/// The entry for a state and a class, read from the font.
pub fn entry(d: &[u8], p: Payload, state: u16, class: u16) -> (r: Option<StateEntry>)
    requires
        near(d@, state, class),
    ensures
        r == ext_entry(d@, p, state, class),
{
    match p {
        Payload::Rearrangement => read_rearrangement(d, state, class),
        Payload::Contextual => read_contextual(d, state, class),
        Payload::Ligature => read_ligature(d, state, class),
        Payload::Insertion => read_insertion(d, state, class),
    }
}

/// The class of a glyph, from what the machine names: out of bounds where it
/// names none.
pub open spec fn class_or_bounds(class: Option<u16>) -> u16 {
    match class {
        Some(c) => c,
        None => CLASS_OUT_OF_BOUNDS as u16,
    }
}

pub fn clamp_class(class: Option<u16>) -> (r: u16)
    ensures
        r == class_or_bounds(class),
{
    match class {
        Some(c) => c,
        None => CLASS_OUT_OF_BOUNDS as u16,
    }
}

/// Whether every class in a cache is the machine's.
pub open spec fn ext_cache_sound(d: Seq<u8>, cache: ClassCache) -> bool {
    &&& cache.wf()
    &&& forall|g: u32|
        (#[trigger] cache.cached(g)) is Some ==> cache.cached(g) == Some(
            class_or_bounds(ext_class(d, g)) as u32,
        )
}

/// The class of a glyph, through the cache.
pub fn get_class(d: &[u8], glyph: u32, cache: &mut ClassCache) -> (r: u16)
    requires
        ext_cache_sound(d@, *old(cache)),
    ensures
        r == class_or_bounds(ext_class(d@, glyph)),
        ext_cache_sound(d@, *final(cache)),
{
    if let Some(class) = cache.get(glyph) {
        return class as u16;
    }
    let class: u16 = clamp_class(read_class(d, glyph));
    let ghost before = *cache;
    cache.set(glyph, class as u32);
    proof {
        assert forall|g: u32| (#[trigger] cache.cached(g)) is Some implies cache.cached(g) == Some(
            class_or_bounds(ext_class(d@, g)) as u32,
        ) by {
            if g != glyph {
                assert(before.cached(g) is Some ==> before.cached(g) == Some(
                    class_or_bounds(ext_class(d@, g)) as u32,
                ));
            }
        }
    }
    class
}

/// How many bytes of a payload there are.
fn payload_len(p: Payload) -> (n: usize)
    ensures
        n == payload_bytes(p),
{
    match p {
        Payload::Rearrangement => 0,
        Payload::Contextual => 4,
        Payload::Ligature => 2,
        Payload::Insertion => 4,
    }
}

/// The entry whose bytes start at `at`.
fn parse_entry(d: &[u8], p: Payload, at: usize) -> (e: StateEntry)
    requires
        fits(d@, at as int, 4 + payload_bytes(p)),
    ensures
        e == entry_at(d@, p, at as int),
{
    let end: usize = d.len();
    let n: usize = payload_len(p);
    let first: u16 = if n >= 2 {
        be16(d, at + 4).unwrap()
    } else {
        0
    };
    let second: u16 = if n >= 4 {
        be16(d, at + 6).unwrap()
    } else {
        0
    };
    StateEntry { new_state: be16(d, at).unwrap(), flags: be16(d, at + 2).unwrap(), first, second }
}

/// The state array and entry table of one machine, decoded.
#[derive(Clone, Debug)]
pub struct States {
    pub n_classes: u32,
    /// Row by row, `n_classes` per state.
    pub rows: Vec<u16>,
    pub entries: Vec<StateEntry>,
}

/// How many entries can be reached: one past the highest that the rows name.
pub open spec fn reachable(rows: Seq<u16>) -> int
    decreases rows.len(),
{
    if rows.len() == 0 {
        0
    } else {
        vstd::math::max(reachable(rows.drop_last()), rows.last() + 1)
    }
}

/// The words of the state array: it runs from its own place to the entry
/// table's.
pub open spec fn array_rows(d: Seq<u8>) -> Seq<u16> {
    let at = long(d, 8) as int;
    Seq::new(((long(d, 12) - at) / 2) as nat, |i: int| word(d, at + 2 * i))
}

/// How many entries to hold: those that can be reached, as far as they lie
/// inside.
pub open spec fn entry_count(d: Seq<u8>, p: Payload) -> int {
    vstd::math::min(reachable(array_rows(d)), (d.len() - long(d, 12)) / (4 + payload_bytes(p)))
}

/// Whether a machine can be held: it has classes, its state array is followed by
/// its entries, and there is one of those.
pub open spec fn holdable(d: Seq<u8>, p: Payload) -> bool {
    &&& fits(d, 0, 16)
    &&& long(d, 0) != 0
    &&& long(d, 8) <= long(d, 12) <= d.len()
    &&& entry_count(d, p) > 0
}

impl States {
    /// Whether this holds the machine in some data.
    pub open spec fn holds(&self, d: Seq<u8>, p: Payload) -> bool {
        &&& self.n_classes == long(d, 0)
        &&& self.rows@ == array_rows(d)
        &&& self.entries@ == Seq::new(
            entry_count(d, p) as nat,
            |i: int| entry_at(d, p, long(d, 12) + i * (4 + payload_bytes(p))),
        )
    }

    /// Decode the machine whose header is at the start of `d`.
    ///
    /// Nothing if the header does not describe a machine this can hold, in
    /// which case the caller keeps driving from the font.
    pub fn new(d: &[u8], p: Payload) -> (r: Option<States>)
        ensures
            r is Some <==> holdable(d@, p),
            r matches Some(s) ==> s.holds(d@, p),
    {
        let (n_classes, _, array_at, entries_at) = match read_parts(d) {
            Some(parts) => parts,
            None => return None,
        };
        let array_at: usize = array_at as usize;
        let entries_at: usize = entries_at as usize;
        if n_classes == 0 || array_at > entries_at || entries_at > d.len() {
            return None;
        }
        let n: usize = (entries_at - array_at) / 2;
        let mut rows: Vec<u16> = Vec::new();
        let mut top: u32 = 0;
        let mut i: usize = 0;
        let end: usize = d.len();
        while i < n
            invariant
                i <= n,
                n == (entries_at - array_at) / 2,
                array_at <= entries_at <= end,
                end == d@.len(),
                array_at == long(d@, 8),
                entries_at == long(d@, 12),
                rows@ == array_rows(d@).take(i as int),
                top == reachable(rows@),
                top <= 0x1_0000,
            decreases n - i,
        {
            let w: u16 = be16(d, array_at + 2 * i).unwrap();
            let ghost before = rows@;
            rows.push(w);
            if w as u32 + 1 > top {
                top = w as u32 + 1;
            }
            proof {
                assert(rows@.drop_last() =~= before);
                assert(rows@ =~= array_rows(d@).take(i + 1));
            }
            i += 1;
        }
        assert(rows@ =~= array_rows(d@));
        let stride: usize = 4 + payload_len(p);
        let whole: usize = (d.len() - entries_at) / stride;
        let count: usize = if (top as usize) < whole {
            top as usize
        } else {
            whole
        };
        if count == 0 {
            return None;
        }
        let mut entries: Vec<StateEntry> = Vec::new();
        let mut i: usize = 0;
        while i < count
            invariant
                i <= count,
                end == d@.len(),
                entries_at <= end,
                entries_at == long(d@, 12),
                stride == 4 + payload_bytes(p),
                4 <= stride <= 8,
                count <= (end - entries_at) / (stride as int),
                entries@ == Seq::new(
                    i as nat,
                    |k: int| entry_at(d@, p, long(d@, 12) + k * (4 + payload_bytes(p))),
                ),
            decreases count - i,
        {
            proof {
                lemma_record_fits(i as int, count as int, stride as int, end - entries_at);
            }
            entries.push(parse_entry(d, p, entries_at + i * stride));
            assert(entries@ =~= Seq::new(
                (i + 1) as nat,
                |k: int| entry_at(d@, p, long(d@, 12) + k * (4 + payload_bytes(p))),
            ));
            i += 1;
        }
        Some(States { n_classes, rows, entries })
    }

    /// The entry this has for a state and a class.
    pub open spec fn look(&self, state: u16, class: u16) -> Option<StateEntry> {
        let n = self.n_classes as int;
        let row = (state * n + column(n, class)) % 0x1_0000_0000;
        if row < self.rows@.len() && self.rows@[row] < self.entries@.len() {
            Some(self.entries@[self.rows@[row] as int])
        } else {
            None
        }
    }

    /// The entry for a state and a class.
    ///
    /// Two indexed loads. A class beyond the machine's width is out of bounds,
    /// which is a class every machine defines.
    #[inline]
    pub fn entry(&self, state: u16, class: u16) -> (r: Option<StateEntry>)
        ensures
            r == self.look(state, class),
    {
        let class: u32 = if class as u32 >= self.n_classes {
            CLASS_OUT_OF_BOUNDS as u32
        } else {
            class as u32
        };
        let ghost n = self.n_classes as int;
        let row: u32 = (state as u32).wrapping_mul(self.n_classes).wrapping_add(class);
        proof {
            lemma_wrapped_row(state as int, n, class as int);
            assert(row == (state * n + class) % 0x1_0000_0000);
        }
        if row as usize >= self.rows.len() {
            return None;
        }
        let index: usize = self.rows[row as usize] as usize;
        if index >= self.entries.len() {
            return None;
        }
        Some(self.entries[index])
    }
}

/// A whole record lies inside.
proof fn lemma_record_fits(i: int, count: int, stride: int, room: int)
    requires
        0 <= i < count <= room / stride,
        stride > 0,
        room >= 0,
    ensures
        0 <= i * stride,
        i * stride + stride <= room,
{
    assert(i * stride + stride <= (room / stride) * stride && 0 <= i * stride) by (nonlinear_arith)
        requires
            0 <= i,
            i + 1 <= room / stride,
            stride > 0,
    ;
    assert((room / stride) * stride <= room) by (nonlinear_arith)
        requires
            stride > 0,
            room >= 0,
    ;
}

/// Wrapping twice is wrapping once.
proof fn lemma_wrapped_row(state: int, n: int, class: int)
    requires
        0 <= state <= 0xffff,
        0 <= n <= u32::MAX,
        0 <= class <= 0xffff,
    ensures
        ((state * n) % 0x1_0000_0000 + class) % 0x1_0000_0000 == (state * n + class) % 0x1_0000_0000,
{
    assert(state * n >= 0) by (nonlinear_arith)
        requires
            state >= 0,
            n >= 0,
    ;
    vstd::arithmetic::div_mod::lemma_add_mod_noop(state * n, class, 0x1_0000_0000);
    vstd::arithmetic::div_mod::lemma_mod_twice(state * n, 0x1_0000_0000);
    vstd::arithmetic::div_mod::lemma_add_mod_noop((state * n) % 0x1_0000_0000, class, 0x1_0000_0000);
}

/// The highest row names the last entry that can be reached.
proof fn lemma_reachable(rows: Seq<u16>, i: int)
    requires
        0 <= i < rows.len(),
    ensures
        rows[i] < reachable(rows),
    decreases rows.len(),
{
    if i < rows.len() - 1 {
        lemma_reachable(rows.drop_last(), i);
    }
}

/// A held machine has, in every cell of its state array, the entry that the
/// font has there, and nothing exactly where that has nothing.
pub proof fn holding_keeps_every_entry(s: States, d: Seq<u8>, p: Payload, state: u16, class: u16)
    requires
        s.holds(d, p),
        holdable(d, p),
        ext_readable(d),
        state * s.n_classes + column(s.n_classes as int, class) < s.rows@.len(),
    ensures
        s.look(state, class) == ext_entry(d, p, state, class),
{
    let n = s.n_classes as int;
    let cell = state * n + column(n, class);
    let stride = 4 + payload_bytes(p);
    let room = d.len() - long(d, 12);
    assert(cell >= 0) by (nonlinear_arith)
        requires
            cell == state * n + column(n, class),
            state >= 0,
            n >= 0,
    ;
    assert(cell < 0x1_0000_0000);
    assert(cell % 0x1_0000_0000 == cell);
    let index = s.rows@[cell] as int;
    assert(index == word(d, long(d, 8) + 2 * cell));
    lemma_reachable(s.rows@, cell);
    if index < room / stride {
        lemma_record_fits(index, room / stride, stride, room);
        assert(index < entry_count(d, p));
    } else {
        assert(index * stride + stride > room) by (nonlinear_arith)
            requires
                index >= room / stride,
                stride > 0,
                room >= 0,
        ;
    }
}

/// The machine of one `morx` subtable, in whichever shape its kind calls for.
///
/// `Undecoded` is no failure: it means that the caller drives from the font, which
/// it can always do.
#[derive(Clone, Debug)]
pub enum MorxStates {
    Undecoded,
    Rearrangement(States),
    Contextual(States),
    Ligature(States),
    Insertion(States),
}

impl MorxStates {
    /// The machine that is held, with what its entries carry.
    pub open spec fn machine(&self) -> Option<(Payload, States)> {
        match self {
            MorxStates::Undecoded => None,
            MorxStates::Rearrangement(s) => Some((Payload::Rearrangement, *s)),
            MorxStates::Contextual(s) => Some((Payload::Contextual, *s)),
            MorxStates::Ligature(s) => Some((Payload::Ligature, *s)),
            MorxStates::Insertion(s) => Some((Payload::Insertion, *s)),
        }
    }

    /// Decode whichever machine a subtable holds: a subtable without one has no
    /// payload.
    pub fn new(kind: Option<Payload>, data: &[u8]) -> (r: MorxStates)
        ensures
            r.machine() is Some <==> (kind matches Some(p) && holdable(data@, p)),
            r.machine() matches Some((p, s)) ==> kind == Some(p) && s.holds(data@, p),
    {
        let kind = match kind {
            Some(p) => p,
            None => return MorxStates::Undecoded,
        };
        let states = match States::new(data, kind) {
            Some(s) => s,
            None => return MorxStates::Undecoded,
        };
        match kind {
            Payload::Rearrangement => MorxStates::Rearrangement(states),
            Payload::Contextual => MorxStates::Contextual(states),
            Payload::Ligature => MorxStates::Ligature(states),
            Payload::Insertion => MorxStates::Insertion(states),
        }
    }

    pub fn rearrangement(&self) -> (r: Option<&States>)
        ensures
            r == (match self {
                MorxStates::Rearrangement(s) => Some(s),
                _ => None,
            }),
    {
        match self {
            MorxStates::Rearrangement(s) => Some(s),
            _ => None,
        }
    }

    pub fn contextual(&self) -> (r: Option<&States>)
        ensures
            r == (match self {
                MorxStates::Contextual(s) => Some(s),
                _ => None,
            }),
    {
        match self {
            MorxStates::Contextual(s) => Some(s),
            _ => None,
        }
    }

    pub fn ligature(&self) -> (r: Option<&States>)
        ensures
            r == (match self {
                MorxStates::Ligature(s) => Some(s),
                _ => None,
            }),
    {
        match self {
            MorxStates::Ligature(s) => Some(s),
            _ => None,
        }
    }

    pub fn insertion(&self) -> (r: Option<&States>)
        ensures
            r == (match self {
                MorxStates::Insertion(s) => Some(s),
                _ => None,
            }),
    {
        match self {
            MorxStates::Insertion(s) => Some(s),
            _ => None,
        }
    }
}

/// A line may be broken before the glyph.
pub const MACHINE_META_SAFE: u8 = 1;

/// The cell names no entry.
pub const MACHINE_META_POISON: u8 = 2;

/// The most cells a machine may be decoded to.
pub const MAX_CELLS: usize = 0x4_0000;

/// What a test says of an entry.
pub open spec fn says<F: Fn(&StateEntry) -> bool>(f: F, e: StateEntry) -> bool {
    call_ensures(f, (&e,), true)
}

/// Whether a test answers for every entry, and always alike.
pub open spec fn is_test<F: Fn(&StateEntry) -> bool>(f: F) -> bool {
    &&& forall|e: StateEntry| #[trigger] call_requires(f, (&e,))
    &&& forall|e: StateEntry| #[trigger] call_ensures(f, (&e,), false) ==> !says(f, e)
}

/// Whether a machine is small and regular enough to decode: out of bounds has
/// to be one of its classes, so that the clamp never reaches into the next
/// state's row.
pub open spec fn ext_decodable(d: Seq<u8>) -> bool {
    let n = long(d, 0) as int;
    &&& ext_readable(d)
    &&& n > CLASS_OUT_OF_BOUNDS
    &&& 0 < ext_cells(d) <= MAX_CELLS
    &&& (ext_cells(d) + n - 1) / n <= 0xffff
}

/// The entry that a cell decodes to. Classes are words, so the columns past
/// those are unreachable, and decode as the ones they wrap to.
pub open spec fn cell_entry(d: Seq<u8>, p: Payload, i: int) -> Option<StateEntry> {
    let n = long(d, 0) as int;
    ext_entry(d, p, (i / n) as u16, ((i % n) % 0x1_0000) as u16)
}

/// Whether a line may be broken before a glyph without changing the result, as
/// the entry's cell tells it:
///
/// 1. there is no action in this transition; and
/// 2. the results are the same if the line starts here: the machine is in the
///    start state already, or goes to it without advancing, or would get from
///    the start state, without an action, to the same state as now, advancing
///    or not as now; and
/// 3. no action fires after the glyph before if the line ends there, which is
///    given for the first 64 states.
pub open spec fn ext_safe<A: Fn(&StateEntry) -> bool, B: Fn(&StateEntry) -> bool>(
    d: Seq<u8>,
    p: Payload,
    ends: u64,
    act: A,
    advance: B,
    i: int,
) -> bool {
    let n = long(d, 0) as int;
    let state = i / n;
    cell_entry(d, p, i) matches Some(e) && {
        &&& !says(act, e)
        &&& {
            ||| state == START_OF_TEXT
            ||| !says(advance, e) && e.new_state == START_OF_TEXT
            ||| cell_entry(d, p, i % n) matches Some(w) && !says(act, w) && e.new_state == w.new_state
                && says(advance, e) == says(advance, w)
        }
        &&& if state < 64 {
            bit(ends, state)
        } else {
            cell_entry(d, p, state * n + CLASS_END_OF_TEXT) matches Some(x) && !says(act, x)
        }
    }
}

/// What is noted of a cell.
pub open spec fn cell_meta<A: Fn(&StateEntry) -> bool, B: Fn(&StateEntry) -> bool>(
    d: Seq<u8>,
    p: Payload,
    ends: u64,
    act: A,
    advance: B,
    i: int,
) -> u8 {
    if cell_entry(d, p, i) is None {
        MACHINE_META_POISON
    } else if ext_safe(d, p, ends, act, advance, i) {
        MACHINE_META_SAFE
    } else {
        0
    }
}

/// A machine decoded into flat arrays, one element per cell of the state array.
/// An indexed load replaces the reading of an entry and the probes behind the
/// safe-to-break computation.
#[derive(Clone, Debug)]
pub struct DecodedExtMachine {
    pub n_classes: u32,
    pub entries: Vec<StateEntry>,
    pub meta: Vec<u8>,
}

/// Whether cells hold the entries that they name, and say which name none.
pub open spec fn cells_read(
    entries: Seq<StateEntry>,
    poisoned: Seq<bool>,
    d: Seq<u8>,
    p: Payload,
    n: int,
) -> bool {
    &&& entries.len() == n
    &&& poisoned.len() == n
    &&& forall|i: int|
        0 <= i < n ==> #[trigger] poisoned[i] == (cell_entry(d, p, i) is None) && (!poisoned[i] ==> Some(
            entries[i],
        ) == cell_entry(d, p, i))
}

impl DecodedExtMachine {
    /// Whether this is the machine in some data.
    pub open spec fn decodes<A: Fn(&StateEntry) -> bool, B: Fn(&StateEntry) -> bool>(
        &self,
        d: Seq<u8>,
        p: Payload,
        ends: u64,
        act: A,
        advance: B,
    ) -> bool {
        &&& ext_decodable(d)
        &&& self.n_classes == long(d, 0)
        &&& self.entries@.len() == ext_cells(d)
        &&& self.meta@.len() == ext_cells(d)
        &&& forall|i: int|
            0 <= i < ext_cells(d) ==> #[trigger] self.meta@[i] == cell_meta(d, p, ends, act, advance, i)
        &&& forall|i: int|
            0 <= i < ext_cells(d) && cell_entry(d, p, i) is Some ==> Some(#[trigger] self.entries@[i])
                == cell_entry(d, p, i)
    }

    /// Decode a machine, if it can be.
    pub fn build<A: Fn(&StateEntry) -> bool, B: Fn(&StateEntry) -> bool>(
        d: &[u8],
        p: Payload,
        ends: u64,
        is_actionable: A,
        can_advance: B,
    ) -> (r: Option<DecodedExtMachine>)
        requires
            is_test(is_actionable),
            is_test(can_advance),
        ensures
            r is Some <==> ext_decodable(d@),
            r matches Some(m) ==> m.decodes(d@, p, ends, is_actionable, can_advance),
    {
        let n_cells: usize = match decode_cells(d) {
            Some(n) => n,
            None => return None,
        };
        let (n_classes, _, _, _) = match read_parts(d) {
            Some(parts) => parts,
            None => return None,
        };
        let (entries, poisoned) = read_cells(d, p, n_classes, n_cells);
        let mut meta: Vec<u8> = Vec::new();
        let mut i: usize = 0;
        while i < n_cells
            invariant
                i <= n_cells,
                n_cells == ext_cells(d@),
                n_classes == long(d@, 0),
                ext_decodable(d@),
                is_test(is_actionable),
                is_test(can_advance),
                cells_read(entries@, poisoned@, d@, p, n_cells as int),
                meta@.len() == i,
                forall|k: int|
                    0 <= k < i ==> #[trigger] meta@[k] == cell_meta(
                        d@,
                        p,
                        ends,
                        is_actionable,
                        can_advance,
                        k,
                    ),
            decreases n_cells - i,
        {
            let note: u8 = if poisoned[i] {
                MACHINE_META_POISON
            } else if cell_is_safe(
                d,
                p,
                ends,
                n_classes,
                &entries,
                &poisoned,
                i,
                &is_actionable,
                &can_advance,
            ) {
                MACHINE_META_SAFE
            } else {
                0
            };
            meta.push(note);
            i += 1;
        }
        assert forall|k: int| 0 <= k < ext_cells(d@) && cell_entry(d@, p, k) is Some implies Some(
            #[trigger] entries@[k],
        ) == cell_entry(d@, p, k) by {
            assert(!poisoned@[k]);
        }
        Some(DecodedExtMachine { n_classes, entries, meta })
    }

    pub open spec fn wf(&self) -> bool {
        &&& self.n_classes > CLASS_OUT_OF_BOUNDS
        &&& self.meta@.len() == self.entries@.len()
    }

    /// What the arrays have for a state and a class.
    pub open spec fn look(&self, state: u16, class: u16) -> Option<(StateEntry, u8)> {
        let n = self.n_classes as int;
        let at = state * n + column(n, class);
        if at < self.entries@.len() && self.meta@[at] & MACHINE_META_POISON == 0 {
            Some((self.entries@[at], self.meta@[at]))
        } else {
            None
        }
    }

    /// The entry for a state and a class, and what is noted of it.
    #[inline]
    pub fn get(&self, state: u16, class: u16) -> (r: Option<(StateEntry, u8)>)
        requires
            self.wf(),
        ensures
            r == self.look(state, class),
    {
        let class: u32 = if class as u32 >= self.n_classes {
            CLASS_OUT_OF_BOUNDS as u32
        } else {
            class as u32
        };
        let ghost n = self.n_classes as int;
        assert(0 <= state * n <= 0xffff * 0xffff_ffff) by (nonlinear_arith)
            requires
                0 <= state <= 0xffff,
                0 <= n <= 0xffff_ffff,
        ;
        let at: u64 = state as u64 * self.n_classes as u64 + class as u64;
        if at >= self.entries.len() as u64 {
            return None;
        }
        let note: u8 = self.meta[at as usize];
        if note & MACHINE_META_POISON != 0 {
            return None;
        }
        Some((self.entries[at as usize], note))
    }
}

/// How many cells to decode, if the machine can be.
fn decode_cells(d: &[u8]) -> (r: Option<usize>)
    ensures
        r is Some <==> ext_decodable(d@),
        r matches Some(n) ==> n == ext_cells(d@),
{
    let (n_classes, class_at, array_at, entries_at) = match read_parts(d) {
        Some(parts) => parts,
        None => return None,
    };
    let len: usize = d.len();
    if class_at == 0 || array_at == 0 || entries_at == 0 || class_at as usize > len || array_at as usize
        > len || entries_at as usize > len {
        return None;
    }
    let at: usize = class_at as usize;
    let left: usize = len - at;
    if left < 2 {
        return None;
    }
    let f: u16 = be16(d, at).unwrap();
    let readable: bool = f == 0 || ((f == 2 || f == 4 || f == 6) && left >= 12) || (f == 8 && left >= 6)
        || (f == 10 && left >= 8);
    let n_cells: usize = (len - array_at as usize) / 2;
    if !readable || n_classes <= CLASS_OUT_OF_BOUNDS as u32 || n_cells == 0 || n_cells > MAX_CELLS {
        return None;
    }
    if (n_cells as u64 + n_classes as u64 - 1) / n_classes as u64 > 0xffff {
        return None;
    }
    Some(n_cells)
}

/// A cell's row and column.
proof fn lemma_cell(d: Seq<u8>, i: int)
    requires
        ext_decodable(d),
        0 <= i < ext_cells(d),
    ensures
        0 <= i / (long(d, 0) as int) < 0xffff,
        0 <= i % (long(d, 0) as int) <= i,
        (i / (long(d, 0) as int)) * long(d, 0) + i % (long(d, 0) as int) == i,
        0 <= (i / (long(d, 0) as int)) * long(d, 0) <= i,
{
    let n = long(d, 0) as int;
    let cells = ext_cells(d);
    vstd::arithmetic::div_mod::lemma_fundamental_div_mod(i, n);
    assert(i / n < (cells + n - 1) / n) by (nonlinear_arith)
        requires
            0 <= i < cells,
            n > 0,
    ;
    assert(i / n >= 0 && 0 <= i % n < n) by (nonlinear_arith)
        requires
            i >= 0,
            n > 0,
    ;
    assert((i / n) * n == n * (i / n)) by (nonlinear_arith);
    assert((i / n) * n >= 0) by (nonlinear_arith)
        requires
            i / n >= 0,
            n > 0,
    ;
}

/// Read every cell once.
fn read_cells(d: &[u8], p: Payload, n_classes: u32, n_cells: usize) -> (r: (Vec<StateEntry>, Vec<bool>))
    requires
        ext_decodable(d@),
        n_cells == ext_cells(d@),
        n_classes == long(d@, 0),
    ensures
        cells_read(r.0@, r.1@, d@, p, n_cells as int),
{
    let mut entries: Vec<StateEntry> = Vec::new();
    let mut poisoned: Vec<bool> = Vec::new();
    let mut i: usize = 0;
    while i < n_cells
        invariant
            i <= n_cells,
            n_cells == ext_cells(d@),
            n_cells <= MAX_CELLS,
            n_classes == long(d@, 0),
            ext_decodable(d@),
            cells_read(entries@, poisoned@, d@, p, i as int),
        decreases n_cells - i,
    {
        proof {
            lemma_cell(d@, i as int);
        }
        let state: u64 = i as u64 / n_classes as u64;
        let class: u64 = (i as u64 % n_classes as u64) % 0x1_0000;
        assert(near(d@, state as u16, class as u16));
        match entry(d, p, state as u16, class as u16) {
            Some(e) => {
                entries.push(e);
                poisoned.push(false);
            },
            None => {
                entries.push(StateEntry { new_state: 0, flags: 0, first: 0, second: 0 });
                poisoned.push(true);
            },
        }
        i += 1;
    }
    (entries, poisoned)
}

/// Whether a line may be broken before the glyph of a cell, from the entries
/// read before.
fn cell_is_safe<A: Fn(&StateEntry) -> bool, B: Fn(&StateEntry) -> bool>(
    d: &[u8],
    p: Payload,
    ends: u64,
    n_classes: u32,
    entries: &Vec<StateEntry>,
    poisoned: &Vec<bool>,
    i: usize,
    is_actionable: &A,
    can_advance: &B,
) -> (r: bool)
    requires
        ext_decodable(d@),
        n_classes == long(d@, 0),
        is_test(*is_actionable),
        is_test(*can_advance),
        cells_read(entries@, poisoned@, d@, p, ext_cells(d@)),
        i < ext_cells(d@),
        !poisoned@[i as int],
    ensures
        r == ext_safe(d@, p, ends, *is_actionable, *can_advance, i as int),
{
    proof {
        lemma_cell(d@, i as int);
    }
    let e: StateEntry = entries[i];
    assert(cell_entry(d@, p, i as int) == Some(e));
    let n: u64 = n_classes as u64;
    let state: u64 = i as u64 / n;
    let first: usize = (i as u64 % n) as usize;
    let last: usize = i - first;
    if is_actionable(&e) {
        return false;
    }
    let goes_on: bool = can_advance(&e);
    let from_start: bool = state == START_OF_TEXT as u64 || (!goes_on && e.new_state == START_OF_TEXT) || {
        if poisoned[first] {
            false
        } else {
            let w: StateEntry = entries[first];
            assert(cell_entry(d@, p, first as int) == Some(w));
            !is_actionable(&w) && e.new_state == w.new_state && goes_on == can_advance(&w)
        }
    };
    if !from_start {
        return false;
    }
    if state < 64 {
        let b: u64 = (ends >> state) & 1;
        b == 1
    } else if poisoned[last] {
        false
    } else {
        let x: StateEntry = entries[last];
        assert(cell_entry(d@, p, last as int) == Some(x));
        !is_actionable(&x)
    }
}

/// A decoded machine gives exactly what the one it was decoded from gives: the
/// same clamp of the class, nothing exactly where that has nothing, and the
/// same entry otherwise.
pub proof fn decoding_keeps_every_entry<A: Fn(&StateEntry) -> bool, B: Fn(&StateEntry) -> bool>(
    m: DecodedExtMachine,
    d: Seq<u8>,
    p: Payload,
    ends: u64,
    act: A,
    advance: B,
    state: u16,
    class: u16,
)
    requires
        m.decodes(d, p, ends, act, advance),
    ensures
        m.wf(),
        m.look(state, class) is Some <==> ext_entry(d, p, state, class) is Some,
        m.look(state, class) matches Some((e, note)) ==> ext_entry(d, p, state, class) == Some(e) && (note
            == MACHINE_META_SAFE) == ext_safe(
            d,
            p,
            ends,
            act,
            advance,
            state * long(d, 0) + column(long(d, 0) as int, class),
        ),
{
    let n = long(d, 0) as int;
    let c = column(n, class);
    let at = state * n + c;
    assert(at / n == state && at % n == c && at >= 0) by (nonlinear_arith)
        requires
            at == state * n + c,
            0 <= c < n,
            state >= 0,
    ;
    assert(c % 0x1_0000 == c);
    assert(column(n, c as u16) == c);
    if at < ext_cells(d) {
        assert(cell_entry(d, p, at) == ext_entry(d, p, state, class));
        assert(m.meta@[at] == cell_meta(d, p, ends, act, advance, at));
        assert(2u8 & 2u8 == 2 && 1u8 & 2u8 == 0 && 0u8 & 2u8 == 0) by (bit_vector);
        if cell_entry(d, p, at) is Some {
            assert(Some(m.entries@[at]) == cell_entry(d, p, at));
        }
    }
}

/// A machine that is held answers as the font does, for every state and class
/// whose cell is in its state array; and it is held under the kind of its
/// entries and no other.
pub proof fn a_held_machine_answers_as_the_font(
    d: &[u8],
    p: Payload,
    r: Option<States>,
    m: MorxStates,
    state: u16,
    class: u16,
    held: Option<StateEntry>,
    read: Option<StateEntry>,
    rearrangement: Option<&States>,
    contextual: Option<&States>,
    ligature: Option<&States>,
    insertion: Option<&States>,
)
    requires
        call_ensures(States::new, (d, p), r),
        call_ensures(MorxStates::new, (Some(p), d), m),
        r is Some,
        ext_readable(d@),
        near(d@, state, class),
        state * r->0.n_classes + column(r->0.n_classes as int, class) < r->0.rows@.len(),
        call_ensures(States::entry, (&r->0, state, class), held),
        call_ensures(entry, (d, p, state, class), read),
        call_ensures(MorxStates::rearrangement, (&m,), rearrangement),
        call_ensures(MorxStates::contextual, (&m,), contextual),
        call_ensures(MorxStates::ligature, (&m,), ligature),
        call_ensures(MorxStates::insertion, (&m,), insertion),
    ensures
        held == read,
        rearrangement is Some <==> p == Payload::Rearrangement,
        contextual is Some <==> p == Payload::Contextual,
        ligature is Some <==> p == Payload::Ligature,
        insertion is Some <==> p == Payload::Insertion,
{
    holding_keeps_every_entry(r->0, d@, p, state, class);
}

/// A glyph that the machine gives no class is out of bounds, the deleted glyph
/// has its own class, and a glyph that has a class keeps it.
pub proof fn a_glyph_without_a_class_is_out_of_bounds(class: Option<u16>, r: u16)
    requires
        call_ensures(clamp_class, (class,), r),
    ensures
        class is Some ==> r == class->0,
        class is None ==> r == 1,
{
}

/// A line may be broken before a glyph exactly where nothing can tell: the entry
/// does not act; a line that started at the glyph would go on the same way, for
/// the machine is at the start or goes back there without advancing, or the entry
/// of the start acts neither and goes to the same state with the same advance; and
/// a line that ended before the glyph would not act.
pub proof fn a_machine_may_be_broken_where_nothing_can_tell<
    A: Fn(&StateEntry) -> bool,
    B: Fn(&StateEntry) -> bool,
>(
    d: &[u8],
    p: Payload,
    ends: u64,
    act: A,
    advance: B,
    m: DecodedExtMachine,
    state: u16,
    class: u16,
    got: Option<(StateEntry, u8)>,
    here: Option<StateEntry>,
    from_start: Option<StateEntry>,
    at_end: Option<StateEntry>,
)
    requires
        is_test(act),
        is_test(advance),
        call_ensures(DecodedExtMachine::build::<A, B>, (d, p, ends, act, advance), Some(m)),
        class < long(d@, 0),
        call_ensures(DecodedExtMachine::get, (&m, state, class), got),
        call_ensures(entry, (d, p, state, class), here),
        call_ensures(entry, (d, p, 0u16, class), from_start),
        call_ensures(entry, (d, p, state, 0u16), at_end),
    ensures
        got is Some <==> here is Some,
        got is Some ==> {
            let (e, note) = got->0;
            let quiet = if state < 64 {
                bit(ends, state as int)
            } else {
                at_end is Some && !says(act, at_end->0)
            };
            let same_from_start = from_start is Some && !says(act, from_start->0) && from_start->0.new_state
                == e.new_state && says(advance, from_start->0) == says(advance, e);
            &&& e == here->0
            &&& note == 1 <==> !says(act, e) && quiet && (state == 0 || (e.new_state == 0 && !says(advance, e))
                || same_from_start)
        },
{
    decoding_keeps_every_entry(m, d@, p, ends, act, advance, state, class);
    let n = long(d@, 0) as int;
    let at = state * n + class;
    assert(at / n == state && at % n == class) by (nonlinear_arith)
        requires
            at == state * n + class,
            0 <= class < n,
            state >= 0,
    ;
    let last = state * n + 0;
    assert(last / n == state && last % n == 0) by (nonlinear_arith)
        requires
            last == state * n + 0,
            n > 0,
            state >= 0,
    ;
    let c = class as int;
    assert(c / n == 0 && c % n == c) by (nonlinear_arith)
        requires
            0 <= c < n,
    ;
    assert(class as int % 0x1_0000 == class);
}

} // verus!
