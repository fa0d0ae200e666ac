//! Compiling lookups out of a layout table.
//!
//! The compiled form records offsets relative to the table, and shares coverage
//! and class tables through an interner. A subtable no reader can make sense of
//! is one no reader can apply, so compiling drops it and keeps the rest of the
//! lookup.

use std::sync::Arc;
use vstd::prelude::*;

use crate::bytes::{be16, fits, long, word, U16Array};
use crate::class_map::{
    by_glyph, class_candidates, class_compilable, class_in, lemma_nonzero, lemma_nonzero_class, nonzero,
    ClassMap,
};
use crate::glyphs::{ascending, lemma_ascending_span};
use crate::interner::{a_wrong_answer_takes_a_collision, collides, Interner, Table as Interned};
use crate::layout::{
    count_at, find_lookup, find_subtable, format_at, header_bytes, lemma_format_fits, lookup_at,
    lookup_error,
    offsets_at, props_at, props_of, read_count, read_format, read_offsets, read_records,
    records_at, subtable_offsets, subtable_site, Format, ReadError, Table,
};
use crate::lookup::{
    all_next, all_reach, buildable, indexable, pair_keyed, reach_list, runs_backward, sets_wf,
    AttachTo, CompiledLookup, SeqRecord, Subtable, SubtableKind,
};
use crate::order::{lemma_ordered_exists, ordered, put_in_order, same_members};
use crate::pick::{picked, DEFAULT_BUDGET, SLACK};
use crate::set::{compilable, coverage_size, one_run, set_size, Coverage, GlyphSet};
use crate::summary::{
    class_rows, or_open, pair_class_digests, pair_digests, pair_set_word, pair_stride,
    record_bytes, rule_index, rule_set_word, RuleIndex,
};
use crate::tables::{
    class_def_bytes, class_def_from, class_def_list, class_def_pairs, class_def_readable,
    coverage_bytes, coverage_from, coverage_glyphs, coverage_list, coverage_readable,
    lemma_class_def_extent, lemma_coverage_extent, lemma_settled, lowest_class, range_classes,
    range_glyphs, resolve, resolves, settle,
};

verus! {

/// How much precomputation to keep alongside the compiled lookups.
///
/// Dropping any of it changes how long shaping takes and nothing else.
#[derive(Copy, Clone, PartialEq, Eq, Debug, Structural)]
pub enum Detail {
    /// Everything.
    Full,
    /// Without the per-lookup accelerators: the glyph-to-subtable dispatch
    /// index is not built.
    Lean,
    /// Also without the rule-set summaries, so a context enters every rule set
    /// its coverage admits and probes the rules one at a time.
    Minimal,
}

impl Default for Detail {
    fn default() -> (r: Detail)
        ensures
            r == Detail::Full,
    {
        Detail::Full
    }
}

impl Detail {
    /// Whether to build the per-lookup accelerators.
    pub fn accelerators(self) -> (r: bool)
        ensures
            r == (self == Detail::Full),
    {
        match self {
            Detail::Full => true,
            _ => false,
        }
    }

    /// Whether to summarise rule sets.
    pub fn rule_summaries(self) -> (r: bool)
        ensures
            r == (self != Detail::Minimal),
    {
        match self {
            Detail::Minimal => false,
            _ => true,
        }
    }
}

/// Whether text is some characters.
fn is_text(s: &[char], t: &[char]) -> (r: bool)
    ensures
        r == (s@ == t@),
{
    if s.len() != t.len() {
        return false;
    }
    let mut i: usize = 0;
    while i < s.len()
        invariant
            i <= s@.len(),
            s@.len() == t@.len(),
            forall|k: int| 0 <= k < i ==> s@[k] == t@[k],
        decreases s@.len() - i,
    {
        if s[i] != t[i] {
            assert(s@[i as int] != t@[i as int]);
            return false;
        }
        i += 1;
    }
    assert(s@ =~= t@);
    true
}

/// The level that a value of `HARFRUST_COMPILE_DETAIL` names: `lean` or
/// `minimal`; anything else, or nothing, is `full`.
pub open spec fn level_named(value: Option<Seq<char>>) -> Detail {
    match value {
        Some(s) => if s == seq!['l', 'e', 'a', 'n'] {
            Detail::Lean
        } else if s == seq!['m', 'i', 'n', 'i', 'm', 'a', 'l'] {
            Detail::Minimal
        } else {
            Detail::Full
        },
        None => Detail::Full,
    }
}

/// Text that may not be there.
pub open spec fn text_of(value: Option<&[char]>) -> Option<Seq<char>> {
    match value {
        Some(s) => Some(s@),
        None => None,
    }
}

/// The level to compile at, from the value of `HARFRUST_COMPILE_DETAIL`.
pub fn detail_from_env(value: Option<&[char]>) -> (r: Detail)
    ensures
        r == level_named(text_of(value)),
{
    let lean: [char; 4] = ['l', 'e', 'a', 'n'];
    let minimal: [char; 7] = ['m', 'i', 'n', 'i', 'm', 'a', 'l'];
    assert(lean@ =~= seq!['l', 'e', 'a', 'n']);
    assert(minimal@ =~= seq!['m', 'i', 'n', 'i', 'm', 'a', 'l']);
    match value {
        Some(s) => {
            if is_text(s, &lean) {
                Detail::Lean
            } else if is_text(s, &minimal) {
                Detail::Minimal
            } else {
                Detail::Full
            }
        },
        None => Detail::Full,
    }
}

/// The level that a process compiles at: that of the first value read, whatever
/// is read later.
#[derive(Copy, Clone, PartialEq, Eq, Debug, Structural)]
pub struct DetailLevel {
    pub kept: Option<Detail>,
}

impl DetailLevel {
    /// The level after a value was read.
    pub open spec fn after(self, value: Option<Seq<char>>) -> Detail {
        match self.kept {
            Some(d) => d,
            None => level_named(value),
        }
    }

    pub fn new() -> (r: DetailLevel)
        ensures
            r.kept is None,
    {
        DetailLevel { kept: None }
    }

    /// The level to compile at, which is kept.
    pub fn get(&mut self, value: Option<&[char]>) -> (r: Detail)
        ensures
            r == old(self).after(text_of(value)),
            final(self).kept == Some(r),
    {
        let level: Detail = match self.kept {
            Some(d) => d,
            None => detail_from_env(value),
        };
        self.kept = Some(level);
        level
    }
}

/// A later reading gives the level of the first, whatever the variable holds then.
pub proof fn the_first_reading_decides(
    first: Option<Seq<char>>,
    later: Option<Seq<char>>,
    start: DetailLevel,
    next: DetailLevel,
)
    requires
        start.kept is None,
        next.kept == Some(start.after(first)),
    ensures
        next.after(later) == level_named(first),
{
}

/// Why a lookup could not be compiled: the table does not parse as far as the
/// lookup itself. A malformed subtable costs only itself.
#[derive(Copy, Clone, PartialEq, Eq, Debug, Structural)]
pub enum CompileError {
    Read(ReadError),
}

/// Glyph ids that fit sixteen bits, which is all a font table can name.
pub open spec fn ids16(s: Seq<u32>) -> bool {
    forall|i: int| 0 <= i < s.len() ==> #[trigger] s[i] <= 0xffff
}

/// What an interned set keeps: it lists the glyphs of the bytes it came from.
pub open spec fn set_sound(origin: Seq<u8>, s: GlyphSet) -> bool {
    &&& s.wf()
    &&& !s.ends_at_the_last_id()
    &&& ids16(s@)
    &&& s@ == ordered(coverage_glyphs(origin))
}

/// What an interned coverage keeps.
pub open spec fn coverage_sound(origin: Seq<u8>, c: Coverage) -> bool {
    &&& c.wf()
    &&& !c.ends_at_the_last_id()
    &&& ids16(c@)
    &&& c@ == ordered(coverage_glyphs(origin))
}

/// What an interned class map keeps.
pub open spec fn classes_sound(origin: Seq<u8>, m: ClassMap) -> bool {
    &&& m.wf()
    &&& forall|g: u32| #[trigger] m.class_of(g) == lowest_class(class_def_pairs(origin), g)
}

/// What an interner that only compiled tables went into keeps.
pub open spec fn pool_sound(p: Interner) -> bool {
    &&& p.wf()
    &&& p.hashed()
    &&& p.sets.origins().len() == p.sets.values().len()
    &&& p.coverages.origins().len() == p.coverages.values().len()
    &&& p.classes.origins().len() == p.classes.values().len()
    &&& forall|i: int|
        0 <= i < p.sets.values().len() ==> set_sound(p.sets.origins()[i], *#[trigger] p.sets.values()[i])
    &&& forall|i: int|
        0 <= i < p.coverages.values().len() ==> coverage_sound(
            p.coverages.origins()[i],
            *#[trigger] p.coverages.values()[i],
        )
    &&& forall|i: int|
        0 <= i < p.classes.values().len() ==> classes_sound(
            p.classes.origins()[i],
            *#[trigger] p.classes.values()[i],
        )
}

/// Whether a set has the size that a budget picks for its glyphs.
pub open spec fn set_fitted(s: GlyphSet, budget: usize) -> bool {
    s.bytes() == set_size(s@, budget)
}

/// Whether a coverage has the size that a budget picks for its glyphs.
pub open spec fn coverage_fitted(c: Coverage, budget: usize) -> bool {
    c.bytes() == coverage_size(c@, budget)
}

/// Whether pairs name every glyph that a map gives a class, and no other.
pub open spec fn names(m: ClassMap, nz: Seq<(u32, u16)>) -> bool {
    &&& by_glyph(nz)
    &&& forall|i: int| 0 <= i < nz.len() ==> (#[trigger] nz[i]).1 != 0
    &&& forall|g: u32| #[trigger] m.class_of(g) == class_in(nz, g)
}

/// Whether a class map has the form and the size that a budget picks for the
/// glyphs it names.
pub open spec fn classes_fitted(m: ClassMap, budget: usize) -> bool {
    exists|nz: Seq<(u32, u16)>|
        #![trigger names(m, nz)]
        {
            &&& names(m, nz)
            &&& m is Empty <==> nz.len() == 0
            &&& nz.len() > 0 ==> m.has_form(picked(class_candidates(nz), budget, SLACK))
            &&& m.is_tight(nz)
        }
}

/// What compiling does to an interner: it stays sound, and keeps what it has.
/// What is added has the size that the budget picks. What was not faithful does
/// not become so, and what was ceases to be only where different tables have
/// digests with the same check hash.
pub open spec fn steps(before: Interner, after: Interner, budget: usize) -> bool {
    &&& pool_sound(after)
    &&& after.extends(before)
    &&& after.faithful() ==> before.faithful()
    &&& before.faithful() && !after.faithful() ==> after.collided()
    &&& forall|i: int|
        before.sets.values().len() <= i < after.sets.values().len() ==> set_fitted(
            *#[trigger] after.sets.values()[i],
            budget,
        )
    &&& forall|i: int|
        before.coverages.values().len() <= i < after.coverages.values().len() ==> coverage_fitted(
            *#[trigger] after.coverages.values()[i],
            budget,
        )
    &&& forall|i: int|
        before.classes.values().len() <= i < after.classes.values().len() ==> classes_fitted(
            *#[trigger] after.classes.values()[i],
            budget,
        )
}

/// Where no two tables have digests with the same check hash, a faithful interner
/// stays so, and a lookup that is compiled into it is the font's.
pub proof fn without_collisions_a_lookup_is_the_fonts(
    c: Compiler,
    before: Interner,
    after: Interner,
    l: CompiledLookup,
    data: Seq<u8>,
    table: Table,
    lookup: int,
)
    requires
        before.faithful(),
        !before.collided(),
        steps(before, after, c.budget),
        c.compiled(l, data, table, lookup, after.faithful()),
    ensures
        after.faithful(),
        !after.collided(),
        lookup_made(l, data, table, lookup, c.summarises()),
{
}

/// The glyphs of the coverage at an offset, in order: none where there is no
/// such table.
pub open spec fn covered(data: Seq<u8>, base: int, offset: u16) -> Seq<u32> {
    match coverage_from(data, base, offset as int) {
        Some(s) => ordered(s),
        None => seq![],
    }
}

/// The class that the definition at an offset gives a glyph: zero where there
/// is no such table.
pub open spec fn class_named(data: Seq<u8>, base: int, offset: u16, g: u32) -> u16 {
    match class_def_from(data, base, offset as int) {
        Some(p) => lowest_class(p, g),
        None => 0,
    }
}

/// Whether a map gives every glyph the class that a definition does.
pub open spec fn maps(m: ClassMap, data: Seq<u8>, base: int, offset: u16) -> bool {
    forall|g: u32| #[trigger] m.class_of(g) == class_named(data, base, offset, g)
}

/// Whether every offset leads to a coverage.
pub open spec fn all_readable(data: Seq<u8>, base: int, offsets: Seq<u16>) -> bool {
    forall|i: int|
        0 <= i < offsets.len() ==> coverage_from(data, base, #[trigger] offsets[i] as int) is Some
}

/// Whether sets list the coverages at some offsets.
pub open spec fn lists(sets: Seq<Arc<GlyphSet>>, data: Seq<u8>, base: int, offsets: Seq<u16>) -> bool {
    &&& sets.len() == offsets.len()
    &&& forall|i: int|
        0 <= i < sets.len() ==> (#[trigger] sets[i])@ == covered(data, base, offsets[i])
}

/// A sixteen-bit number read as signed.
pub open spec fn signed(w: u16) -> i32 {
    if w < 0x8000 {
        w as i32
    } else {
        (w - 0x1_0000) as i32
    }
}

/// The second component of the ligature at `at`, if it has one.
pub open spec fn second_component(data: Seq<u8>, at: int) -> Option<u32> {
    let n = word(data, at + 2);
    if n >= 2 && fits(data, at + 4, 2 * (n - 1)) {
        Some(word(data, at + 4) as u32)
    } else {
        None
    }
}

/// The second components of the first `n` ligatures of a set. An offset that
/// leads nowhere is passed over.
pub open spec fn set_seconds(data: Seq<u8>, set: int, offsets: Seq<u16>, n: nat) -> Seq<u32>
    decreases n,
{
    if n == 0 {
        seq![]
    } else {
        let before = set_seconds(data, set, offsets, (n - 1) as nat);
        let off = offsets[n - 1] as int;
        if resolves(data, set, off) && fits(data, set + off, 4) {
            match second_component(data, set + off) {
                Some(g) => before.push(g),
                None => before,
            }
        } else {
            before
        }
    }
}

/// Whether one of the first `n` ligatures of a set has a single component, and
/// so matches whatever follows.
pub open spec fn set_open(data: Seq<u8>, set: int, offsets: Seq<u16>, n: nat) -> bool
    decreases n,
{
    if n == 0 {
        false
    } else {
        let off = offsets[n - 1] as int;
        ||| set_open(data, set, offsets, (n - 1) as nat)
        ||| resolves(data, set, off) && fits(data, set + off, 4) && second_component(data, set + off) is None
    }
}

/// The ligature offsets of a set.
pub open spec fn ligature_offsets(data: Seq<u8>, set: int) -> Seq<u16> {
    offsets_at(data, set + 2, word(data, set))
}

/// Whether set `i` of a ligature subtable can be read.
pub open spec fn set_readable(data: Seq<u8>, at: int, sets: Seq<u16>, i: int) -> bool {
    &&& i < sets.len()
    &&& resolves(data, at, sets[i] as int)
    &&& fits(data, at + sets[i], 2)
}

/// The second components of the first `n` ligature sets.
pub open spec fn ligature_seconds(data: Seq<u8>, at: int, n: nat) -> Seq<u32>
    decreases n,
{
    if n == 0 {
        seq![]
    } else {
        let before = ligature_seconds(data, at, (n - 1) as nat);
        let sets = offsets_at(data, at + 6, word(data, at + 4));
        if set_readable(data, at, sets, n - 1) {
            let set = at + sets[n - 1];
            before + set_seconds(data, set, ligature_offsets(data, set), ligature_offsets(data, set).len())
        } else {
            before
        }
    }
}

/// Whether some ligature of the first `n` sets matches whatever follows.
pub open spec fn ligature_open(data: Seq<u8>, at: int, n: nat) -> bool
    decreases n,
{
    if n == 0 {
        false
    } else {
        let sets = offsets_at(data, at + 6, word(data, at + 4));
        let set = at + sets[n - 1];
        ||| ligature_open(data, at, (n - 1) as nat)
        ||| set_readable(data, at, sets, n - 1) && set_open(
            data,
            set,
            ligature_offsets(data, set),
            ligature_offsets(data, set).len(),
        )
    }
}

/// The summaries of a context subtable's rule sets; none where they are not
/// kept.
pub open spec fn rule_slots(
    data: Seq<u8>,
    rule_sets: int,
    base: int,
    count: u16,
    chained: bool,
    summarise: bool,
) -> Seq<u64> {
    if summarise {
        Seq::new(count as nat, |i: int| or_open(rule_set_word(data, rule_sets, base, i, chained)))
    } else {
        seq![]
    }
}

/// The place of the input counts and lists of a chained context.
pub open spec fn chain_input(data: Seq<u8>, at: int) -> int {
    at + 4 + 2 * word(data, at + 2)
}

pub open spec fn chain_lookahead(data: Seq<u8>, at: int) -> int {
    chain_input(data, at) + 2 + 2 * count_at(data, chain_input(data, at))
}

pub open spec fn chain_records(data: Seq<u8>, at: int) -> int {
    chain_lookahead(data, at) + 2 + 2 * count_at(data, chain_lookahead(data, at))
}

/// The place of the lookahead list of a reverse chain.
pub open spec fn reverse_lookahead(data: Seq<u8>, at: int) -> int {
    at + 6 + 2 * word(data, at + 4)
}

pub open spec fn reverse_glyphs(data: Seq<u8>, at: int) -> int {
    reverse_lookahead(data, at) + 2 + 2 * count_at(data, reverse_lookahead(data, at))
}

/// The offsets at a place that holds a count and as many offsets.
pub open spec fn counted(data: Seq<u8>, at: int) -> Seq<u16> {
    offsets_at(data, at + 2, count_at(data, at))
}

/// Whether the subtable of this format at `at` compiles: the formats made of
/// coverages need every one of them.
pub open spec fn makes(data: Seq<u8>, f: Format, at: int) -> bool {
    match f {
        Format::Context3 => all_readable(data, at, offsets_at(data, at + 6, word(data, at + 2))),
        Format::Chain3 => {
            &&& all_readable(data, at, counted(data, at + 2))
            &&& all_readable(data, at, counted(data, chain_input(data, at)))
            &&& all_readable(data, at, counted(data, chain_lookahead(data, at)))
        },
        Format::Reverse => {
            &&& all_readable(data, at, counted(data, at + 4))
            &&& all_readable(data, at, counted(data, reverse_lookahead(data, at)))
        },
        _ => true,
    }
}

/// Whether a gate and the sets after it are the coverages at some offsets: an
/// empty list leaves a gate that admits nothing.
pub open spec fn gates(
    cov: Seq<u32>,
    input: Seq<Arc<GlyphSet>>,
    data: Seq<u8>,
    base: int,
    offsets: Seq<u16>,
) -> bool {
    if offsets.len() == 0 {
        cov.len() == 0 && input.len() == 0
    } else {
        &&& cov == covered(data, base, offsets[0])
        &&& lists(input, data, base, offsets.skip(1))
    }
}

/// What has to follow the start of a sequence context: the second input set,
/// or the first lookahead where the input is a single glyph.
pub open spec fn follows(
    next: Option<Arc<GlyphSet>>,
    input: Seq<Arc<GlyphSet>>,
    lookahead: Seq<Arc<GlyphSet>>,
) -> bool {
    if input.len() > 0 {
        next == Some(input[0])
    } else if lookahead.len() > 0 {
        next == Some(lookahead[0])
    } else {
        next is None
    }
}

/// Whether a compiled subtable is what the font has at `at` in this format.
pub open spec fn made(s: Subtable, data: Seq<u8>, f: Format, at: int, summarise: bool) -> bool {
    match f {
        Format::SingleDelta => {
            &&& s.cov@ == covered(data, at, word(data, at + 2))
            &&& !s.rank
            &&& s.next is None
            &&& s.kind == (SubtableKind::SingleDelta { delta: signed(word(data, at + 4)) })
        },
        Format::SingleList => {
            &&& s.cov@ == covered(data, at, word(data, at + 2))
            &&& s.rank
            &&& s.next is None
            &&& s.kind == (SubtableKind::SingleList {
                subst: U16Array { offset: (at + 6) as u32, len: word(data, at + 4) },
            })
        },
        Format::Multiple => {
            &&& s.cov@ == covered(data, at, word(data, at + 2))
            &&& s.rank
            &&& s.next is None
            &&& s.kind == (SubtableKind::Multiple { offset: at as u32 })
        },
        Format::Alternate => {
            &&& s.cov@ == covered(data, at, word(data, at + 2))
            &&& s.rank
            &&& s.next is None
            &&& s.kind == (SubtableKind::Alternate { offset: at as u32 })
        },
        Format::Ligature => {
            &&& s.cov@ == covered(data, at, word(data, at + 2))
            &&& s.rank
            &&& s.next is None <==> ligature_open(data, at, s.cov@.len())
            &&& s.next matches Some(n) ==> n@ == ordered(ligature_seconds(data, at, s.cov@.len()))
            &&& s.kind == (SubtableKind::Ligature { offset: at as u32 })
        },
        Format::Context1 => made_rules(s, data, at, false, summarise),
        Format::Chain1 => made_rules(s, data, at, true, summarise),
        Format::Context2 => {
            &&& s.cov@ == covered(data, at, word(data, at + 2))
            &&& !s.rank
            &&& s.next is None
            &&& s.kind matches SubtableKind::Rules {
                input_classes: Some(input),
                backtrack_classes: None,
                lookahead_classes: None,
                rule_sets,
                base,
                rule_set_count,
                index,
                chained,
            } && {
                &&& maps(*input, data, at, word(data, at + 4))
                &&& rule_sets == at + 8
                &&& base == at
                &&& rule_set_count == word(data, at + 6)
                &&& index.digests.slots@ == rule_slots(
                    data,
                    at + 8,
                    at,
                    word(data, at + 6),
                    false,
                    summarise,
                )
                &&& !chained
            }
        },
        Format::Chain2 => {
            &&& s.cov@ == covered(data, at, word(data, at + 2))
            &&& !s.rank
            &&& s.next is None
            &&& s.kind matches SubtableKind::Rules {
                input_classes: Some(input),
                backtrack_classes: Some(backtrack),
                lookahead_classes: Some(lookahead),
                rule_sets,
                base,
                rule_set_count,
                index,
                chained,
            } && {
                &&& maps(*backtrack, data, at, word(data, at + 4))
                &&& maps(*input, data, at, word(data, at + 6))
                &&& maps(*lookahead, data, at, word(data, at + 8))
                &&& rule_sets == at + 12
                &&& base == at
                &&& rule_set_count == word(data, at + 10)
                &&& index.digests.slots@ == rule_slots(
                    data,
                    at + 12,
                    at,
                    word(data, at + 10),
                    true,
                    summarise,
                )
                &&& chained
            }
        },
        Format::Context3 => {
            &&& !s.rank
            &&& s.kind matches SubtableKind::ChainCtx3 {
                offset,
                backtrack,
                input,
                lookahead,
                records,
                chained,
            } && {
                &&& offset == at
                &&& gates(s.cov@, input@, data, at, offsets_at(data, at + 6, word(data, at + 2)))
                &&& backtrack@.len() == 0
                &&& lookahead@.len() == 0
                &&& records@ == records_at(data, at + 6 + 2 * word(data, at + 2), word(data, at + 4))
                &&& !chained
                &&& follows(s.next, input@, lookahead@)
            }
        },
        Format::Chain3 => {
            &&& !s.rank
            &&& s.kind matches SubtableKind::ChainCtx3 {
                offset,
                backtrack,
                input,
                lookahead,
                records,
                chained,
            } && {
                &&& offset == at
                &&& lists(backtrack@, data, at, counted(data, at + 2))
                &&& gates(s.cov@, input@, data, at, counted(data, chain_input(data, at)))
                &&& lists(lookahead@, data, at, counted(data, chain_lookahead(data, at)))
                &&& records@ == records_at(
                    data,
                    chain_records(data, at) + 2,
                    count_at(data, chain_records(data, at)),
                )
                &&& chained
                &&& follows(s.next, input@, lookahead@)
            }
        },
        Format::Reverse => {
            &&& s.cov@ == covered(data, at, word(data, at + 2))
            &&& s.rank
            &&& s.next is None
            &&& s.kind matches SubtableKind::ReverseChain { backtrack, lookahead, subst } && {
                &&& lists(backtrack@, data, at, counted(data, at + 4))
                &&& lists(lookahead@, data, at, counted(data, reverse_lookahead(data, at)))
                &&& subst.offset == at + 10 + 2 * (backtrack@.len() + lookahead@.len())
                &&& subst.len == count_at(data, reverse_glyphs(data, at))
            }
        },
        Format::SinglePos1 => {
            &&& s.cov@ == covered(data, at, word(data, at + 2))
            &&& !s.rank
            &&& s.next is None
            &&& s.kind == (SubtableKind::SinglePos {
                value_format: word(data, at + 4) & 0x00ff,
                values: (at + 6) as u32,
                shared: true,
            })
        },
        Format::SinglePos2 => {
            &&& s.cov@ == covered(data, at, word(data, at + 2))
            &&& s.rank
            &&& s.next is None
            &&& s.kind == (SubtableKind::SinglePos {
                value_format: word(data, at + 4) & 0x00ff,
                values: (at + 8) as u32,
                shared: false,
            })
        },
        Format::Pair1 => {
            let f1 = word(data, at + 4) & 0x00ff;
            let f2 = word(data, at + 6) & 0x00ff;
            &&& s.cov@ == covered(data, at, word(data, at + 2))
            &&& s.rank
            &&& s.next is None
            &&& s.kind matches SubtableKind::PairPos1 { seconds, offset, first_format, second_format } && {
                &&& seconds.slots@ == Seq::new(
                    word(data, at + 8) as nat,
                    |i: int| or_open(pair_set_word(data, at, i, pair_stride(f1, f2))),
                )
                &&& offset == at
                &&& first_format == f1
                &&& second_format == f2
            }
        },
        Format::Pair2 => {
            let f1 = word(data, at + 4) & 0x00ff;
            let f2 = word(data, at + 6) & 0x00ff;
            let pair = record_bytes(f1) + record_bytes(f2);
            let n2 = word(data, at + 14);
            &&& s.cov@ == covered(data, at, word(data, at + 2))
            &&& !s.rank
            &&& s.next is None
            &&& s.kind matches SubtableKind::PairPos2 {
                rows,
                class1,
                class2,
                matrix,
                first_format,
                second_format,
                class2_count,
            } && {
                &&& rows.slots@ == class_rows(data, at + 16, word(data, at + 12), n2, pair as int)
                &&& maps(*class1, data, at, word(data, at + 8))
                &&& maps(*class2, data, at, word(data, at + 10))
                &&& matrix == at + 16
                &&& first_format == f1
                &&& second_format == f2
                &&& class2_count == n2
            }
        },
        Format::Cursive => {
            &&& s.cov@ == covered(data, at, word(data, at + 2))
            &&& s.rank
            &&& s.next is None
            &&& s.kind == (SubtableKind::Cursive {
                records: (at + 6) as u32,
                base: at as u32,
                count: word(data, at + 4),
            })
        },
        Format::MarkBase => made_mark(s, data, at, AttachTo::Base),
        Format::MarkLig => made_mark(s, data, at, AttachTo::Ligature),
        Format::MarkMark => made_mark(s, data, at, AttachTo::Mark),
    }
}

/// A context that lists its rules by glyph.
pub open spec fn made_rules(s: Subtable, data: Seq<u8>, at: int, chain: bool, summarise: bool) -> bool {
    &&& s.cov@ == covered(data, at, word(data, at + 2))
    &&& s.rank
    &&& s.next is None
    &&& s.kind matches SubtableKind::Rules {
        input_classes: None,
        backtrack_classes: None,
        lookahead_classes: None,
        rule_sets,
        base,
        rule_set_count,
        index,
        chained,
    } && {
        &&& rule_sets == at + 6
        &&& base == at
        &&& rule_set_count == word(data, at + 4)
        &&& index.digests.slots@ == rule_slots(data, at + 6, at, word(data, at + 4), chain, summarise)
        &&& chained == chain
    }
}

/// A mark attachment.
pub open spec fn made_mark(s: Subtable, data: Seq<u8>, at: int, to: AttachTo) -> bool {
    &&& s.cov@ == covered(data, at, word(data, at + 2))
    &&& !s.rank
    &&& s.next is None
    &&& s.kind == (SubtableKind::MarkTo { offset: at as u32, to })
}

/// What every compiled subtable keeps.
pub open spec fn usable(s: Subtable) -> bool {
    &&& s.wf()
    &&& ids16(s.cov@)
    &&& s.next matches Some(n) ==> ids16(n@)
    &&& s.kind is ReverseChain ==> s.next is None
}

/// The subtables among the first `n` offsets of a lookup that compile, by format
/// and place.
pub open spec fn sites(data: Seq<u8>, table: Table, lookup: int, n: nat) -> Seq<(Format, int)>
    decreases n,
{
    if n == 0 {
        seq![]
    } else {
        let before = sites(data, table, lookup, (n - 1) as nat);
        match subtable_site(
            data,
            table,
            word(data, lookup),
            lookup,
            subtable_offsets(data, lookup)[n - 1],
        ) {
            None => before,
            Some((ty, at)) => match format_at(data, table, ty, at) {
                None => before,
                Some(f) => if makes(data, f, at) {
                    before.push((f, at))
                } else {
                    before
                },
            },
        }
    }
}

/// A coverage names sixteen-bit ids only.
proof fn lemma_coverage_ids(d: Seq<u8>)
    ensures
        ids16(coverage_glyphs(d)),
{
    if word(d, 0) != 1 {
        lemma_range_ids(d, word(d, 2) as nat);
    }
}

proof fn lemma_range_ids(d: Seq<u8>, n: nat)
    ensures
        ids16(range_glyphs(d, n)),
    decreases n,
{
    if n > 0 {
        lemma_range_ids(d, (n - 1) as nat);
    }
}

/// A class definition names sixteen-bit ids only.
proof fn lemma_class_ids(d: Seq<u8>, i: int)
    requires
        0 <= i < class_def_pairs(d).len(),
    ensures
        class_def_pairs(d)[i].0 <= 0xffff,
{
    if word(d, 0) != 1 {
        lemma_class_range_ids(d, word(d, 2) as nat, i);
    }
}

proof fn lemma_class_range_ids(d: Seq<u8>, n: nat, i: int)
    requires
        0 <= i < range_classes(d, n).len(),
    ensures
        range_classes(d, n)[i].0 <= 0xffff,
    decreases n,
{
    if n > 0 && i < range_classes(d, (n - 1) as nat).len() {
        lemma_class_range_ids(d, (n - 1) as nat, i);
    }
}

/// A list of sixteen-bit ids in order can be compiled.
proof fn lemma_ids_compile(s: Seq<u32>)
    requires
        ascending(s),
        ids16(s),
    ensures
        compilable(s),
        s.len() <= 0x1_0000,
        one_run(s) ==> s.last() != u32::MAX,
{
    if s.len() > 0 {
        lemma_ascending_span(s, s.len() - 1);
    }
}

/// Putting sixteen-bit ids in order keeps them so.
proof fn lemma_ids_ordered(s: Seq<u32>, r: Seq<u32>)
    requires
        ids16(s),
        same_members(r, s),
    ensures
        ids16(r),
{
    assert forall|i: int| 0 <= i < r.len() implies #[trigger] r[i] <= 0xffff by {
        assert(r.contains(r[i]));
        let k = choose|k: int| 0 <= k < s.len() && s[k] == r[i];
        assert(s[k] <= 0xffff);
    }
}

/// The glyphs of a coverage, ascending whatever order the font has them in.
fn fill_glyphs(d: &[u8]) -> (glyphs: Vec<u32>)
    requires
        coverage_readable(d@),
    ensures
        glyphs@ == ordered(coverage_glyphs(d@)),
        ascending(glyphs@),
        ids16(glyphs@),
        compilable(glyphs@),
{
    let mut glyphs = coverage_list(d).unwrap();
    put_in_order(&mut glyphs);
    proof {
        lemma_coverage_ids(d@);
        lemma_ids_ordered(coverage_glyphs(d@), glyphs@);
        lemma_ids_compile(glyphs@);
    }
    glyphs
}

/// A class definition compiled.
fn build_classes(d: &[u8], budget: usize) -> (m: ClassMap)
    requires
        class_def_readable(d@),
    ensures
        classes_sound(d@, m),
        classes_fitted(m, budget),
{
    let pairs = class_def_list(d).unwrap();
    let entries = settle(&pairs);
    proof {
        let p = pairs@;
        lemma_nonzero(entries@);
        let nz = nonzero(entries@);
        assert forall|i: int| 0 <= i < entries@.len() implies (#[trigger] entries@[i]).0 <= 0xffff by {
            let k = choose|k: int| 0 <= k < p.len() && p[k] == (entries@[i].0, entries@[i].1);
            lemma_class_ids(d@, k);
        }
        lemma_pairs_span(entries@);
        if nz.len() > 0 {
            assert(entries@.contains(nz[0]));
            assert(entries@.contains(nz.last()));
            assert(nz[0].0 <= nz.last().0);
        }
        assert(class_compilable(entries@));
        assert forall|g: u32| class_in(entries@, g) == lowest_class(p, g) by {
            lemma_settled(entries@, p, g);
        }
    }
    let m = ClassMap::build_with_budget(&entries, budget);
    proof {
        let nz = nonzero(entries@);
        assert forall|g: u32| #[trigger] m.class_of(g) == class_in(nz, g) by {
            lemma_nonzero_class(entries@, g);
        }
        assert(names(m, nz));
    }
    m
}

/// Pairs in order of sixteen-bit glyphs are few.
proof fn lemma_pairs_span(entries: Seq<(u32, u16)>)
    requires
        by_glyph(entries),
        forall|i: int| 0 <= i < entries.len() ==> (#[trigger] entries[i]).0 <= 0xffff,
    ensures
        entries.len() <= 0x1_0000,
{
    let ids = Seq::new(entries.len(), |i: int| entries[i].0);
    assert(ascending(ids)) by {
        assert forall|i: int, j: int| 0 <= i < j < ids.len() implies ids[i] < ids[j] by {
            assert(entries[i].0 < entries[j].0);
        }
    }
    if ids.len() > 0 {
        lemma_ascending_span(ids, ids.len() - 1);
        assert(entries[entries.len() - 1].0 <= 0xffff);
    }
}

/// Compiles lookups.
#[derive(Copy, Clone, Debug)]
pub struct Compiler {
    /// How much a compiled set may spend before a cheaper representation is
    /// preferred.
    pub budget: usize,
    /// How much precomputation to keep.
    pub detail: Detail,
}

impl Default for Compiler {
    fn default() -> (r: Compiler)
        ensures
            r.budget == DEFAULT_BUDGET,
            r.detail == Detail::Full,
    {
        Compiler { budget: DEFAULT_BUDGET, detail: Detail::Full }
    }
}

impl Compiler {
    pub fn new() -> (r: Compiler)
        ensures
            r.budget == DEFAULT_BUDGET,
            r.detail == Detail::Full,
    {
        Compiler { budget: DEFAULT_BUDGET, detail: Detail::Full }
    }

    /// The same, at a chosen level of precomputation.
    pub fn with_detail(detail: Detail) -> (r: Compiler)
        ensures
            r.budget == DEFAULT_BUDGET,
            r.detail == detail,
    {
        Compiler { budget: DEFAULT_BUDGET, detail }
    }

    /// The same, with a different representation budget: a smaller one trades
    /// probe time for space, and a larger one the reverse.
    pub fn with_budget(budget: usize) -> (r: Compiler)
        ensures
            r.budget == budget,
            r.detail == Detail::Full,
    {
        Compiler { budget, detail: Detail::Full }
    }

    /// Whether rule sets are summarised.
    pub open spec fn summarises(&self) -> bool {
        self.detail != Detail::Minimal
    }

    /// Intern a coverage table as a membership-only set, keyed by its bytes.
    fn intern(&self, d: &[u8], pool: &mut Interner) -> (r: Arc<GlyphSet>)
        requires
            coverage_readable(d@),
            pool_sound(*old(pool)),
        ensures
            steps(*old(pool), *final(pool), self.budget),
            r.wf(),
            !r.ends_at_the_last_id(),
            ids16(r@),
            final(pool).faithful() ==> r@ == ordered(coverage_glyphs(d@)),
    {
        let bytes = coverage_bytes(d);
        let budget: usize = self.budget;
        proof {
            lemma_coverage_extent(d@);
        }
        let build = || -> (s: GlyphSet)
            ensures
                set_sound(bytes@, s),
                set_fitted(s, budget),
            {
                let glyphs = fill_glyphs(d);
                proof {
                    lemma_ids_compile(glyphs@);
                }
                GlyphSet::build_with_budget(&glyphs, budget)
            };
        let ghost before = *pool;
        let r = pool.set(bytes, build);
        proof {
            lemma_answered(
                before.sets,
                pool.sets,
                bytes@,
                r,
                |o: Seq<u8>, v: GlyphSet| set_sound(o, v),
                |v: GlyphSet| set_fitted(v, budget),
            );
        }
        r
    }

    /// Intern a coverage table for its index, keyed by its bytes.
    fn coverage(&self, d: &[u8], pool: &mut Interner) -> (r: Arc<Coverage>)
        requires
            coverage_readable(d@),
            pool_sound(*old(pool)),
        ensures
            steps(*old(pool), *final(pool), self.budget),
            r.wf(),
            !r.ends_at_the_last_id(),
            ids16(r@),
            final(pool).faithful() ==> r@ == ordered(coverage_glyphs(d@)),
    {
        let bytes = coverage_bytes(d);
        let budget: usize = self.budget;
        proof {
            lemma_coverage_extent(d@);
        }
        let build = || -> (c: Coverage)
            ensures
                coverage_sound(bytes@, c),
                coverage_fitted(c, budget),
            {
                let glyphs = fill_glyphs(d);
                proof {
                    lemma_ids_compile(glyphs@);
                }
                Coverage::build_with_budget(&glyphs, budget)
            };
        let ghost before = *pool;
        let r = pool.coverage(bytes, build);
        proof {
            lemma_answered(
                before.coverages,
                pool.coverages,
                bytes@,
                r,
                |o: Seq<u8>, v: Coverage| coverage_sound(o, v),
                |v: Coverage| coverage_fitted(v, budget),
            );
        }
        r
    }

    fn class_map(&self, d: &[u8], pool: &mut Interner) -> (r: Arc<ClassMap>)
        requires
            class_def_readable(d@),
            pool_sound(*old(pool)),
        ensures
            steps(*old(pool), *final(pool), self.budget),
            r.wf(),
            final(pool).faithful() ==> forall|g: u32| #[trigger]
                r.class_of(g) == lowest_class(class_def_pairs(d@), g),
    {
        let bytes = class_def_bytes(d);
        let budget: usize = self.budget;
        proof {
            lemma_class_def_extent(d@);
        }
        let build = || -> (m: ClassMap)
            ensures
                classes_sound(bytes@, m),
                classes_fitted(m, budget),
            { build_classes(d, budget) };
        let ghost before = *pool;
        let r = pool.class_map(bytes, build);
        proof {
            lemma_answered(
                before.classes,
                pool.classes,
                bytes@,
                r,
                |o: Seq<u8>, v: ClassMap| classes_sound(o, v),
                |v: ClassMap| classes_fitted(v, budget),
            );
        }
        r
    }

    /// The coverage at an offset; one that admits nothing where there is none.
    fn coverage_or_empty(&self, data: &[u8], base: usize, offset: u16, pool: &mut Interner) -> (r: Arc<
        Coverage,
    >)
        requires
            base <= data@.len(),
            pool_sound(*old(pool)),
        ensures
            steps(*old(pool), *final(pool), self.budget),
            r.wf(),
            !r.ends_at_the_last_id(),
            ids16(r@),
            final(pool).faithful() ==> r@ == covered(data@, base as int, offset),
    {
        if let Some(d) = resolve(data, base, offset as u32) {
            if is_coverage(d) {
                return self.coverage(d, pool);
            }
        }
        let r = Arc::new(Coverage::Empty);
        assert(r@ =~= Seq::<u32>::empty());
        r
    }

    /// The class definition at an offset; every glyph is class zero where there
    /// is none.
    fn class_or_empty(&self, data: &[u8], base: usize, offset: u16, pool: &mut Interner) -> (r: Arc<ClassMap>)
        requires
            base <= data@.len(),
            pool_sound(*old(pool)),
        ensures
            steps(*old(pool), *final(pool), self.budget),
            r.wf(),
            final(pool).faithful() ==> maps(*r, data@, base as int, offset),
    {
        if let Some(d) = resolve(data, base, offset as u32) {
            if is_class_def(d) {
                return self.class_map(d, pool);
            }
        }
        Arc::new(ClassMap::Empty)
    }
}

/// Whether a coverage table starts here.
fn is_coverage(d: &[u8]) -> (r: bool)
    ensures
        r == coverage_readable(d@),
{
    if d.len() < 4 {
        return false;
    }
    let format: u16 = be16(d, 0).unwrap();
    format == 1 || format == 2
}

/// Whether a class definition starts here.
fn is_class_def(d: &[u8]) -> (r: bool)
    ensures
        r == class_def_readable(d@),
{
    if d.len() < 4 {
        return false;
    }
    let format: u16 = be16(d, 0).unwrap();
    format == 2 || (format == 1 && d.len() >= 6)
}

/// Asking for a table keeps what every interned table keeps.
proof fn lemma_answered<T>(
    before: Interned<T>,
    after: Interned<T>,
    bytes: Seq<u8>,
    r: Arc<T>,
    sound: spec_fn(Seq<u8>, T) -> bool,
    fitted: spec_fn(T) -> bool,
)
    requires
        before.wf(),
        after.wf(),
        before.hashed(),
        Interned::answered(before, after, bytes, r),
        forall|i: int|
            0 <= i < before.values().len() ==> sound(before.origins()[i], *#[trigger] before.values()[i]),
        after.values().len() > before.values().len() ==> sound(bytes, *r) && fitted(*r),
    ensures
        after.hashed(),
        after.extends(before),
        after.origins().len() == after.values().len(),
        after.faithful() ==> before.faithful(),
        before.faithful() && !after.faithful() ==> collides(after.hasher_of()),
        forall|i: int|
            0 <= i < after.values().len() ==> sound(after.origins()[i], *#[trigger] after.values()[i]),
        forall|i: int|
            before.values().len() <= i < after.values().len() ==> fitted(*#[trigger] after.values()[i]),
        exists|origin: Seq<u8>| #[trigger] sound(origin, *r) && (after.faithful() ==> origin == bytes),
{
    let at = a_wrong_answer_takes_a_collision(before, after, bytes, r);
    assert forall|i: int| 0 <= i < after.values().len() implies sound(
        after.origins()[i],
        *#[trigger] after.values()[i],
    ) by {
        if i < before.values().len() {
            assert(after.values()[i] == before.values()[i]);
            assert(after.origins()[i] == before.origins()[i]);
        }
    }
    assert(sound(after.origins()[at], *after.values()[at]));
}

impl Compiler {
    /// Single substitution by a shared difference.
    fn single_delta(&self, data: &[u8], at: usize, pool: &mut Interner) -> (r: Subtable)
        requires
            data@.len() <= 0xFFFF_0000,
            fits(data@, at as int, header_bytes(Format::SingleDelta)),
            pool_sound(*old(pool)),
        ensures
            steps(*old(pool), *final(pool), self.budget),
            usable(r),
            final(pool).faithful() ==> made(r, data@, Format::SingleDelta, at as int, self.summarises()),
    {
        let offset: u16 = be16(data, at + 2).unwrap();
        let cov = self.coverage_or_empty(data, at, offset, pool);
        let delta: u16 = be16(data, at + 4).unwrap();
        let delta: i32 = if delta < 0x8000 {
            delta as i32
        } else {
            delta as i32 - 0x1_0000
        };
        Subtable::member(cov, SubtableKind::SingleDelta { delta })
    }

    /// Single substitution by a list, which stays in the font.
    fn single_list(&self, data: &[u8], at: usize, pool: &mut Interner) -> (r: Subtable)
        requires
            data@.len() <= 0xFFFF_0000,
            fits(data@, at as int, header_bytes(Format::SingleList)),
            pool_sound(*old(pool)),
        ensures
            steps(*old(pool), *final(pool), self.budget),
            usable(r),
            final(pool).faithful() ==> made(r, data@, Format::SingleList, at as int, self.summarises()),
    {
        let offset: u16 = be16(data, at + 2).unwrap();
        let cov = self.coverage_or_empty(data, at, offset, pool);
        let len: u16 = be16(data, at + 4).unwrap();
        Subtable::ranked(
            cov,
            SubtableKind::SingleList { subst: U16Array { offset: (at + 6) as u32, len } },
        )
    }

    /// Multiple substitution. The sequences stay in the font.
    fn multiple(&self, data: &[u8], at: usize, pool: &mut Interner) -> (r: Subtable)
        requires
            data@.len() <= 0xFFFF_0000,
            fits(data@, at as int, header_bytes(Format::Multiple)),
            pool_sound(*old(pool)),
        ensures
            steps(*old(pool), *final(pool), self.budget),
            usable(r),
            final(pool).faithful() ==> made(r, data@, Format::Multiple, at as int, self.summarises()),
    {
        let offset: u16 = be16(data, at + 2).unwrap();
        let cov = self.coverage_or_empty(data, at, offset, pool);
        Subtable::ranked(cov, SubtableKind::Multiple { offset: at as u32 })
    }

    /// Alternate substitution. The alternates stay in the font.
    fn alternate(&self, data: &[u8], at: usize, pool: &mut Interner) -> (r: Subtable)
        requires
            data@.len() <= 0xFFFF_0000,
            fits(data@, at as int, header_bytes(Format::Alternate)),
            pool_sound(*old(pool)),
        ensures
            steps(*old(pool), *final(pool), self.budget),
            usable(r),
            final(pool).faithful() ==> made(r, data@, Format::Alternate, at as int, self.summarises()),
    {
        let offset: u16 = be16(data, at + 2).unwrap();
        let cov = self.coverage_or_empty(data, at, offset, pool);
        Subtable::ranked(cov, SubtableKind::Alternate { offset: at as u32 })
    }

    /// Walk the ligature sets once to derive the pair key, then leave them in
    /// the font.
    fn ligature(&self, data: &[u8], at: usize, pool: &mut Interner) -> (r: Subtable)
        requires
            data@.len() <= 0xFFFF_0000,
            fits(data@, at as int, header_bytes(Format::Ligature)),
            pool_sound(*old(pool)),
        ensures
            steps(*old(pool), *final(pool), self.budget),
            usable(r),
            final(pool).faithful() ==> made(r, data@, Format::Ligature, at as int, self.summarises()),
    {
        let offset: u16 = be16(data, at + 2).unwrap();
        let cov = self.coverage_or_empty(data, at, offset, pool);
        let (seconds, keyable) = ligature_keys(data, at, cov.len());
        proof {
            lemma_ids_compile(seconds@);
        }
        let next = if keyable {
            Some(Arc::new(GlyphSet::build(&seconds)))
        } else {
            None
        };
        Subtable::ranked(cov, SubtableKind::Ligature { offset: at as u32 }).following(next)
    }

    /// A context over glyph ids.
    fn context1(&self, data: &[u8], at: usize, pool: &mut Interner) -> (r: Subtable)
        requires
            data@.len() <= 0xFFFF_0000,
            fits(data@, at as int, header_bytes(Format::Context1)),
            pool_sound(*old(pool)),
        ensures
            steps(*old(pool), *final(pool), self.budget),
            usable(r),
            final(pool).faithful() ==> made(r, data@, Format::Context1, at as int, self.summarises()),
    {
        let offset: u16 = be16(data, at + 2).unwrap();
        let cov = self.coverage_or_empty(data, at, offset, pool);
        let count: u16 = be16(data, at + 4).unwrap();
        // Rule-set offsets follow a six-byte header.
        let digests = rule_index(
            data,
            (at + 6) as u32,
            at as u32,
            count,
            false,
            self.detail.rule_summaries(),
        );
        assert(digests.slots@ =~= rule_slots(
            data@,
            at + 6,
            at as int,
            count,
            false,
            self.summarises(),
        ));
        Subtable::ranked(
            cov,
            SubtableKind::Rules {
                input_classes: None,
                backtrack_classes: None,
                lookahead_classes: None,
                rule_sets: (at + 6) as u32,
                base: at as u32,
                rule_set_count: count,
                index: Box::new(RuleIndex { digests }),
                chained: false,
            },
        )
    }

    /// A context over glyph ids, with backtrack and lookahead.
    fn chain1(&self, data: &[u8], at: usize, pool: &mut Interner) -> (r: Subtable)
        requires
            data@.len() <= 0xFFFF_0000,
            fits(data@, at as int, header_bytes(Format::Chain1)),
            pool_sound(*old(pool)),
        ensures
            steps(*old(pool), *final(pool), self.budget),
            usable(r),
            final(pool).faithful() ==> made(r, data@, Format::Chain1, at as int, self.summarises()),
    {
        let offset: u16 = be16(data, at + 2).unwrap();
        let cov = self.coverage_or_empty(data, at, offset, pool);
        let count: u16 = be16(data, at + 4).unwrap();
        // Rule-set offsets follow a six-byte header.
        let digests = rule_index(
            data,
            (at + 6) as u32,
            at as u32,
            count,
            true,
            self.detail.rule_summaries(),
        );
        assert(digests.slots@ =~= rule_slots(
            data@,
            at + 6,
            at as int,
            count,
            true,
            self.summarises(),
        ));
        Subtable::ranked(
            cov,
            SubtableKind::Rules {
                input_classes: None,
                backtrack_classes: None,
                lookahead_classes: None,
                rule_sets: (at + 6) as u32,
                base: at as u32,
                rule_set_count: count,
                index: Box::new(RuleIndex { digests }),
                chained: true,
            },
        )
    }

    /// A context over classes.
    fn context2(&self, data: &[u8], at: usize, pool: &mut Interner) -> (r: Subtable)
        requires
            data@.len() <= 0xFFFF_0000,
            fits(data@, at as int, header_bytes(Format::Context2)),
            pool_sound(*old(pool)),
        ensures
            steps(*old(pool), *final(pool), self.budget),
            usable(r),
            final(pool).faithful() ==> made(r, data@, Format::Context2, at as int, self.summarises()),
    {
        let offset: u16 = be16(data, at + 2).unwrap();
        let cov = self.coverage_or_empty(data, at, offset, pool);
        let class_off: u16 = be16(data, at + 4).unwrap();
        let input = self.class_or_empty(data, at, class_off, pool);
        let count: u16 = be16(data, at + 6).unwrap();
        // One extra offset for the class definition.
        let digests = rule_index(
            data,
            (at + 8) as u32,
            at as u32,
            count,
            false,
            self.detail.rule_summaries(),
        );
        assert(digests.slots@ =~= rule_slots(
            data@,
            at + 8,
            at as int,
            count,
            false,
            self.summarises(),
        ));
        Subtable::member(
            cov,
            SubtableKind::Rules {
                input_classes: Some(input),
                backtrack_classes: None,
                lookahead_classes: None,
                rule_sets: (at + 8) as u32,
                base: at as u32,
                rule_set_count: count,
                index: Box::new(RuleIndex { digests }),
                chained: false,
            },
        )
    }

    /// A context over classes, with backtrack and lookahead.
    fn chain2(&self, data: &[u8], at: usize, pool: &mut Interner) -> (r: Subtable)
        requires
            data@.len() <= 0xFFFF_0000,
            fits(data@, at as int, header_bytes(Format::Chain2)),
            pool_sound(*old(pool)),
        ensures
            steps(*old(pool), *final(pool), self.budget),
            usable(r),
            final(pool).faithful() ==> made(r, data@, Format::Chain2, at as int, self.summarises()),
    {
        let offset: u16 = be16(data, at + 2).unwrap();
        let cov = self.coverage_or_empty(data, at, offset, pool);
        let backtrack_off: u16 = be16(data, at + 4).unwrap();
        let input_off: u16 = be16(data, at + 6).unwrap();
        let lookahead_off: u16 = be16(data, at + 8).unwrap();
        let count: u16 = be16(data, at + 10).unwrap();
        let input = self.class_or_empty(data, at, input_off, pool);
        let backtrack = self.class_or_empty(data, at, backtrack_off, pool);
        let lookahead = self.class_or_empty(data, at, lookahead_off, pool);
        // Four offsets and two counts precede the rule sets.
        let digests = rule_index(
            data,
            (at + 12) as u32,
            at as u32,
            count,
            true,
            self.detail.rule_summaries(),
        );
        assert(digests.slots@ =~= rule_slots(
            data@,
            at + 12,
            at as int,
            count,
            true,
            self.summarises(),
        ));
        Subtable::member(
            cov,
            SubtableKind::Rules {
                input_classes: Some(input),
                backtrack_classes: Some(backtrack),
                lookahead_classes: Some(lookahead),
                rule_sets: (at + 12) as u32,
                base: at as u32,
                rule_set_count: count,
                index: Box::new(RuleIndex { digests }),
                chained: true,
            },
        )
    }

    /// Single positioning by one record shared among everything covered.
    fn single_pos1(&self, data: &[u8], at: usize, pool: &mut Interner) -> (r: Subtable)
        requires
            data@.len() <= 0xFFFF_0000,
            fits(data@, at as int, header_bytes(Format::SinglePos1)),
            pool_sound(*old(pool)),
        ensures
            steps(*old(pool), *final(pool), self.budget),
            usable(r),
            final(pool).faithful() ==> made(r, data@, Format::SinglePos1, at as int, self.summarises()),
    {
        let offset: u16 = be16(data, at + 2).unwrap();
        let cov = self.coverage_or_empty(data, at, offset, pool);
        let format: u16 = be16(data, at + 4).unwrap();
        Subtable::member(
            cov,
            SubtableKind::SinglePos {
                value_format: format & 0x00ff,
                values: (at + 6) as u32,
                shared: true,
            },
        )
    }

    /// Single positioning by a record per covered glyph.
    fn single_pos2(&self, data: &[u8], at: usize, pool: &mut Interner) -> (r: Subtable)
        requires
            data@.len() <= 0xFFFF_0000,
            fits(data@, at as int, header_bytes(Format::SinglePos2)),
            pool_sound(*old(pool)),
        ensures
            steps(*old(pool), *final(pool), self.budget),
            usable(r),
            final(pool).faithful() ==> made(r, data@, Format::SinglePos2, at as int, self.summarises()),
    {
        let offset: u16 = be16(data, at + 2).unwrap();
        let cov = self.coverage_or_empty(data, at, offset, pool);
        let format: u16 = be16(data, at + 4).unwrap();
        Subtable::ranked(
            cov,
            SubtableKind::SinglePos {
                value_format: format & 0x00ff,
                values: (at + 8) as u32,
                shared: false,
            },
        )
    }

    /// Pair positioning that lists its pairs.
    fn pair1(&self, data: &[u8], at: usize, pool: &mut Interner) -> (r: Subtable)
        requires
            data@.len() <= 0xFFFF_0000,
            fits(data@, at as int, header_bytes(Format::Pair1)),
            pool_sound(*old(pool)),
        ensures
            steps(*old(pool), *final(pool), self.budget),
            usable(r),
            final(pool).faithful() ==> made(r, data@, Format::Pair1, at as int, self.summarises()),
    {
        let offset: u16 = be16(data, at + 2).unwrap();
        let cov = self.coverage_or_empty(data, at, offset, pool);
        let first_format: u16 = be16(data, at + 4).unwrap() & 0x00ff;
        let second_format: u16 = be16(data, at + 6).unwrap() & 0x00ff;
        let count: u16 = be16(data, at + 8).unwrap();
        Subtable::ranked(
            cov,
            SubtableKind::PairPos1 {
                seconds: pair_digests(data, at, count, first_format, second_format),
                offset: at as u32,
                first_format,
                second_format,
            },
        )
    }

    /// Pair positioning by a class matrix.
    fn pair2(&self, data: &[u8], at: usize, pool: &mut Interner) -> (r: Subtable)
        requires
            data@.len() <= 0xFFFF_0000,
            fits(data@, at as int, header_bytes(Format::Pair2)),
            pool_sound(*old(pool)),
        ensures
            steps(*old(pool), *final(pool), self.budget),
            usable(r),
            final(pool).faithful() ==> made(r, data@, Format::Pair2, at as int, self.summarises()),
    {
        let offset: u16 = be16(data, at + 2).unwrap();
        let cov = self.coverage_or_empty(data, at, offset, pool);
        let first_format: u16 = be16(data, at + 4).unwrap() & 0x00ff;
        let second_format: u16 = be16(data, at + 6).unwrap() & 0x00ff;
        let off1: u16 = be16(data, at + 8).unwrap();
        let off2: u16 = be16(data, at + 10).unwrap();
        let class1_count: u16 = be16(data, at + 12).unwrap();
        let class2_count: u16 = be16(data, at + 14).unwrap();
        let class1 = self.class_or_empty(data, at, off1, pool);
        let class2 = self.class_or_empty(data, at, off2, pool);
        // Class-1 records follow a sixteen-byte header.
        let rows = pair_class_digests(
            data,
            at + 16,
            class1_count,
            class2_count,
            first_format,
            second_format,
        );
        Subtable::member(
            cov,
            SubtableKind::PairPos2 {
                rows,
                class1,
                class2,
                matrix: (at + 16) as u32,
                first_format,
                second_format,
                class2_count,
            },
        )
    }

    /// Cursive attachment. The entry and exit anchors stay in the font.
    fn cursive(&self, data: &[u8], at: usize, pool: &mut Interner) -> (r: Subtable)
        requires
            data@.len() <= 0xFFFF_0000,
            fits(data@, at as int, header_bytes(Format::Cursive)),
            pool_sound(*old(pool)),
        ensures
            steps(*old(pool), *final(pool), self.budget),
            usable(r),
            final(pool).faithful() ==> made(r, data@, Format::Cursive, at as int, self.summarises()),
    {
        let offset: u16 = be16(data, at + 2).unwrap();
        let cov = self.coverage_or_empty(data, at, offset, pool);
        let count: u16 = be16(data, at + 4).unwrap();
        Subtable::ranked(
            cov,
            // Records follow a six-byte header.
            SubtableKind::Cursive { records: (at + 6) as u32, base: at as u32, count },
        )
    }

    /// Mark attachment. Every anchor stays in the font, because a run reads a few
    /// of the hundreds a font carries.
    fn mark_to(&self, data: &[u8], at: usize, to: AttachTo, pool: &mut Interner) -> (r: Subtable)
        requires
            data@.len() <= 0xFFFF_0000,
            fits(data@, at as int, 12),
            pool_sound(*old(pool)),
        ensures
            steps(*old(pool), *final(pool), self.budget),
            usable(r),
            final(pool).faithful() ==> made_mark(r, data@, at as int, to),
    {
        let offset: u16 = be16(data, at + 2).unwrap();
        let cov = self.coverage_or_empty(data, at, offset, pool);
        Subtable::member(cov, SubtableKind::MarkTo { offset: at as u32, to })
    }

    /// Compile a run of coverage tables to membership-only sets.
    fn sets(&self, data: &[u8], base: usize, offsets: &[u16], pool: &mut Interner) -> (r: Option<
        Vec<Arc<GlyphSet>>,
    >)
        requires
            base <= data@.len(),
            pool_sound(*old(pool)),
        ensures
            steps(*old(pool), *final(pool), self.budget),
            r is Some <==> all_readable(data@, base as int, offsets@),
            r matches Some(sets) ==> {
                &&& sets@.len() == offsets@.len()
                &&& forall|i: int|
                    0 <= i < sets@.len() ==> (#[trigger] sets@[i]).wf() && !sets@[i].ends_at_the_last_id()
                        && ids16(sets@[i]@)
                &&& final(pool).faithful() ==> lists(sets@, data@, base as int, offsets@)
            },
    {
        let mut out: Vec<Arc<GlyphSet>> = Vec::new();
        let mut i: usize = 0;
        while i < offsets.len()
            invariant
                i <= offsets@.len(),
                base <= data@.len(),
                steps(*old(pool), *pool, self.budget),
                out@.len() == i,
                forall|k: int|
                    0 <= k < i ==> coverage_from(data@, base as int, #[trigger] offsets@[k] as int) is Some,
                forall|k: int|
                    0 <= k < out@.len() ==> (#[trigger] out@[k]).wf() && !out@[k].ends_at_the_last_id()
                        && ids16(out@[k]@),
                pool.faithful() ==> forall|k: int|
                    0 <= k < out@.len() ==> (#[trigger] out@[k])@ == covered(
                        data@,
                        base as int,
                        offsets@[k],
                    ),
            decreases offsets@.len() - i,
        {
            match resolve(data, base, offsets[i] as u32) {
                None => {
                    assert(coverage_from(data@, base as int, offsets@[i as int] as int) is None);
                    return None;
                },
                Some(d) => {
                    if !is_coverage(d) {
                        assert(coverage_from(data@, base as int, offsets@[i as int] as int) is None);
                        return None;
                    }
                    let set = self.intern(d, pool);
                    out.push(set);
                },
            }
            i += 1;
        }
        Some(out)
    }

    /// Split a run of input coverages into a gate and the rest.
    ///
    /// The first is what makes a position a candidate, so it goes in the outer
    /// subtable alongside every other format's gate. The rest are only ever
    /// tested. No coverages at all means nothing can start here.
    fn input_sets(&self, data: &[u8], base: usize, offsets: &[u16], pool: &mut Interner) -> (r: Option<
        (Arc<Coverage>, Vec<Arc<GlyphSet>>),
    >)
        requires
            base <= data@.len(),
            pool_sound(*old(pool)),
        ensures
            steps(*old(pool), *final(pool), self.budget),
            r is Some <==> all_readable(data@, base as int, offsets@),
            r matches Some((cov, input)) ==> {
                &&& cov.wf()
                &&& !cov.ends_at_the_last_id()
                &&& ids16(cov@)
                &&& forall|i: int|
                    0 <= i < input@.len() ==> (#[trigger] input@[i]).wf()
                        && !input@[i].ends_at_the_last_id() && ids16(input@[i]@)
                &&& final(pool).faithful() ==> gates(cov@, input@, data@, base as int, offsets@)
            },
    {
        if offsets.len() == 0 {
            return Some((Arc::new(Coverage::Empty), Vec::new()));
        }
        let first = match resolve(data, base, offsets[0] as u32) {
            None => {
                assert(coverage_from(data@, base as int, offsets@[0] as int) is None);
                return None;
            },
            Some(d) => d,
        };
        if !is_coverage(first) {
            assert(coverage_from(data@, base as int, offsets@[0] as int) is None);
            return None;
        }
        let cov = self.coverage(first, pool);
        let rest = vstd::slice::slice_subrange(offsets, 1, offsets.len());
        assert(rest@ =~= offsets@.skip(1));
        proof {
            if all_readable(data@, base as int, rest@) {
                assert forall|i: int| 0 <= i < offsets@.len() implies coverage_from(
                    data@,
                    base as int,
                    #[trigger] offsets@[i] as int,
                ) is Some by {
                    if i > 0 {
                        assert(coverage_from(data@, base as int, rest@[i - 1] as int) is Some);
                    }
                }
            }
            if all_readable(data@, base as int, offsets@) {
                assert forall|i: int| 0 <= i < rest@.len() implies coverage_from(
                    data@,
                    base as int,
                    #[trigger] rest@[i] as int,
                ) is Some by {
                    assert(coverage_from(data@, base as int, offsets@[i + 1] as int) is Some);
                }
            }
        }
        match self.sets(data, base, rest, pool) {
            Some(input) => Some((cov, input)),
            None => None,
        }
    }

    /// A context made of coverages, which it tests and never indexes.
    fn context3(&self, data: &[u8], at: usize, pool: &mut Interner) -> (r: Option<Subtable>)
        requires
            data@.len() <= 0xFFFF_0000,
            fits(data@, at as int, 6),
            pool_sound(*old(pool)),
        ensures
            steps(*old(pool), *final(pool), self.budget),
            r is Some <==> makes(data@, Format::Context3, at as int),
            r matches Some(s) ==> usable(s) && (final(pool).faithful() ==> made(
                s,
                data@,
                Format::Context3,
                at as int,
                self.summarises(),
            )),
    {
        let count: u16 = be16(data, at + 2).unwrap();
        let record_count: u16 = be16(data, at + 4).unwrap();
        let offsets = read_offsets(data, at + 6, count);
        let (cov, input) = match self.input_sets(data, at, &offsets, pool) {
            Some(r) => r,
            None => return None,
        };
        let records = read_far_records(data, at as u64 + 6 + 2 * count as u64, record_count);
        let next = first_of(&input);
        let backtrack: Vec<Arc<GlyphSet>> = Vec::new();
        let lookahead: Vec<Arc<GlyphSet>> = Vec::new();
        assert(sets_wf(input@) && sets_wf(backtrack@) && sets_wf(lookahead@));
        Some(
            Subtable::member(
                cov,
                SubtableKind::ChainCtx3 {
                    offset: at as u32,
                    backtrack,
                    input,
                    lookahead,
                    records,
                    chained: false,
                },
            ).following(next),
        )
    }

    /// The same, with backtrack and lookahead.
    fn chain_context3(&self, data: &[u8], at: usize, pool: &mut Interner) -> (r: Option<Subtable>)
        requires
            data@.len() <= 0xFFFF_0000,
            fits(data@, at as int, 10),
            pool_sound(*old(pool)),
        ensures
            steps(*old(pool), *final(pool), self.budget),
            r is Some <==> makes(data@, Format::Chain3, at as int),
            r matches Some(s) ==> usable(s) && (final(pool).faithful() ==> made(
                s,
                data@,
                Format::Chain3,
                at as int,
                self.summarises(),
            )),
    {
        let backtrack_count: u16 = read_count(data, at + 2);
        let backtrack_offsets = read_offsets(data, at + 4, backtrack_count);
        let input_at: u64 = at as u64 + 4 + 2 * backtrack_count as u64;
        let input_count: u16 = read_far_count(data, input_at);
        let input_offsets = read_far_offsets(data, input_at + 2, input_count);
        let lookahead_at: u64 = input_at + 2 + 2 * input_count as u64;
        let lookahead_count: u16 = read_far_count(data, lookahead_at);
        let lookahead_offsets = read_far_offsets(data, lookahead_at + 2, lookahead_count);
        let records_at: u64 = lookahead_at + 2 + 2 * lookahead_count as u64;
        let record_count: u16 = read_far_count(data, records_at);
        let records = read_far_records(data, records_at + 2, record_count);
        let backtrack = match self.sets(data, at, &backtrack_offsets, pool) {
            Some(r) => r,
            None => return None,
        };
        let (cov, input) = match self.input_sets(data, at, &input_offsets, pool) {
            Some(r) => r,
            None => return None,
        };
        let lookahead = match self.sets(data, at, &lookahead_offsets, pool) {
            Some(r) => r,
            None => return None,
        };
        // What has to follow the start: the second input coverage, or the
        // first lookahead when the input is a single glyph.
        let next = if input.len() > 0 {
            first_of(&input)
        } else {
            first_of(&lookahead)
        };
        assert(sets_wf(input@) && sets_wf(backtrack@) && sets_wf(lookahead@));
        Some(
            Subtable::member(
                cov,
                SubtableKind::ChainCtx3 {
                    offset: at as u32,
                    backtrack,
                    input,
                    lookahead,
                    records,
                    chained: true,
                },
            ).following(next),
        )
    }

    /// Reverse chaining contextual single substitution.
    ///
    /// This gate is ranked -- the substitute array is indexed by coverage index
    /// -- and the substitutes stay in the font. Two counted coverage-offset
    /// arrays sit between the header and the glyph list, so the array cannot
    /// live at a constant. Nothing is recorded of what follows: by the time a
    /// position is reached, what follows it has been rewritten.
    fn reverse_chain(&self, data: &[u8], at: usize, pool: &mut Interner) -> (r: Option<Subtable>)
        requires
            data@.len() <= 0xFFFF_0000,
            fits(data@, at as int, 10),
            pool_sound(*old(pool)),
        ensures
            steps(*old(pool), *final(pool), self.budget),
            r is Some <==> makes(data@, Format::Reverse, at as int),
            r matches Some(s) ==> usable(s) && (final(pool).faithful() ==> made(
                s,
                data@,
                Format::Reverse,
                at as int,
                self.summarises(),
            )),
    {
        let backtrack_count: u16 = read_count(data, at + 4);
        let backtrack_offsets = read_offsets(data, at + 6, backtrack_count);
        let lookahead_at: u64 = at as u64 + 6 + 2 * backtrack_count as u64;
        let lookahead_count: u16 = read_far_count(data, lookahead_at);
        let lookahead_offsets = read_far_offsets(data, lookahead_at + 2, lookahead_count);
        let len: u16 = read_far_count(data, lookahead_at + 2 + 2 * lookahead_count as u64);
        let backtrack = match self.sets(data, at, &backtrack_offsets, pool) {
            Some(r) => r,
            None => return None,
        };
        let lookahead = match self.sets(data, at, &lookahead_offsets, pool) {
            Some(r) => r,
            None => return None,
        };
        let offset: u16 = be16(data, at + 2).unwrap();
        let cov = self.coverage_or_empty(data, at, offset, pool);
        assert(sets_wf(backtrack@) && sets_wf(lookahead@));
        let subst = U16Array {
            offset: (at + 10 + 2 * (backtrack.len() + lookahead.len())) as u32,
            len,
        };
        Some(
            Subtable::ranked(cov, SubtableKind::ReverseChain { backtrack, lookahead, subst }),
        )
    }

    /// Compile the subtable of a known format.
    fn subtable(&self, data: &[u8], format: Format, at: usize, pool: &mut Interner) -> (r: Option<Subtable>)
        requires
            data@.len() <= 0xFFFF_0000,
            fits(data@, at as int, header_bytes(format)),
            pool_sound(*old(pool)),
        ensures
            steps(*old(pool), *final(pool), self.budget),
            r is Some <==> makes(data@, format, at as int),
            r matches Some(s) ==> usable(s) && (final(pool).faithful() ==> made(
                s,
                data@,
                format,
                at as int,
                self.summarises(),
            )),
    {
        match format {
            Format::SingleDelta => Some(self.single_delta(data, at, pool)),
            Format::SingleList => Some(self.single_list(data, at, pool)),
            Format::Multiple => Some(self.multiple(data, at, pool)),
            Format::Alternate => Some(self.alternate(data, at, pool)),
            Format::Ligature => Some(self.ligature(data, at, pool)),
            Format::Context1 => Some(self.context1(data, at, pool)),
            Format::Context2 => Some(self.context2(data, at, pool)),
            Format::Context3 => self.context3(data, at, pool),
            Format::Chain1 => Some(self.chain1(data, at, pool)),
            Format::Chain2 => Some(self.chain2(data, at, pool)),
            Format::Chain3 => self.chain_context3(data, at, pool),
            Format::Reverse => self.reverse_chain(data, at, pool),
            Format::SinglePos1 => Some(self.single_pos1(data, at, pool)),
            Format::SinglePos2 => Some(self.single_pos2(data, at, pool)),
            Format::Pair1 => Some(self.pair1(data, at, pool)),
            Format::Pair2 => Some(self.pair2(data, at, pool)),
            Format::Cursive => Some(self.cursive(data, at, pool)),
            Format::MarkBase => Some(self.mark_to(data, at, AttachTo::Base, pool)),
            Format::MarkLig => Some(self.mark_to(data, at, AttachTo::Ligature, pool)),
            Format::MarkMark => Some(self.mark_to(data, at, AttachTo::Mark, pool)),
        }
    }
}

/// The first of some sets.
fn first_of(sets: &[Arc<GlyphSet>]) -> (r: Option<Arc<GlyphSet>>)
    ensures
        sets@.len() == 0 ==> r is None,
        sets@.len() > 0 ==> r == Some(sets@[0]),
{
    if sets.len() == 0 {
        None
    } else {
        Some(Arc::clone(&sets[0]))
    }
}

/// A count that may lie past any address.
pub fn read_far_count(data: &[u8], at: u64) -> (r: u16)
    ensures
        r == count_at(data@, at as int),
{
    if at >= data.len() as u64 {
        0
    } else {
        read_count(data, at as usize)
    }
}

/// Offsets that may lie past any address.
pub fn read_far_offsets(data: &[u8], at: u64, n: u16) -> (r: Vec<u16>)
    ensures
        r@ == offsets_at(data@, at as int, n),
{
    if at > data.len() as u64 {
        let r: Vec<u16> = Vec::new();
        assert(r@ =~= offsets_at(data@, at as int, n));
        r
    } else {
        read_offsets(data, at as usize, n)
    }
}

/// Records that may lie past any address.
fn read_far_records(data: &[u8], at: u64, n: u16) -> (r: Vec<SeqRecord>)
    ensures
        r@ == records_at(data@, at as int, n),
{
    if at > data.len() as u64 {
        let r: Vec<SeqRecord> = Vec::new();
        assert(r@ =~= records_at(data@, at as int, n));
        r
    } else {
        read_records(data, at as usize, n)
    }
}

/// The second components of a ligature subtable's sets, in order, and whether
/// every ligature has one.
///
/// A ligature declaring one component substitutes the covered glyph on its own,
/// whatever follows. One of those anywhere and there is nothing to key on.
fn ligature_keys(data: &[u8], at: usize, n: usize) -> (r: (Vec<u32>, bool))
    requires
        data@.len() <= 0xFFFF_0000,
        fits(data@, at as int, 6),
    ensures
        r.0@ == ordered(ligature_seconds(data@, at as int, n as nat)),
        ascending(r.0@),
        ids16(r.0@),
        r.1 == !ligature_open(data@, at as int, n as nat),
{
    let count: u16 = be16(data, at + 4).unwrap();
    let sets = read_offsets(data, at + 6, count);
    let mut seconds: Vec<u32> = Vec::new();
    let mut keyable: bool = true;
    let mut i: usize = 0;
    while i < n
        invariant
            i <= n,
            data@.len() <= 0xFFFF_0000,
            fits(data@, at as int, 6),
            sets@ == offsets_at(data@, at + 6, word(data@, at + 4)),
            seconds@ == ligature_seconds(data@, at as int, i as nat),
            ids16(seconds@),
            keyable == !ligature_open(data@, at as int, i as nat),
        decreases n - i,
    {
        // A coverage entry with no ligature set is malformed; treat it as
        // empty so one bad entry cannot poison the rest of the font.
        if i < sets.len() {
            let off: usize = sets[i] as usize;
            if off != 0 && off <= data.len() - at && data.len() - at - off >= 2 {
                let set: usize = at + off;
                let lig_count: u16 = be16(data, set).unwrap();
                let ligatures = read_offsets(data, set + 2, lig_count);
                if !set_keys(data, set, &ligatures, &mut seconds) {
                    keyable = false;
                }
            }
        }
        i += 1;
    }
    let ghost all = seconds@;
    put_in_order(&mut seconds);
    proof {
        lemma_ids_ordered(all, seconds@);
    }
    (seconds, keyable)
}

/// Adds the second components of one set, and says whether every ligature in it
/// has one.
fn set_keys(data: &[u8], set: usize, ligatures: &[u16], seconds: &mut Vec<u32>) -> (keyable: bool)
    requires
        data@.len() <= 0xFFFF_0000,
        fits(data@, set as int, 2),
        ids16(old(seconds)@),
    ensures
        final(seconds)@ == old(seconds)@ + set_seconds(data@, set as int, ligatures@, ligatures@.len()),
        ids16(final(seconds)@),
        keyable == !set_open(data@, set as int, ligatures@, ligatures@.len()),
{
    let mut keyable: bool = true;
    let mut j: usize = 0;
    assert(seconds@ =~= old(seconds)@ + set_seconds(data@, set as int, ligatures@, 0));
    while j < ligatures.len()
        invariant
            j <= ligatures@.len(),
            data@.len() <= 0xFFFF_0000,
            fits(data@, set as int, 2),
            seconds@ == old(seconds)@ + set_seconds(data@, set as int, ligatures@, j as nat),
            ids16(seconds@),
            keyable == !set_open(data@, set as int, ligatures@, j as nat),
        decreases ligatures@.len() - j,
    {
        let off: usize = ligatures[j] as usize;
        let ghost before = seconds@;
        if off != 0 && off <= data.len() - set && data.len() - set - off >= 4 {
            let lig: usize = set + off;
            let n: u16 = be16(data, lig + 2).unwrap();
            // Component 2 is what the pair key filters on.
            if n >= 2 && data.len() - lig - 4 >= 2 * (n as usize - 1) {
                let second: u16 = be16(data, lig + 4).unwrap();
                seconds.push(second as u32);
            } else {
                keyable = false;
            }
        }
        assert(seconds@ =~= old(seconds)@ + set_seconds(data@, set as int, ligatures@, (j + 1) as nat));
        j += 1;
    }
    keyable
}

/// What usable subtables cover, and what may follow them, can be compiled.
proof fn lemma_buildable(subs: Seq<Subtable>)
    requires
        forall|i: int| 0 <= i < subs.len() ==> usable(#[trigger] subs[i]),
    ensures
        buildable(subs),
{
    lemma_all_ids(subs);
    lemma_ordered_exists(all_reach(subs));
    lemma_ids_ordered(all_reach(subs), reach_list(subs));
    lemma_ids_compile(reach_list(subs));
    lemma_ordered_exists(all_next(subs));
    lemma_ids_ordered(all_next(subs), ordered(all_next(subs)));
    lemma_ids_compile(ordered(all_next(subs)));
    if pair_keyed(subs) && runs_backward(subs) {
        let i = choose|i: int| 0 <= i < subs.len() && (#[trigger] subs[i]).kind is ReverseChain;
        assert(usable(subs[i]));
    }
}

proof fn lemma_all_ids(subs: Seq<Subtable>)
    requires
        forall|i: int| 0 <= i < subs.len() ==> usable(#[trigger] subs[i]),
    ensures
        ids16(all_reach(subs)),
        ids16(all_next(subs)),
    decreases subs.len(),
{
    if subs.len() > 0 {
        let less = subs.drop_last();
        assert forall|i: int| 0 <= i < less.len() implies usable(#[trigger] less[i]) by {
            assert(less[i] == subs[i]);
        }
        lemma_all_ids(less);
        assert(usable(subs[subs.len() - 1]));
    }
}

/// Whether a compiled lookup is what the font has at `lookup`.
pub open spec fn lookup_made(l: CompiledLookup, data: Seq<u8>, table: Table, lookup: int, summarise: bool) -> bool {
    let all = sites(data, table, lookup, subtable_offsets(data, lookup).len());
    &&& l.subtables@.len() == all.len()
    &&& forall|k: int|
        0 <= k < all.len() ==> made(
            #[trigger] l.subtables@[k],
            data,
            all[k].0,
            all[k].1,
            summarise,
        )
}

impl Compiler {
    /// Compile lookup `index` of a substitution table.
    pub fn gsub(&self, data: &[u8], index: u16, pool: &mut Interner) -> (r: Result<
        CompiledLookup,
        CompileError,
    >)
        requires
            data@.len() <= 0xFFFF_0000,
            pool_sound(*old(pool)),
        ensures
            steps(*old(pool), *final(pool), self.budget),
            r is Err <==> lookup_at(data@, Table::Gsub, index) is None,
            r matches Err(e) ==> e == CompileError::Read(lookup_error(data@, Table::Gsub, index)),
            r matches Ok(l) ==> self.compiled(
                l,
                data@,
                Table::Gsub,
                lookup_at(data@, Table::Gsub, index)->0,
                final(pool).faithful(),
            ),
    {
        self.lookup(data, Table::Gsub, index, pool)
    }

    /// Compile lookup `index` of a positioning table.
    pub fn gpos(&self, data: &[u8], index: u16, pool: &mut Interner) -> (r: Result<
        CompiledLookup,
        CompileError,
    >)
        requires
            data@.len() <= 0xFFFF_0000,
            pool_sound(*old(pool)),
        ensures
            steps(*old(pool), *final(pool), self.budget),
            r is Err <==> lookup_at(data@, Table::Gpos, index) is None,
            r matches Err(e) ==> e == CompileError::Read(lookup_error(data@, Table::Gpos, index)),
            r matches Ok(l) ==> self.compiled(
                l,
                data@,
                Table::Gpos,
                lookup_at(data@, Table::Gpos, index)->0,
                final(pool).faithful(),
            ),
    {
        self.lookup(data, Table::Gpos, index, pool)
    }

    /// What compiling the lookup at a place gives. The sets and maps in it are
    /// those of the font where the interner is faithful.
    pub open spec fn compiled(
        &self,
        l: CompiledLookup,
        data: Seq<u8>,
        table: Table,
        lookup: int,
        faithful: bool,
    ) -> bool {
        &&& l.wf()
        &&& l.props == props_at(data, lookup)
        &&& l.subtables@.len() == sites(
            data,
            table,
            lookup,
            subtable_offsets(data, lookup).len(),
        ).len()
        &&& set_fitted(l.reach, self.budget)
        &&& l.dispatch is Some <==> self.detail == Detail::Full && indexable(l.subtables@)
        &&& faithful ==> lookup_made(l, data, table, lookup, self.summarises())
    }

    /// Compile a lookup of either table. A subtable that cannot be read, or
    /// that does not compile, is left out.
    pub fn lookup(&self, data: &[u8], table: Table, index: u16, pool: &mut Interner) -> (r: Result<
        CompiledLookup,
        CompileError,
    >)
        requires
            data@.len() <= 0xFFFF_0000,
            pool_sound(*old(pool)),
        ensures
            steps(*old(pool), *final(pool), self.budget),
            r is Err <==> lookup_at(data@, table, index) is None,
            r matches Err(e) ==> e == CompileError::Read(lookup_error(data@, table, index)),
            r matches Ok(l) ==> self.compiled(
                l,
                data@,
                table,
                lookup_at(data@, table, index)->0,
                final(pool).faithful(),
            ),
    {
        let lookup: usize = match find_lookup(data, table, index) {
            Ok(at) => at,
            Err(e) => return Err(CompileError::Read(e)),
        };
        let props: u32 = props_of(data, lookup);
        let ty: u16 = be16(data, lookup).unwrap();
        let count: u16 = be16(data, lookup + 4).unwrap();
        let offsets = read_offsets(data, lookup + 6, count);
        let mut subtables: Vec<Subtable> = Vec::new();
        let mut i: usize = 0;
        while i < offsets.len()
            invariant
                i <= offsets@.len(),
                data@.len() <= 0xFFFF_0000,
                lookup <= 0x1_fffe,
                ty == word(data@, lookup as int),
                offsets@ == subtable_offsets(data@, lookup as int),
                steps(*old(pool), *pool, self.budget),
                subtables@.len() == sites(data@, table, lookup as int, i as nat).len(),
                forall|k: int| 0 <= k < subtables@.len() ==> usable(#[trigger] subtables@[k]),
                pool.faithful() ==> forall|k: int|
                    0 <= k < subtables@.len() ==> made(
                        #[trigger] subtables@[k],
                        data@,
                        sites(data@, table, lookup as int, i as nat)[k].0,
                        sites(data@, table, lookup as int, i as nat)[k].1,
                        self.summarises(),
                    ),
            decreases offsets@.len() - i,
        {
            let ghost before = subtables@;
            let ghost so_far = sites(data@, table, lookup as int, i as nat);
            if let Some((inner, at)) = find_subtable(data, table, ty, lookup, offsets[i]) {
                proof {
                    lemma_format_fits(data@, table, inner, at as int);
                }
                if let Some(format) = read_format(data, table, inner, at) {
                    if let Some(s) = self.subtable(data, format, at, pool) {
                        subtables.push(s);
                    }
                }
            }
            proof {
                let now = sites(data@, table, lookup as int, (i + 1) as nat);
                if pool.faithful() {
                    assert forall|k: int| 0 <= k < subtables@.len() implies made(
                        #[trigger] subtables@[k],
                        data@,
                        now[k].0,
                        now[k].1,
                        self.summarises(),
                    ) by {
                        if k < before.len() {
                            assert(subtables@[k] == before[k]);
                            assert(now[k] == so_far[k]);
                        }
                    }
                }
                assert forall|k: int| 0 <= k < subtables@.len() implies usable(
                    #[trigger] subtables@[k],
                ) by {
                    if k < before.len() {
                        assert(subtables@[k] == before[k]);
                    }
                }
            }
            i += 1;
        }
        proof {
            lemma_buildable(subtables@);
        }
        Ok(
            CompiledLookup::new_with(props, subtables, self.detail.accelerators(), self.budget),
        )
    }
}

/// The offsets that the compiled subtables of a lookup come from, in order.
proof fn lemma_sites(data: Seq<u8>, table: Table, lookup: int, n: nat) -> (from: Seq<int>)
    ensures
        from.len() == sites(data, table, lookup, n).len(),
        forall|k: int| 0 <= k < from.len() ==> 0 <= #[trigger] from[k] < n,
        forall|j: int, k: int| 0 <= j < k < from.len() ==> #[trigger] from[j] < #[trigger] from[k],
        forall|k: int|
            0 <= k < from.len() ==> {
                let (f, at) = sites(data, table, lookup, n)[k];
                let off = subtable_offsets(data, lookup)[#[trigger] from[k]];
                &&& subtable_site(data, table, word(data, lookup), lookup, off) matches Some((ty, place))
                    && place == at && format_at(data, table, ty, at) == Some(f)
                &&& makes(data, f, at)
            },
        forall|i: int|
            #![trigger subtable_offsets(data, lookup)[i]]
            0 <= i < n && (subtable_site(
                data,
                table,
                word(data, lookup),
                lookup,
                subtable_offsets(data, lookup)[i],
            ) matches Some((ty, at)) && format_at(data, table, ty, at) matches Some(f) && makes(data, f, at))
                ==> from.contains(i),
    decreases n,
{
    if n == 0 {
        seq![]
    } else {
        let before = lemma_sites(data, table, lookup, (n - 1) as nat);
        let all = sites(data, table, lookup, n);
        let less = sites(data, table, lookup, (n - 1) as nat);
        let from = if all.len() > less.len() {
            before.push(n - 1)
        } else {
            before
        };
        assert forall|k: int| 0 <= k < from.len() implies ({
            let (f, at) = all[k];
            let off = subtable_offsets(data, lookup)[#[trigger] from[k]];
            &&& subtable_site(data, table, word(data, lookup), lookup, off) matches Some((ty, place)) && place
                == at && format_at(data, table, ty, at) == Some(f)
            &&& makes(data, f, at)
        }) by {
            if k < before.len() {
                assert(from[k] == before[k]);
                assert(all[k] == less[k]);
            }
        }
        assert forall|i: int|
            #![trigger subtable_offsets(data, lookup)[i]]
            0 <= i < n && (subtable_site(
                data,
                table,
                word(data, lookup),
                lookup,
                subtable_offsets(data, lookup)[i],
            ) matches Some((ty, at)) && format_at(data, table, ty, at) matches Some(f) && makes(data, f, at))
        implies from.contains(i) by {
            if i < n - 1 {
                assert(before.contains(i));
                let k = choose|k: int| 0 <= k < before.len() && before[k] == i;
                assert(from[k] == i);
            } else {
                assert(from[from.len() - 1] == i);
            }
        }
        from
    }
}

/// The compiled subtables of a lookup are those of the font, in the font's order,
/// and each is what the font's type number stands for: the lookup's own, or what
/// an extension names, at the place that it gives. Each starts at the glyphs of
/// its own coverage.
#[verifier::rlimit(60)]
pub proof fn a_subtable_is_what_its_type_number_stands_for(
    l: CompiledLookup,
    data: Seq<u8>,
    table: Table,
    lookup: int,
    summarise: bool,
) -> (from: Seq<int>)
    requires
        lookup_made(l, data, table, lookup, summarise),
        0 <= lookup,
        lookup + 6 <= data.len(),
    ensures
        from.len() == l.subtables@.len(),
        forall|j: int, k: int| 0 <= j < k < from.len() ==> #[trigger] from[j] < #[trigger] from[k],
        forall|k: int|
            0 <= k < from.len() ==> {
                let i = #[trigger] from[k];
                let near = lookup + word(data, lookup + 6 + 2 * i);
                let extends = word(data, lookup) == (if table is Gsub {
                    7u16
                } else {
                    9u16
                });
                let ty = if extends {
                    word(data, near + 2)
                } else {
                    word(data, lookup)
                };
                let at = if extends {
                    near + long(data, near + 4)
                } else {
                    near
                };
                let format = word(data, at);
                let s = l.subtables@[k];
                &&& 0 <= i < word(data, lookup + 4)
                &&& near != lookup && near + 6 <= data.len() && at + 6 <= data.len()
                &&& table is Gsub ==> {
                    &&& 1 <= ty <= 6 || ty == 8
                    &&& ty == 1 && format == 1 ==> s.kind is SingleDelta
                    &&& ty == 1 && format != 1 ==> format == 2 && s.kind is SingleList
                    &&& ty == 2 ==> s.kind == (SubtableKind::Multiple { offset: at as u32 })
                    &&& ty == 3 ==> s.kind == (SubtableKind::Alternate { offset: at as u32 })
                    &&& ty == 4 ==> s.kind == (SubtableKind::Ligature { offset: at as u32 })
                    &&& ty == 5 && format != 3 ==> s.kind is Rules && !s.kind->Rules_chained
                    &&& ty == 5 && format == 3 ==> s.kind is ChainCtx3 && !s.kind->ChainCtx3_chained
                    &&& ty == 6 && format != 3 ==> s.kind is Rules && s.kind->Rules_chained
                    &&& ty == 6 && format == 3 ==> s.kind is ChainCtx3 && s.kind->ChainCtx3_chained
                    &&& ty == 8 ==> s.kind is ReverseChain
                }
                &&& table is Gpos ==> {
                    &&& 1 <= ty <= 8
                    &&& ty == 1 ==> s.kind is SinglePos && (s.kind->shared <==> format == 1)
                    &&& ty == 2 && format == 1 ==> s.kind is PairPos1
                    &&& ty == 2 && format != 1 ==> format == 2 && s.kind is PairPos2
                    &&& ty == 3 ==> s.kind is Cursive
                    &&& ty == 4 ==> s.kind == (SubtableKind::MarkTo { offset: at as u32, to: AttachTo::Base })
                    &&& ty == 5 ==> s.kind == (SubtableKind::MarkTo {
                        offset: at as u32,
                        to: AttachTo::Ligature,
                    })
                    &&& ty == 6 ==> s.kind == (SubtableKind::MarkTo { offset: at as u32, to: AttachTo::Mark })
                    &&& ty == 7 && format != 3 ==> s.kind is Rules && !s.kind->Rules_chained
                    &&& ty == 7 && format == 3 ==> s.kind is ChainCtx3 && !s.kind->ChainCtx3_chained
                    &&& ty == 8 && format != 3 ==> s.kind is Rules && s.kind->Rules_chained
                    &&& ty == 8 && format == 3 ==> s.kind is ChainCtx3 && s.kind->ChainCtx3_chained
                }
                // Rules of format one compare glyphs, those of format two classes.
                &&& s.kind is Rules ==> (s.kind->input_classes is None <==> format == 1)
                &&& !(s.kind is ChainCtx3) ==> s.cov@ == (match coverage_from(
                    data,
                    at,
                    word(data, at + 2) as int,
                ) {
                    Some(glyphs) => ordered(glyphs),
                    None => seq![],
                })
            },
{
    let n = subtable_offsets(data, lookup).len();
    let from = lemma_sites(data, table, lookup, n);
    let all = sites(data, table, lookup, n);
    assert forall|k: int| 0 <= k < from.len() implies made(
        #[trigger] l.subtables@[k],
        data,
        all[k].0,
        all[k].1,
        summarise,
    ) by {}
    from
}

/// Each level keeps less than the one before: accelerators only where everything
/// is kept, and summaries wherever accelerators are. A process that is not told
/// otherwise keeps everything.
pub proof fn a_level_keeps_what_the_next_one_does(
    d: Detail,
    accelerators: bool,
    summaries: bool,
    unnamed: Detail,
    named: Option<&[char]>,
    level: Detail,
)
    requires
        call_ensures(Detail::accelerators, (d,), accelerators),
        call_ensures(Detail::rule_summaries, (d,), summaries),
        call_ensures(detail_from_env, (None::<&[char]>,), unnamed),
        call_ensures(detail_from_env, (named,), level),
    ensures
        accelerators ==> summaries,
        d == Detail::Full <==> accelerators,
        d == Detail::Minimal <==> !summaries,
        unnamed == Detail::Full,
        named is Some && named->0@.len() != 4 && named->0@.len() != 7 ==> level == Detail::Full,
        named is Some && named->0@ == seq!['l', 'e', 'a', 'n'] ==> level == Detail::Lean,
        named is Some && named->0@ == seq!['m', 'i', 'n', 'i', 'm', 'a', 'l'] ==> level == Detail::Minimal,
        level == Detail::Lean ==> named is Some && named->0@.len() == 4,
        level == Detail::Minimal ==> named is Some && named->0@.len() == 7,
{
    assert(seq!['l', 'e', 'a', 'n'].len() == 4);
    assert(seq!['m', 'i', 'n', 'i', 'm', 'a', 'l'].len() == 7);
}

/// A subtable that can be read is not left out: where the lookup is of one of the
/// types with a single format and its header can be read, the subtable is among
/// those compiled.
pub proof fn no_readable_subtable_is_left_out(
    data: Seq<u8>,
    table: Table,
    lookup: int,
    i: int,
) -> (k: int)
    requires
        0 <= lookup,
        lookup + 6 <= data.len(),
        0 <= i < word(data, lookup + 4),
        lookup + 6 + 2 * word(data, lookup + 4) <= data.len(),
        word(data, lookup + 6 + 2 * i) != 0,
        lookup + word(data, lookup + 6 + 2 * i) + 16 <= data.len(),
        ({
            let ty = word(data, lookup);
            &&& table == Table::Gsub ==> 2 <= ty <= 4
            &&& table == Table::Gpos ==> 3 <= ty <= 6
        }),
    ensures
        ({
            let all = sites(data, table, lookup, subtable_offsets(data, lookup).len());
            &&& 0 <= k < all.len()
            &&& all[k].1 == lookup + word(data, lookup + 6 + 2 * i)
            &&& k <= i
        }),
{
    let n = subtable_offsets(data, lookup).len();
    lemma_site_kept(data, table, lookup, n, i)
}

proof fn lemma_site_kept(data: Seq<u8>, table: Table, lookup: int, n: nat, i: int) -> (k: int)
    requires
        0 <= lookup,
        lookup + 6 <= data.len(),
        0 <= i < n <= subtable_offsets(data, lookup).len(),
        lookup + 6 + 2 * word(data, lookup + 4) <= data.len(),
        word(data, lookup + 6 + 2 * i) != 0,
        lookup + word(data, lookup + 6 + 2 * i) + 16 <= data.len(),
        ({
            let ty = word(data, lookup);
            &&& table == Table::Gsub ==> 2 <= ty <= 4
            &&& table == Table::Gpos ==> 3 <= ty <= 6
        }),
    ensures
        0 <= k < sites(data, table, lookup, n).len(),
        sites(data, table, lookup, n)[k].1 == lookup + word(data, lookup + 6 + 2 * i),
        k <= i,
    decreases n,
{
    let m = (n - 1) as nat;
    let before = sites(data, table, lookup, m);
    assert(subtable_offsets(data, lookup)[n - 1] == word(data, lookup + 6 + 2 * (n - 1)));
    if i < m {
        let k = lemma_site_kept(data, table, lookup, m, i);
        assert(sites(data, table, lookup, n)[k] == before[k]);
        k
    } else {
        lemma_sites_short(data, table, lookup, m);
        before.len() as int
    }
}

proof fn lemma_sites_short(data: Seq<u8>, table: Table, lookup: int, n: nat)
    ensures
        sites(data, table, lookup, n).len() <= n,
    decreases n,
{
    if n > 0 {
        lemma_sites_short(data, table, lookup, (n - 1) as nat);
    }
}

} // verus!
