//! Every compiled lookup of a layout table, addressable by lookup-list index.
//!
//! A program starts as one empty slot per lookup and compiles a slot the first
//! time something asks for it, because a plan reaches a small part of a font.
//! A lookup left with no subtables is an empty slot, and an empty slot is a
//! lookup that does nothing: there is no path on which one caller reads the
//! font for it and another does not.

use vstd::prelude::*;

use crate::compiler::{pool_sound, sites, steps, Compiler, Detail};
use crate::digest::{a_shared_glyph_is_never_denied, Digest};
use crate::interner::{classes_held, coverages_held, sets_held, Interner};
use crate::layout::{lookup_at, lookup_count, lookup_count_of, subtable_offsets, Table};
use crate::lookup::CompiledLookup;

verus! {

/// A lookup's summary, as three words. All zero means "not built yet": a lookup
/// that really summarises to nothing can never match anything, so it is
/// summarised again each time and skipped each time.
#[derive(Copy, Clone, Debug)]
pub struct AtomicDigest {
    pub words: [u64; 3],
}

impl AtomicDigest {
    #[inline]
    fn get(&self) -> (w: [u64; 3])
        ensures
            w == self.words,
    {
        self.words
    }

    #[inline]
    fn set(&mut self, words: &[u64; 3])
        ensures
            final(self).words == *words,
    {
        self.words = *words;
    }
}

impl Default for AtomicDigest {
    fn default() -> (r: AtomicDigest)
        ensures
            r.words@ == seq![0u64, 0u64, 0u64],
    {
        AtomicDigest { words: [0, 0, 0] }
    }
}

/// One lookup's slot: the compiled form once it exists, and the cheap summary
/// that decides whether it ever should.
#[derive(Debug)]
pub struct CompiledLookupSlot {
    /// Nothing until something asks; then what it compiled to, which may be
    /// nothing.
    pub lookup: Option<Option<CompiledLookup>>,
    pub digest: AtomicDigest,
}

impl CompiledLookupSlot {
    pub open spec fn wf(&self) -> bool {
        self.lookup matches Some(Some(l)) ==> l.wf() && l.subtables@.len() > 0
    }
}

/// What [`Program::compiled`] found in a slot.
pub enum Compiled<'a> {
    /// Compiled already. `None` inside means it compiled to nothing, which is
    /// a lookup that does nothing.
    Already(Option<&'a CompiledLookup>),
    /// Not compiled yet, and the only state in which the cheap summary is
    /// worth consulting.
    NotYet,
}

/// Whether three words share a bit with three others, in each of them.
pub open spec fn words_meet(a: Seq<u64>, b: Seq<u64>) -> bool {
    &&& a[0] & b[0] != 0
    &&& a[1] & b[1] != 0
    &&& a[2] & b[2] != 0
}

/// Every compiled lookup of a layout table.
#[derive(Debug)]
pub struct Program {
    /// One slot per lookup in the font, each compiled on first use.
    pub lookups: Vec<CompiledLookupSlot>,
    pub compiler: Compiler,
    /// Which table these came from.
    pub table: Table,
}

/// The slots that hold a verdict.
pub open spec fn filled(slots: Seq<CompiledLookupSlot>) -> nat
    decreases slots.len(),
{
    if slots.len() == 0 {
        0
    } else {
        filled(slots.drop_last()) + (if slots.last().lookup is Some {
            1nat
        } else {
            0
        })
    }
}

/// The indices of the first `n` slots that compiled to nothing.
pub open spec fn empty_slots(slots: Seq<CompiledLookupSlot>, n: nat) -> Seq<u16>
    decreases n,
{
    if n == 0 {
        seq![]
    } else if slots[n - 1].lookup matches Some(None) {
        empty_slots(slots, (n - 1) as nat).push((n - 1) as u16)
    } else {
        empty_slots(slots, (n - 1) as nat)
    }
}

/// What the compiled lookups own, each with the space it takes itself.
pub open spec fn lookup_bytes(slots: Seq<CompiledLookupSlot>) -> nat
    decreases slots.len(),
{
    if slots.len() == 0 {
        0
    } else {
        lookup_bytes(slots.drop_last()) + (match slots.last().lookup {
            Some(Some(l)) => vstd::layout::size_of::<CompiledLookup>() + l.bytes(),
            _ => 0,
        })
    }
}

impl Program {
    pub open spec fn wf(&self) -> bool {
        &&& self.lookups@.len() <= 0xffff
        &&& forall|i: int| 0 <= i < self.lookups@.len() ==> (#[trigger] self.lookups@[i]).wf()
    }

    /// Whether nothing is compiled yet.
    pub open spec fn untouched(&self) -> bool {
        forall|i: int|
            0 <= i < self.lookups@.len() ==> (#[trigger] self.lookups@[i]).lookup is None
                && self.lookups@[i].digest.words@ == seq![0u64, 0u64, 0u64]
    }

    /// A program over `count` lookups, none of them compiled yet.
    pub fn new(count: u16) -> (r: Program)
        ensures
            r.wf(),
            r.untouched(),
            r.lookups@.len() == count,
            r.table == Table::Gsub,
            r.compiler.detail == Detail::Full,
    {
        Program::with_table(count, Table::Gsub, Detail::Full)
    }

    pub fn new_gpos(count: u16) -> (r: Program)
        ensures
            r.wf(),
            r.untouched(),
            r.lookups@.len() == count,
            r.table == Table::Gpos,
            r.compiler.detail == Detail::Full,
    {
        Program::with_table(count, Table::Gpos, Detail::Full)
    }

    /// The same, at a chosen level of precomputation.
    pub fn new_with_detail(count: u16, detail: Detail) -> (r: Program)
        ensures
            r.wf(),
            r.untouched(),
            r.lookups@.len() == count,
            r.table == Table::Gsub,
            r.compiler.detail == detail,
    {
        Program::with_table(count, Table::Gsub, detail)
    }

    pub fn new_gpos_with_detail(count: u16, detail: Detail) -> (r: Program)
        ensures
            r.wf(),
            r.untouched(),
            r.lookups@.len() == count,
            r.table == Table::Gpos,
            r.compiler.detail == detail,
    {
        Program::with_table(count, Table::Gpos, detail)
    }

    /// A program over lookups that are already compiled.
    ///
    /// `get` never compiles here: every slot is already filled. Nothing can be
    /// summarised from a font that was not read, so these are never gated.
    pub fn prebuilt(lookups: Vec<Option<CompiledLookup>>) -> (r: Program)
        requires
            lookups@.len() <= 0xffff,
            forall|i: int|
                0 <= i < lookups@.len() ==> (#[trigger] lookups@[i] matches Some(l) ==> l.wf()
                    && l.subtables@.len() > 0),
        ensures
            r.wf(),
            r.lookups@.len() == lookups@.len(),
            r.table == Table::Gsub,
            forall|i: int|
                0 <= i < lookups@.len() ==> (#[trigger] r.lookups@[i]).lookup == Some(lookups@[i])
                    && r.lookups@[i].digest.words@ == seq![u64::MAX, u64::MAX, u64::MAX],
    {
        let mut p = Program::with_table(0, Table::Gsub, Detail::Full);
        let ghost given = lookups@;
        let mut rest = lookups;
        let mut back: Vec<CompiledLookupSlot> = Vec::new();
        while rest.len() > 0
            invariant
                rest@.len() + back@.len() == given.len(),
                given.len() <= 0xffff,
                forall|i: int| 0 <= i < rest@.len() ==> rest@[i] == given[i],
                forall|i: int|
                    0 <= i < back@.len() ==> (#[trigger] back@[i]).lookup == Some(
                        given[given.len() - 1 - i],
                    ) && back@[i].digest.words@ == seq![u64::MAX, u64::MAX, u64::MAX],
            decreases rest@.len(),
        {
            let l = rest.pop().unwrap();
            let full = Digest::full();
            let mut digest = AtomicDigest::default();
            digest.set(&full.words);
            back.push(CompiledLookupSlot { lookup: Some(l), digest });
        }
        while back.len() > 0
            invariant
                p.lookups@.len() + back@.len() == given.len(),
                p.table == Table::Gsub,
                given.len() <= 0xffff,
                forall|i: int|
                    0 <= i < back@.len() ==> (#[trigger] back@[i]).lookup == Some(
                        given[given.len() - 1 - i],
                    ) && back@[i].digest.words@ == seq![u64::MAX, u64::MAX, u64::MAX],
                forall|i: int|
                    0 <= i < p.lookups@.len() ==> (#[trigger] p.lookups@[i]).lookup == Some(given[i])
                        && p.lookups@[i].digest.words@ == seq![u64::MAX, u64::MAX, u64::MAX],
            decreases back@.len(),
        {
            let slot = back.pop().unwrap();
            p.lookups.push(slot);
        }
        p
    }

    fn with_table(count: u16, table: Table, detail: Detail) -> (r: Program)
        ensures
            r.wf(),
            r.untouched(),
            r.lookups@.len() == count,
            r.table == table,
            r.compiler.detail == detail,
    {
        let mut lookups: Vec<CompiledLookupSlot> = Vec::new();
        let mut i: u16 = 0;
        while i < count
            invariant
                i <= count,
                lookups@.len() == i,
                forall|k: int|
                    0 <= k < lookups@.len() ==> (#[trigger] lookups@[k]).lookup is None
                        && lookups@[k].digest.words@ == seq![0u64, 0u64, 0u64],
            decreases count - i,
        {
            lookups.push(CompiledLookupSlot { lookup: None, digest: AtomicDigest::default() });
            i += 1;
        }
        Program { lookups, compiler: Compiler::with_detail(detail), table }
    }

    #[inline]
    pub fn table(&self) -> (t: Table)
        ensures
            t == self.table,
    {
        self.table
    }

    /// The compiled lookup, if it has been compiled already.
    #[inline]
    pub fn compiled<'a>(&'a self, index: u16) -> (r: Compiled<'a>)
        ensures
            match r {
                Compiled::Already(Some(l)) => index < self.lookups@.len()
                    && self.lookups@[index as int].lookup == Some(Some(*l)),
                Compiled::Already(None) => index < self.lookups@.len()
                    && self.lookups@[index as int].lookup matches Some(None),
                Compiled::NotYet => index >= self.lookups@.len()
                    || self.lookups@[index as int].lookup is None,
            },
    {
        if index as usize >= self.lookups.len() {
            return Compiled::NotYet;
        }
        match &self.lookups[index as usize].lookup {
            Some(Some(l)) => Compiled::Already(Some(l)),
            Some(None) => Compiled::Already(None),
            None => Compiled::NotYet,
        }
    }

    /// The words that summarise a lookup: those kept, or else those just built
    /// from the font; a lookup that cannot be summarised is one nothing can be
    /// ruled out about.
    pub open spec fn summary_words(&self, index: u16, built: Option<Digest>) -> Seq<u64> {
        let kept = self.lookups@[index as int].digest.words@;
        if kept != seq![0u64, 0u64, 0u64] {
            kept
        } else {
            match built {
                Some(d) => d.words@,
                None => seq![u64::MAX, u64::MAX, u64::MAX],
            }
        }
    }

    /// Whether this lookup could touch a buffer holding `seen`, so that one that
    /// cannot is never compiled. `built` is the summary read from the font; it
    /// is kept the first time, and answers from then on.
    pub fn may_touch(&mut self, index: u16, built: Option<Digest>, seen: &[u64; 3]) -> (r: bool)
        requires
            old(self).wf(),
        ensures
            final(self).wf(),
            final(self).lookups@.len() == old(self).lookups@.len(),
            index >= old(self).lookups@.len() ==> !r && *final(self) == *old(self),
            index < old(self).lookups@.len() ==> {
                let words = old(self).summary_words(index, built);
                &&& r == words_meet(words, seen@)
                &&& final(self).lookups@[index as int].digest.words@ == words
                &&& final(self).lookups@[index as int].lookup == old(self).lookups@[index as int].lookup
                &&& forall|i: int|
                    0 <= i < old(self).lookups@.len() && i != index
                        ==> #[trigger] final(self).lookups@[i] == old(self).lookups@[i]
            },
    {
        if index as usize >= self.lookups.len() {
            return false;
        }
        let mut words: [u64; 3] = self.lookups[index as usize].digest.get();
        if words[0] == 0 && words[1] == 0 && words[2] == 0 {
            assert(words@ =~= seq![0u64, 0u64, 0u64]);
            let d = match built {
                Some(d) => d,
                None => Digest::full(),
            };
            words = d.words;
            self.lookups[index as usize].digest.set(&words);
        }
        words[0] & seen[0] != 0 && words[1] & seen[1] != 0 && words[2] & seen[2] != 0
    }

    /// What asking for a lookup that is not compiled yet gives: nothing where
    /// the font has no such lookup or none of its subtables compiles.
    pub open spec fn verdict(
        &self,
        r: Option<CompiledLookup>,
        data: Seq<u8>,
        index: u16,
        faithful: bool,
    ) -> bool {
        match lookup_at(data, self.table, index) {
            None => r is None,
            Some(at) => {
                &&& r is None <==> sites(data, self.table, at, subtable_offsets(data, at).len()).len() == 0
                &&& r matches Some(l) ==> self.compiler.compiled(l, data, self.table, at, faithful)
            },
        }
    }

    /// Compile a slot that is not filled yet.
    fn compile(&self, index: u16, data: &[u8], pool: &mut Interner) -> (r: Option<CompiledLookup>)
        requires
            data@.len() <= 0xFFFF_0000,
            pool_sound(*old(pool)),
        ensures
            steps(*old(pool), *final(pool), self.compiler.budget),
            self.verdict(r, data@, index, final(pool).faithful()),
            r matches Some(l) ==> l.wf() && l.subtables@.len() > 0,
    {
        let compiled = match self.table {
            Table::Gsub => self.compiler.gsub(data, index, pool),
            Table::Gpos => self.compiler.gpos(data, index, pool),
        };
        match compiled {
            Ok(l) => {
                if l.subtables.len() > 0 {
                    Some(l)
                } else {
                    None
                }
            },
            Err(_) => None,
        }
    }

    /// What asking for a slot does to a program and its interner: a filled slot
    /// is left as it is, and nothing is read for it; another takes the verdict.
    pub open spec fn asked(
        before: Program,
        after: Program,
        pool: Interner,
        pool_after: Interner,
        index: u16,
        data: Seq<u8>,
    ) -> bool {
        &&& after.wf()
        &&& after.compiler == before.compiler
        &&& after.table == before.table
        &&& after.lookups@.len() == before.lookups@.len()
        &&& forall|i: int|
            0 <= i < before.lookups@.len() && i != index ==> #[trigger] after.lookups@[i]
                == before.lookups@[i]
        &&& steps(pool, pool_after, before.compiler.budget)
        &&& index < before.lookups@.len() ==> {
            &&& after.lookups@[index as int].lookup is Some
            &&& before.lookups@[index as int].lookup is Some ==> after.lookups@[index as int]
                == before.lookups@[index as int] && pool_after == pool
            &&& before.lookups@[index as int].lookup is None ==> before.verdict(
                after.lookups@[index as int].lookup->0,
                data,
                index,
                pool_after.faithful(),
            )
        }
        &&& index >= before.lookups@.len() ==> after == before && pool_after == pool
    }

    /// Fill a slot, if it is not filled.
    pub fn fill(&mut self, index: u16, data: &[u8], pool: &mut Interner)
        requires
            old(self).wf(),
            data@.len() <= 0xFFFF_0000,
            pool_sound(*old(pool)),
        ensures
            Program::asked(*old(self), *final(self), *old(pool), *final(pool), index, data@),
    {
        if index as usize >= self.lookups.len() {
            return;
        }
        // The hit path: no font parsing, just a load.
        if self.lookups[index as usize].lookup.is_some() {
            return;
        }
        let built = self.compile(index, data, pool);
        self.lookups[index as usize].lookup = Some(built);
    }

    /// The compiled form of lookup `index`, compiling it if this is the first
    /// ask. A lookup that fails to compile keeps its failure, so a malformed
    /// subtable is diagnosed once.
    pub fn get<'a>(&'a mut self, index: u16, data: &[u8], pool: &mut Interner) -> (r: Option<
        &'a CompiledLookup,
    >)
        requires
            old(self).wf(),
            data@.len() <= 0xFFFF_0000,
            pool_sound(*old(pool)),
        ensures
            Program::asked(*old(self), *final(self), *old(pool), *final(pool), index, data@),
            index >= old(self).lookups@.len() ==> r is None,
            index < old(self).lookups@.len() ==> {
                let slot = final(self).lookups@[index as int].lookup->0;
                &&& r is Some <==> slot is Some
                &&& r matches Some(l) ==> slot == Some(*l)
            },
    {
        self.fill(index, data, pool);
        if index as usize >= self.lookups.len() {
            return None;
        }
        match &self.lookups[index as usize].lookup {
            Some(Some(l)) => Some(l),
            _ => None,
        }
    }
}

/// What compiling the whole font does: filled slots stay as they were, and the
/// others take their verdict. The verdict of each is on the font's own tables
/// as long as the interner is faithful at the end.
pub open spec fn completed(
    before: Program,
    after: Program,
    pool: Interner,
    pool_after: Interner,
    data: Seq<u8>,
    n: int,
) -> bool {
    &&& after.wf()
    &&& after.compiler == before.compiler
    &&& after.table == before.table
    &&& after.lookups@.len() == before.lookups@.len()
    &&& steps(pool, pool_after, before.compiler.budget)
    &&& forall|i: int|
        0 <= i < n ==> {
            &&& (#[trigger] after.lookups@[i]).lookup is Some
            &&& before.lookups@[i].lookup is Some ==> after.lookups@[i] == before.lookups@[i]
            &&& before.lookups@[i].lookup is None ==> before.verdict(
                after.lookups@[i].lookup->0,
                data,
                i as u16,
                pool_after.faithful(),
            )
        }
    &&& forall|i: int|
        n <= i < before.lookups@.len() ==> #[trigger] after.lookups@[i] == before.lookups@[i]
}

impl Program {
    /// Compile every lookup, for callers that want the whole font rather than
    /// what a plan reaches.
    pub fn compile_all(&mut self, data: &[u8], pool: &mut Interner)
        requires
            old(self).wf(),
            data@.len() <= 0xFFFF_0000,
            pool_sound(*old(pool)),
        ensures
            completed(
                *old(self),
                *final(self),
                *old(pool),
                *final(pool),
                data@,
                old(self).lookups@.len() as int,
            ),
    {
        let n: usize = self.lookups.len();
        let mut i: usize = 0;
        while i < n
            invariant
                i <= n <= 0xffff,
                n == old(self).lookups@.len(),
                data@.len() <= 0xFFFF_0000,
                completed(*old(self), *self, *old(pool), *pool, data@, i as int),
            decreases n - i,
        {
            let ghost before = *self;
            let ghost pool_before = *pool;
            self.fill(i as u16, data, pool);
            proof {
                assert forall|k: int| 0 <= k < i + 1 implies {
                    &&& (#[trigger] self.lookups@[k]).lookup is Some
                    &&& old(self).lookups@[k].lookup is Some ==> self.lookups@[k] == old(self).lookups@[k]
                    &&& old(self).lookups@[k].lookup is None ==> old(self).verdict(
                        self.lookups@[k].lookup->0,
                        data@,
                        k as u16,
                        pool.faithful(),
                    )
                } by {
                    if k < i {
                        assert(self.lookups@[k] == before.lookups@[k]);
                    } else {
                        assert(before.lookups@[k] == old(self).lookups@[k]);
                    }
                }
            }
            i += 1;
        }
    }

    /// Whether this slot has been filled, for callers measuring how much of a
    /// font a plan actually reaches.
    pub fn is_compiled(&self, index: u16) -> (r: bool)
        ensures
            r == (index < self.lookups@.len() && self.lookups@[index as int].lookup is Some),
    {
        (index as usize) < self.lookups.len() && self.lookups[index as usize].lookup.is_some()
    }

    /// How many lookups have been compiled so far, which is the measure of what
    /// laziness actually saved.
    pub fn compiled_count(&self) -> (n: usize)
        ensures
            n == filled(self.lookups@),
    {
        let mut n: usize = 0;
        let mut i: usize = 0;
        while i < self.lookups.len()
            invariant
                i <= self.lookups@.len(),
                n == filled(self.lookups@.take(i as int)),
                n <= i,
            decreases self.lookups@.len() - i,
        {
            assert(self.lookups@.take(i + 1).drop_last() =~= self.lookups@.take(i as int));
            if self.lookups[i].lookup.is_some() {
                n += 1;
            }
            i += 1;
        }
        assert(self.lookups@.take(i as int) =~= self.lookups@);
        n
    }

    pub fn len(&self) -> (n: usize)
        ensures
            n == self.lookups@.len(),
    {
        self.lookups.len()
    }

    pub fn is_empty(&self) -> (r: bool)
        ensures
            r == (self.lookups@.len() == 0),
    {
        self.lookups.len() == 0
    }

    /// Lookup-list indices that failed to compile. Forces the whole font, since
    /// an uncompiled lookup has no verdict yet.
    pub fn missing(&mut self, data: &[u8], pool: &mut Interner) -> (r: Vec<u16>)
        requires
            old(self).wf(),
            data@.len() <= 0xFFFF_0000,
            pool_sound(*old(pool)),
        ensures
            completed(
                *old(self),
                *final(self),
                *old(pool),
                *final(pool),
                data@,
                old(self).lookups@.len() as int,
            ),
            r@ == empty_slots(final(self).lookups@, final(self).lookups@.len()),
    {
        self.compile_all(data, pool);
        let mut out: Vec<u16> = Vec::new();
        let mut i: usize = 0;
        while i < self.lookups.len()
            invariant
                i <= self.lookups@.len() <= 0xffff,
                out@ == empty_slots(self.lookups@, i as nat),
            decreases self.lookups@.len() - i,
        {
            if let Some(None) = &self.lookups[i].lookup {
                out.push(i as u16);
            }
            i += 1;
        }
        out
    }

    /// Everything this program owns: its slots, whatever has been compiled into
    /// them, and what is shared with it through the interner.
    pub fn heap_bytes(&self, pool: &Interner) -> (n: usize)
        requires
            self.wf(),
            pool_sound(*pool),
            self.bytes(*pool) <= usize::MAX,
        ensures
            n == self.bytes(*pool),
    {
        let slot: usize = core::mem::size_of::<CompiledLookupSlot>();
        let each: usize = core::mem::size_of::<CompiledLookup>();
        let mut owned: usize = 0;
        let mut i: usize = 0;
        while i < self.lookups.len()
            invariant
                i <= self.lookups@.len(),
                self.wf(),
                self.bytes(*pool) <= usize::MAX,
                each == vstd::layout::size_of::<CompiledLookup>(),
                owned == lookup_bytes(self.lookups@.take(i as int)),
            decreases self.lookups@.len() - i,
        {
            proof {
                assert(self.lookups@.take(i + 1).drop_last() =~= self.lookups@.take(i as int));
                lemma_lookup_bytes(self.lookups@, i + 1);
                assert(self.lookups@[i as int].wf());
            }
            if let Some(Some(l)) = &self.lookups[i].lookup {
                owned = owned + each + l.heap_bytes();
            }
            i += 1;
        }
        assert(self.lookups@.take(i as int) =~= self.lookups@);
        self.lookups.len() * slot + owned + pool.heap_bytes() + pool.key_bytes()
    }

    /// What a program owns, with the tables and keys of its interner.
    pub open spec fn bytes(&self, pool: Interner) -> nat {
        self.lookups@.len() * vstd::layout::size_of::<CompiledLookupSlot>() + lookup_bytes(self.lookups@)
            + sets_held(pool.sets.values()) + coverages_held(pool.coverages.values()) + classes_held(
            pool.classes.values(),
        ) + (pool.sets.values().len() + pool.coverages.values().len() + pool.classes.values().len()) * 16
    }
}

proof fn lemma_lookup_bytes(slots: Seq<CompiledLookupSlot>, n: int)
    requires
        0 <= n <= slots.len(),
    ensures
        lookup_bytes(slots.take(n)) <= lookup_bytes(slots),
    decreases slots.len() - n,
{
    if n < slots.len() {
        assert(slots.take(n + 1).drop_last() =~= slots.take(n));
        lemma_lookup_bytes(slots, n + 1);
    } else {
        assert(slots.take(n) =~= slots);
    }
}

/// A program over a positioning table. Nothing is compiled until a lookup is
/// asked for.
pub fn compile_gpos_program(gpos: &[u8]) -> (r: Program)
    ensures
        r.wf(),
        r.untouched(),
        r.lookups@.len() == lookup_count_of(gpos@),
        r.table == Table::Gpos,
        r.compiler.detail == Detail::Full,
{
    Program::new_gpos(lookup_count(gpos))
}

/// A program over a substitution table. Nothing is compiled until a lookup is
/// asked for.
pub fn compile_gsub_program(gsub: &[u8]) -> (r: Program)
    ensures
        r.wf(),
        r.untouched(),
        r.lookups@.len() == lookup_count_of(gsub@),
        r.table == Table::Gsub,
        r.compiler.detail == Detail::Full,
{
    Program::new(lookup_count(gsub))
}

/// How many lookups a table that may be missing has.
pub open spec fn count_in(table: Option<&[u8]>) -> u16 {
    match table {
        Some(t) => lookup_count_of(t@),
        None => 0,
    }
}

/// Both programs of one font.
///
/// Worth using with one interner: substitution and positioning name many of the
/// same coverages, and interning across the pair collapses them to one copy.
pub fn compile_font(gsub: Option<&[u8]>, gpos: Option<&[u8]>) -> (r: (Program, Program))
    ensures
        r.0.wf() && r.0.untouched() && r.0.table == Table::Gsub,
        r.1.wf() && r.1.untouched() && r.1.table == Table::Gpos,
        r.0.lookups@.len() == count_in(gsub),
        r.1.lookups@.len() == count_in(gpos),
        r.0.compiler.detail == Detail::Full && r.1.compiler.detail == Detail::Full,
{
    compile_font_with_detail(gsub, gpos, Detail::Full)
}

/// The same, keeping less precomputation.
pub fn compile_font_with_detail(gsub: Option<&[u8]>, gpos: Option<&[u8]>, detail: Detail) -> (r: (
    Program,
    Program,
))
    ensures
        r.0.wf() && r.0.untouched() && r.0.table == Table::Gsub,
        r.1.wf() && r.1.untouched() && r.1.table == Table::Gpos,
        r.0.lookups@.len() == count_in(gsub),
        r.1.lookups@.len() == count_in(gpos),
        r.0.compiler.detail == detail && r.1.compiler.detail == detail,
{
    let gsub_count: u16 = match gsub {
        Some(t) => lookup_count(t),
        None => 0,
    };
    let gpos_count: u16 = match gpos {
        Some(t) => lookup_count(t),
        None => 0,
    };
    (
        Program::new_with_detail(gsub_count, detail),
        Program::new_gpos_with_detail(gpos_count, detail),
    )
}

/// Asking again changes nothing: the slot keeps its verdict, and neither the
/// font nor the interner is touched for it.
pub proof fn a_slot_keeps_its_verdict(
    p0: Program,
    p1: Program,
    p2: Program,
    pool0: Interner,
    pool1: Interner,
    pool2: Interner,
    index: u16,
    data: Seq<u8>,
    other: Seq<u8>,
)
    requires
        index < p0.lookups@.len(),
        Program::asked(p0, p1, pool0, pool1, index, data),
        Program::asked(p1, p2, pool1, pool2, index, other),
    ensures
        p2.lookups@ == p1.lookups@,
        pool2 == pool1,
{
    assert(p2.lookups@ =~= p1.lookups@);
}

/// A lookup is passed over only where it can touch nothing: one whose summary
/// admits a glyph that the text's summary admits may touch it, and one that could
/// not be summarised may touch whatever there is. The first summary stays, and
/// there is no lookup past the last.
pub proof fn a_lookup_that_can_act_is_not_passed_over(
    p: &mut Program,
    index: u16,
    built: Option<Digest>,
    seen: &[u64; 3],
    text: Digest,
    glyph: u32,
    r: bool,
)
    requires
        old(p).wf(),
        call_ensures(Program::may_touch, (p, index, built, seen), r),
        seen@ == text.words@,
        text.admits(glyph),
    ensures
        index >= old(p).lookups@.len() ==> !r,
        index < old(p).lookups@.len() && old(p).lookups@[index as int].digest.words@ == seq![0u64, 0u64, 0u64] ==> {
            &&& built is None ==> r
            &&& built is Some && built->0.admits(glyph) ==> r
            &&& built is Some ==> final(p).lookups@[index as int].digest.words@ == built->0.words@
        },
        index < old(p).lookups@.len() && old(p).lookups@[index as int].digest.words@ != seq![0u64, 0u64, 0u64]
            ==> final(p).lookups@[index as int].digest.words@ == old(p).lookups@[index as int].digest.words@,
        index < old(p).lookups@.len() ==> final(p).lookups@[index as int].lookup == old(
            p,
        ).lookups@[index as int].lookup,
{
    if index < old(p).lookups@.len() {
        let words = old(p).summary_words(index, built);
        if old(p).lookups@[index as int].digest.words@ == seq![0u64, 0u64, 0u64] {
            if built is Some && built->0.admits(glyph) {
                a_shared_glyph_is_never_denied(built->0, text, glyph);
            }
            if built is None {
                let full = seq![u64::MAX, u64::MAX, u64::MAX];
                assert forall|k: int| 0 <= k < 3 implies text.words@[k] != 0 by {
                    crate::digest::lemma_slot(glyph, k);
                    assert(crate::bits::bit(text.words@[k], crate::digest::slot(glyph, k)));
                    crate::bits::lemma_zero_has_no_bits(crate::digest::slot(glyph, k));
                }
                let (a, b, c) = (text.words@[0], text.words@[1], text.words@[2]);
                assert(u64::MAX & a == a && u64::MAX & b == b && u64::MAX & c == c) by (bit_vector);
            }
        }
    }
}

proof fn lemma_empty_slots(slots: Seq<CompiledLookupSlot>, n: nat, i: u16)
    requires
        n <= slots.len() <= 0xffff,
    ensures
        empty_slots(slots, n).contains(i) <==> i < n && slots[i as int].lookup == Some(None::<CompiledLookup>),
    decreases n,
{
    if n > 0 {
        let m = (n - 1) as nat;
        lemma_empty_slots(slots, m, i);
        let before = empty_slots(slots, m);
        let now = empty_slots(slots, n);
        if now.contains(i) {
            let k = choose|k: int| 0 <= k < now.len() && now[k] == i;
            if k < before.len() {
                assert(before[k] == i);
            }
        }
        if before.contains(i) {
            let k = choose|k: int| 0 <= k < before.len() && before[k] == i;
            assert(now[k] == i);
        }
        if slots[m as int].lookup == Some(None::<CompiledLookup>) {
            assert(now.last() == m);
        }
    }
}

proof fn lemma_filled(slots: Seq<CompiledLookupSlot>)
    ensures
        filled(slots) <= slots.len(),
        (forall|i: int| 0 <= i < slots.len() ==> (#[trigger] slots[i]).lookup is Some) ==> filled(slots)
            == slots.len(),
        (forall|i: int| 0 <= i < slots.len() ==> (#[trigger] slots[i]).lookup is None) ==> filled(slots) == 0,
    decreases slots.len(),
{
    if slots.len() > 0 {
        let less = slots.drop_last();
        lemma_filled(less);
        if forall|i: int| 0 <= i < slots.len() ==> (#[trigger] slots[i]).lookup is Some {
            assert forall|i: int| 0 <= i < less.len() implies (#[trigger] less[i]).lookup is Some by {
                assert(less[i] == slots[i]);
            }
        }
        if forall|i: int| 0 <= i < slots.len() ==> (#[trigger] slots[i]).lookup is None {
            assert forall|i: int| 0 <= i < less.len() implies (#[trigger] less[i]).lookup is None by {
                assert(less[i] == slots[i]);
            }
        }
    }
}

/// Compiling a whole font compiles every lookup, and what is missing afterwards
/// are exactly the lookups that compiled to nothing. A new program has compiled
/// none.
pub proof fn a_whole_font_is_compiled(
    p: &mut Program,
    data: &[u8],
    pool: &mut Interner,
    r: Vec<u16>,
    n: usize,
    i: u16,
    compiled: bool,
)
    requires
        old(p).wf(),
        data@.len() <= 0xFFFF_0000,
        pool_sound(*old(pool)),
        call_ensures(Program::missing, (p, data, pool), r),
        call_ensures(Program::compiled_count, (&*final(p),), n),
        call_ensures(Program::is_compiled, (&*final(p), i), compiled),
    ensures
        n == old(p).lookups@.len(),
        compiled <==> i < old(p).lookups@.len(),
        r@.contains(i) <==> i < old(p).lookups@.len() && final(p).lookups@[i as int].lookup == Some(
            None::<CompiledLookup>,
        ),
{
    lemma_empty_slots(final(p).lookups@, final(p).lookups@.len(), i);
    lemma_filled(final(p).lookups@);
}

/// A lookup that is asked for is the font's, or nothing where the font has none
/// there or nothing of it can be read; asking for one fills no other.
pub proof fn asking_fills_one_slot<'a>(
    p: &'a mut Program,
    index: u16,
    data: &[u8],
    pool: &mut Interner,
    r: Option<&'a CompiledLookup>,
    i: int,
)
    requires
        old(p).wf(),
        data@.len() <= 0xFFFF_0000,
        pool_sound(*old(pool)),
        call_ensures(Program::get, (p, index, data, pool), r),
        0 <= i < old(p).lookups@.len(),
    ensures
        index >= old(p).lookups@.len() ==> r is None,
        i != index ==> final(p).lookups@[i] == old(p).lookups@[i],
        i == index && old(p).lookups@[i].lookup is Some ==> final(p).lookups@[i] == old(p).lookups@[i],
        i == index ==> final(p).lookups@[i].lookup is Some,
        i == index && r is Some ==> final(p).lookups@[i].lookup == Some(Some(*r->0)),
        i == index && r is None ==> final(p).lookups@[i].lookup == Some(None::<CompiledLookup>),
        i == index && old(p).lookups@[i].lookup is None && r is Some ==> lookup_at(
            data@,
            old(p).table,
            index,
        ) is Some,
{
}

} // verus!
