//! Compiled tables shared across every subtable of a font.
//!
//! Fonts reference the same coverage and class tables over and over. Interning
//! is keyed by the table's own font bytes, so a repeat reference is answered
//! without decoding the table at all.

use hashbrown::{DefaultHashBuilder, HashTable};
use std::hash::BuildHasher;
use std::sync::Arc;
use vstd::multiset::Multiset;
use vstd::prelude::*;

use crate::class_map::ClassMap;
use crate::set::{Coverage, GlyphSet};

verus! {

/// `hashbrown::DefaultHashBuilder`, which is seeded anew in each process.
#[verifier::external_type_specification]
#[verifier::external_body]
pub struct ExDefaultHashBuilder(DefaultHashBuilder);

/// `DefaultHashBuilder::default`: a hasher of some seed.
#[verifier::external_body]
fn new_hasher() -> DefaultHashBuilder {
    DefaultHashBuilder::default()
}

/// `BuildHasher::hash_one` on a domain byte and the bytes. What it returns rests
/// on the seed, so nothing is promised of it, not even that it comes again.
#[verifier::external_body]
fn hash_bytes(hasher: &DefaultHashBuilder, domain: u8, bytes: &[u8]) -> u64 {
    hasher.hash_one((domain, bytes))
}

/// Keys with the position of what they stand for, as
/// `(bucket hash, check hash, position)`.
#[verifier::external_body]
pub struct KeyTable {
    entries: HashTable<(u64, u64, usize)>,
}

/// The entries a key table holds.
pub uninterp spec fn keys_held(t: KeyTable) -> Multiset<(u64, u64, usize)>;

/// `HashTable::new`: nothing is held.
#[verifier::external_body]
fn new_keys() -> (t: KeyTable)
    ensures
        keys_held(t) == Multiset::<(u64, u64, usize)>::empty(),
{
    KeyTable { entries: HashTable::new() }
}

/// `HashTable::find`: an entry whose check hash is the given one, where any with
/// both hashes is there. The search sees every entry of the bucket hash, and may
/// also see one of another.
#[verifier::external_body]
fn find_key(t: &KeyTable, hash: u64, check: u64) -> (r: Option<(u64, u64, usize)>)
    ensures
        r matches Some(e) ==> keys_held(*t).count(e) > 0 && e.1 == check,
        r is None ==> forall|e: (u64, u64, usize)| #[trigger]
            keys_held(*t).count(e) > 0 ==> !(e.0 == hash && e.1 == check),
{
    t.entries.find(hash, |e| same_check(e, check)).copied()
}

/// `HashTable::insert_unique`: the entry is held once more. Entries are filed
/// under their own bucket hash.
#[verifier::external_body]
fn insert_key(t: &mut KeyTable, entry: (u64, u64, usize))
    ensures
        keys_held(*final(t)) == keys_held(*old(t)).insert(entry),
{
    t.entries.insert_unique(entry.0, entry, |e| e.0);
}

/// `HashTable::len`: how many entries are held.
#[verifier::external_body]
fn count_keys(t: &KeyTable) -> (n: usize)
    ensures
        n == keys_held(*t).len(),
{
    t.entries.len()
}

/// Whether an entry has the check hash.
fn same_check(e: &(u64, u64, usize), check: u64) -> (r: bool)
    ensures
        r == (e.1 == check),
{
    e.1 == check
}

/// Whether two hashes are a digest of some bytes: what hashing them gave, under
/// one domain and under the other.
pub closed spec fn keyed(hasher: DefaultHashBuilder, bytes: Seq<u8>, hash: u64, check: u64) -> bool {
    exists|s: &[u8]|
        s@ == bytes && #[trigger] call_ensures(hash_bytes, (&hasher, 0u8, s), hash) && call_ensures(
            hash_bytes,
            (&hasher, 1u8, s),
            check,
        )
}

/// Whether different bytes have digests with the same check hash.
pub open spec fn collides(hasher: DefaultHashBuilder) -> bool {
    exists|a: Seq<u8>, b: Seq<u8>, hash_a: u64, hash_b: u64, check: u64|
        a != b && #[trigger] keyed(hasher, a, hash_a, check) && #[trigger] keyed(
            hasher,
            b,
            hash_b,
            check,
        )
}

/// One kind of interned table, keyed by a 128-bit digest of the font bytes each
/// was built from rather than by a copy of them.
///
/// Two hashes rather than one, because a collision does not crash: it hands
/// back the wrong compiled table. At 128 bits the chance of an accidental one
/// across the few hundred tables a font interns is vanishing, and the seed is
/// drawn per process, so a crafted pair cannot be computed in advance.
pub struct Table<T> {
    keys: KeyTable,
    hasher: DefaultHashBuilder,
    values: Vec<Arc<T>>,
    origins: Ghost<Seq<Seq<u8>>>,
    faithful: Ghost<bool>,
}

impl<T> Table<T> {
    /// What is interned, in the order it came.
    pub closed spec fn values(&self) -> Seq<Arc<T>> {
        self.values@
    }

    /// The bytes each interned table came from.
    pub closed spec fn origins(&self) -> Seq<Seq<u8>> {
        self.origins@
    }

    /// The keys, as `(bucket hash, check hash, position)`.
    pub closed spec fn keys(&self) -> Multiset<(u64, u64, usize)> {
        keys_held(self.keys)
    }

    /// What the digests are made with.
    pub closed spec fn hasher_of(&self) -> DefaultHashBuilder {
        self.hasher
    }

    /// Whether every key is a digest of the bytes that its table came from.
    pub open spec fn hashed(&self) -> bool {
        forall|e: (u64, u64, usize)| #[trigger]
            self.keys().count(e) > 0 ==> e.2 < self.origins().len() && keyed(
                self.hasher_of(),
                self.origins()[e.2 as int],
                e.0,
                e.1,
            )
    }

    /// Whether every table handed back so far came from the bytes that asked
    /// for it.
    pub closed spec fn faithful(&self) -> bool {
        self.faithful@
    }

    /// There is one key for each interned table.
    pub closed spec fn wf(&self) -> bool {
        &&& self.origins@.len() == self.values@.len() <= usize::MAX
        &&& keys_held(self.keys).len() == self.values@.len()
        &&& forall|e: (u64, u64, usize)| #[trigger]
            keys_held(self.keys).count(e) > 0 ==> e.2 < self.values@.len()
    }

    pub fn new() -> (t: Table<T>)
        ensures
            t.wf(),
            t.values() == Seq::<Arc<T>>::empty(),
            t.origins() == Seq::<Seq<u8>>::empty(),
            t.keys() == Multiset::<(u64, u64, usize)>::empty(),
            t.hashed(),
            t.faithful(),
    {
        Table {
            keys: new_keys(),
            hasher: new_hasher(),
            values: Vec::new(),
            origins: Ghost(Seq::empty()),
            faithful: Ghost(true),
        }
    }

    pub fn len(&self) -> (n: usize)
        requires
            self.wf(),
        ensures
            n == self.values().len(),
    {
        count_keys(&self.keys)
    }

    /// What asking for `bytes` under a key may do: hand back what was interned
    /// under the same check hash, or intern what is built, which it does where
    /// nothing has the key.
    pub open spec fn asked(
        before: Table<T>,
        after: Table<T>,
        hash: u64,
        check: u64,
        bytes: Seq<u8>,
        r: Arc<T>,
    ) -> bool {
        ||| Table::hit(before, after, check, bytes, r)
        ||| Table::missed(before, after, hash, check, bytes, r)
    }

    /// What asking for `bytes` may do: what asking under a digest of them does.
    pub open spec fn answered(before: Table<T>, after: Table<T>, bytes: Seq<u8>, r: Arc<T>) -> bool {
        &&& after.hasher_of() == before.hasher_of()
        &&& exists|hash: u64, check: u64|
            keyed(before.hasher_of(), bytes, hash, check) && #[trigger] Table::asked(
                before,
                after,
                hash,
                check,
                bytes,
                r,
            )
    }

    /// Something was handed back: one with the check hash, and nothing changed
    /// but that it may not have come from these bytes.
    pub open spec fn hit(before: Table<T>, after: Table<T>, check: u64, bytes: Seq<u8>, r: Arc<T>) -> bool {
        exists|e: (u64, u64, usize)|
            #![trigger before.keys().count(e)]
            {
                &&& before.keys().count(e) > 0
                &&& e.1 == check
                &&& e.2 < before.values().len()
                &&& r == before.values()[e.2 as int]
                &&& after.values() == before.values()
                &&& after.origins() == before.origins()
                &&& after.keys() == before.keys()
                &&& after.faithful() == (before.faithful() && before.origins()[e.2 as int] == bytes)
            }
    }

    /// Something was added: nothing had the key.
    pub open spec fn missed(
        before: Table<T>,
        after: Table<T>,
        hash: u64,
        check: u64,
        bytes: Seq<u8>,
        r: Arc<T>,
    ) -> bool {
        &&& forall|e: (u64, u64, usize)| #[trigger]
            before.keys().count(e) > 0 ==> !(e.0 == hash && e.1 == check)
        &&& after.values() == before.values().push(r)
        &&& after.origins() == before.origins().push(bytes)
        &&& after.keys() == before.keys().insert((hash, check, before.values().len() as usize))
        &&& after.faithful() == before.faithful()
    }

    /// Find what is interned under a key, or build and intern it.
    pub fn intern_keyed<F: FnOnce() -> T>(
        &mut self,
        hash: u64,
        check: u64,
        bytes: &[u8],
        build: F,
    ) -> (r: Arc<T>)
        requires
            old(self).wf(),
            build.requires(()),
        ensures
            final(self).wf(),
            final(self).hasher_of() == old(self).hasher_of(),
            Table::asked(*old(self), *final(self), hash, check, bytes@, r),
            final(self).values().len() > old(self).values().len() ==> build.ensures((), *r),
    {
        if let Some(e) = find_key(&self.keys, hash, check) {
            let r = Arc::clone(&self.values[e.2]);
            proof {
                self.faithful@ = self.faithful@ && self.origins@[e.2 as int] == bytes@;
                assert(old(self).keys().count(e) > 0);
            }
            return r;
        }
        let at: usize = self.values.len();
        let r = Arc::new(build());
        insert_key(&mut self.keys, (hash, check, at));
        self.values.push(Arc::clone(&r));
        proof {
            self.origins@ = self.origins@.push(bytes@);
            assert(self.values@.len() == self.values.len());
        }
        r
    }

    /// Intern by the digest of the bytes. The leading byte separates the
    /// domains, so the halves of the key are not the same function of the same
    /// input.
    pub fn intern<F: FnOnce() -> T>(&mut self, bytes: &[u8], build: F) -> (r: Arc<T>)
        requires
            old(self).wf(),
            build.requires(()),
        ensures
            final(self).wf(),
            Table::answered(*old(self), *final(self), bytes@, r),
            final(self).values().len() > old(self).values().len() ==> build.ensures((), *r),
    {
        let hash: u64 = hash_bytes(&self.hasher, 0, bytes);
        let check: u64 = hash_bytes(&self.hasher, 1, bytes);
        assert(keyed(self.hasher_of(), bytes@, hash, check));
        self.intern_keyed(hash, check, bytes, build)
    }
}

impl<T> Table<T> {
    /// Whether what was interned before is still there, in its place.
    pub open spec fn extends(&self, before: Table<T>) -> bool {
        &&& self.hasher_of() == before.hasher_of()
        &&& self.values().len() >= before.values().len()
        &&& self.origins().len() >= before.origins().len()
        &&& forall|i: int|
            0 <= i < before.values().len() ==> #[trigger] self.values()[i] == before.values()[i]
        &&& forall|i: int|
            0 <= i < before.origins().len() ==> #[trigger] self.origins()[i] == before.origins()[i]
    }
}

/// Asking for bytes hands back something that is interned. A table that knew its
/// keys for digests of what it holds still does, and what is handed back comes
/// from other bytes only where different bytes have digests with the same check
/// hash.
pub proof fn a_wrong_answer_takes_a_collision<T>(before: Table<T>, after: Table<T>, bytes: Seq<u8>, r: Arc<T>) -> (i:
    int)
    requires
        before.wf(),
        after.wf(),
        before.hashed(),
        Table::answered(before, after, bytes, r),
    ensures
        after.extends(before),
        before.origins().len() == before.values().len(),
        after.origins().len() == after.values().len(),
        after.hashed(),
        0 <= i < after.values().len(),
        r == after.values()[i],
        after.origins()[i] != bytes ==> collides(after.hasher_of()),
        after.faithful() == (before.faithful() && after.origins()[i] == bytes),
        after.values().len() > before.values().len() ==> i == before.values().len() && after.values().len()
            == i + 1 && after.origins()[i] == bytes,
{
    let (hash, check) = choose|hash: u64, check: u64|
        keyed(before.hasher_of(), bytes, hash, check) && #[trigger] Table::asked(
            before,
            after,
            hash,
            check,
            bytes,
            r,
        );
    if Table::hit(before, after, check, bytes, r) {
        let e = choose|e: (u64, u64, usize)|
            #![trigger before.keys().count(e)]
            {
                &&& before.keys().count(e) > 0
                &&& e.1 == check
                &&& e.2 < before.values().len()
                &&& r == before.values()[e.2 as int]
                &&& after.values() == before.values()
                &&& after.origins() == before.origins()
                &&& after.keys() == before.keys()
                &&& after.faithful() == (before.faithful() && before.origins()[e.2 as int] == bytes)
            };
        let other = before.origins()[e.2 as int];
        assert(keyed(before.hasher_of(), other, e.0, check));
        assert(other != bytes ==> collides(before.hasher_of()));
        e.2 as int
    } else {
        let at = before.values().len();
        assert forall|e: (u64, u64, usize)| #[trigger] after.keys().count(e) > 0 implies e.2
            < after.origins().len() && keyed(after.hasher_of(), after.origins()[e.2 as int], e.0, e.1) by {
            if e != (hash, check, at as usize) {
                assert(before.keys().count(e) > 0);
            }
        }
        at as int
    }
}

/// Where nothing had the check hash before, asking again under the same key
/// builds nothing and hands back what the first asking built.
pub proof fn asking_again_shares<T>(
    t0: Table<T>,
    t1: Table<T>,
    t2: Table<T>,
    hash: u64,
    check: u64,
    bytes: Seq<u8>,
    r1: Arc<T>,
    r2: Arc<T>,
)
    requires
        t0.wf(),
        t0.values().len() < usize::MAX,
        forall|e: (u64, u64, usize)| #[trigger] t0.keys().count(e) > 0 ==> e.1 != check,
        Table::asked(t0, t1, hash, check, bytes, r1),
        Table::asked(t1, t2, hash, check, bytes, r2),
    ensures
        r2 == r1,
        t2.values() == t1.values(),
        t2.values().len() == t0.values().len() + 1,
        t2.faithful() == t0.faithful(),
{
    let added = (hash, check, t0.values().len() as usize);
    assert(Table::missed(t0, t1, hash, check, bytes, r1));
    assert(t1.keys().count(added) > 0);
    assert(Table::hit(t1, t2, check, bytes, r2));
    let e = choose|e: (u64, u64, usize)|
        #![trigger t1.keys().count(e)]
        {
            &&& t1.keys().count(e) > 0
            &&& e.1 == check
            &&& e.2 < t1.values().len()
            &&& r2 == t1.values()[e.2 as int]
            &&& t2.values() == t1.values()
            &&& t2.origins() == t1.origins()
            &&& t2.keys() == t1.keys()
            &&& t2.faithful() == (t1.faithful() && t1.origins()[e.2 as int] == bytes)
        };
    if e != added {
        assert(t0.keys().count(e) > 0);
    }
}

/// Under different check hashes, tables are interned separately.
pub proof fn different_keys_intern_separately<T>(
    t0: Table<T>,
    t1: Table<T>,
    hash: u64,
    check: u64,
    bytes: Seq<u8>,
    r: Arc<T>,
)
    requires
        forall|e: (u64, u64, usize)| #[trigger] t0.keys().count(e) > 0 ==> e.1 != check,
        Table::asked(t0, t1, hash, check, bytes, r),
    ensures
        t1.values() == t0.values().push(r),
        t1.origins() == t0.origins().push(bytes),
{
}

/// What interned sets hold, each with the space it takes itself.
pub open spec fn sets_held(values: Seq<Arc<GlyphSet>>) -> nat
    decreases values.len(),
{
    if values.len() == 0 {
        0
    } else {
        sets_held(values.drop_last()) + values.last().bytes() + vstd::layout::size_of::<GlyphSet>()
    }
}

fn sum_sets(values: &[Arc<GlyphSet>]) -> (n: usize)
    requires
        forall|i: int| 0 <= i < values@.len() ==> (#[trigger] values@[i]).wf(),
        sets_held(values@) <= usize::MAX,
    ensures
        n == sets_held(values@),
{
    let mut n: usize = 0;
    let mut i: usize = 0;
    while i < values.len()
        invariant
            i <= values@.len(),
            forall|i: int| 0 <= i < values@.len() ==> (#[trigger] values@[i]).wf(),
            sets_held(values@) <= usize::MAX,
            n == sets_held(values@.take(i as int)),
        decreases values@.len() - i,
    {
        proof {
            assert(values@.take(i + 1).drop_last() =~= values@.take(i as int));
            lemma_sets_held(values@, i + 1);
        }
        let each: usize = core::mem::size_of::<GlyphSet>();
        n = n + values[i].heap_bytes() + each;
        i += 1;
    }
    assert(values@.take(i as int) =~= values@);
    n
}

proof fn lemma_sets_held(values: Seq<Arc<GlyphSet>>, i: int)
    requires
        0 <= i <= values.len(),
    ensures
        sets_held(values.take(i)) <= sets_held(values),
    decreases values.len() - i,
{
    if i < values.len() {
        assert(values.take(i + 1).drop_last() =~= values.take(i));
        lemma_sets_held(values, i + 1);
    } else {
        assert(values.take(i) =~= values);
    }
}

/// What interned coverages hold, each with the space it takes itself.
pub open spec fn coverages_held(values: Seq<Arc<Coverage>>) -> nat
    decreases values.len(),
{
    if values.len() == 0 {
        0
    } else {
        coverages_held(values.drop_last()) + values.last().bytes() + vstd::layout::size_of::<Coverage>()
    }
}

fn sum_coverages(values: &[Arc<Coverage>]) -> (n: usize)
    requires
        forall|i: int| 0 <= i < values@.len() ==> (#[trigger] values@[i]).wf(),
        coverages_held(values@) <= usize::MAX,
    ensures
        n == coverages_held(values@),
{
    let mut n: usize = 0;
    let mut i: usize = 0;
    while i < values.len()
        invariant
            i <= values@.len(),
            forall|i: int| 0 <= i < values@.len() ==> (#[trigger] values@[i]).wf(),
            coverages_held(values@) <= usize::MAX,
            n == coverages_held(values@.take(i as int)),
        decreases values@.len() - i,
    {
        proof {
            assert(values@.take(i + 1).drop_last() =~= values@.take(i as int));
            lemma_coverages_held(values@, i + 1);
        }
        let each: usize = core::mem::size_of::<Coverage>();
        n = n + values[i].heap_bytes() + each;
        i += 1;
    }
    assert(values@.take(i as int) =~= values@);
    n
}

proof fn lemma_coverages_held(values: Seq<Arc<Coverage>>, i: int)
    requires
        0 <= i <= values.len(),
    ensures
        coverages_held(values.take(i)) <= coverages_held(values),
    decreases values.len() - i,
{
    if i < values.len() {
        assert(values.take(i + 1).drop_last() =~= values.take(i));
        lemma_coverages_held(values, i + 1);
    } else {
        assert(values.take(i) =~= values);
    }
}

/// What interned class maps hold, each with the space it takes itself.
pub open spec fn classes_held(values: Seq<Arc<ClassMap>>) -> nat
    decreases values.len(),
{
    if values.len() == 0 {
        0
    } else {
        classes_held(values.drop_last()) + values.last().bytes() + vstd::layout::size_of::<ClassMap>()
    }
}

fn sum_classes(values: &[Arc<ClassMap>]) -> (n: usize)
    requires
        forall|i: int| 0 <= i < values@.len() ==> (#[trigger] values@[i]).wf(),
        classes_held(values@) <= usize::MAX,
    ensures
        n == classes_held(values@),
{
    let mut n: usize = 0;
    let mut i: usize = 0;
    while i < values.len()
        invariant
            i <= values@.len(),
            forall|i: int| 0 <= i < values@.len() ==> (#[trigger] values@[i]).wf(),
            classes_held(values@) <= usize::MAX,
            n == classes_held(values@.take(i as int)),
        decreases values@.len() - i,
    {
        proof {
            assert(values@.take(i + 1).drop_last() =~= values@.take(i as int));
            lemma_classes_held(values@, i + 1);
        }
        let each: usize = core::mem::size_of::<ClassMap>();
        n = n + values[i].heap_bytes() + each;
        i += 1;
    }
    assert(values@.take(i as int) =~= values@);
    n
}

proof fn lemma_classes_held(values: Seq<Arc<ClassMap>>, i: int)
    requires
        0 <= i <= values.len(),
    ensures
        classes_held(values.take(i)) <= classes_held(values),
    decreases values.len() - i,
{
    if i < values.len() {
        assert(values.take(i + 1).drop_last() =~= values.take(i));
        lemma_classes_held(values, i + 1);
    } else {
        assert(values.take(i) =~= values);
    }
}

/// The three kinds of table that subtables share.
///
/// They are separate because the same bytes compile to different structures: a
/// coverage read as a set carries no rank data, while one read for its index
/// does.
pub struct Interner {
    pub sets: Table<GlyphSet>,
    pub coverages: Table<Coverage>,
    pub classes: Table<ClassMap>,
}

impl Interner {
    pub open spec fn wf(&self) -> bool {
        &&& self.sets.wf()
        &&& self.coverages.wf()
        &&& self.classes.wf()
    }

    /// Whether every key is a digest of the bytes that its table came from.
    pub open spec fn hashed(&self) -> bool {
        &&& self.sets.hashed()
        &&& self.coverages.hashed()
        &&& self.classes.hashed()
    }

    /// Whether different bytes have digests with the same check hash, for one of
    /// the three kinds.
    pub open spec fn collided(&self) -> bool {
        ||| collides(self.sets.hasher_of())
        ||| collides(self.coverages.hasher_of())
        ||| collides(self.classes.hasher_of())
    }

    /// Whether what was interned before is still there, in its place.
    pub open spec fn extends(&self, before: Interner) -> bool {
        &&& self.sets.extends(before.sets)
        &&& self.coverages.extends(before.coverages)
        &&& self.classes.extends(before.classes)
    }

    /// Whether every table handed back so far came from the bytes that asked.
    pub open spec fn faithful(&self) -> bool {
        &&& self.sets.faithful()
        &&& self.coverages.faithful()
        &&& self.classes.faithful()
    }

    pub fn new() -> (r: Interner)
        ensures
            r.wf(),
            r.hashed(),
            r.faithful(),
            r.sets.values().len() == 0,
            r.coverages.values().len() == 0,
            r.classes.values().len() == 0,
            r.sets.origins().len() == 0,
            r.coverages.origins().len() == 0,
            r.classes.origins().len() == 0,
    {
        Interner { sets: Table::new(), coverages: Table::new(), classes: Table::new() }
    }

    /// A membership-only set, for coverages read as sets.
    pub fn set<F: FnOnce() -> GlyphSet>(&mut self, bytes: &[u8], build: F) -> (r: Arc<GlyphSet>)
        requires
            old(self).wf(),
            build.requires(()),
        ensures
            final(self).wf(),
            final(self).coverages == old(self).coverages,
            final(self).classes == old(self).classes,
            Table::answered(old(self).sets, final(self).sets, bytes@, r),
            final(self).sets.values().len() > old(self).sets.values().len() ==> build.ensures((), *r),
    {
        self.sets.intern(bytes, build)
    }

    /// An indexed coverage, for subtables that index a parallel array.
    pub fn coverage<F: FnOnce() -> Coverage>(&mut self, bytes: &[u8], build: F) -> (r: Arc<Coverage>)
        requires
            old(self).wf(),
            build.requires(()),
        ensures
            final(self).wf(),
            final(self).sets == old(self).sets,
            final(self).classes == old(self).classes,
            Table::answered(old(self).coverages, final(self).coverages, bytes@, r),
            final(self).coverages.values().len() > old(self).coverages.values().len() ==> build.ensures(
                (),
                *r,
            ),
    {
        self.coverages.intern(bytes, build)
    }

    pub fn class_map<F: FnOnce() -> ClassMap>(&mut self, bytes: &[u8], build: F) -> (r: Arc<ClassMap>)
        requires
            old(self).wf(),
            build.requires(()),
        ensures
            final(self).wf(),
            final(self).sets == old(self).sets,
            final(self).coverages == old(self).coverages,
            Table::answered(old(self).classes, final(self).classes, bytes@, r),
            final(self).classes.values().len() > old(self).classes.values().len() ==> build.ensures(
                (),
                *r,
            ),
    {
        self.classes.intern(bytes, build)
    }

    /// Distinct tables interned, as `(sets, coverages, classes)`.
    pub fn len(&self) -> (r: (usize, usize, usize))
        requires
            self.wf(),
        ensures
            r.0 == self.sets.values().len(),
            r.1 == self.coverages.values().len(),
            r.2 == self.classes.values().len(),
    {
        (self.sets.len(), self.coverages.len(), self.classes.len())
    }

    pub fn is_empty(&self) -> (r: bool)
        requires
            self.wf(),
        ensures
            r == (self.sets.values().len() == 0 && self.coverages.values().len() == 0
                && self.classes.values().len() == 0),
    {
        let (sets, coverages, classes) = self.len();
        sets == 0 && coverages == 0 && classes == 0
    }

    /// Bytes held by the interning keys themselves: sixteen an entry.
    pub fn key_bytes(&self) -> (n: usize)
        requires
            self.wf(),
            (self.sets.values().len() + self.coverages.values().len() + self.classes.values().len()) * 16
                <= usize::MAX,
        ensures
            n == (self.sets.values().len() + self.coverages.values().len()
                + self.classes.values().len()) * 16,
    {
        let (sets, coverages, classes) = self.len();
        (sets + coverages + classes) * 16
    }

    /// Bytes held by the compiled tables. The interning keys are bookkeeping
    /// and are not counted.
    pub fn heap_bytes(&self) -> (n: usize)
        requires
            self.wf(),
            forall|i: int|
                0 <= i < self.sets.values().len() ==> (#[trigger] self.sets.values()[i]).wf(),
            forall|i: int|
                0 <= i < self.coverages.values().len() ==> (#[trigger] self.coverages.values()[i]).wf(),
            forall|i: int|
                0 <= i < self.classes.values().len() ==> (#[trigger] self.classes.values()[i]).wf(),
            sets_held(self.sets.values()) + coverages_held(self.coverages.values()) + classes_held(
                self.classes.values(),
            ) <= usize::MAX,
        ensures
            n == sets_held(self.sets.values()) + coverages_held(self.coverages.values())
                + classes_held(self.classes.values()),
    {
        sum_sets(&self.sets.values) + sum_coverages(&self.coverages.values) + sum_classes(
            &self.classes.values,
        )
    }
}

impl Default for Interner {
    fn default() -> (r: Interner)
        ensures
            r.wf(),
            r.hashed(),
            r.faithful(),
            r.sets.values().len() == 0,
            r.coverages.values().len() == 0,
            r.classes.values().len() == 0,
            r.sets.origins().len() == 0,
            r.coverages.origins().len() == 0,
            r.classes.origins().len() == 0,
    {
        Interner::new()
    }
}

} // verus!
