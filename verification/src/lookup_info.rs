//! What is kept of a lookup beside its bytes: which kinds of subtable it has,
//! where they stand, and digests of the glyphs they start on and continue with.

use vstd::prelude::*;

use crate::bytes::{be16, be32, fits, long, word};
use crate::compiler::{chain_input, counted, read_far_count, read_far_offsets};
use crate::digest::{words_of, Digest};
use crate::layout::{
    extension_type, format_at, header_bytes, lemma_format_fits, lookup_count, lookup_count_of,
    lookup_list_at, offsets_at, props_at, props_of, read_format, read_offsets, subtable_offsets,
    Format, Table,
};
use crate::seconds::{coverage_seconds, listed, seconds, seconds_of};
use crate::tables::coverage_from;

verus! {

/// All possible subtables in a lookup.
#[derive(Copy, Clone, PartialEq, Eq, Debug, Structural)]
pub enum SubtableKind {
    SingleSubst1,
    SingleSubst2,
    MultipleSubst1,
    AlternateSubst1,
    LigatureSubst1,
    SinglePos1,
    SinglePos2,
    PairPos1,
    PairPos2,
    CursivePos1,
    MarkBasePos1,
    MarkMarkPos1,
    MarkLigPos1,
    ContextFormat1,
    ContextFormat2,
    ContextFormat3,
    ChainedContextFormat1,
    ChainedContextFormat2,
    ChainedContextFormat3,
    ReverseChainContext,
}

/// The kind of a format.
pub open spec fn kind_of(f: Format) -> SubtableKind {
    match f {
        Format::SingleDelta => SubtableKind::SingleSubst1,
        Format::SingleList => SubtableKind::SingleSubst2,
        Format::Multiple => SubtableKind::MultipleSubst1,
        Format::Alternate => SubtableKind::AlternateSubst1,
        Format::Ligature => SubtableKind::LigatureSubst1,
        Format::SinglePos1 => SubtableKind::SinglePos1,
        Format::SinglePos2 => SubtableKind::SinglePos2,
        Format::Pair1 => SubtableKind::PairPos1,
        Format::Pair2 => SubtableKind::PairPos2,
        Format::Cursive => SubtableKind::CursivePos1,
        Format::MarkBase => SubtableKind::MarkBasePos1,
        Format::MarkMark => SubtableKind::MarkMarkPos1,
        Format::MarkLig => SubtableKind::MarkLigPos1,
        Format::Context1 => SubtableKind::ContextFormat1,
        Format::Context2 => SubtableKind::ContextFormat2,
        Format::Context3 => SubtableKind::ContextFormat3,
        Format::Chain1 => SubtableKind::ChainedContextFormat1,
        Format::Chain2 => SubtableKind::ChainedContextFormat2,
        Format::Chain3 => SubtableKind::ChainedContextFormat3,
        Format::Reverse => SubtableKind::ReverseChainContext,
    }
}

impl SubtableKind {
    pub fn of(f: Format) -> (r: SubtableKind)
        ensures
            r == kind_of(f),
    {
        match f {
            Format::SingleDelta => SubtableKind::SingleSubst1,
            Format::SingleList => SubtableKind::SingleSubst2,
            Format::Multiple => SubtableKind::MultipleSubst1,
            Format::Alternate => SubtableKind::AlternateSubst1,
            Format::Ligature => SubtableKind::LigatureSubst1,
            Format::SinglePos1 => SubtableKind::SinglePos1,
            Format::SinglePos2 => SubtableKind::SinglePos2,
            Format::Pair1 => SubtableKind::PairPos1,
            Format::Pair2 => SubtableKind::PairPos2,
            Format::Cursive => SubtableKind::CursivePos1,
            Format::MarkBase => SubtableKind::MarkBasePos1,
            Format::MarkMark => SubtableKind::MarkMarkPos1,
            Format::MarkLig => SubtableKind::MarkLigPos1,
            Format::Context1 => SubtableKind::ContextFormat1,
            Format::Context2 => SubtableKind::ContextFormat2,
            Format::Context3 => SubtableKind::ContextFormat3,
            Format::Chain1 => SubtableKind::ChainedContextFormat1,
            Format::Chain2 => SubtableKind::ChainedContextFormat2,
            Format::Chain3 => SubtableKind::ChainedContextFormat3,
            Format::Reverse => SubtableKind::ReverseChainContext,
        }
    }
}

/// How much a subtable may keep beside its bytes to be applied faster.
#[derive(Copy, Clone, PartialEq, Eq, Debug, Structural)]
pub enum SubtableExternalCacheMode {
    Full,
    Small,
}

/// The first eight subtables of a lookup may keep much.
pub open spec fn mode_of(index: int) -> SubtableExternalCacheMode {
    if index < 8 {
        SubtableExternalCacheMode::Full
    } else {
        SubtableExternalCacheMode::Small
    }
}

/// What the code that applies a subtable says of it: how much it gains from
/// being the lookup's cached one, and, of ligatures, what can come second.
#[derive(Copy, Clone, Debug)]
pub struct Hint {
    pub cost: u32,
    pub seconds: Digest,
}

/// Where a lookup stands.
pub struct LookupData<'a> {
    /// Offset of the lookup from the base of the layout table.
    pub offset: usize,
    /// True if the lookup comes from GSUB.
    pub is_subst: bool,
    /// Data of the layout table.
    pub table_data: &'a [u8],
}

/// The table a lookup comes from.
pub open spec fn table_of(is_subst: bool) -> Table {
    if is_subst {
        Table::Gsub
    } else {
        Table::Gpos
    }
}

/// Where the list of lookups says that one of them stands.
pub open spec fn listed_at(data: Seq<u8>, index: u16) -> Option<int> {
    match lookup_list_at(data) {
        None => None,
        Some(list) => {
            let offsets = offsets_at(data, list + 2, word(data, list));
            if index < offsets.len() {
                Some(list + offsets[index as int])
            } else {
                None
            }
        },
    }
}

impl<'a> LookupData<'a> {
    /// The lookup at an index of a table.
    pub fn find(table_data: &'a [u8], is_subst: bool, index: u16) -> (r: Option<LookupData<'a>>)
        ensures
            r is Some <==> listed_at(table_data@, index) is Some,
            r matches Some(l) ==> listed_at(table_data@, index) == Some(l.offset as int) && l.offset
                <= 0x1_fffe && l.is_subst == is_subst && l.table_data@ == table_data@,
    {
        if table_data.len() < 10 {
            return None;
        }
        let list: usize = be16(table_data, 8).unwrap() as usize;
        if list == 0 || list > table_data.len() || table_data.len() - list < 2 {
            return None;
        }
        let offsets = read_offsets(table_data, list + 2, be16(table_data, list).unwrap());
        if (index as usize) < offsets.len() {
            Some(
                LookupData { offset: list + offsets[index as usize] as usize, is_subst, table_data },
            )
        } else {
            None
        }
    }
}

/// What a subtable of a lookup type resolves to, seeing through one extension:
/// its format and its place. Types are read as bytes.
pub open spec fn resolved(data: Seq<u8>, table: Table, ty: u8, at: int) -> Option<(Format, int)> {
    if at > data.len() {
        None
    } else if ty != extension_type(table) {
        match format_at(data, table, ty as u16, at) {
            Some(f) => Some((f, at)),
            None => None,
        }
    } else {
        let inner = (word(data, at + 2) % 256) as u8;
        let far = at + long(data, at + 4);
        if !fits(data, at, 8) || inner == extension_type(table) || far > u32::MAX || far > data.len() {
            None
        } else {
            match format_at(data, table, inner as u16, far) {
                Some(f) => Some((f, far)),
                None => None,
            }
        }
    }
}

/// The glyphs that what a format matches can start with, if they can be read.
pub open spec fn firsts(data: Seq<u8>, f: Format, at: int) -> Option<Seq<u32>> {
    let offsets = if f == Format::Context3 {
        offsets_at(data, at + 6, word(data, at + 2))
    } else if f == Format::Chain3 {
        counted(data, chain_input(data, at))
    } else {
        seq![word(data, at + 2)]
    };
    if offsets.len() == 0 {
        None
    } else {
        coverage_from(data, at, offsets[0] as int)
    }
}

/// What a subtable of a lookup type resolves to, if the glyphs that it starts
/// on can be read: its format, its place, and those glyphs.
#[verifier::opaque]
pub open spec fn found(data: Seq<u8>, table: Table, ty: u8, at: int) -> Option<(Format, int, Seq<u32>)> {
    match resolved(data, table, ty, at) {
        None => None,
        Some((f, place)) => match firsts(data, f, place) {
            None => None,
            Some(glyphs) => Some((f, place, glyphs)),
        },
    }
}

/// The digest of the glyphs that can come second: for ligatures the one given,
/// and that of everything where they are not known.
#[verifier::opaque]
pub open spec fn second_words(data: Seq<u8>, f: Format, at: int, ligatures: Seq<u64>) -> Seq<u64> {
    if f == Format::Ligature {
        ligatures
    } else {
        match seconds(data, f, at) {
            Some(s) => words_of(s),
            None => seq![u64::MAX, u64::MAX, u64::MAX],
        }
    }
}

/// Cached information about a subtable.
#[derive(Copy, Clone, Debug)]
pub struct SubtableInfo {
    /// The fully resolved type of the subtable.
    pub kind: SubtableKind,
    /// Byte offset to the subtable from the base of the GSUB or GPOS
    /// table.
    pub offset: u32,
    pub digest: Digest,
    /// How much may be kept to apply it faster.
    pub cache_mode: SubtableExternalCacheMode,
}

impl SubtableInfo {
    /// Whether this describes what a subtable resolves to.
    pub open spec fn describes(
        &self,
        data: Seq<u8>,
        table: Table,
        ty: u8,
        at: int,
        mode: SubtableExternalCacheMode,
    ) -> bool {
        found(data, table, ty, at) matches Some((f, place, glyphs)) && {
            &&& self.kind == kind_of(f)
            &&& self.offset == place
            &&& self.digest.words@ == words_of(glyphs)
            &&& self.cache_mode == mode
        }
    }

    /// What a subtable resolves to, and the digest of the glyphs that can come
    /// second in what it matches.
    pub fn new(
        table_data: &[u8],
        subtable_offset: u32,
        is_subst: bool,
        lookup_type: u8,
        cache_mode: SubtableExternalCacheMode,
        ligatures: &Digest,
    ) -> (r: Option<(SubtableInfo, Digest)>)
        requires
            table_data@.len() <= 0xFFFF_0000,
        ensures
            r is Some <==> found(table_data@, table_of(is_subst), lookup_type, subtable_offset as int)
                is Some,
            r matches Some((info, second)) ==> {
                &&& info.describes(
                    table_data@,
                    table_of(is_subst),
                    lookup_type,
                    subtable_offset as int,
                    cache_mode,
                )
                &&& found(table_data@, table_of(is_subst), lookup_type, subtable_offset as int) matches Some(
                    (f, place, _),
                ) && second.words@ == second_words(table_data@, f, place, ligatures.words@)
            },
    {
        proof {
            reveal(found);
            reveal(second_words);
        }
        let table: Table = if is_subst {
            Table::Gsub
        } else {
            Table::Gpos
        };
        let (f, at) = match resolve_subtable(table_data, subtable_offset, table, lookup_type) {
            Some(found) => found,
            None => return None,
        };
        let firsts = match read_firsts(table_data, f, at as usize) {
            Some(glyphs) => glyphs,
            None => return None,
        };
        let second: Digest = if matches!(f, Format::Ligature) {
            *ligatures
        } else {
            match seconds_of(table_data, f, at as usize) {
                Some(glyphs) => Digest::from_glyphs(&glyphs),
                None => Digest::full(),
            }
        };
        let digest = Digest::from_glyphs(&firsts);
        Some((SubtableInfo { kind: SubtableKind::of(f), offset: at, digest, cache_mode }, second))
    }
}

fn resolve_subtable(data: &[u8], at: u32, table: Table, ty: u8) -> (r: Option<(Format, u32)>)
    requires
        data@.len() <= 0xFFFF_0000,
    ensures
        r is Some <==> resolved(data@, table, ty, at as int) is Some,
        r matches Some((f, place)) ==> resolved(data@, table, ty, at as int) == Some((f, place as int))
            && fits(data@, place as int, header_bytes(f)),
{
    if at as usize > data.len() {
        return None;
    }
    let ext: u8 = match table {
        Table::Gsub => 7,
        Table::Gpos => 9,
    };
    if ty != ext {
        proof {
            lemma_format_fits(data@, table, ty as u16, at as int);
        }
        return match read_format(data, table, ty as u16, at as usize) {
            Some(f) => Some((f, at)),
            None => None,
        };
    }
    if data.len() - (at as usize) < 8 {
        return None;
    }
    let inner: u8 = (be16(data, at as usize + 2).unwrap() % 256) as u8;
    let far: u64 = at as u64 + be32(data, at as usize + 4).unwrap() as u64;
    if inner == ext || far > data.len() as u64 {
        return None;
    }
    let far: u32 = far as u32;
    proof {
        lemma_format_fits(data@, table, inner as u16, far as int);
    }
    match read_format(data, table, inner as u16, far as usize) {
        Some(f) => Some((f, far)),
        None => None,
    }
}

fn read_firsts(data: &[u8], f: Format, at: usize) -> (r: Option<Vec<u32>>)
    requires
        fits(data@, at as int, header_bytes(f)),
        data@.len() <= 0xFFFF_0000,
    ensures
        listed(r) == firsts(data@, f, at as int),
{
    let end: usize = data.len();
    let second: u16 = be16(data, at + 2).unwrap();
    let offsets: Vec<u16> = if matches!(f, Format::Context3) {
        read_offsets(data, at + 6, second)
    } else if matches!(f, Format::Chain3) {
        let input: u64 = at as u64 + 4 + 2 * second as u64;
        let n: u16 = read_far_count(data, input);
        read_far_offsets(data, input + 2, n)
    } else {
        let mut one: Vec<u16> = Vec::new();
        one.push(second);
        assert(one@ =~= seq![word(data@, at + 2)]);
        one
    };
    if offsets.len() == 0 {
        None
    } else {
        coverage_seconds(data, at, offsets[0])
    }
}

/// The type of a lookup, read as a byte.
pub open spec fn type_at(data: Seq<u8>, lookup: int) -> u8 {
    (word(data, lookup) % 256) as u8
}

/// Whether a substitution lookup runs from the end of the text: it chains in
/// reverse, or extends one that does.
pub open spec fn reverses(data: Seq<u8>, lookup: int) -> bool {
    let offsets = subtable_offsets(data, lookup);
    ||| word(data, lookup) == 8
    ||| word(data, lookup) == 7 && offsets.len() > 0 && fits(data, lookup + offsets[0], 8) && word(
        data,
        lookup + offsets[0] + 2,
    ) == 8
}

/// What a lookup's subtable `i` resolves to.
pub open spec fn found_in(data: Seq<u8>, table: Table, lookup: int, i: int) -> Option<
    (Format, int, Seq<u32>),
> {
    found(data, table, type_at(data, lookup), lookup + subtable_offsets(data, lookup)[i])
}

/// Which of the first `n` subtables of a lookup resolve.
pub open spec fn kept(data: Seq<u8>, table: Table, lookup: int, n: nat) -> Seq<int>
    decreases n,
{
    if n == 0 {
        seq![]
    } else if found_in(data, table, lookup, n - 1) is Some {
        kept(data, table, lookup, (n - 1) as nat).push(n - 1)
    } else {
        kept(data, table, lookup, (n - 1) as nat)
    }
}

/// What a subtable gains from being the cached one.
pub open spec fn cost_at(hints: Seq<Hint>, i: int) -> u32 {
    if i < hints.len() {
        hints[i].cost
    } else {
        0
    }
}

/// What can come second in a ligature subtable; anything, where no hint says.
pub open spec fn hinted(hints: Seq<Hint>, i: int) -> Seq<u64> {
    if i < hints.len() {
        hints[i].seconds.words@
    } else {
        seq![u64::MAX, u64::MAX, u64::MAX]
    }
}

/// The words of a union.
pub open spec fn or_words(a: Seq<u64>, b: Seq<u64>) -> Seq<u64> {
    Seq::new(3, |k: int| a[k] | b[k])
}

/// The union of the digests of subtables.
pub open spec fn union_of(infos: Seq<SubtableInfo>) -> Seq<u64>
    decreases infos.len(),
{
    if infos.len() == 0 {
        seq![0u64, 0u64, 0u64]
    } else {
        or_words(union_of(infos.drop_last()), infos.last().digest.words@)
    }
}

/// The union of what can come second over the first `n` subtables.
pub open spec fn second_union(data: Seq<u8>, table: Table, lookup: int, hints: Seq<Hint>, n: nat) -> Seq<u64>
    decreases n,
{
    if n == 0 {
        seq![0u64, 0u64, 0u64]
    } else {
        let before = second_union(data, table, lookup, hints, (n - 1) as nat);
        match found_in(data, table, lookup, n - 1) {
            Some((f, place, _)) => or_words(before, second_words(data, f, place, hinted(hints, n - 1))),
            None => before,
        }
    }
}

/// Whether `r` is the first of the greatest costs, or none where all are zero.
pub open spec fn dearest(costs: Seq<u32>, r: Option<usize>) -> bool {
    match r {
        Some(i) => {
            &&& i < costs.len()
            &&& costs[i as int] > 0
            &&& forall|j: int| 0 <= j < i ==> #[trigger] costs[j] < costs[i as int]
            &&& forall|j: int| 0 <= j < costs.len() ==> #[trigger] costs[j] <= costs[i as int]
        },
        None => forall|j: int| 0 <= j < costs.len() ==> #[trigger] costs[j] == 0,
    }
}

/// The costs of the subtables that resolve.
pub open spec fn costs_of(kept: Seq<int>, hints: Seq<Hint>) -> Seq<u32> {
    Seq::new(kept.len(), |j: int| cost_at(hints, kept[j]))
}

/// Cached information about a lookup.
#[derive(Clone, Debug)]
pub struct LookupInfo {
    pub props: u32,
    pub is_subst: bool,
    pub is_reversed: bool,
    pub digest: Digest,
    pub digest_second: Digest,
    pub subtable_cache_user_idx: Option<usize>,
    pub subtables: Vec<SubtableInfo>,
}

impl LookupInfo {
    /// Whether this is what is kept of the lookup at a place.
    pub open spec fn tells(&self, data: Seq<u8>, table: Table, lookup: int, hints: Seq<Hint>) -> bool {
        let n = subtable_offsets(data, lookup).len();
        let kept = kept(data, table, lookup, n);
        &&& self.props == props_at(data, lookup)
        &&& self.is_subst == (table == Table::Gsub)
        &&& self.is_reversed == (table == Table::Gsub && reverses(data, lookup))
        &&& self.subtables@.len() == kept.len()
        &&& forall|j: int|
            0 <= j < kept.len() ==> (#[trigger] self.subtables@[j]).describes(
                data,
                table,
                type_at(data, lookup),
                lookup + subtable_offsets(data, lookup)[kept[j]],
                mode_of(kept[j]),
            )
        &&& self.digest.words@ == union_of(self.subtables@)
        &&& self.digest_second.words@ == second_union(data, table, lookup, hints, n)
        &&& dearest(costs_of(kept, hints), self.subtable_cache_user_idx)
    }

    /// Whether this holds what is kept of the first `n` subtables, the cached one
    /// at a cost of `user_cost`.
    #[verifier::opaque]
    pub open spec fn gathers(
        &self,
        data: Seq<u8>,
        table: Table,
        lookup: int,
        hints: Seq<Hint>,
        n: nat,
        user_cost: u32,
    ) -> bool {
        let kept = kept(data, table, lookup, n);
        &&& self.subtables@.len() == kept.len()
        &&& forall|j: int|
            0 <= j < kept.len() ==> (#[trigger] self.subtables@[j]).describes(
                data,
                table,
                type_at(data, lookup),
                lookup + subtable_offsets(data, lookup)[kept[j]],
                mode_of(kept[j]),
            )
        &&& self.digest.words@ == union_of(self.subtables@)
        &&& self.digest_second.words@ == second_union(data, table, lookup, hints, n)
        &&& dearest(costs_of(kept, hints), self.subtable_cache_user_idx)
        &&& user_cost == (match self.subtable_cache_user_idx {
            Some(u) => costs_of(kept, hints)[u as int],
            None => 0,
        })
    }

    /// Add what is kept of one more subtable. Returns the cost of the cached one.
    fn add(
        &mut self,
        d: &[u8],
        lookup: usize,
        is_subst: bool,
        i: usize,
        offset: u16,
        hints: &[Hint],
        user_cost: u32,
    ) -> (cost: u32)
        requires
            d@.len() <= 0xFFFF_0000,
            fits(d@, lookup as int, 6),
            subtable_offsets(d@, lookup as int)[i as int] == offset,
            old(self).gathers(d@, table_of(is_subst), lookup as int, hints@, i as nat, user_cost),
        ensures
            final(self).gathers(d@, table_of(is_subst), lookup as int, hints@, (i + 1) as nat, cost),
            final(self).props == old(self).props,
            final(self).is_subst == old(self).is_subst,
            final(self).is_reversed == old(self).is_reversed,
    {
        let end: usize = d.len();
        let ty: u16 = be16(d, lookup).unwrap();
        let mode: SubtableExternalCacheMode = if i < 8 {
            SubtableExternalCacheMode::Full
        } else {
            SubtableExternalCacheMode::Small
        };
        let (cost, ligatures) = if i < hints.len() {
            (hints[i].cost, hints[i].seconds)
        } else {
            (0, Digest::full())
        };
        let at: u32 = (lookup + offset as usize) as u32;
        let ghost before = *self;
        let ghost table = table_of(is_subst);
        match SubtableInfo::new(d, at, is_subst, (ty % 256) as u8, mode, &ligatures) {
            Some((made, second)) => {
                self.digest.union(&made.digest);
                self.digest_second.union(&second);
                let count: usize = self.subtables.len();
                if cost > user_cost {
                    self.subtable_cache_user_idx = Some(count);
                }
                self.subtables.push(made);
                proof {
                    lemma_gather(
                        before,
                        *self,
                        made,
                        second,
                        d@,
                        table,
                        lookup as int,
                        hints@,
                        i as nat,
                        user_cost,
                    );
                }
                if cost > user_cost {
                    cost
                } else {
                    user_cost
                }
            },
            None => {
                proof {
                    lemma_pass(*self, d@, table, lookup as int, hints@, i as nat, user_cost);
                }
                user_cost
            },
        }
    }

    /// What to keep of a lookup: its subtables that resolve, in order, with
    /// `hints` for each of its subtables by position.
    pub fn new(data: &LookupData, hints: &[Hint]) -> (r: Option<LookupInfo>)
        requires
            data.table_data@.len() <= 0xFFFF_0000,
        ensures
            r is Some <==> fits(data.table_data@, data.offset as int, 6),
            r matches Some(info) ==> info.tells(
                data.table_data@,
                table_of(data.is_subst),
                data.offset as int,
                hints@,
            ),
    {
        let d = data.table_data;
        let lookup: usize = data.offset;
        if lookup > d.len() || d.len() - lookup < 6 {
            return None;
        }
        let offsets = read_offsets(d, lookup + 6, be16(d, lookup + 4).unwrap());
        let mut info = LookupInfo {
            props: props_of(d, lookup),
            is_subst: data.is_subst,
            is_reversed: data.is_subst && is_reversed(d, lookup),
            digest: Digest::empty(),
            digest_second: Digest::empty(),
            subtable_cache_user_idx: None,
            subtables: Vec::new(),
        };
        let mut user_cost: u32 = 0;
        let mut i: usize = 0;
        let ghost table = table_of(data.is_subst);
        let ghost at = lookup as int;
        proof {
            reveal(LookupInfo::gathers);
        }
        while i < offsets.len()
            invariant
                i <= offsets@.len(),
                d@ == data.table_data@,
                d@.len() <= 0xFFFF_0000,
                at == lookup,
                fits(d@, at, 6),
                table == table_of(data.is_subst),
                offsets@ == subtable_offsets(d@, at),
                info.props == props_at(d@, at),
                info.is_subst == (table == Table::Gsub),
                info.is_reversed == (table == Table::Gsub && reverses(d@, at)),
                info.gathers(d@, table, at, hints@, i as nat, user_cost),
            decreases offsets@.len() - i,
        {
            user_cost = info.add(
                d,
                lookup,
                data.is_subst,
                i,
                offsets[i],
                hints,
                user_cost,
            );
            i += 1;
        }
        proof {
            reveal(LookupInfo::gathers);
        }
        Some(info)
    }

    /// What to keep of a substitution lookup that stands alone.
    pub fn new_subst(table_data: &[u8], hints: &[Hint]) -> (r: Option<LookupInfo>)
        requires
            table_data@.len() <= 0xFFFF_0000,
        ensures
            r is Some <==> fits(table_data@, 0, 6),
            r matches Some(info) ==> info.tells(table_data@, Table::Gsub, 0, hints@),
    {
        LookupInfo::new(&LookupData { offset: 0, is_subst: true, table_data }, hints)
    }

    pub fn props(&self) -> (r: u32)
        ensures
            r == self.props,
    {
        self.props
    }

    pub fn is_reverse(&self) -> (r: bool)
        ensures
            r == self.is_reversed,
    {
        self.is_reversed
    }

    pub fn digest(&self) -> (r: &Digest)
        ensures
            *r == self.digest,
    {
        &self.digest
    }

    pub fn digest_second(&self) -> (r: &Digest)
        ensures
            *r == self.digest_second,
    {
        &self.digest_second
    }

    /// Which of the first `n` subtables to try on a glyph, in order, and whether
    /// each is the cached one.
    pub open spec fn tries(&self, glyph: u32, hot: bool, n: nat) -> Seq<(usize, bool)>
        decreases n,
    {
        if n == 0 {
            seq![]
        } else {
            let before = self.tries(glyph, hot, (n - 1) as nat);
            if self.subtables@.len() == 1 || self.subtables@[n - 1].digest.admits(glyph) {
                before.push(
                    ((n - 1) as usize, hot && self.subtable_cache_user_idx == Some((n - 1) as usize)),
                )
            } else {
                before
            }
        }
    }

    /// The subtables to try on a glyph, in order, until one applies, and whether
    /// each is the cached one. A single subtable has the lookup's own digest,
    /// which callers have tested, so it is tried without asking again.
    pub fn apply(&self, glyph: u32, use_hot_subtable_cache: bool) -> (r: Vec<(usize, bool)>)
        ensures
            r@ == self.tries(glyph, use_hot_subtable_cache, self.subtables@.len()),
    {
        let mut out: Vec<(usize, bool)> = Vec::new();
        let mut i: usize = 0;
        assert(out@ =~= seq![]);
        while i < self.subtables.len()
            invariant
                i <= self.subtables@.len(),
                out@ == self.tries(glyph, use_hot_subtable_cache, i as nat),
            decreases self.subtables@.len() - i,
        {
            if self.subtables.len() == 1 || self.subtables[i].digest.may_have(glyph) {
                let user: bool = match self.subtable_cache_user_idx {
                    Some(u) => u == i,
                    None => false,
                };
                out.push((i, use_hot_subtable_cache && user));
            }
            i += 1;
        }
        out
    }

    /// Whether the cached subtable matches classes, which are kept beside the
    /// glyphs.
    pub open spec fn caches_classes(&self) -> bool {
        self.subtable_cache_user_idx matches Some(i) && i < self.subtables@.len() && (
        self.subtables@[i as int].kind == SubtableKind::ContextFormat2 || self.subtables@[i as int].kind
            == SubtableKind::ChainedContextFormat2)
    }

    fn uses_class_cache(&self) -> (r: bool)
        ensures
            r == self.caches_classes(),
    {
        match self.subtable_cache_user_idx {
            Some(i) => {
                i < self.subtables.len() && matches!(
                    self.subtables[i].kind,
                    SubtableKind::ContextFormat2 | SubtableKind::ChainedContextFormat2
                )
            },
            None => false,
        }
    }

    /// Start keeping classes beside the glyphs, if the cached subtable matches
    /// classes and there is room for them.
    pub fn cache_enter(&self, room: bool, classes: &mut ClassNotes) -> (entered: bool)
        ensures
            entered == (self.caches_classes() && room),
            entered ==> final(classes).new_syllables == Some(255u8) && final(classes).syllables@ == Seq::new(
                old(classes).syllables@.len(),
                |i: int| 255u8,
            ),
            !entered ==> *final(classes) == *old(classes),
    {
        if !self.uses_class_cache() || !room {
            return false;
        }
        let mut i: usize = 0;
        while i < classes.syllables.len()
            invariant
                i <= classes.syllables@.len(),
                classes.syllables@.len() == old(classes).syllables@.len(),
                forall|k: int| 0 <= k < i ==> classes.syllables@[k] == 255,
            decreases classes.syllables@.len() - i,
        {
            classes.syllables.set(i, 255);
            i += 1;
        }
        classes.new_syllables = Some(255);
        assert(classes.syllables@ =~= Seq::new(old(classes).syllables@.len(), |i: int| 255u8));
        true
    }

    /// Stop keeping classes beside the glyphs.
    pub fn cache_leave(&self, classes: &mut ClassNotes)
        ensures
            final(classes).syllables@ == old(classes).syllables@,
            self.caches_classes() ==> final(classes).new_syllables is None,
            !self.caches_classes() ==> *final(classes) == *old(classes),
    {
        if self.uses_class_cache() {
            classes.new_syllables = None;
        }
    }

    /// Whether subtable `i` is asked about a glyph: it might start with it, it
    /// stands in the table, and it substitutes.
    pub open spec fn asked(&self, i: int, glyph: u32, table_len: int) -> bool {
        let s = self.subtables@[i];
        s.digest.admits(glyph) && s.offset <= table_len && substitutes(s.kind)
    }

    /// Whether a subtable that is asked about a glyph answers that it would apply.
    pub open spec fn one_would(&self, glyph: u32, table_len: int, answers: Seq<bool>) -> bool {
        exists|i: int|
            0 <= i < self.subtables@.len() && #[trigger] answers[i] && self.asked(i, glyph, table_len)
    }

    /// Whether the lookup would apply to glyphs that start with `glyph`, from
    /// what each subtable that is asked answers. Nothing is said where there is
    /// no table, or where no subtable would apply though one might have.
    pub fn would_apply(&self, glyph: u32, table_len: Option<usize>, answers: &[bool]) -> (r: Option<bool>)
        requires
            answers@.len() == self.subtables@.len(),
        ensures
            r == Some(false) <==> !self.digest.admits(glyph),
            r == Some(true) <==> self.digest.admits(glyph) && (table_len matches Some(n) && self.one_would(
                glyph,
                n as int,
                answers@,
            )),
    {
        if !self.digest.may_have(glyph) {
            return Some(false);
        }
        let len: usize = match table_len {
            Some(n) => n,
            None => return None,
        };
        let mut i: usize = 0;
        while i < self.subtables.len()
            invariant
                i <= self.subtables@.len(),
                answers@.len() == self.subtables@.len(),
                self.digest.admits(glyph),
                forall|k: int|
                    0 <= k < i ==> !(#[trigger] answers@[k] && self.asked(k, glyph, len as int)),
                table_len == Some(len),
            decreases self.subtables@.len() - i,
        {
            let s = &self.subtables[i];
            if s.digest.may_have(glyph) && s.offset as usize <= len && kind_substitutes(s.kind)
                && answers[i] {
                assert(answers@[i as int] && self.asked(i as int, glyph, len as int));
                return Some(true);
            }
            i += 1;
        }
        None
    }
}

/// A subtable that does not resolve changes nothing.
proof fn lemma_pass(
    info: LookupInfo,
    data: Seq<u8>,
    table: Table,
    lookup: int,
    hints: Seq<Hint>,
    n: nat,
    user_cost: u32,
)
    requires
        info.gathers(data, table, lookup, hints, n, user_cost),
        found_in(data, table, lookup, n as int) is None,
    ensures
        info.gathers(data, table, lookup, hints, n + 1, user_cost),
{
    reveal(LookupInfo::gathers);
    assert(kept(data, table, lookup, n + 1) == kept(data, table, lookup, n));
}

/// A subtable that resolves is added at the end.
proof fn lemma_gather(
    before: LookupInfo,
    after: LookupInfo,
    made: SubtableInfo,
    second: Digest,
    data: Seq<u8>,
    table: Table,
    lookup: int,
    hints: Seq<Hint>,
    n: nat,
    user_cost: u32,
)
    requires
        before.gathers(data, table, lookup, hints, n, user_cost),
        made.describes(
            data,
            table,
            type_at(data, lookup),
            lookup + subtable_offsets(data, lookup)[n as int],
            mode_of(n as int),
        ),
        found_in(data, table, lookup, n as int) matches Some((f, place, _)) && second.words@
            == second_words(data, f, place, hinted(hints, n as int)),
        after.subtables@ == before.subtables@.push(made),
        after.digest.words@ == or_words(before.digest.words@, made.digest.words@),
        after.digest_second.words@ == or_words(before.digest_second.words@, second.words@),
        before.subtables@.len() <= usize::MAX,
        after.subtable_cache_user_idx == (if cost_at(hints, n as int) > user_cost {
            Some(before.subtables@.len() as usize)
        } else {
            before.subtable_cache_user_idx
        }),
    ensures
        after.gathers(
            data,
            table,
            lookup,
            hints,
            n + 1,
            if cost_at(hints, n as int) > user_cost {
                cost_at(hints, n as int)
            } else {
                user_cost
            },
        ),
{
    reveal(LookupInfo::gathers);
    let was = kept(data, table, lookup, n);
    let now = kept(data, table, lookup, n + 1);
    assert(now == was.push(n as int));
    let old_costs = costs_of(was, hints);
    let costs = costs_of(now, hints);
    assert(costs =~= old_costs.push(cost_at(hints, n as int)));
    assert(after.subtables@.drop_last() =~= before.subtables@);
    assert forall|j: int| 0 <= j < now.len() implies (#[trigger] after.subtables@[j]).describes(
        data,
        table,
        type_at(data, lookup),
        lookup + subtable_offsets(data, lookup)[now[j]],
        mode_of(now[j]),
    ) by {
        if j < was.len() {
            assert(before.subtables@[j] == after.subtables@[j]);
            assert(now[j] == was[j]);
        }
    }
    assert(forall|j: int| 0 <= j < old_costs.len() ==> #[trigger] costs[j] == old_costs[j]);
}

/// Classes kept beside the glyphs while a lookup runs.
#[derive(Clone, Debug)]
pub struct ClassNotes {
    pub syllables: Vec<u8>,
    pub new_syllables: Option<u8>,
}

/// The kinds that can be asked whether they would apply.
pub open spec fn substitutes(k: SubtableKind) -> bool {
    match k {
        SubtableKind::SinglePos1 | SubtableKind::SinglePos2 | SubtableKind::PairPos1
        | SubtableKind::PairPos2 | SubtableKind::CursivePos1 | SubtableKind::MarkBasePos1
        | SubtableKind::MarkMarkPos1 | SubtableKind::MarkLigPos1 => false,
        _ => true,
    }
}

fn kind_substitutes(k: SubtableKind) -> (r: bool)
    ensures
        r == substitutes(k),
{
    match k {
        SubtableKind::SinglePos1 | SubtableKind::SinglePos2 | SubtableKind::PairPos1
        | SubtableKind::PairPos2 | SubtableKind::CursivePos1 | SubtableKind::MarkBasePos1
        | SubtableKind::MarkMarkPos1 | SubtableKind::MarkLigPos1 => false,
        _ => true,
    }
}

fn is_reversed(d: &[u8], lookup: usize) -> (r: bool)
    requires
        d@.len() <= 0xFFFF_0000,
        fits(d@, lookup as int, 6),
    ensures
        r == reverses(d@, lookup as int),
{
    let end: usize = d.len();
    let ty: u16 = be16(d, lookup).unwrap();
    if ty == 8 {
        return true;
    }
    if ty != 7 {
        return false;
    }
    let offsets = read_offsets(d, lookup + 6, be16(d, lookup + 4).unwrap());
    if offsets.len() == 0 {
        return false;
    }
    let at: usize = lookup + offsets[0] as usize;
    if at > d.len() || d.len() - at < 8 {
        return false;
    }
    be16(d, at + 2).unwrap() == 8
}

/// A lookup's digest denies no glyph that one of its subtables' admits.
pub proof fn a_lookup_admits_what_its_subtables_admit(info: LookupInfo, j: int, glyph: u32)
    requires
        info.digest.words@ == union_of(info.subtables@),
        0 <= j < info.subtables@.len(),
        info.subtables@[j].digest.admits(glyph),
    ensures
        info.digest.admits(glyph),
{
    lemma_union_admits(info.subtables@, j, glyph);
    assert forall|k: int| 0 <= k < 3 implies crate::bits::bit(
        #[trigger] info.digest.words@[k],
        crate::digest::slot(glyph, k),
    ) by {
        assert(info.digest.words@[k] == union_of(info.subtables@)[k]);
    }
}

proof fn lemma_union_admits(infos: Seq<SubtableInfo>, j: int, glyph: u32)
    requires
        0 <= j < infos.len(),
        infos[j].digest.admits(glyph),
    ensures
        union_of(infos).len() == 3,
        forall|k: int|
            0 <= k < 3 ==> crate::bits::bit(#[trigger] union_of(infos)[k], crate::digest::slot(glyph, k)),
    decreases infos.len(),
{
    let less = infos.drop_last();
    if j < less.len() {
        assert(less[j] == infos[j]);
        lemma_union_admits(less, j, glyph);
    }
    assert forall|k: int| 0 <= k < 3 implies crate::bits::bit(
        #[trigger] union_of(infos)[k],
        crate::digest::slot(glyph, k),
    ) by {
        crate::digest::lemma_slot(glyph, k);
        assert(union_of(infos)[k] == union_of(less)[k] | infos.last().digest.words@[k]);
        assert(crate::bits::bit(infos[j].digest.words@[k], crate::digest::slot(glyph, k)));
        crate::bits::lemma_or_bit(
            union_of(less)[k],
            infos.last().digest.words@[k],
            crate::digest::slot(glyph, k),
        );
    }
}

/// A lookup of one subtable has that subtable's digest.
pub proof fn a_single_subtable_has_the_lookups_digest(info: LookupInfo)
    requires
        info.digest.words@ == union_of(info.subtables@),
        info.subtables@.len() == 1,
    ensures
        info.digest.words@ == info.subtables@[0].digest.words@,
{
    let one = info.subtables@[0].digest.words@;
    let none = info.subtables@.drop_last();
    assert(none.len() == 0);
    assert(union_of(none) == seq![0u64, 0u64, 0u64]);
    assert(union_of(info.subtables@) == or_words(seq![0u64, 0u64, 0u64], one));
    assert forall|w: u64| #[trigger] (0u64 | w) == w by {
        assert(0u64 | w == w) by (bit_vector);
    }
    assert(union_of(info.subtables@) =~= one);
}

/// An extension that points at another resolves to nothing, so a lookup keeps
/// no such subtable.
pub proof fn an_extension_cannot_point_at_an_extension(data: Seq<u8>, table: Table, at: int)
    requires
        fits(data, at, 8),
        word(data, at + 2) == extension_type(table),
    ensures
        found(data, table, extension_type(table) as u8, at) is None,
{
    reveal(found);
}

/// What is kept of a table's lookups, each worked out when first asked for.
pub struct LookupCache {
    pub lookups: Vec<Option<Option<LookupInfo>>>,
}

impl LookupCache {
    /// Room for every lookup of a table, with none worked out.
    pub fn new(table_data: &[u8]) -> (r: LookupCache)
        ensures
            r.lookups@ == Seq::new(lookup_count_of(table_data@) as nat, |i: int| None::<Option<LookupInfo>>),
    {
        let n: u16 = lookup_count(table_data);
        let mut lookups: Vec<Option<Option<LookupInfo>>> = Vec::new();
        let mut i: u16 = 0;
        while i < n
            invariant
                i <= n,
                lookups@ == Seq::new(i as nat, |i: int| None::<Option<LookupInfo>>),
            decreases n - i,
        {
            lookups.push(None);
            assert(lookups@ =~= Seq::new((i + 1) as nat, |i: int| None::<Option<LookupInfo>>));
            i += 1;
        }
        LookupCache { lookups }
    }

    /// Whether what is kept of a lookup is what its bytes say.
    pub open spec fn right(
        kept: Option<LookupInfo>,
        data: Seq<u8>,
        is_subst: bool,
        index: u16,
        hints: Seq<Hint>,
    ) -> bool {
        match listed_at(data, index) {
            None => kept is None,
            Some(at) => {
                &&& kept is Some <==> fits(data, at, 6)
                &&& kept matches Some(info) ==> info.tells(data, table_of(is_subst), at, hints)
            },
        }
    }

    /// What is kept of a lookup, worked out if it was not yet.
    pub fn get(&mut self, table_data: &[u8], is_subst: bool, index: u16, hints: &[Hint]) -> (r: Option<
        &LookupInfo,
    >)
        requires
            table_data@.len() <= 0xFFFF_0000,
        ensures
            final(self).lookups@.len() == old(self).lookups@.len(),
            forall|i: int|
                0 <= i < old(self).lookups@.len() && i != index ==> #[trigger] final(self).lookups@[i]
                    == old(self).lookups@[i],
            index >= old(self).lookups@.len() ==> r is None,
            index < old(self).lookups@.len() ==> {
                &&& final(self).lookups@[index as int] matches Some(kept) && r == (match kept {
                    Some(info) => Some(&info),
                    None => None,
                })
                &&& old(self).lookups@[index as int] is Some ==> final(self).lookups@[index as int] == old(self).lookups@[index as int]
                &&& old(self).lookups@[index as int] is None ==> Self::right(
                    final(self).lookups@[index as int]->0,
                    table_data@,
                    is_subst,
                    index,
                    hints@,
                )
            },
    {
        if index as usize >= self.lookups.len() {
            return None;
        }
        if self.lookups[index as usize].is_none() {
            let made: Option<LookupInfo> = match LookupData::find(table_data, is_subst, index) {
                Some(l) => LookupInfo::new(&l, hints),
                None => None,
            };
            self.lookups.set(index as usize, Some(made));
        }
        match &self.lookups[index as usize] {
            Some(Some(info)) => Some(info),
            _ => None,
        }
    }

    /// What is kept of a lookup, if it was worked out.
    pub fn get_if_present(&self, index: u16) -> (r: Option<&LookupInfo>)
        ensures
            r == (if index < self.lookups@.len() {
                match self.lookups@[index as int] {
                    Some(Some(info)) => Some(&info),
                    _ => None,
                }
            } else {
                None
            }),
    {
        if index as usize >= self.lookups.len() {
            return None;
        }
        match &self.lookups[index as usize] {
            Some(Some(info)) => Some(info),
            _ => None,
        }
    }
}

/// What is kept of a subtable is what its type number stands for, at its own
/// place or at the place that an extension gives, and its digest denies no glyph
/// that its coverage lists.
pub proof fn what_is_kept_is_the_fonts_subtable(
    data: &[u8],
    at: u32,
    is_subst: bool,
    ty: u8,
    mode: SubtableExternalCacheMode,
    ligatures: &Digest,
    r: Option<(SubtableInfo, Digest)>,
    glyph: u32,
)
    requires
        data@.len() <= 0xFFFF_0000,
        call_ensures(SubtableInfo::new, (data, at, is_subst, ty, mode, ligatures), r),
        r is Some,
    ensures
        ({
            let info = (r->0).0;
            let extends = ty == (if is_subst {
                7u8
            } else {
                9u8
            });
            let place = if extends {
                at + long(data@, at + 4)
            } else {
                at as int
            };
            let own = if extends {
                (word(data@, at + 2) % 256) as u8
            } else {
                ty
            };
            let format = word(data@, place);
            let k = info.kind;
            &&& info.offset == place
            &&& info.cache_mode == mode
            &&& is_subst ==> {
                &&& own == 1 ==> (format == 1 && k is SingleSubst1) || (format == 2 && k is SingleSubst2)
                &&& own == 2 ==> k is MultipleSubst1
                &&& own == 3 ==> k is AlternateSubst1
                &&& own == 4 ==> k is LigatureSubst1
                &&& own == 5 ==> (format == 1 && k is ContextFormat1) || (format == 2 && k is ContextFormat2) || (
                format == 3 && k is ContextFormat3)
                &&& own == 6 ==> (format == 1 && k is ChainedContextFormat1) || (format == 2
                    && k is ChainedContextFormat2) || (format == 3 && k is ChainedContextFormat3)
                &&& own == 8 ==> k is ReverseChainContext
                &&& 1 <= own <= 6 || own == 8
            }
            &&& !is_subst ==> {
                &&& own == 1 ==> (format == 1 && k is SinglePos1) || (format == 2 && k is SinglePos2)
                &&& own == 2 ==> (format == 1 && k is PairPos1) || (format == 2 && k is PairPos2)
                &&& own == 3 ==> k is CursivePos1
                &&& own == 4 ==> k is MarkBasePos1
                &&& own == 5 ==> k is MarkLigPos1
                &&& own == 6 ==> k is MarkMarkPos1
                &&& own == 7 ==> (format == 1 && k is ContextFormat1) || (format == 2 && k is ContextFormat2) || (
                format == 3 && k is ContextFormat3)
                &&& own == 8 ==> (format == 1 && k is ChainedContextFormat1) || (format == 2
                    && k is ChainedContextFormat2) || (format == 3 && k is ChainedContextFormat3)
                &&& 1 <= own <= 8
            }
            &&& !(k is ContextFormat3) && !(k is ChainedContextFormat3) ==> ({
                let glyphs = coverage_from(data@, place, word(data@, place + 2) as int);
                glyphs is Some && (glyphs->0.contains(glyph) ==> info.digest.admits(glyph))
            })
            &&& k is LigatureSubst1 ==> (r->0).1.words@ == ligatures.words@
        }),
{
    reveal(found);
    reveal(second_words);
    let info = (r->0).0;
    let (f, place, glyphs) = found(data@, table_of(is_subst), ty, at as int)->0;
    if glyphs.contains(glyph) {
        let i = choose|i: int| 0 <= i < glyphs.len() && glyphs[i] == glyph;
        crate::digest::a_digest_admits_its_glyphs(glyphs, info.digest, i);
    }
}

proof fn lemma_kept(data: Seq<u8>, table: Table, lookup: int, n: nat)
    ensures
        forall|j: int|
            0 <= j < kept(data, table, lookup, n).len() ==> 0 <= #[trigger] kept(data, table, lookup, n)[j] < n,
        forall|j: int, k: int|
            0 <= j < k < kept(data, table, lookup, n).len() ==> (#[trigger] kept(data, table, lookup, n)[j]) < (
            #[trigger] kept(data, table, lookup, n)[k]),
        forall|i: int|
            0 <= i < n && (#[trigger] found_in(data, table, lookup, i)) is Some ==> kept(
                data,
                table,
                lookup,
                n,
            ).contains(i),
    decreases n,
{
    if n > 0 {
        let m = (n - 1) as nat;
        lemma_kept(data, table, lookup, m);
        let before = kept(data, table, lookup, m);
        let now = kept(data, table, lookup, n);
        assert forall|i: int| 0 <= i < n && (#[trigger] found_in(data, table, lookup, i)) is Some implies now.contains(
            i,
        ) by {
            if i < m {
                let j = choose|j: int| 0 <= j < before.len() && before[j] == i;
                assert(now[j] == i);
            } else {
                assert(now.last() == i);
            }
        }
    }
}

/// A lookup keeps every one of its subtables that can be read, in their order,
/// and its digest denies no glyph that one of them starts on; the first eight in
/// the font may keep much. It runs from the end of the text where it is of the
/// type that chains in reverse, or extends one.
pub proof fn a_lookup_keeps_all_that_can_be_read(
    data: &LookupData,
    hints: &[Hint],
    r: Option<LookupInfo>,
    i: int,
    glyph: u32,
) -> (j: int)
    requires
        data.table_data@.len() <= 0xFFFF_0000,
        call_ensures(LookupInfo::new, (data, hints), r),
        r is Some,
        0 <= i < subtable_offsets(data.table_data@, data.offset as int).len(),
    ensures
        ({
            let d = data.table_data@;
            let at = data.offset + word(d, data.offset + 6 + 2 * i);
            let resolves = found(d, table_of(data.is_subst), (word(d, data.offset as int) % 256) as u8, at);
            &&& resolves is Some ==> {
                let (_, _, glyphs) = resolves->0;
                let s = r->0.subtables@[j];
                &&& 0 <= j < r->0.subtables@.len()
                &&& j <= i
                &&& s.cache_mode is Full <==> i < 8
                &&& glyphs.contains(glyph) ==> s.digest.admits(glyph) && r->0.digest.admits(glyph)
            }
        }),
        data.is_subst ==> r->0.is_subst,
        !data.is_subst ==> !r->0.is_reversed,
        data.is_subst && word(data.table_data@, data.offset as int) == 8 ==> r->0.is_reversed,
        r->0.is_reversed ==> word(data.table_data@, data.offset as int) == 8 || word(
            data.table_data@,
            data.offset as int,
        ) == 7,
{
    let d = data.table_data@;
    let lookup = data.offset as int;
    let table = table_of(data.is_subst);
    let n = subtable_offsets(d, lookup).len();
    lemma_kept(d, table, lookup, n);
    let all = kept(d, table, lookup, n);
    let info = r->0;
    if found_in(d, table, lookup, i) is Some {
        let j = choose|j: int| 0 <= j < all.len() && all[j] == i;
        lemma_place_in(all, j);
        let s = info.subtables@[j];
        assert(s.describes(
            d,
            table,
            type_at(d, lookup),
            lookup + subtable_offsets(d, lookup)[all[j]],
            mode_of(all[j]),
        ));
        let (_, _, glyphs) = found_in(d, table, lookup, i)->0;
        if glyphs.contains(glyph) {
            let k = choose|k: int| 0 <= k < glyphs.len() && glyphs[k] == glyph;
            crate::digest::a_digest_admits_its_glyphs(glyphs, s.digest, k);
            a_lookup_admits_what_its_subtables_admit(info, j, glyph);
        }
        j
    } else {
        0
    }
}

proof fn lemma_place_in(all: Seq<int>, j: int)
    requires
        0 <= j < all.len(),
        forall|k: int| 0 <= k < all.len() ==> 0 <= #[trigger] all[k],
        forall|k: int, l: int| 0 <= k < l < all.len() ==> (#[trigger] all[k]) < (#[trigger] all[l]),
    ensures
        j <= all[j],
    decreases j,
{
    if j > 0 {
        lemma_place_in(all, j - 1);
        assert(all[j - 1] < all[j]);
    }
}

proof fn lemma_tried(info: LookupInfo, glyph: u32, hot: bool, n: nat)
    requires
        n <= info.subtables@.len() <= usize::MAX,
    ensures
        forall|k: int|
            0 <= k < info.tries(glyph, hot, n).len() ==> {
                let (i, user) = #[trigger] info.tries(glyph, hot, n)[k];
                &&& i < n
                &&& info.subtables@.len() == 1 || info.subtables@[i as int].digest.admits(glyph)
                &&& user <==> hot && info.subtable_cache_user_idx == Some(i)
            },
        forall|j: int, k: int|
            0 <= j < k < info.tries(glyph, hot, n).len() ==> (#[trigger] info.tries(glyph, hot, n)[j]).0 < (
            #[trigger] info.tries(glyph, hot, n)[k]).0,
        forall|i: int|
            0 <= i < n && (info.subtables@.len() == 1 || (#[trigger] info.subtables@[i]).digest.admits(glyph))
                ==> exists|k: int|
                0 <= k < info.tries(glyph, hot, n).len() && (#[trigger] info.tries(glyph, hot, n)[k]).0 == i,
    decreases n,
{
    if n > 0 {
        let m = (n - 1) as nat;
        lemma_tried(info, glyph, hot, m);
        let before = info.tries(glyph, hot, m);
        let now = info.tries(glyph, hot, n);
        assert forall|i: int|
            0 <= i < n && (info.subtables@.len() == 1 || (#[trigger] info.subtables@[i]).digest.admits(
                glyph,
            )) implies exists|k: int| 0 <= k < now.len() && (#[trigger] now[k]).0 == i by {
            if i < m {
                let k = choose|k: int| 0 <= k < before.len() && (#[trigger] before[k]).0 == i;
                assert(now[k].0 == i);
            } else {
                assert(now.last().0 == i);
            }
        }
    }
}

/// What is tried on a glyph is every subtable whose digest does not deny it, in
/// order, and the one of a lookup that has only one in any case. Only the cached
/// one is marked, and only where the cache is in use.
pub proof fn every_subtable_that_may_start_is_tried(
    info: &LookupInfo,
    glyph: u32,
    hot: bool,
    r: Vec<(usize, bool)>,
    i: int,
)
    requires
        call_ensures(LookupInfo::apply, (info, glyph, hot), r),
        0 <= i < info.subtables@.len(),
    ensures
        forall|k: int|
            0 <= k < r@.len() ==> (#[trigger] r@[k]).0 < info.subtables@.len() && (r@[k].1 ==> hot
                && info.subtable_cache_user_idx == Some(r@[k].0)),
        forall|j: int, k: int| 0 <= j < k < r@.len() ==> (#[trigger] r@[j]).0 < (#[trigger] r@[k]).0,
        info.subtables@.len() == 1 || info.subtables@[i].digest.admits(glyph) ==> exists|k: int|
            0 <= k < r@.len() && (#[trigger] r@[k]).0 == i && (hot && info.subtable_cache_user_idx == Some(
                r@[k].0,
            ) ==> r@[k].1),
        forall|k: int|
            0 <= k < r@.len() && (#[trigger] r@[k]).0 == i && info.subtables@.len() != 1
                ==> info.subtables@[i].digest.admits(glyph),
{
    assert(info.subtables.len() == info.subtables@.len());
    lemma_tried(*info, glyph, hot, info.subtables@.len());
    if info.subtables@.len() == 1 || info.subtables@[i].digest.admits(glyph) {
        let k = choose|k: int| 0 <= k < r@.len() && (#[trigger] r@[k]).0 == i;
        assert(r@[k].0 == i);
    }
}

/// Classes are kept beside the glyphs only for a cached subtable that matches
/// classes; entering forgets what was kept, and leaving ends it.
pub proof fn classes_are_kept_for_class_formats_only(
    info: &LookupInfo,
    room: bool,
    a: &mut ClassNotes,
    entered: bool,
    b: &mut ClassNotes,
    i: int,
)
    requires
        call_ensures(LookupInfo::cache_enter, (info, room, a), entered),
        call_ensures(LookupInfo::cache_leave, (info, b), ()),
        *old(b) == *final(a),
        0 <= i < old(a).syllables@.len(),
    ensures
        entered ==> room && info.subtable_cache_user_idx is Some,
        entered ==> ({
            let k = info.subtables@[info.subtable_cache_user_idx->0 as int].kind;
            k is ContextFormat2 || k is ChainedContextFormat2
        }),
        info.subtable_cache_user_idx is None ==> !entered,
        entered ==> final(a).syllables@[i] == 255 && final(a).new_syllables == Some(255u8),
        entered ==> final(b).new_syllables is None,
        !entered ==> final(a).syllables@ == old(a).syllables@ && final(a).new_syllables == old(
            a,
        ).new_syllables,
        final(b).syllables@ == final(a).syllables@,
{
}

/// A lookup would apply where a substituting subtable that may start on the glyph
/// says so; a glyph that the lookup's digest denies is refused at once, and a
/// positioning subtable is never asked.
pub proof fn a_lookup_applies_if_a_subtable_would(
    info: &LookupInfo,
    glyph: u32,
    len: usize,
    answers: &[bool],
    r: Option<bool>,
    i: int,
)
    requires
        answers@.len() == info.subtables@.len(),
        call_ensures(LookupInfo::would_apply, (info, glyph, Some(len), answers), r),
        0 <= i < info.subtables@.len(),
    ensures
        !info.digest.admits(glyph) ==> r == Some(false),
        info.digest.admits(glyph) ==> r != Some(false),
        info.digest.admits(glyph) && answers@[i] && info.subtables@[i].digest.admits(glyph)
            && info.subtables@[i].offset <= len && (info.subtables@[i].kind is LigatureSubst1
            || info.subtables@[i].kind is SingleSubst1 || info.subtables@[i].kind is SingleSubst2
            || info.subtables@[i].kind is MultipleSubst1 || info.subtables@[i].kind is AlternateSubst1
            || info.subtables@[i].kind is ReverseChainContext || info.subtables@[i].kind is ContextFormat1
            || info.subtables@[i].kind is ContextFormat2 || info.subtables@[i].kind is ContextFormat3
            || info.subtables@[i].kind is ChainedContextFormat1 || info.subtables@[i].kind
            is ChainedContextFormat2 || info.subtables@[i].kind is ChainedContextFormat3) ==> r == Some(true),
        (forall|k: int|
            0 <= k < info.subtables@.len() ==> !answers@[k] || (#[trigger] info.subtables@[k]).kind is PairPos1
                || info.subtables@[k].kind is PairPos2 || info.subtables@[k].kind is CursivePos1
                || info.subtables@[k].kind is SinglePos1 || info.subtables@[k].kind is SinglePos2
                || info.subtables@[k].kind is MarkBasePos1 || info.subtables@[k].kind is MarkLigPos1
                || info.subtables@[k].kind is MarkMarkPos1) ==> r != Some(true),
{
    if info.digest.admits(glyph) {
        if answers@[i] && info.asked(i, glyph, len as int) {
            assert(info.one_would(glyph, len as int, answers@));
        }
        if r == Some(true) {
            let k = choose|k: int|
                0 <= k < info.subtables@.len() && #[trigger] answers@[k] && info.asked(k, glyph, len as int);
            assert(substitutes(info.subtables@[k].kind));
        }
    }
}

} // verus!
