//! Lookups written as a font would have them, for substitutions that a font
//! lacks.

use vstd::prelude::*;

use crate::bytes::{fits, tail, word};
use crate::layout::{format_at, subtable_offsets, Format, Table};
use crate::tables::{coverage_from, coverage_glyphs, coverage_readable};

verus! {

/// Words as a font stores them.
pub open spec fn to_bytes(ws: Seq<u16>) -> Seq<u8> {
    Seq::new(
        2 * ws.len(),
        |i: int|
            if i % 2 == 0 {
                (ws[i / 2] / 256) as u8
            } else {
                (ws[i / 2] % 256) as u8
            },
    )
}

/// Stored words read back.
pub proof fn lemma_bytes_read_back(ws: Seq<u16>, i: int)
    requires
        0 <= i < ws.len(),
    ensures
        fits(to_bytes(ws), 2 * i, 2),
        word(to_bytes(ws), 2 * i) == ws[i],
{
    assert((2 * i) / 2 == i && (2 * i) % 2 == 0 && (2 * i + 1) / 2 == i && (2 * i + 1) % 2 == 1);
    let w = ws[i];
    assert((w / 256) * 256 + w % 256 == w);
}

/// Store words.
fn bytes_of(ws: &[u16]) -> (data: Vec<u8>)
    ensures
        data@ == to_bytes(ws@),
{
    let mut data: Vec<u8> = Vec::new();
    let mut i: usize = 0;
    while i < ws.len()
        invariant
            i <= ws@.len(),
            data@ == to_bytes(ws@.take(i as int)),
        decreases ws@.len() - i,
    {
        let ghost before = data@;
        data.push((ws[i] / 256) as u8);
        data.push((ws[i] % 256) as u8);
        proof {
            let now = to_bytes(ws@.take(i + 1));
            assert forall|k: int| 0 <= k < now.len() implies data@[k] == now[k] by {
                if k < 2 * i {
                    assert(k / 2 < i);
                    assert(data@[k] == before[k]);
                } else {
                    assert(k == 2 * i || k == 2 * i + 1);
                }
            }
            assert(data@ =~= now);
        }
        i += 1;
    }
    assert(ws@.take(i as int) =~= ws@);
    data
}

/// A lookup of single substitutions: the lookup with one subtable, the list of
/// substitutes, and the coverage.
pub open spec fn single_words(mappings: Seq<(u16, u16)>, flags: u16) -> Seq<u16> {
    let n = mappings.len();
    seq![1u16, flags, 1, 8, 2, (6 + 2 * n) as u16, n as u16] + Seq::new(n, |i: int| mappings[i].1) + seq![
        1u16,
        n as u16,
    ] + Seq::new(n, |i: int| mappings[i].0)
}

/// A lookup that substitutes the second glyph of each mapping for the first, if
/// it can be written.
pub fn serialize_single_lookup(mappings: &[(u16, u16)], flags: u16) -> (r: Option<Vec<u8>>)
    ensures
        r is Some <==> 6 + 2 * mappings@.len() <= 0xffff,
        r matches Some(data) ==> data@ == to_bytes(single_words(mappings@, flags)),
{
    let n: usize = mappings.len();
    if n > 32764 {
        return None;
    }
    let mut ws: Vec<u16> = Vec::new();
    ws.push(1);
    ws.push(flags);
    ws.push(1);
    ws.push(8);
    ws.push(2);
    ws.push((6 + 2 * n) as u16);
    ws.push(n as u16);
    let ghost all = single_words(mappings@, flags);
    let mut i: usize = 0;
    assert(ws@ =~= all.take(7));
    while i < n
        invariant
            i <= n,
            n == mappings@.len(),
            all == single_words(mappings@, flags),
            ws@ == all.take(7 + i),
        decreases n - i,
    {
        ws.push(mappings[i].1);
        assert(ws@ =~= all.take(7 + i + 1));
        i += 1;
    }
    ws.push(1);
    ws.push(n as u16);
    assert(ws@ =~= all.take(9 + n));
    let mut i: usize = 0;
    while i < n
        invariant
            i <= n,
            n == mappings@.len(),
            all == single_words(mappings@, flags),
            ws@ == all.take(9 + n + i),
        decreases n - i,
    {
        ws.push(mappings[i].0);
        assert(ws@ =~= all.take(9 + n + i + 1));
        i += 1;
    }
    assert(ws@ =~= all);
    Some(bytes_of(&ws))
}

/// A written substitution reads back: the lookup has one subtable, a list; its
/// coverage is the first glyphs, in order, and the list has the second of each.
pub proof fn a_written_substitution_reads_back(mappings: Seq<(u16, u16)>, flags: u16, i: int)
    requires
        6 + 2 * mappings.len() <= 0xffff,
        0 <= i < mappings.len(),
    ensures
        ({
            let d = to_bytes(single_words(mappings, flags));
            &&& word(d, 0) == 1
            &&& word(d, 2) == flags
            &&& subtable_offsets(d, 0) == seq![8u16]
            &&& format_at(d, Table::Gsub, 1, 8) == Some(Format::SingleList)
            &&& word(d, 12) == mappings.len()
            &&& word(d, 14 + 2 * i) == mappings[i].1
            &&& coverage_from(d, 8, word(d, 10) as int) == Some(
                Seq::new(mappings.len(), |k: int| mappings[k].0 as u32),
            )
        }),
{
    let ws = single_words(mappings, flags);
    let d = to_bytes(ws);
    let n = mappings.len() as int;
    assert(ws.len() == 9 + 2 * n);
    lemma_bytes_read_back(ws, 0);
    lemma_bytes_read_back(ws, 1);
    lemma_bytes_read_back(ws, 2);
    lemma_bytes_read_back(ws, 3);
    lemma_bytes_read_back(ws, 4);
    lemma_bytes_read_back(ws, 5);
    lemma_bytes_read_back(ws, 6);
    lemma_bytes_read_back(ws, 7 + i);
    assert(ws[7 + i] == mappings[i].1);
    assert(subtable_offsets(d, 0) =~= seq![8u16]);
    let firsts = Seq::new(mappings.len(), |k: int| mappings[k].0);
    assert forall|k: int| 0 <= k < n implies #[trigger] ws[9 + n + k] == firsts[k] by {
        assert(ws[9 + n + k] == mappings[k].0);
    }
    lemma_coverage_reads_back(ws, firsts);
    assert(Seq::new(firsts.len(), |k: int| firsts[k] as u32) =~= Seq::new(
        mappings.len(),
        |k: int| mappings[k].0 as u32,
    ));
}

/// Where the sets of ligatures start among the first `n`: a set has one first
/// component.
pub open spec fn set_starts<const N: usize>(ligs: Seq<([u16; N], u16)>, n: nat) -> Seq<int>
    decreases n,
{
    if n == 0 {
        seq![]
    } else if n == 1 || ligs[n - 1].0@[0] != ligs[n - 2].0@[0] {
        set_starts(ligs, (n - 1) as nat).push(n - 1)
    } else {
        set_starts(ligs, (n - 1) as nat)
    }
}

/// Where set `i` ends.
pub open spec fn set_end<const N: usize>(ligs: Seq<([u16; N], u16)>, i: int) -> int {
    let starts = set_starts(ligs, ligs.len());
    if i + 1 < starts.len() {
        starts[i + 1]
    } else {
        ligs.len() as int
    }
}

/// How many ligatures set `i` has.
pub open spec fn set_count<const N: usize>(ligs: Seq<([u16; N], u16)>, i: int) -> int {
    set_end(ligs, i) - set_starts(ligs, ligs.len())[i]
}

/// Where set `i` stands, in words from the start of the subtable.
pub open spec fn set_place<const N: usize>(ligs: Seq<([u16; N], u16)>, i: nat) -> int
    decreases i,
{
    if i == 0 {
        (5 + 2 * set_starts(ligs, ligs.len()).len()) as int
    } else {
        set_place(ligs, (i - 1) as nat) + 1 + set_count(ligs, i - 1) * (N + 2)
    }
}

/// A ligature: its glyph, and its components after the first.
pub open spec fn ligature_words<const N: usize>(l: ([u16; N], u16)) -> Seq<u16> {
    seq![l.1, N as u16] + l.0@.skip(1)
}

/// `n` ligatures from `from` on.
pub open spec fn ligatures_words<const N: usize>(ligs: Seq<([u16; N], u16)>, from: int, n: nat) -> Seq<u16>
    decreases n,
{
    if n == 0 {
        seq![]
    } else {
        ligatures_words(ligs, from, (n - 1) as nat) + ligature_words(ligs[from + n - 1])
    }
}

/// A set of `n` ligatures from `from` on: their number, their places, and
/// themselves.
pub open spec fn set_words<const N: usize>(ligs: Seq<([u16; N], u16)>, from: int, n: nat) -> Seq<u16> {
    seq![n as u16] + Seq::new(n, |j: int| (2 * (1 + n + j * (N + 1))) as u16) + ligatures_words(
        ligs,
        from,
        n,
    )
}

/// The first `n` sets.
pub open spec fn sets_words<const N: usize>(ligs: Seq<([u16; N], u16)>, n: nat) -> Seq<u16>
    decreases n,
{
    if n == 0 {
        seq![]
    } else {
        sets_words(ligs, (n - 1) as nat) + set_words(
            ligs,
            set_starts(ligs, ligs.len())[n - 1],
            set_count(ligs, n - 1) as nat,
        )
    }
}

/// A lookup of ligatures: the lookup with one subtable, the places of the sets,
/// the coverage, and the sets.
#[verifier::opaque]
pub open spec fn ligature_lookup_words<const N: usize>(ligs: Seq<([u16; N], u16)>, flags: u16) -> Seq<u16> {
    let starts = set_starts(ligs, ligs.len());
    let n = starts.len();
    seq![4u16, flags, 1, 8, 1, (6 + 2 * n) as u16, n as u16] + Seq::new(
        n,
        |i: int| (2 * set_place(ligs, i as nat)) as u16,
    ) + seq![1u16, n as u16] + Seq::new(n, |i: int| ligs[starts[i]].0@[0]) + sets_words(ligs, n)
}

/// Whether every place that a set needs can be written.
pub open spec fn set_fits<const N: usize>(ligs: Seq<([u16; N], u16)>, i: int) -> bool {
    let k = set_count(ligs, i);
    &&& 2 * set_place(ligs, i as nat) <= 0xffff
    &&& k <= 0xffff
    &&& 2 * (1 + k + (k - 1) * (N + 1)) <= 0xffff
}

/// Whether a lookup of ligatures can be written.
pub open spec fn ligatures_fit<const N: usize>(ligs: Seq<([u16; N], u16)>) -> bool {
    let n = set_starts(ligs, ligs.len()).len();
    &&& 6 + 2 * n <= 0xffff
    &&& N <= 0xffff
    &&& forall|i: int| 0 <= i < n ==> #[trigger] set_fits(ligs, i)
}

/// Starts are in order and inside, and the first is the first ligature.
proof fn lemma_starts<const N: usize>(ligs: Seq<([u16; N], u16)>, n: nat)
    requires
        n <= ligs.len(),
    ensures
        set_starts(ligs, n).len() <= n,
        forall|i: int| 0 <= i < set_starts(ligs, n).len() ==> 0 <= #[trigger] set_starts(ligs, n)[i] < n,
        forall|i: int, j: int|
            0 <= i < j < set_starts(ligs, n).len() ==> set_starts(ligs, n)[i] < set_starts(ligs, n)[j],
    decreases n,
{
    if n > 0 {
        lemma_starts(ligs, (n - 1) as nat);
    }
}

/// Every set has a ligature and ends inside.
proof fn lemma_set<const N: usize>(ligs: Seq<([u16; N], u16)>, i: int)
    requires
        0 <= i < set_starts(ligs, ligs.len()).len(),
    ensures
        0 <= set_starts(ligs, ligs.len())[i] < set_end(ligs, i) <= ligs.len(),
        set_count(ligs, i) >= 1,
{
    lemma_starts(ligs, ligs.len());
}

/// Find where the sets start.
fn find_starts<const N: usize>(ligs: &[([u16; N], u16)]) -> (starts: Vec<usize>)
    requires
        N >= 1,
    ensures
        starts@.len() == set_starts(ligs@, ligs@.len()).len(),
        forall|i: int|
            0 <= i < starts@.len() ==> #[trigger] starts@[i] == set_starts(ligs@, ligs@.len())[i],
{
    let mut starts: Vec<usize> = Vec::new();
    let mut i: usize = 0;
    while i < ligs.len()
        invariant
            i <= ligs@.len(),
            N >= 1,
            starts@.len() == set_starts(ligs@, i as nat).len(),
            forall|k: int|
                0 <= k < starts@.len() ==> #[trigger] starts@[k] == set_starts(ligs@, i as nat)[k],
        decreases ligs@.len() - i,
    {
        if i == 0 || ligs[i].0[0] != ligs[i - 1].0[0] {
            starts.push(i);
        }
        i += 1;
    }
    starts
}

/// Add a ligature.
fn push_ligature<const N: usize>(ws: &mut Vec<u16>, l: &([u16; N], u16))
    requires
        1 <= N <= 0xffff,
    ensures
        final(ws)@ == old(ws)@ + ligature_words(*l),
{
    let ghost before = ws@;
    ws.push(l.1);
    ws.push(N as u16);
    let mut i: usize = 1;
    assert(ws@ =~= before + ligature_words(*l).take(2));
    while i < N
        invariant
            1 <= i <= N,
            ws@ == before + ligature_words(*l).take(1 + i),
        decreases N - i,
    {
        ws.push(l.0[i]);
        assert(ligature_words(*l)[1 + i] == l.0@[i as int]);
        assert(ws@ =~= before + ligature_words(*l).take(1 + i + 1));
        i += 1;
    }
    assert(ligature_words(*l).take(1 + N) =~= ligature_words(*l));
}

/// Add a set.
fn push_set<const N: usize>(ws: &mut Vec<u16>, ligs: &[([u16; N], u16)], from: usize, n: usize)
    requires
        1 <= N <= 0xffff,
        from + n <= ligs@.len(),
        1 <= n <= 0xffff,
        2 * (1 + n + (n - 1) * (N + 1)) <= 0xffff,
    ensures
        final(ws)@ == old(ws)@ + set_words(ligs@, from as int, n as nat),
{
    let ghost before = ws@;
    let ghost all = set_words(ligs@, from as int, n as nat);
    ws.push(n as u16);
    let mut j: usize = 0;
    assert(ws@ =~= before + all.take(1));
    while j < n
        invariant
            j <= n,
            1 <= N <= 0xffff,
            1 <= n <= 0xffff,
            2 * (1 + n + (n - 1) * (N + 1)) <= 0xffff,
            all == set_words(ligs@, from as int, n as nat),
            ws@ == before + all.take(1 + j),
        decreases n - j,
    {
        assert(0 <= j * (N + 1) <= (n - 1) * (N + 1)) by (nonlinear_arith)
            requires
                0 <= j <= n - 1,
                N >= 1,
        ;
        ws.push((2 * (1 + n + j * (N + 1))) as u16);
        assert(all[1 + j] == (2 * (1 + n + j * (N + 1))) as u16);
        assert(ws@ =~= before + all.take(1 + j + 1));
        j += 1;
    }
    let ghost head = all.take(1 + n);
    let mut j: usize = 0;
    let end: usize = ligs.len();
    assert(ws@ =~= before + head + ligatures_words(ligs@, from as int, 0));
    while j < n
        invariant
            j <= n,
            1 <= N <= 0xffff,
            end == ligs@.len(),
            from + n <= end,
            ws@ == before + head + ligatures_words(ligs@, from as int, j as nat),
        decreases n - j,
    {
        push_ligature(ws, &ligs[from + j]);
        assert(ws@ =~= before + head + ligatures_words(ligs@, from as int, (j + 1) as nat));
        j += 1;
    }
    assert(all =~= head + ligatures_words(ligs@, from as int, n as nat));
    assert(ws@ =~= before + all);
}

/// Where each set goes, if every place that is needed can be written.
fn find_places<const N: usize>(ligs: &[([u16; N], u16)], starts: &Vec<usize>) -> (r: Option<Vec<u16>>)
    requires
        1 <= N <= 0xffff,
        6 + 2 * starts@.len() <= 0xffff,
        starts@.len() == set_starts(ligs@, ligs@.len()).len(),
        forall|i: int|
            0 <= i < starts@.len() ==> #[trigger] starts@[i] == set_starts(ligs@, ligs@.len())[i],
    ensures
        r is Some <==> ligatures_fit(ligs@),
        r matches Some(places) ==> places@ == Seq::new(
            starts@.len(),
            |i: int| (2 * set_place(ligs@, i as nat)) as u16,
        ),
{
    let mut places: Vec<u16> = Vec::new();
    let n: usize = starts.len();
    let mut at: u64 = 5 + 2 * n as u64;
    let mut i: usize = 0;
    while i < n
        invariant
            i <= n,
            n == starts@.len(),
            1 <= N <= 0xffff,
            6 + 2 * n <= 0xffff,
            starts@.len() == set_starts(ligs@, ligs@.len()).len(),
            forall|k: int|
                0 <= k < starts@.len() ==> #[trigger] starts@[k] == set_starts(ligs@, ligs@.len())[k],
            at == set_place(ligs@, i as nat),
            at <= 0x2_0000_0000,
            forall|k: int| 0 <= k < i ==> #[trigger] set_fits(ligs@, k),
            places@ == Seq::new(i as nat, |k: int| (2 * set_place(ligs@, k as nat)) as u16),
        decreases n - i,
    {
        proof {
            lemma_set(ligs@, i as int);
        }
        let end: usize = if i + 1 < n {
            starts[i + 1]
        } else {
            ligs.len()
        };
        let k: u64 = (end - starts[i]) as u64;
        assert(k == set_count(ligs@, i as int));
        if 2 * at > 0xffff || k > 0xffff {
            assert(!set_fits(ligs@, i as int));
            return None;
        }
        assert(0 <= (k - 1) * (N + 1) <= 0xffff * 0x1_0000) by (nonlinear_arith)
            requires
                1 <= k <= 0xffff,
                1 <= N <= 0xffff,
        ;
        if 2 * (1 + k + (k - 1) * (N as u64 + 1)) > 0xffff {
            assert(!set_fits(ligs@, i as int));
            return None;
        }
        places.push((2 * at) as u16);
        assert(places@ =~= Seq::new((i + 1) as nat, |k: int| (2 * set_place(ligs@, k as nat)) as u16));
        assert(0 <= k * (N + 2) <= 0xffff * 0x1_0001) by (nonlinear_arith)
            requires
                1 <= k <= 0xffff,
                1 <= N <= 0xffff,
        ;
        at = at + 1 + k * (N as u64 + 2);
        assert(set_fits(ligs@, i as int));
        i += 1;
    }
    Some(places)
}

/// A lookup of ligatures, in order of their first components, if it can be
/// written.
pub fn serialize_ligature_lookup<const N: usize>(ligs: &[([u16; N], u16)], flags: u16) -> (r: Option<Vec<u8>>)
    requires
        N >= 1,
    ensures
        r is Some <==> ligatures_fit(ligs@),
        r matches Some(data) ==> data@ == to_bytes(ligature_lookup_words(ligs@, flags)),
{
    proof {
        reveal(ligature_lookup_words);
    }
    let starts = find_starts(ligs);
    let n: usize = starts.len();
    if N > 0xffff || n > 32764 {
        return None;
    }
    let places = match find_places(ligs, &starts) {
        Some(places) => places,
        None => return None,
    };
    let ghost all = ligature_lookup_words(ligs@, flags);
    let ghost spec_starts = set_starts(ligs@, ligs@.len());
    let mut ws: Vec<u16> = Vec::new();
    ws.push(4);
    ws.push(flags);
    ws.push(1);
    ws.push(8);
    ws.push(1);
    ws.push((6 + 2 * n) as u16);
    ws.push(n as u16);
    assert(ws@ =~= all.take(7));
    let mut places = places;
    let ghost listed = places@;
    ws.append(&mut places);
    assert(ws@ =~= all.take(7 + n));
    ws.push(1);
    ws.push(n as u16);
    assert(ws@ =~= all.take(9 + n));
    let mut i: usize = 0;
    while i < n
        invariant
            i <= n,
            N >= 1,
            n == starts@.len(),
            all == ligature_lookup_words(ligs@, flags),
            spec_starts == set_starts(ligs@, ligs@.len()),
            n == spec_starts.len(),
            forall|k: int| 0 <= k < starts@.len() ==> #[trigger] starts@[k] == spec_starts[k],
            ws@ == all.take(9 + n + i),
        decreases n - i,
    {
        proof {
            reveal(ligature_lookup_words);
            lemma_set(ligs@, i as int);
        }
        ws.push(ligs[starts[i]].0[0]);
        assert(all[9 + n + i] == ligs@[spec_starts[i as int]].0@[0]);
        assert(ws@ =~= all.take(9 + n + i + 1));
        i += 1;
    }
    let ghost head = all.take(9 + 2 * n);
    let mut i: usize = 0;
    assert(ws@ =~= head + sets_words(ligs@, 0));
    while i < n
        invariant
            i <= n,
            1 <= N <= 0xffff,
            n == starts@.len(),
            ligatures_fit(ligs@),
            spec_starts == set_starts(ligs@, ligs@.len()),
            n == spec_starts.len(),
            forall|k: int| 0 <= k < starts@.len() ==> #[trigger] starts@[k] == spec_starts[k],
            ws@ == head + sets_words(ligs@, i as nat),
        decreases n - i,
    {
        proof {
            lemma_set(ligs@, i as int);
            assert(set_fits(ligs@, i as int));
        }
        let end: usize = if i + 1 < n {
            starts[i + 1]
        } else {
            ligs.len()
        };
        assert(end - starts@[i as int] == set_count(ligs@, i as int));
        push_set(&mut ws, ligs, starts[i], end - starts[i]);
        assert(ws@ =~= head + sets_words(ligs@, (i + 1) as nat));
        i += 1;
    }
    assert(all =~= head + sets_words(ligs@, n as nat));
    Some(bytes_of(&ws))
}

proof fn lemma_ligatures_len<const N: usize>(ligs: Seq<([u16; N], u16)>, from: int, n: nat)
    requires
        N >= 1,
    ensures
        ligatures_words(ligs, from, n).len() == n * (N + 1),
    decreases n,
{
    if n > 0 {
        lemma_ligatures_len(ligs, from, (n - 1) as nat);
        assert(ligature_words(ligs[from + n - 1]).len() == N + 1);
        assert((n - 1) * (N + 1) + (N + 1) == n * (N + 1)) by (nonlinear_arith);
    } else {
        assert(0 * (N + 1) == 0);
    }
}

/// A word of a ligature is a word of the list.
proof fn lemma_ligature_word<const N: usize>(ligs: Seq<([u16; N], u16)>, from: int, n: nat, j: int, r: int)
    requires
        N >= 1,
        0 <= j < n,
        0 <= r < N + 1,
    ensures
        0 <= j * (N + 1),
        j * (N + 1) + r < ligatures_words(ligs, from, n).len(),
        ligatures_words(ligs, from, n)[j * (N + 1) + r] == ligature_words(ligs[from + j])[r],
    decreases n,
{
    let before = ligatures_words(ligs, from, (n - 1) as nat);
    lemma_ligatures_len(ligs, from, n);
    lemma_ligatures_len(ligs, from, (n - 1) as nat);
    assert(ligature_words(ligs[from + n - 1]).len() == N + 1);
    if j == n - 1 {
        assert(ligatures_words(ligs, from, n)[before.len() + r] == ligature_words(ligs[from + j])[r]);
        assert(0 <= j * (N + 1)) by (nonlinear_arith)
            requires
                j >= 0,
        ;
    } else {
        lemma_ligature_word(ligs, from, (n - 1) as nat, j, r);
    }
}

/// A set takes one word, and for each ligature its place and its words.
proof fn lemma_set_len<const N: usize>(ligs: Seq<([u16; N], u16)>, from: int, n: nat)
    requires
        N >= 1,
    ensures
        set_words(ligs, from, n).len() == 1 + n * (N + 2),
{
    lemma_ligatures_len(ligs, from, n);
    assert(n + n * (N + 1) == n * (N + 2)) by (nonlinear_arith);
}

/// The sets stand where their places say.
proof fn lemma_sets_len<const N: usize>(ligs: Seq<([u16; N], u16)>, n: nat)
    requires
        N >= 1,
        n <= set_starts(ligs, ligs.len()).len(),
    ensures
        5 + 2 * set_starts(ligs, ligs.len()).len() + sets_words(ligs, n).len() == set_place(ligs, n),
    decreases n,
{
    if n > 0 {
        lemma_sets_len(ligs, (n - 1) as nat);
        lemma_set(ligs, n - 1);
        lemma_set_len(ligs, set_starts(ligs, ligs.len())[n - 1], set_count(ligs, n - 1) as nat);
    }
}

/// A word of a set is a word of the list of sets.
proof fn lemma_set_word<const N: usize>(ligs: Seq<([u16; N], u16)>, n: nat, i: int, r: int)
    requires
        N >= 1,
        0 <= i < n <= set_starts(ligs, ligs.len()).len(),
        0 <= r < 1 + set_count(ligs, i) * (N + 2),
    ensures
        ({
            let at = set_place(ligs, i as nat) - set_place(ligs, 0) + r;
            &&& 0 <= at < sets_words(ligs, n).len()
            &&& sets_words(ligs, n)[at] == set_words(
                ligs,
                set_starts(ligs, ligs.len())[i],
                set_count(ligs, i) as nat,
            )[r]
        }),
    decreases n,
{
    lemma_sets_len(ligs, n);
    lemma_sets_len(ligs, (n - 1) as nat);
    lemma_set(ligs, n - 1);
    lemma_set_len(ligs, set_starts(ligs, ligs.len())[n - 1], set_count(ligs, n - 1) as nat);
    if i < n - 1 {
        lemma_set_word(ligs, (n - 1) as nat, i, r);
    }
}

/// A written ligature reads back: the lookup has one subtable of ligatures, its
/// coverage is the first components, one for each set, and following the places
/// leads to the ligature's glyph and its other components.
pub proof fn a_written_ligature_reads_back<const N: usize>(
    ligs: Seq<([u16; N], u16)>,
    flags: u16,
    i: int,
    j: int,
    m: int,
)
    requires
        N >= 1,
        ligatures_fit(ligs),
        0 <= i < set_starts(ligs, ligs.len()).len(),
        0 <= j < set_count(ligs, i),
        1 <= m < N,
    ensures
        ({
            let d = to_bytes(ligature_lookup_words(ligs, flags));
            let starts = set_starts(ligs, ligs.len());
            let lig = ligs[starts[i] + j];
            let set = 8 + word(d, 14 + 2 * i);
            let at = set + word(d, set + 2 + 2 * j);
            &&& word(d, 0) == 4
            &&& word(d, 2) == flags
            &&& subtable_offsets(d, 0) == seq![8u16]
            &&& format_at(d, Table::Gsub, 4, 8) == Some(Format::Ligature)
            &&& coverage_from(d, 8, word(d, 10) as int) == Some(
                Seq::new(starts.len(), |k: int| ligs[starts[k]].0@[0] as u32),
            )
            &&& word(d, 12) == starts.len()
            &&& word(d, set) == set_count(ligs, i)
            &&& word(d, at) == lig.1
            &&& word(d, at + 2) == N
            &&& word(d, at + 2 + 2 * m) == lig.0@[m]
        }),
{
    let d = to_bytes(ligature_lookup_words(ligs, flags));
    let from = set_starts(ligs, ligs.len())[i];
    let k = set_count(ligs, i);
    let place = set_place(ligs, i as nat);
    let step = 1 + k + j * (N + 1);
    let this = set_words(ligs, from, k as nat);
    lemma_written_header(ligs, flags);
    lemma_written_coverage(ligs, flags);
    lemma_written_place(ligs, flags, i);
    lemma_set(ligs, i);
    lemma_steps::<N>(ligs, i, j);
    lemma_written_word(ligs, flags, i, 0);
    lemma_written_word(ligs, flags, i, 1 + j);
    lemma_written_word(ligs, flags, i, step);
    lemma_written_word(ligs, flags, i, step + 1);
    lemma_written_word(ligs, flags, i, step + 1 + m);
    lemma_in_set(ligs, from, k as nat, j, 0);
    lemma_in_set(ligs, from, k as nat, j, 1);
    lemma_in_set(ligs, from, k as nat, j, 1 + m);
    let set = 8 + word(d, 14 + 2 * i);
    assert(set == 2 * (4 + place));
    assert(set + 2 + 2 * j == 2 * (4 + place + (1 + j)));
    let at = set + word(d, set + 2 + 2 * j);
    assert(at == 2 * (4 + place + step));
    assert(at + 2 == 2 * (4 + place + (step + 1)));
    assert(at + 2 + 2 * m == 2 * (4 + place + (step + 1 + m)));
    assert(this[0] == k as u16);
}

/// The places inside a set stay inside it.
proof fn lemma_steps<const N: usize>(ligs: Seq<([u16; N], u16)>, i: int, j: int)
    requires
        N >= 1,
        ligatures_fit(ligs),
        0 <= i < set_starts(ligs, ligs.len()).len(),
        0 <= j < set_count(ligs, i),
    ensures
        ({
            let k = set_count(ligs, i);
            &&& 0 <= j * (N + 1)
            &&& 1 + k + j * (N + 1) + N < 1 + k * (N + 2)
            &&& 2 * (1 + k + j * (N + 1)) <= 0xffff
            &&& 1 <= k <= 0xffff
            &&& k < 1 + k * (N + 2)
        }),
{
    let k = set_count(ligs, i);
    lemma_set(ligs, i);
    assert(set_fits(ligs, i));
    assert(k + k * (N + 1) == k * (N + 2)) by (nonlinear_arith);
    assert(0 <= j * (N + 1) && j * (N + 1) + (N + 1) <= k * (N + 1)) by (nonlinear_arith)
        requires
            0 <= j,
            j + 1 <= k,
            N >= 1,
    ;
    assert(j * (N + 1) <= (k - 1) * (N + 1)) by (nonlinear_arith)
        requires
            j <= k - 1,
            N >= 1,
    ;
}

/// A word of a ligature is a word of its set, at the place the set gives for it.
proof fn lemma_in_set<const N: usize>(ligs: Seq<([u16; N], u16)>, from: int, k: nat, j: int, r: int)
    requires
        N >= 1,
        0 <= j < k,
        0 <= r < N + 1,
    ensures
        set_words(ligs, from, k)[1 + j] == (2 * (1 + k + j * (N + 1))) as u16,
        set_words(ligs, from, k)[1 + k + j * (N + 1) + r] == ligature_words(ligs[from + j])[r],
{
    lemma_ligature_word(ligs, from, k, j, r);
    lemma_ligatures_len(ligs, from, k);
    let head = seq![k as u16] + Seq::new(k, |j: int| (2 * (1 + k + j * (N + 1))) as u16);
    assert(set_words(ligs, from, k) == head + ligatures_words(ligs, from, k));
    assert(head.len() == 1 + k);
    let at = j * (N + 1) + r;
    assert(set_words(ligs, from, k)[head.len() + at] == ligatures_words(ligs, from, k)[at]);
    assert(set_words(ligs, from, k)[1 + j] == head[1 + j]);
}

/// The header of a written lookup of ligatures.
proof fn lemma_written_header<const N: usize>(ligs: Seq<([u16; N], u16)>, flags: u16)
    requires
        ligatures_fit(ligs),
    ensures
        ({
            let d = to_bytes(ligature_lookup_words(ligs, flags));
            &&& word(d, 0) == 4
            &&& word(d, 2) == flags
            &&& subtable_offsets(d, 0) == seq![8u16]
            &&& format_at(d, Table::Gsub, 4, 8) == Some(Format::Ligature)
            &&& word(d, 12) == set_starts(ligs, ligs.len()).len()
        }),
{
    reveal(ligature_lookup_words);
    let ws = ligature_lookup_words(ligs, flags);
    let d = to_bytes(ws);
    lemma_bytes_read_back(ws, 0);
    lemma_bytes_read_back(ws, 1);
    lemma_bytes_read_back(ws, 2);
    lemma_bytes_read_back(ws, 3);
    lemma_bytes_read_back(ws, 4);
    lemma_bytes_read_back(ws, 5);
    lemma_bytes_read_back(ws, 6);
    assert(subtable_offsets(d, 0) =~= seq![8u16]);
}

/// The place of a set, as written.
proof fn lemma_written_place<const N: usize>(ligs: Seq<([u16; N], u16)>, flags: u16, i: int)
    requires
        ligatures_fit(ligs),
        0 <= i < set_starts(ligs, ligs.len()).len(),
    ensures
        word(to_bytes(ligature_lookup_words(ligs, flags)), 14 + 2 * i) == 2 * set_place(ligs, i as nat),
{
    reveal(ligature_lookup_words);
    let ws = ligature_lookup_words(ligs, flags);
    assert(set_fits(ligs, i));
    lemma_place_positive(ligs, i as nat);
    lemma_bytes_read_back(ws, 7 + i);
    assert(ws[7 + i] == (2 * set_place(ligs, i as nat)) as u16);
}

/// A word of a set, as written.
proof fn lemma_written_word<const N: usize>(ligs: Seq<([u16; N], u16)>, flags: u16, i: int, r: int)
    requires
        N >= 1,
        0 <= i < set_starts(ligs, ligs.len()).len(),
        0 <= r < 1 + set_count(ligs, i) * (N + 2),
    ensures
        word(
            to_bytes(ligature_lookup_words(ligs, flags)),
            2 * (4 + set_place(ligs, i as nat) + r),
        ) == set_words(ligs, set_starts(ligs, ligs.len())[i], set_count(ligs, i) as nat)[r],
{
    lemma_in_sets(ligs, flags, i, r);
    lemma_bytes_read_back(ligature_lookup_words(ligs, flags), 4 + set_place(ligs, i as nat) + r);
}

proof fn lemma_place_positive<const N: usize>(ligs: Seq<([u16; N], u16)>, i: nat)
    requires
        i < set_starts(ligs, ligs.len()).len(),
    ensures
        set_place(ligs, i) >= set_place(ligs, 0) >= 5,
    decreases i,
{
    if i > 0 {
        lemma_place_positive(ligs, (i - 1) as nat);
        lemma_set(ligs, i - 1);
        let k = set_count(ligs, i - 1);
        assert(k * (N + 2) >= 0) by (nonlinear_arith)
            requires
                k >= 0,
        ;
    }
}

/// A word of a set is a word of the lookup.
proof fn lemma_in_sets<const N: usize>(ligs: Seq<([u16; N], u16)>, flags: u16, i: int, r: int)
    requires
        N >= 1,
        0 <= i < set_starts(ligs, ligs.len()).len(),
        0 <= r < 1 + set_count(ligs, i) * (N + 2),
    ensures
        ({
            let ws = ligature_lookup_words(ligs, flags);
            let at = 4 + set_place(ligs, i as nat) + r;
            &&& 0 <= at < ws.len()
            &&& ws[at] == set_words(
                ligs,
                set_starts(ligs, ligs.len())[i],
                set_count(ligs, i) as nat,
            )[r]
        }),
{
    reveal(ligature_lookup_words);
    let n = set_starts(ligs, ligs.len()).len();
    let ws = ligature_lookup_words(ligs, flags);
    lemma_set_word(ligs, n, i, r);
    let at = set_place(ligs, i as nat) - set_place(ligs, 0) + r;
    assert(ws[9 + 2 * n + at] == sets_words(ligs, n)[at]);
}

/// Where the coverage stands among the words of a lookup of ligatures.
proof fn lemma_coverage_words<const N: usize>(ligs: Seq<([u16; N], u16)>, flags: u16)
    requires
        ligatures_fit(ligs),
    ensures
        ({
            let ws = ligature_lookup_words(ligs, flags);
            let starts = set_starts(ligs, ligs.len());
            let n = starts.len() as int;
            &&& ws.len() >= 9 + 2 * n
            &&& ws[5] == 6 + 2 * n
            &&& ws[7 + n] == 1
            &&& ws[8 + n] == n
            &&& forall|k: int| 0 <= k < n ==> #[trigger] ws[9 + n + k] == ligs[starts[k]].0@[0]
        }),
{
    reveal(ligature_lookup_words);
}

/// The coverage of a written lookup of ligatures.
proof fn lemma_written_coverage<const N: usize>(ligs: Seq<([u16; N], u16)>, flags: u16)
    requires
        N >= 1,
        ligatures_fit(ligs),
    ensures
        ({
            let d = to_bytes(ligature_lookup_words(ligs, flags));
            let starts = set_starts(ligs, ligs.len());
            coverage_from(d, 8, word(d, 10) as int) == Some(
                Seq::new(starts.len(), |k: int| ligs[starts[k]].0@[0] as u32),
            )
        }),
{
    let ws = ligature_lookup_words(ligs, flags);
    let starts = set_starts(ligs, ligs.len());
    let firsts = Seq::new(starts.len(), |k: int| ligs[starts[k]].0@[0]);
    lemma_coverage_words(ligs, flags);
    lemma_coverage_reads_back(ws, firsts);
    let listed = Seq::new(starts.len(), |k: int| ligs[starts[k]].0@[0] as u32);
    assert(Seq::new(firsts.len(), |k: int| firsts[k] as u32) =~= listed);
}

/// A list of glyphs written as a coverage reads back.
proof fn lemma_coverage_reads_back(ws: Seq<u16>, firsts: Seq<u16>)
    requires
        6 + 2 * firsts.len() <= 0xffff,
        ws.len() >= 9 + 2 * firsts.len(),
        ws[5] == 6 + 2 * firsts.len(),
        ws[7 + firsts.len() as int] == 1,
        ws[8 + firsts.len() as int] == firsts.len(),
        forall|k: int| 0 <= k < firsts.len() ==> #[trigger] ws[9 + firsts.len() as int + k] == firsts[k],
    ensures
        coverage_from(to_bytes(ws), 8, word(to_bytes(ws), 10) as int) == Some(
            Seq::new(firsts.len(), |k: int| firsts[k] as u32),
        ),
{
    let d = to_bytes(ws);
    let n = firsts.len() as int;
    lemma_bytes_read_back(ws, 5);
    lemma_bytes_read_back(ws, 7 + n);
    lemma_bytes_read_back(ws, 8 + n);
    let at = 14 + 2 * n;
    let t = tail(d, at);
    crate::bytes::lemma_tail_word(d, at, 0);
    crate::bytes::lemma_tail_word(d, at, 2);
    assert(coverage_readable(t));
    let listed = Seq::new(firsts.len(), |k: int| firsts[k] as u32);
    assert(coverage_glyphs(t) =~= listed) by {
        assert forall|k: int| 0 <= k < n implies word(t, 4 + 2 * k) == firsts[k] by {
            lemma_bytes_read_back(ws, 9 + n + k);
            crate::bytes::lemma_tail_word(d, at, 4 + 2 * k);
            assert(ws[9 + n + k] == firsts[k]);
        }
        assert(word(t, 2) == n);
    }
}

/// A written lookup of ligatures has its header and is no longer than its places
/// reach.
pub proof fn lemma_ligature_lookup_len<const N: usize>(ligs: Seq<([u16; N], u16)>, flags: u16)
    requires
        N >= 1,
        ligatures_fit(ligs),
    ensures
        6 <= to_bytes(ligature_lookup_words(ligs, flags)).len() <= 0x10_0000,
{
    reveal(ligature_lookup_words);
    let n = set_starts(ligs, ligs.len()).len();
    lemma_sets_len(ligs, n);
    if n > 0 {
        let k = set_count(ligs, n - 1);
        lemma_set(ligs, n - 1);
        assert(set_fits(ligs, n - 1));
        assert(k * (N + 2) == (k - 1) * (N + 1) + (N + 1) + k) by (nonlinear_arith);
    }
}

} // verus!
