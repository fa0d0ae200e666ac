//! Shaping of Arabic letters for fonts that have the shaped letters but no rules
//! to reach them: the rules are written as lookups and run as the font's own.

use vstd::prelude::*;

use crate::bytes::word;
use crate::fallback_lookup::{
    a_written_substitution_reads_back, ligature_lookup_words, ligatures_fit, lemma_ligature_lookup_len, serialize_ligature_lookup,
    serialize_single_lookup, single_words, to_bytes,
};
use crate::layout::Table;
use crate::lookup_info::{Hint, LookupInfo};
use crate::tables::coverage_from;

verus! {

/// The flag of lookups that pass over marks.
pub const IGNORE_MARKS: u16 = 8;

/// Where a new last element goes in a list that is in order of the elements'
/// keys: after all whose keys are no greater.
pub open spec fn place_for(order: Seq<int>, keys: Seq<u16>, x: int) -> int
    decreases order.len(),
{
    if order.len() == 0 || keys[order.last()] <= keys[x] {
        order.len() as int
    } else {
        place_for(order.drop_last(), keys, x)
    }
}

/// The first `n` positions in order of their keys, equal ones as they stand.
pub open spec fn order_of(keys: Seq<u16>, n: nat) -> Seq<int>
    decreases n,
{
    if n == 0 {
        seq![]
    } else {
        let before = order_of(keys, (n - 1) as nat);
        before.insert(place_for(before, keys, n - 1), n - 1)
    }
}

proof fn lemma_place(order: Seq<int>, keys: Seq<u16>, x: int)
    requires
        forall|a: int, b: int|
            0 <= a < b < order.len() ==> keys[#[trigger] order[a]] <= keys[#[trigger] order[b]],
    ensures
        0 <= place_for(order, keys, x) <= order.len(),
        forall|a: int| 0 <= a < place_for(order, keys, x) ==> keys[#[trigger] order[a]] <= keys[x],
        forall|a: int|
            place_for(order, keys, x) <= a < order.len() ==> keys[#[trigger] order[a]] > keys[x],
    decreases order.len(),
{
    if order.len() > 0 && keys[order.last()] > keys[x] {
        let less = order.drop_last();
        lemma_place(less, keys, x);
        let p = place_for(less, keys, x);
        assert forall|a: int| 0 <= a < p implies keys[#[trigger] order[a]] <= keys[x] by {
            assert(less[a] == order[a]);
        }
        assert forall|a: int| p <= a < order.len() implies keys[#[trigger] order[a]] > keys[x] by {
            if a < less.len() {
                assert(less[a] == order[a]);
            }
        }
    } else if order.len() > 0 {
        assert forall|a: int| 0 <= a < order.len() implies keys[#[trigger] order[a]] <= keys[x] by {
            if a < order.len() - 1 {
                assert(keys[order[a]] <= keys[order[order.len() - 1]]);
            }
        }
    }
}

/// An order has every position once, in order of the keys, and leaves equal
/// keys as they stand.
pub proof fn an_order_is_stable(keys: Seq<u16>, n: nat)
    requires
        n <= keys.len(),
    ensures
        order_of(keys, n).len() == n,
        forall|a: int| 0 <= a < n ==> 0 <= #[trigger] order_of(keys, n)[a] < n,
        forall|a: int, b: int|
            0 <= a < b < n ==> {
                let x = #[trigger] order_of(keys, n)[a];
                let y = #[trigger] order_of(keys, n)[b];
                keys[x] < keys[y] || (keys[x] == keys[y] && x < y)
            },
    decreases n,
{
    if n > 0 {
        let before = order_of(keys, (n - 1) as nat);
        an_order_is_stable(keys, (n - 1) as nat);
        lemma_place(before, keys, n - 1);
        let p = place_for(before, keys, n - 1);
        let now = order_of(keys, n);
        assert(now == before.insert(p, n - 1));
        assert forall|a: int| 0 <= a < n implies 0 <= #[trigger] now[a] < n by {
            if a < p {
                assert(now[a] == before[a]);
            } else if a > p {
                assert(now[a] == before[a - 1]);
            }
        }
        assert forall|a: int, b: int| 0 <= a < b < n implies {
            let x = #[trigger] now[a];
            let y = #[trigger] now[b];
            keys[x] < keys[y] || (keys[x] == keys[y] && x < y)
        } by {
            if a < p {
                assert(now[a] == before[a]);
            } else if a > p {
                assert(now[a] == before[a - 1]);
            }
            if b < p {
                assert(now[b] == before[b]);
            } else if b > p {
                assert(now[b] == before[b - 1]);
            }
        }
    }
}

/// The positions of some keys in order, equal ones as they stand.
fn stable_order(keys: &[u16]) -> (order: Vec<usize>)
    ensures
        order@.len() == keys@.len(),
        forall|a: int| 0 <= a < order@.len() ==> #[trigger] order@[a] == order_of(keys@, keys@.len())[a],
{
    let mut order: Vec<usize> = Vec::new();
    let mut i: usize = 0;
    while i < keys.len()
        invariant
            i <= keys@.len(),
            order@.len() == i,
            order@.map_values(|x: usize| x as int) =~= order_of(keys@, i as nat),
        decreases keys@.len() - i,
    {
        let ghost list = order_of(keys@, i as nat);
        proof {
            an_order_is_stable(keys@, i as nat);
        }
        let mut p: usize = i;
        assert(list.take(i as int) =~= list);
        while p > 0 && keys[order[p - 1]] > keys[i]
            invariant
                p <= i < keys@.len(),
                order@.len() == i,
                list == order_of(keys@, i as nat),
                list.len() == i,
                order@.map_values(|x: usize| x as int) =~= list,
                forall|a: int| 0 <= a < i ==> 0 <= #[trigger] list[a] < i,
                place_for(list.take(p as int), keys@, i as int) == place_for(list, keys@, i as int),
            decreases p,
        {
            proof {
                assert(order@.map_values(|x: usize| x as int)[p - 1] == list[p - 1]);
                assert(list.take(p as int).last() == list[p - 1]);
                assert(list.take(p as int).drop_last() =~= list.take(p - 1));
            }
            p -= 1;
            assert(order@[p as int] == list[p as int]);
        }
        proof {
            if p > 0 {
                assert(order@.map_values(|x: usize| x as int)[p - 1] == list[p - 1]);
                assert(list.take(p as int).last() == list[p - 1]);
            }
            assert(place_for(list, keys@, i as int) == p);
        }
        let ghost before = order@;
        order.insert(p, i);
        proof {
            let now = order@.map_values(|x: usize| x as int);
            assert forall|a: int| 0 <= a < now.len() implies now[a] == list.insert(p as int, i as int)[a] by {
                if a < p {
                    assert(order@[a] == before[a]);
                    assert(before.map_values(|x: usize| x as int)[a] == list[a]);
                } else if a > p {
                    assert(order@[a] == before[a - 1]);
                    assert(before.map_values(|x: usize| x as int)[a - 1] == list[a - 1]);
                }
            }
            assert(now =~= list.insert(p as int, i as int));
        }
        i += 1;
    }
    proof {
        an_order_is_stable(keys@, keys@.len());
        assert forall|a: int| 0 <= a < order@.len() implies #[trigger] order@[a] == order_of(
            keys@,
            keys@.len(),
        )[a] by {
            assert(order@.map_values(|x: usize| x as int)[a] == order_of(keys@, keys@.len())[a]);
        }
    }
    order
}

/// Whether a function gives a character a glyph.
pub open spec fn gives<F: Fn(u32) -> Option<u32>>(f: F, c: u32, g: Option<u32>) -> bool {
    call_ensures(f, (c,), g)
}

/// Whether a function answers for every character, and always alike.
pub open spec fn is_glyph_map<F: Fn(u32) -> Option<u32>>(f: F) -> bool {
    &&& forall|c: u32| #[trigger] call_requires(f, (c,))
    &&& forall|c: u32, a: Option<u32>, b: Option<u32>| #[trigger]
        gives(f, c, a) && #[trigger] gives(f, c, b) ==> a == b
}

/// What a function gives a character.
pub open spec fn given<F: Fn(u32) -> Option<u32>>(f: F, c: u32) -> Option<u32> {
    choose|g: Option<u32>| gives(f, c, g)
}

/// The glyph of a character, as far as sixteen bits hold it.
pub open spec fn glyph_of<F: Fn(u32) -> Option<u32>>(f: F, c: u16) -> Option<u16> {
    match given(f, c as u32) {
        Some(g) => if g <= 0xffff {
            Some(g as u16)
        } else {
            None
        },
        None => None,
    }
}

fn glyph_for_codepoint<F: Fn(u32) -> Option<u32>>(f: &F, c: u16) -> (r: Option<u16>)
    requires
        is_glyph_map(*f),
    ensures
        r == glyph_of(*f, c),
{
    let g: Option<u32> = f(c as u32);
    assert(gives(*f, c as u32, g));
    match g {
        Some(g) => if g <= 0xffff {
            Some(g as u16)
        } else {
            None
        },
        None => None,
    }
}

/// The substitutions that a font can do, of the first `n` letters: it has the
/// letter and the form, and they are not the same glyph.
pub open spec fn single_mappings<F: Fn(u32) -> Option<u32>>(
    f: F,
    letters: Seq<(u16, [u16; 4])>,
    form: int,
    n: nat,
) -> Seq<(u16, u16)>
    decreases n,
{
    if n == 0 {
        seq![]
    } else {
        let before = single_mappings(f, letters, form, (n - 1) as nat);
        let letter = letters[n - 1].0;
        let shaped = letters[n - 1].1@[form];
        match (glyph_of(f, letter), glyph_of(f, shaped)) {
            (Some(a), Some(b)) => if shaped != 0 && a != b {
                before.push((a, b))
            } else {
                before
            },
            _ => before,
        }
    }
}

/// Mappings in order of their first glyphs, equal ones as they stand.
pub open spec fn sorted_mappings(mappings: Seq<(u16, u16)>) -> Seq<(u16, u16)> {
    let keys = Seq::new(mappings.len(), |i: int| mappings[i].0);
    Seq::new(mappings.len(), |i: int| mappings[order_of(keys, mappings.len())[i]])
}

/// A lookup that was written, and what is kept of it.
#[derive(Clone, Debug)]
pub struct FallbackLookup {
    pub mask: u32,
    pub data: Vec<u8>,
    pub info: LookupInfo,
}

/// Write the substitutions of letters by one of their forms, if the font can do
/// any.
pub fn synthesize_single_lookup<F: Fn(u32) -> Option<u32>>(
    f: &F,
    letters: &[(u16, [u16; 4])],
    form: usize,
    mask: u32,
    hints: &[Hint],
) -> (r: Option<FallbackLookup>)
    requires
        is_glyph_map(*f),
        form < 4,
    ensures
        ({
            let mappings = single_mappings(*f, letters@, form as int, letters@.len());
            &&& r is Some <==> 0 < mappings.len() && 6 + 2 * mappings.len() <= 0xffff
            &&& r matches Some(l) ==> {
                &&& l.mask == mask
                &&& l.data@ == to_bytes(single_words(sorted_mappings(mappings), IGNORE_MARKS))
                &&& l.info.tells(l.data@, Table::Gsub, 0, hints@)
            }
        }),
{
    let mut mappings: Vec<(u16, u16)> = Vec::new();
    let mut keys: Vec<u16> = Vec::new();
    let mut i: usize = 0;
    assert(mappings@ =~= seq![]);
    while i < letters.len()
        invariant
            i <= letters@.len(),
            is_glyph_map(*f),
            form < 4,
            mappings@ == single_mappings(*f, letters@, form as int, i as nat),
            keys@ == Seq::new(mappings@.len(), |k: int| mappings@[k].0),
        decreases letters@.len() - i,
    {
        let (letter, forms) = letters[i];
        let shaped: u16 = forms[form];
        if shaped != 0 {
            if let Some(a) = glyph_for_codepoint(f, letter) {
                if let Some(b) = glyph_for_codepoint(f, shaped) {
                    if a != b {
                        mappings.push((a, b));
                        keys.push(a);
                        assert(keys@ =~= Seq::new(mappings@.len(), |k: int| mappings@[k].0));
                    }
                }
            }
        }
        i += 1;
    }
    if mappings.len() == 0 {
        return None;
    }
    let sorted = sort_mappings(&mappings, &keys);
    let data = match serialize_single_lookup(&sorted, IGNORE_MARKS) {
        Some(data) => data,
        None => return None,
    };
    let info = match LookupInfo::new_subst(&data, hints) {
        Some(info) => info,
        None => return None,
    };
    Some(FallbackLookup { mask, data, info })
}

fn sort_mappings(mappings: &Vec<(u16, u16)>, keys: &Vec<u16>) -> (sorted: Vec<(u16, u16)>)
    requires
        keys@ == Seq::new(mappings@.len(), |k: int| mappings@[k].0),
    ensures
        sorted@ == sorted_mappings(mappings@),
{
    let order = stable_order(keys);
    let mut sorted: Vec<(u16, u16)> = Vec::new();
    let mut i: usize = 0;
    proof {
        an_order_is_stable(keys@, keys@.len());
    }
    while i < order.len()
        invariant
            i <= order@.len(),
            order@.len() == mappings@.len(),
            keys@ == Seq::new(mappings@.len(), |k: int| mappings@[k].0),
            forall|a: int| 0 <= a < order@.len() ==> #[trigger] order@[a] == order_of(keys@, keys@.len())[a],
            forall|a: int| 0 <= a < keys@.len() ==> 0 <= #[trigger] order_of(keys@, keys@.len())[a] < keys@.len(),
            sorted@ == sorted_mappings(mappings@).take(i as int),
        decreases order@.len() - i,
    {
        assert(order@[i as int] == order_of(keys@, keys@.len())[i as int]);
        sorted.push(mappings[order[i]]);
        assert(sorted@ =~= sorted_mappings(mappings@).take(i + 1));
        i += 1;
    }
    assert(sorted@ =~= sorted_mappings(mappings@));
    sorted
}

/// Whether a font has a glyph for each of the first `n` characters.
pub open spec fn all_glyphs<F: Fn(u32) -> Option<u32>, const N: usize>(f: F, cs: [u16; N], n: int) -> bool {
    forall|k: int| 0 <= k < n ==> glyph_of(f, #[trigger] cs@[k]) is Some
}

/// Whether a written ligature is one of a rule: its components and itself are
/// the rule's characters as glyphs.
pub open spec fn is_ligature_of<F: Fn(u32) -> Option<u32>, const N: usize>(
    f: F,
    rule: ([u16; N], u16),
    lig: ([u16; N], u16),
) -> bool {
    &&& forall|k: int| 0 <= k < N ==> Some(#[trigger] lig.0@[k]) == glyph_of(f, rule.0@[k])
    &&& Some(lig.1) == glyph_of(f, rule.1)
}

/// Which of the first `n` rules a font can do: it has every component and the
/// ligature.
pub open spec fn usable_rules<F: Fn(u32) -> Option<u32>, const N: usize>(
    f: F,
    rules: Seq<([u16; N], u16)>,
    n: nat,
) -> Seq<int>
    decreases n,
{
    if n == 0 {
        seq![]
    } else {
        let before = usable_rules(f, rules, (n - 1) as nat);
        if all_glyphs(f, rules[n - 1].0, N as int) && glyph_of(f, rules[n - 1].1) is Some {
            before.push(n - 1)
        } else {
            before
        }
    }
}

/// Whether ligatures are those of the usable rules, in order of their first
/// components, equal ones as the rules stand.
pub open spec fn sorted_ligatures<F: Fn(u32) -> Option<u32>, const N: usize>(
    f: F,
    rules: Seq<([u16; N], u16)>,
    ligs: Seq<([u16; N], u16)>,
) -> bool {
    let used = usable_rules(f, rules, rules.len());
    let keys = Seq::new(used.len(), |i: int| glyph_of(f, rules[used[i]].0@[0])->0);
    &&& ligs.len() == used.len()
    &&& forall|i: int|
        0 <= i < ligs.len() ==> is_ligature_of(
            f,
            rules[used[order_of(keys, used.len())[i]]],
            #[trigger] ligs[i],
        )
}

proof fn lemma_usable<F: Fn(u32) -> Option<u32>, const N: usize>(f: F, rules: Seq<([u16; N], u16)>, n: nat)
    requires
        n <= rules.len(),
    ensures
        usable_rules(f, rules, n).len() <= n,
        forall|i: int| 0 <= i < usable_rules(f, rules, n).len() ==> 0 <= #[trigger] usable_rules(f, rules, n)[i] < n,
    decreases n,
{
    if n > 0 {
        lemma_usable(f, rules, (n - 1) as nat);
    }
}

/// The ligature of a rule, if the font has every glyph of it.
fn ligature_of<F: Fn(u32) -> Option<u32>, const N: usize>(f: &F, rule: &([u16; N], u16)) -> (r: Option<
    ([u16; N], u16),
>)
    requires
        is_glyph_map(*f),
    ensures
        r is Some <==> all_glyphs(*f, rule.0, N as int) && glyph_of(*f, rule.1) is Some,
        r matches Some(lig) ==> is_ligature_of(*f, *rule, lig),
{
    let mut glyphs: [u16; N] = [0;N];
    let mut i: usize = 0;
    while i < N
        invariant
            i <= N,
            is_glyph_map(*f),
            forall|k: int| 0 <= k < i ==> Some(#[trigger] glyphs@[k]) == glyph_of(*f, rule.0@[k]),
        decreases N - i,
    {
        match glyph_for_codepoint(f, rule.0[i]) {
            Some(g) => {
                glyphs[i] = g;
            },
            None => {
                assert(glyph_of(*f, rule.0@[i as int]) is None);
                return None;
            },
        }
        i += 1;
    }
    assert forall|k: int| 0 <= k < N implies glyph_of(*f, #[trigger] rule.0@[k]) is Some by {
        assert(Some(glyphs@[k]) == glyph_of(*f, rule.0@[k]));
    }
    match glyph_for_codepoint(f, rule.1) {
        Some(g) => Some((glyphs, g)),
        None => None,
    }
}

/// Write ligatures, if the font can do any.
pub fn synthesize_ligature_lookup<F: Fn(u32) -> Option<u32>, const N: usize>(
    f: &F,
    rules: &[([u16; N], u16)],
    flags: u16,
    mask: u32,
    hints: &[Hint],
) -> (r: Option<FallbackLookup>)
    requires
        is_glyph_map(*f),
        N >= 1,
    ensures
        exists|ligs: Seq<([u16; N], u16)>| #[trigger]
            sorted_ligatures(*f, rules@, ligs) && {
                &&& r is Some <==> ligs.len() > 0 && ligatures_fit(ligs)
                &&& r matches Some(l) ==> {
                    &&& l.mask == mask
                    &&& l.data@ == to_bytes(ligature_lookup_words(ligs, flags))
                    &&& l.info.tells(l.data@, Table::Gsub, 0, hints@)
                }
            },
{
    let mut ligatures: Vec<([u16; N], u16)> = Vec::new();
    let mut keys: Vec<u16> = Vec::new();
    let ghost used = usable_rules(*f, rules@, rules@.len());
    let mut i: usize = 0;
    while i < rules.len()
        invariant
            i <= rules@.len(),
            is_glyph_map(*f),
            N >= 1,
            ligatures@.len() == usable_rules(*f, rules@, i as nat).len(),
            keys@.len() == ligatures@.len(),
            forall|k: int|
                0 <= k < ligatures@.len() ==> is_ligature_of(
                    *f,
                    rules@[usable_rules(*f, rules@, i as nat)[k]],
                    #[trigger] ligatures@[k],
                ),
            forall|k: int| 0 <= k < keys@.len() ==> #[trigger] keys@[k] == ligatures@[k].0@[0],
        decreases rules@.len() - i,
    {
        let ghost before = ligatures@;
        let ghost was = usable_rules(*f, rules@, i as nat);
        if let Some(lig) = ligature_of(f, &rules[i]) {
            keys.push(lig.0[0]);
            ligatures.push(lig);
            proof {
                let now = usable_rules(*f, rules@, (i + 1) as nat);
                assert(now == was.push(i as int));
                assert forall|k: int| 0 <= k < ligatures@.len() implies is_ligature_of(
                    *f,
                    rules@[now[k]],
                    #[trigger] ligatures@[k],
                ) by {
                    if k < before.len() {
                        assert(is_ligature_of(*f, rules@[was[k]], before[k]));
                    }
                }
            }
        }
        i += 1;
    }
    let ghost spec_keys = Seq::new(used.len(), |k: int| glyph_of(*f, rules@[used[k]].0@[0])->0);
    proof {
        assert forall|k: int| 0 <= k < keys@.len() implies keys@[k] == spec_keys[k] by {
            assert(is_ligature_of(*f, rules@[used[k]], ligatures@[k]));
            assert(Some(ligatures@[k].0@[0]) == glyph_of(*f, rules@[used[k]].0@[0]));
        }
        assert(keys@ =~= spec_keys);
    }
    let order = stable_order(&keys);
    let mut sorted: Vec<([u16; N], u16)> = Vec::new();
    let mut i: usize = 0;
    proof {
        an_order_is_stable(keys@, keys@.len());
        lemma_usable(*f, rules@, rules@.len());
    }
    while i < order.len()
        invariant
            i <= order@.len(),
            order@.len() == ligatures@.len(),
            ligatures@.len() == used.len(),
            keys@.len() == used.len(),
            forall|a: int| 0 <= a < order@.len() ==> #[trigger] order@[a] == order_of(keys@, keys@.len())[a],
            forall|a: int| 0 <= a < keys@.len() ==> 0 <= #[trigger] order_of(keys@, keys@.len())[a] < keys@.len(),
            forall|k: int|
                0 <= k < ligatures@.len() ==> is_ligature_of(*f, rules@[used[k]], #[trigger] ligatures@[k]),
            sorted@.len() == i,
            forall|k: int|
                0 <= k < i ==> is_ligature_of(
                    *f,
                    rules@[used[order_of(keys@, keys@.len())[k]]],
                    #[trigger] sorted@[k],
                ),
        decreases order@.len() - i,
    {
        assert(order@[i as int] == order_of(keys@, keys@.len())[i as int]);
        sorted.push(ligatures[order[i]]);
        i += 1;
    }
    assert(sorted_ligatures(*f, rules@, sorted@));
    if sorted.len() == 0 {
        return None;
    }
    let data = match serialize_ligature_lookup(&sorted, flags) {
        Some(data) => data,
        None => return None,
    };
    proof {
        lemma_ligature_lookup_len(sorted@, flags);
    }
    let info = match LookupInfo::new_subst(&data, hints) {
        Some(info) => info,
        None => return None,
    };
    Some(FallbackLookup { mask, data, info })
}

/// The letters and rules that are shaped: letters with their initial, medial,
/// final and isolated forms, ligatures of three letters, of two, and of marks.
pub struct FallbackTables<'a, const A: usize, const B: usize, const C: usize> {
    pub letters: &'a [(u16, [u16; 4])],
    pub ligatures_3: &'a [([u16; A], u16)],
    pub ligatures: &'a [([u16; B], u16)],
    pub mark_ligatures: &'a [([u16; C], u16)],
}

/// Whether `r` is what writing single substitutions gives.
pub open spec fn wrote_single<F: Fn(u32) -> Option<u32>>(
    f: F,
    letters: Seq<(u16, [u16; 4])>,
    form: int,
    mask: u32,
    hints: Seq<Hint>,
    r: Option<FallbackLookup>,
) -> bool {
    let mappings = single_mappings(f, letters, form, letters.len());
    &&& r is Some <==> 0 < mappings.len() && 6 + 2 * mappings.len() <= 0xffff
    &&& r matches Some(l) ==> {
        &&& l.mask == mask
        &&& l.data@ == to_bytes(single_words(sorted_mappings(mappings), IGNORE_MARKS))
        &&& l.info.tells(l.data@, Table::Gsub, 0, hints)
    }
}

/// Whether `r` is what writing ligatures gives.
pub open spec fn wrote_ligatures<F: Fn(u32) -> Option<u32>, const N: usize>(
    f: F,
    rules: Seq<([u16; N], u16)>,
    flags: u16,
    mask: u32,
    hints: Seq<Hint>,
    r: Option<FallbackLookup>,
) -> bool {
    exists|ligs: Seq<([u16; N], u16)>| #[trigger]
        sorted_ligatures(f, rules, ligs) && {
            &&& r is Some <==> ligs.len() > 0 && ligatures_fit(ligs)
            &&& r matches Some(l) ==> {
                &&& l.mask == mask
                &&& l.data@ == to_bytes(ligature_lookup_words(ligs, flags))
                &&& l.info.tells(l.data@, Table::Gsub, 0, hints)
            }
        }
}

/// Whether `r` is what feature `i` gives: nothing where it is off.
pub open spec fn wrote<F: Fn(u32) -> Option<u32>, const A: usize, const B: usize, const C: usize>(
    f: F,
    tables: FallbackTables<A, B, C>,
    masks: Seq<u32>,
    hints: Seq<Hint>,
    i: int,
    r: Option<FallbackLookup>,
) -> bool {
    if masks[i] == 0 {
        r is None
    } else if i < 4 {
        wrote_single(f, tables.letters@, i, masks[i], hints, r)
    } else if i == 4 {
        wrote_ligatures(f, tables.ligatures_3@, IGNORE_MARKS, masks[i], hints, r)
    } else if i == 5 {
        wrote_ligatures(f, tables.ligatures@, IGNORE_MARKS, masks[i], hints, r)
    } else {
        wrote_ligatures(f, tables.mark_ligatures@, 0, masks[i], hints, r)
    }
}

/// The lookups that there are, in order.
pub open spec fn present(all: Seq<Option<FallbackLookup>>) -> Seq<FallbackLookup>
    decreases all.len(),
{
    if all.len() == 0 {
        seq![]
    } else {
        match all.last() {
            Some(l) => present(all.drop_last()).push(l),
            None => present(all.drop_last()),
        }
    }
}

/// Whether lookups are those of every feature, in order.
pub open spec fn planned<F: Fn(u32) -> Option<u32>, const A: usize, const B: usize, const C: usize>(
    f: F,
    tables: FallbackTables<A, B, C>,
    masks: Seq<u32>,
    hints: Seq<Hint>,
    n: int,
    lookups: Seq<FallbackLookup>,
) -> bool {
    exists|all: Seq<Option<FallbackLookup>>|
        all.len() == n && lookups == #[trigger] present(all) && forall|i: int|
            0 <= i < n ==> wrote(f, tables, masks, hints, i, #[trigger] all[i])
}

/// The lookups to run on a line, in order, each where its mask is set.
#[derive(Clone, Debug)]
pub struct FallbackPlan {
    pub lookups: Vec<FallbackLookup>,
}

impl FallbackPlan {
    /// Write a lookup for each of the seven features that is on: initial,
    /// medial, final and isolated forms, and three sorts of ligatures. Nothing
    /// if the font can do none of it.
    pub fn new<F: Fn(u32) -> Option<u32>, const A: usize, const B: usize, const C: usize>(
        f: &F,
        tables: &FallbackTables<A, B, C>,
        masks: [u32; 7],
        hints: &[Hint],
    ) -> (r: Option<FallbackPlan>)
        requires
            is_glyph_map(*f),
            A >= 1,
            B >= 1,
            C >= 1,
        ensures
            r matches Some(plan) ==> plan.lookups@.len() > 0 && planned(
                *f,
                *tables,
                masks@,
                hints@,
                7,
                plan.lookups@,
            ),
            r is None ==> planned(*f, *tables, masks@, hints@, 7, seq![]),
    {
        let mut lookups: Vec<FallbackLookup> = Vec::new();
        let mut i: usize = 0;
        proof {
            let none = Seq::<Option<FallbackLookup>>::empty();
            assert(lookups@ =~= present(none));
            assert(planned(*f, *tables, masks@, hints@, 0, lookups@));
        }
        while i < 7
            invariant
                i <= 7,
                is_glyph_map(*f),
                A >= 1,
                B >= 1,
                C >= 1,
                planned(*f, *tables, masks@, hints@, i as int, lookups@),
            decreases 7 - i,
        {
            let mask: u32 = masks[i];
            let made: Option<FallbackLookup> = if mask == 0 {
                None
            } else if i < 4 {
                synthesize_single_lookup(f, tables.letters, i, mask, hints)
            } else if i == 4 {
                synthesize_ligature_lookup(f, tables.ligatures_3, IGNORE_MARKS, mask, hints)
            } else if i == 5 {
                synthesize_ligature_lookup(f, tables.ligatures, IGNORE_MARKS, mask, hints)
            } else {
                synthesize_ligature_lookup(f, tables.mark_ligatures, 0, mask, hints)
            };
            assert(wrote(*f, *tables, masks@, hints@, i as int, made));
            let ghost before = lookups@;
            let ghost all = choose|all: Seq<Option<FallbackLookup>>|
                all.len() == i && before == #[trigger] present(all) && forall|k: int|
                    0 <= k < i ==> wrote(*f, *tables, masks@, hints@, k, #[trigger] all[k]);
            let ghost now = all.push(made);
            if let Some(l) = made {
                lookups.push(l);
            }
            proof {
                assert(now.drop_last() =~= all);
                assert(lookups@ =~= present(now));
                assert forall|k: int| 0 <= k < i + 1 implies wrote(
                    *f,
                    *tables,
                    masks@,
                    hints@,
                    k,
                    #[trigger] now[k],
                ) by {
                    if k < i {
                        assert(now[k] == all[k]);
                    }
                }
                assert(planned(*f, *tables, masks@, hints@, i + 1, lookups@));
            }
            i += 1;
        }
        if lookups.len() == 0 {
            assert(lookups@ =~= seq![]);
            return None;
        }
        Some(FallbackPlan { lookups })
    }
}

/// An order has every position.
proof fn lemma_order_complete(keys: Seq<u16>, n: nat, x: int)
    requires
        0 <= x < n <= keys.len(),
    ensures
        order_of(keys, n).contains(x),
    decreases n,
{
    let m = (n - 1) as nat;
    let before = order_of(keys, m);
    an_order_is_stable(keys, m);
    lemma_place(before, keys, n - 1);
    let p = place_for(before, keys, n - 1);
    let now = order_of(keys, n);
    if x == n - 1 {
        assert(now[p] == x);
    } else {
        lemma_order_complete(keys, m, x);
        let k = choose|k: int| 0 <= k < before.len() && before[k] == x;
        if k < p {
            assert(now[k] == x);
        } else {
            assert(now[k + 1] == x);
        }
    }
}

/// Sorted mappings are the mappings, in order of their first glyphs.
proof fn lemma_sorted_mappings(mappings: Seq<(u16, u16)>, m: (u16, u16))
    ensures
        sorted_mappings(mappings).len() == mappings.len(),
        sorted_mappings(mappings).contains(m) <==> mappings.contains(m),
        forall|a: int, b: int|
            0 <= a < b < mappings.len() ==> (#[trigger] sorted_mappings(mappings)[a]).0 <= (
            #[trigger] sorted_mappings(mappings)[b]).0,
{
    let keys = Seq::new(mappings.len(), |i: int| mappings[i].0);
    let n = mappings.len();
    an_order_is_stable(keys, n);
    let order = order_of(keys, n);
    let sorted = sorted_mappings(mappings);
    if mappings.contains(m) {
        let x = choose|x: int| 0 <= x < n && mappings[x] == m;
        lemma_order_complete(keys, n, x);
        let k = choose|k: int| 0 <= k < order.len() && order[k] == x;
        assert(sorted[k] == m);
    }
    if sorted.contains(m) {
        let k = choose|k: int| 0 <= k < sorted.len() && sorted[k] == m;
        assert(mappings[order[k]] == m);
    }
    assert forall|a: int, b: int| 0 <= a < b < n implies (#[trigger] sorted[a]).0 <= (#[trigger] sorted[b]).0 by {
        let x = order[a];
        let y = order[b];
        assert(keys[x] <= keys[y]);
    }
}

/// Whether a font can shape letter `i`: it has the letter and the form, as
/// different glyphs.
pub open spec fn can_shape<F: Fn(u32) -> Option<u32>>(
    f: F,
    letters: Seq<(u16, [u16; 4])>,
    form: int,
    i: int,
    a: u16,
    b: u16,
) -> bool {
    &&& 0 <= i < letters.len()
    &&& letters[i].1@[form] != 0
    &&& given(f, letters[i].0 as u32) == Some(a as u32)
    &&& given(f, letters[i].1@[form] as u32) == Some(b as u32)
    &&& a != b
}

proof fn lemma_mappings<F: Fn(u32) -> Option<u32>>(
    f: F,
    letters: Seq<(u16, [u16; 4])>,
    form: int,
    n: nat,
    a: u16,
    b: u16,
)
    requires
        n <= letters.len(),
    ensures
        single_mappings(f, letters, form, n).contains((a, b)) <==> exists|i: int|
            i < n && #[trigger] can_shape(f, letters, form, i, a, b),
    decreases n,
{
    if n > 0 {
        let m = (n - 1) as nat;
        lemma_mappings(f, letters, form, m, a, b);
        let before = single_mappings(f, letters, form, m);
        let now = single_mappings(f, letters, form, n);
        if now.contains((a, b)) {
            let k = choose|k: int| 0 <= k < now.len() && now[k] == (a, b);
            if k < before.len() {
                assert(before[k] == (a, b));
                let i = choose|i: int| i < m && #[trigger] can_shape(f, letters, form, i, a, b);
                assert(can_shape(f, letters, form, i, a, b));
            } else {
                assert(can_shape(f, letters, form, m as int, a, b));
            }
        }
        if exists|i: int| i < n && #[trigger] can_shape(f, letters, form, i, a, b) {
            let i = choose|i: int| i < n && #[trigger] can_shape(f, letters, form, i, a, b);
            if i < m {
                assert(before.contains((a, b)));
                let k = choose|k: int| 0 <= k < before.len() && before[k] == (a, b);
                assert(now[k] == (a, b));
            } else {
                assert(now.last() == (a, b));
            }
        }
    }
}

/// A written lookup of single forms substitutes the form for the letter wherever
/// the font has both as different glyphs, and substitutes nothing else; its
/// coverage is in order, and it passes over marks.
pub proof fn each_letter_is_shaped_that_can_be<F: Fn(u32) -> Option<u32>>(
    f: &F,
    letters: &[(u16, [u16; 4])],
    form: usize,
    mask: u32,
    hints: &[Hint],
    r: Option<FallbackLookup>,
    a: u16,
    b: u16,
)
    requires
        is_glyph_map(*f),
        form < 4,
        call_ensures(synthesize_single_lookup::<F>, (f, letters, form, mask, hints), r),
        r is Some,
    ensures
        ({
            let d = r->0.data@;
            let n = word(d, 12);
            let covered = coverage_from(d, 8, word(d, 10) as int);
            &&& r->0.mask == mask
            &&& word(d, 0) == 1
            &&& word(d, 2) == 8
            &&& n > 0
            &&& covered is Some && covered->0.len() == n
            &&& forall|j: int, k: int| 0 <= j < k < n ==> covered->0[j] <= covered->0[k]
            &&& (exists|i: int| #[trigger] can_shape(*f, letters@, form as int, i, a, b)) <==> (exists|j: int|
                0 <= j < n && #[trigger] covered->0[j] == a && word(d, 14 + 2 * j) == b)
        }),
{
    let mappings = single_mappings(*f, letters@, form as int, letters@.len());
    let sorted = sorted_mappings(mappings);
    lemma_mappings(*f, letters@, form as int, letters@.len(), a, b);
    lemma_sorted_mappings(mappings, (a, b));
    let d = r->0.data@;
    assert forall|j: int| 0 <= j < sorted.len() implies word(d, 14 + 2 * j) == (#[trigger] sorted[j]).1 by {
        a_written_substitution_reads_back(sorted, IGNORE_MARKS, j);
    }
    a_written_substitution_reads_back(sorted, IGNORE_MARKS, 0);
    let covered = coverage_from(d, 8, word(d, 10) as int)->0;
    assert forall|j: int, k: int| 0 <= j < k < sorted.len() implies covered[j] <= covered[k] by {
        assert(sorted[j].0 <= sorted[k].0);
    }
    if exists|i: int| #[trigger] can_shape(*f, letters@, form as int, i, a, b) {
        let i = choose|i: int| #[trigger] can_shape(*f, letters@, form as int, i, a, b);
        assert(i < letters@.len() && can_shape(*f, letters@, form as int, i, a, b));
        assert(sorted.contains((a, b)));
        let j = choose|j: int| 0 <= j < sorted.len() && sorted[j] == (a, b);
        assert(covered[j] == a);
    }
    if exists|j: int| 0 <= j < sorted.len() && #[trigger] covered[j] == a && word(d, 14 + 2 * j) == b {
        let j = choose|j: int| 0 <= j < sorted.len() && #[trigger] covered[j] == a && word(d, 14 + 2 * j) == b;
        assert(sorted[j] == (a, b));
        assert(mappings.contains((a, b)));
        let i = choose|i: int|
            i < letters@.len() && #[trigger] can_shape(*f, letters@, form as int, i, a, b);
        assert(can_shape(*f, letters@, form as int, i, a, b));
    }
}

proof fn lemma_present(all: Seq<Option<FallbackLookup>>)
    ensures
        present(all).len() <= all.len(),
        (forall|i: int| 0 <= i < all.len() ==> (#[trigger] all[i]) is None) ==> present(all).len() == 0,
        present(all).len() == 0 ==> forall|i: int| 0 <= i < all.len() ==> (#[trigger] all[i]) is None,
        forall|k: int|
            0 <= k < present(all).len() ==> all.contains(Some(#[trigger] present(all)[k])),
    decreases all.len(),
{
    if all.len() > 0 {
        let less = all.drop_last();
        lemma_present(less);
        if forall|i: int| 0 <= i < all.len() ==> (#[trigger] all[i]) is None {
            assert forall|i: int| 0 <= i < less.len() implies (#[trigger] less[i]) is None by {
                assert(less[i] == all[i]);
            }
        }
        if present(all).len() == 0 {
            assert forall|i: int| 0 <= i < all.len() implies (#[trigger] all[i]) is None by {
                if i < less.len() {
                    assert(less[i] == all[i]);
                }
            }
        }
        assert forall|k: int| 0 <= k < present(all).len() implies all.contains(
            Some(#[trigger] present(all)[k]),
        ) by {
            if k < present(less).len() {
                assert(less.contains(Some(present(less)[k])));
                let i = choose|i: int| 0 <= i < less.len() && #[trigger] less[i] == Some(present(less)[k]);
                assert(all[i] == Some(present(all)[k]));
            } else {
                assert(all[all.len() - 1] == Some(present(all)[k]));
            }
        }
    }
}

/// Every lookup of a plan is of a feature that is on, and runs where that one is:
/// there are at most seven, and none where all features are off.
pub proof fn a_plan_is_of_the_features_that_are_on<
    F: Fn(u32) -> Option<u32>,
    const A: usize,
    const B: usize,
    const C: usize,
>(
    f: &F,
    tables: &FallbackTables<A, B, C>,
    masks: [u32; 7],
    hints: &[Hint],
    r: Option<FallbackPlan>,
    k: int,
)
    requires
        is_glyph_map(*f),
        A >= 1,
        B >= 1,
        C >= 1,
        call_ensures(FallbackPlan::new::<F, A, B, C>, (f, tables, masks, hints), r),
    ensures
        (forall|i: int| 0 <= i < 7 ==> #[trigger] masks@[i] == 0) ==> r is None,
        r is Some ==> 0 < r->0.lookups@.len() <= 7,
        r is Some && 0 <= k < r->0.lookups@.len() ==> exists|i: int|
            0 <= i < 7 && #[trigger] masks@[i] == r->0.lookups@[k].mask && masks@[i] != 0,
{
    if r is Some {
        let lookups = r->0.lookups@;
        let all = choose|all: Seq<Option<FallbackLookup>>|
            all.len() == 7 && lookups == #[trigger] present(all) && forall|i: int|
                0 <= i < 7 ==> wrote(*f, *tables, masks@, hints@, i, #[trigger] all[i]);
        lemma_present(all);
        assert forall|i: int| 0 <= i < 7 && masks@[i] == 0 implies #[trigger] all[i] is None by {
            assert(wrote(*f, *tables, masks@, hints@, i, all[i]));
        }
        if forall|i: int| 0 <= i < 7 ==> #[trigger] masks@[i] == 0 {
            assert forall|i: int| 0 <= i < all.len() implies (#[trigger] all[i]) is None by {
                assert(masks@[i] == 0);
            }
        }
        if 0 <= k < lookups.len() {
            assert(all.contains(Some(lookups[k])));
            let i = choose|i: int| 0 <= i < all.len() && #[trigger] all[i] == Some(lookups[k]);
            assert(wrote(*f, *tables, masks@, hints@, i, all[i]));
            assert(masks@[i] == lookups[k].mask);
        }
    }
}

proof fn lemma_usable_complete<F: Fn(u32) -> Option<u32>, const N: usize>(
    f: F,
    rules: Seq<([u16; N], u16)>,
    n: nat,
    i: int,
)
    requires
        0 <= i < n <= rules.len(),
        all_glyphs(f, rules[i].0, N as int),
        glyph_of(f, rules[i].1) is Some,
    ensures
        usable_rules(f, rules, n).contains(i),
    decreases n,
{
    let before = usable_rules(f, rules, (n - 1) as nat);
    let now = usable_rules(f, rules, n);
    if i < n - 1 {
        lemma_usable_complete(f, rules, (n - 1) as nat, i);
        let k = choose|k: int| 0 <= k < before.len() && before[k] == i;
        assert(now[k] == i);
    } else {
        assert(now.last() == i);
    }
}

/// A written lookup of ligatures has every rule that the font has all the glyphs
/// of, with its components and its ligature, in order of the first components.
pub proof fn each_ligature_is_written_that_can_be<F: Fn(u32) -> Option<u32>, const N: usize>(
    f: &F,
    rules: &[([u16; N], u16)],
    flags: u16,
    mask: u32,
    hints: &[Hint],
    r: Option<FallbackLookup>,
    i: int,
) -> (k: (Seq<([u16; N], u16)>, int))
    requires
        is_glyph_map(*f),
        N >= 1,
        call_ensures(synthesize_ligature_lookup::<F, N>, (f, rules, flags, mask, hints), r),
        r is Some,
        0 <= i < rules@.len(),
        forall|m: int| 0 <= m < N ==> glyph_of(*f, #[trigger] rules@[i].0@[m]) is Some,
        glyph_of(*f, rules@[i].1) is Some,
    ensures
        r->0.mask == mask,
        r->0.data@ == to_bytes(ligature_lookup_words(k.0, flags)),
        0 <= k.1 < k.0.len(),
        glyph_of(*f, rules@[i].1) == Some(k.0[k.1].1),
        forall|m: int| 0 <= m < N ==> glyph_of(*f, rules@[i].0@[m]) == Some(#[trigger] k.0[k.1].0@[m]),
        forall|a: int, b: int| 0 <= a < b < k.0.len() ==> k.0[a].0@[0] <= k.0[b].0@[0],
{
    let ligs = choose|ligs: Seq<([u16; N], u16)>| #[trigger]
        sorted_ligatures(*f, rules@, ligs) && {
            &&& r is Some <==> ligs.len() > 0 && ligatures_fit(ligs)
            &&& r matches Some(l) ==> {
                &&& l.mask == mask
                &&& l.data@ == to_bytes(ligature_lookup_words(ligs, flags))
                &&& l.info.tells(l.data@, Table::Gsub, 0, hints@)
            }
        };
    let used = usable_rules(*f, rules@, rules@.len());
    let keys = Seq::new(used.len(), |i: int| glyph_of(*f, rules@[used[i]].0@[0])->0);
    let order = order_of(keys, used.len());
    an_order_is_stable(keys, used.len());
    lemma_usable(*f, rules@, rules@.len());
    lemma_usable_complete(*f, rules@, rules@.len(), i);
    let x = choose|x: int| 0 <= x < used.len() && used[x] == i;
    lemma_order_complete(keys, used.len(), x);
    let j = choose|j: int| 0 <= j < order.len() && order[j] == x;
    assert(is_ligature_of(*f, rules@[used[order[j]]], ligs[j]));
    assert forall|a: int, b: int| 0 <= a < b < ligs.len() implies ligs[a].0@[0] <= ligs[b].0@[0] by {
        assert(is_ligature_of(*f, rules@[used[order[a]]], ligs[a]));
        assert(is_ligature_of(*f, rules@[used[order[b]]], ligs[b]));
        assert(Some(ligs[a].0@[0]) == glyph_of(*f, rules@[used[order[a]]].0@[0]));
        assert(Some(ligs[b].0@[0]) == glyph_of(*f, rules@[used[order[b]]].0@[0]));
        let p = order[a];
        let q = order[b];
        assert(keys[p] <= keys[q]);
    }
    (ligs, j)
}

} // verus!
