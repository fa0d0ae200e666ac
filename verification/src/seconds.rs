//! Which glyphs can come second in what a subtable matches.
//!
//! A lookup whose every match reads past its first glyph can be passed over
//! when the next glyph is none of these.

use vstd::prelude::*;

use crate::bytes::{be16, be16_far, fits, word};
use crate::compiler::{chain_input, chain_lookahead, counted, read_far_count, read_far_offsets};
use crate::layout::{count_at, header_bytes, offsets_at, read_offsets, Format};
use crate::summary::{pair_stride, record_size};
use crate::tables::{
    class_def_from, class_def_list, coverage_from, coverage_list, resolve, resolves,
};

verus! {

/// What follows the first glyph of a rule: a value of its input, or, for a
/// chained rule whose input is one glyph long, of what comes after.
#[derive(Copy, Clone, Debug, PartialEq, Eq, Structural)]
pub enum Next {
    Input(u16),
    Ahead(u16),
}

/// Where the lookahead of a chained rule is counted.
pub open spec fn rule_ahead(data: Seq<u8>, input: int) -> int {
    let n = count_at(data, input);
    input + 2 + if n == 0 {
        0
    } else {
        2 * (n - 1)
    }
}

/// What follows the first glyph of the rule at `rule`, if it can be read and
/// anything does.
pub open spec fn next_in_rule(data: Seq<u8>, rule: int, chained: bool) -> Option<Next> {
    if !chained {
        let n = word(data, rule);
        if fits(data, rule, 4) && n >= 2 && fits(data, rule + 4, 2 * (n - 1)) {
            Some(Next::Input(word(data, rule + 4)))
        } else {
            None
        }
    } else if !fits(data, rule, 8) {
        None
    } else {
        let input = rule + 2 + 2 * word(data, rule);
        let n = count_at(data, input);
        let ahead = rule_ahead(data, input);
        let m = count_at(data, ahead);
        if n >= 2 && fits(data, input + 2, 2 * (n - 1)) {
            Some(Next::Input(word(data, input + 2)))
        } else if m >= 1 && fits(data, ahead + 2, 2 * m) {
            Some(Next::Ahead(word(data, ahead + 2)))
        } else {
            None
        }
    }
}

/// The glyphs that pairs put in a class, in order.
pub open spec fn members(pairs: Seq<(u32, u16)>, class: u16) -> Seq<u32>
    decreases pairs.len(),
{
    if pairs.len() == 0 {
        seq![]
    } else if pairs.last().1 == class {
        members(pairs.drop_last(), class).push(pairs.last().0)
    } else {
        members(pairs.drop_last(), class)
    }
}

/// What the values of rules stand for: glyphs themselves, or classes of two
/// definitions, of the input and of what comes after.
pub type Classes = Option<(Seq<(u32, u16)>, Seq<(u32, u16)>)>;

/// The same, as it is held.
pub type ClassPairs = Option<(Vec<(u32, u16)>, Vec<(u32, u16)>)>;

/// Held definitions by their views.
pub open spec fn class_view(classes: ClassPairs) -> Classes {
    match classes {
        Some((input, ahead)) => Some((input@, ahead@)),
        None => None,
    }
}

/// The glyphs a value stands for. Class zero holds every glyph that is in no
/// other, so it can be any.
pub open spec fn standing_for(next: Next, classes: Classes) -> Option<Seq<u32>> {
    match classes {
        None => match next {
            Next::Input(v) => Some(seq![v as u32]),
            Next::Ahead(v) => Some(seq![v as u32]),
        },
        Some((input, ahead)) => match next {
            Next::Input(v) => if v == 0 {
                None
            } else {
                Some(members(input, v))
            },
            Next::Ahead(v) => if v == 0 {
                None
            } else {
                Some(members(ahead, v))
            },
        },
    }
}

/// Two lists one after the other, where both are known.
pub open spec fn both(a: Option<Seq<u32>>, b: Option<Seq<u32>>) -> Option<Seq<u32>> {
    match (a, b) {
        (Some(x), Some(y)) => Some(x + y),
        _ => None,
    }
}

/// The glyphs that can come second in rule `i` of the set at `set`; nothing is
/// known where the rule cannot be read or ends with its first glyph.
pub open spec fn rule_seconds(data: Seq<u8>, set: int, i: int, chained: bool, classes: Classes) -> Option<
    Seq<u32>,
> {
    let offset = counted(data, set)[i];
    if !resolves(data, set, offset as int) {
        None
    } else {
        match next_in_rule(data, set + offset, chained) {
            Some(next) => standing_for(next, classes),
            None => None,
        }
    }
}

/// The same over the first `n` rules of a set.
pub open spec fn rules_seconds(data: Seq<u8>, set: int, n: nat, chained: bool, classes: Classes) -> Option<
    Seq<u32>,
>
    decreases n,
{
    if n == 0 {
        Some(seq![])
    } else {
        both(
            rules_seconds(data, set, (n - 1) as nat, chained, classes),
            rule_seconds(data, set, n - 1, chained, classes),
        )
    }
}

/// The same over one rule set: one that is not there adds nothing.
pub open spec fn rule_set_seconds(data: Seq<u8>, base: int, offset: u16, chained: bool, classes: Classes) -> Option<
    Seq<u32>,
> {
    if offset == 0 {
        Some(seq![])
    } else if !fits(data, base + offset, 2) {
        None
    } else {
        rules_seconds(data, base + offset, counted(data, base + offset).len(), chained, classes)
    }
}

/// The same over the first `n` rule sets.
pub open spec fn rule_sets_seconds(
    data: Seq<u8>,
    base: int,
    offsets: Seq<u16>,
    n: nat,
    chained: bool,
    classes: Classes,
) -> Option<Seq<u32>>
    decreases n,
{
    if n == 0 {
        Some(seq![])
    } else {
        both(
            rule_sets_seconds(data, base, offsets, (n - 1) as nat, chained, classes),
            rule_set_seconds(data, base, offsets[n - 1], chained, classes),
        )
    }
}

/// The second glyphs of one pair set, if it can be read; records that run past
/// the end are none.
pub open spec fn pair_seconds(data: Seq<u8>, base: int, offset: u16, stride: int) -> Option<Seq<u32>> {
    let set = base + offset;
    if !resolves(data, base, offset as int) || !fits(data, set, 2) {
        None
    } else if fits(data, set + 2, word(data, set) * stride) {
        Some(Seq::new(word(data, set) as nat, |i: int| word(data, set + 2 + i * stride) as u32))
    } else {
        Some(seq![])
    }
}

/// The second glyphs of the first `n` pair sets.
pub open spec fn pair_sets_seconds(data: Seq<u8>, base: int, offsets: Seq<u16>, n: nat, stride: int) -> Option<
    Seq<u32>,
>
    decreases n,
{
    if n == 0 {
        Some(seq![])
    } else {
        both(
            pair_sets_seconds(data, base, offsets, (n - 1) as nat, stride),
            pair_seconds(data, base, offsets[n - 1], stride),
        )
    }
}

/// What a subtable of classes gives: nothing is known where one of its
/// definitions cannot be read.
pub open spec fn class_seconds(
    data: Seq<u8>,
    at: int,
    input: Option<Seq<(u32, u16)>>,
    ahead: Option<Seq<(u32, u16)>>,
    offsets: Seq<u16>,
    chained: bool,
) -> Option<Seq<u32>> {
    match (input, ahead) {
        (Some(i), Some(a)) => rule_sets_seconds(data, at, offsets, offsets.len(), chained, Some((i, a))),
        _ => None,
    }
}

/// The coverage of one of some offsets.
pub open spec fn coverage_among(data: Seq<u8>, at: int, offsets: Seq<u16>, i: int) -> Option<Seq<u32>> {
    if i < offsets.len() {
        coverage_from(data, at, offsets[i] as int)
    } else {
        None
    }
}

/// The glyphs that can come second in what the subtable of a format at `at`
/// matches, in order, where they are known. Of ligatures nothing is said.
pub open spec fn seconds(data: Seq<u8>, f: Format, at: int) -> Option<Seq<u32>> {
    match f {
        Format::Pair1 => {
            let offsets = offsets_at(data, at + 10, word(data, at + 8));
            pair_sets_seconds(
                data,
                at,
                offsets,
                offsets.len(),
                pair_stride(word(data, at + 4), word(data, at + 6)),
            )
        },
        Format::Context1 | Format::Chain1 => {
            let offsets = offsets_at(data, at + 6, word(data, at + 4));
            rule_sets_seconds(data, at, offsets, offsets.len(), f == Format::Chain1, None)
        },
        Format::Context2 => {
            let classes = class_def_from(data, at, word(data, at + 4) as int);
            class_seconds(data, at, classes, classes, offsets_at(data, at + 8, word(data, at + 6)), false)
        },
        Format::Chain2 => class_seconds(
            data,
            at,
            class_def_from(data, at, word(data, at + 6) as int),
            class_def_from(data, at, word(data, at + 8) as int),
            offsets_at(data, at + 12, word(data, at + 10)),
            true,
        ),
        Format::Context3 => coverage_among(
            data,
            at,
            offsets_at(data, at + 6, word(data, at + 2)),
            1,
        ),
        Format::Chain3 => if counted(data, chain_input(data, at)).len() > 1 {
            coverage_among(data, at, counted(data, chain_input(data, at)), 1)
        } else {
            coverage_among(data, at, counted(data, chain_lookahead(data, at)), 0)
        },
        Format::Cursive => coverage_from(data, at, word(data, at + 2) as int),
        Format::MarkBase | Format::MarkLig | Format::MarkMark => coverage_from(
            data,
            at,
            word(data, at + 4) as int,
        ),
        _ => None,
    }
}

fn read_next(data: &[u8], rule: usize, chained: bool) -> (r: Option<Next>)
    requires
        rule <= data@.len() <= 0xFFFF_0000,
    ensures
        r == next_in_rule(data@, rule as int, chained),
{
    let left: usize = data.len() - rule;
    if !chained {
        if left < 4 {
            return None;
        }
        let n: usize = be16(data, rule).unwrap() as usize;
        if n >= 2 && left - 4 >= 2 * (n - 1) {
            return Some(Next::Input(be16(data, rule + 4).unwrap()));
        }
        return None;
    }
    if left < 8 {
        return None;
    }
    let input: u64 = rule as u64 + 2 + 2 * be16(data, rule).unwrap() as u64;
    let n: u64 = read_far_count(data, input) as u64;
    let len: u64 = data.len() as u64;
    if n >= 2 && input + 2 + 2 * (n - 1) <= len {
        return match be16_far(data, input + 2) {
            Some(v) => Some(Next::Input(v)),
            None => None,
        };
    }
    let ahead: u64 = input + 2 + if n == 0 {
        0
    } else {
        2 * (n - 1)
    };
    let m: u64 = read_far_count(data, ahead) as u64;
    if m >= 1 && ahead + 2 + 2 * m <= len {
        return match be16_far(data, ahead + 2) {
            Some(v) => Some(Next::Ahead(v)),
            None => None,
        };
    }
    None
}

/// Add the glyphs of a class.
fn add_class(out: &mut Vec<u32>, pairs: &Vec<(u32, u16)>, class: u16)
    ensures
        final(out)@ == old(out)@ + members(pairs@, class),
{
    let ghost before = out@;
    let mut i: usize = 0;
    assert(out@ =~= before + members(pairs@.take(0), class));
    while i < pairs.len()
        invariant
            i <= pairs@.len(),
            out@ == before + members(pairs@.take(i as int), class),
        decreases pairs@.len() - i,
    {
        let (g, c) = pairs[i];
        if c == class {
            out.push(g);
        }
        proof {
            let now = pairs@.take(i + 1);
            assert(now.drop_last() =~= pairs@.take(i as int));
            assert(out@ =~= before + members(now, class));
        }
        i += 1;
    }
    assert(pairs@.take(i as int) =~= pairs@);
}

/// Add the glyphs that can come second in one rule, if they are known.
fn add_rule(out: &mut Vec<u32>, next: Next, classes: &ClassPairs) -> (known: bool)
    ensures
        known == (standing_for(next, class_view(*classes)) is Some),
        known ==> Some(final(out)@) == both(Some(old(out)@), standing_for(next, class_view(*classes))),
{
    match classes {
        None => {
            match next {
                Next::Input(v) => out.push(v as u32),
                Next::Ahead(v) => out.push(v as u32),
            }
            assert(out@ =~= old(out)@ + standing_for(next, class_view(*classes))->0);
            true
        },
        Some((input, ahead)) => match next {
            Next::Input(v) => {
                if v == 0 {
                    return false;
                }
                add_class(out, input, v);
                true
            },
            Next::Ahead(v) => {
                if v == 0 {
                    return false;
                }
                add_class(out, ahead, v);
                true
            },
        },
    }
}

/// One unknown rule leaves the set unknown.
proof fn lemma_rules_unknown(data: Seq<u8>, set: int, n: nat, m: nat, chained: bool, classes: Classes)
    requires
        n <= m,
        rules_seconds(data, set, n, chained, classes) is None,
    ensures
        rules_seconds(data, set, m, chained, classes) is None,
    decreases m,
{
    if n < m {
        lemma_rules_unknown(data, set, n, (m - 1) as nat, chained, classes);
    }
}

proof fn lemma_sets_unknown(
    data: Seq<u8>,
    base: int,
    offsets: Seq<u16>,
    n: nat,
    m: nat,
    chained: bool,
    classes: Classes,
)
    requires
        n <= m,
        rule_sets_seconds(data, base, offsets, n, chained, classes) is None,
    ensures
        rule_sets_seconds(data, base, offsets, m, chained, classes) is None,
    decreases m,
{
    if n < m {
        lemma_sets_unknown(data, base, offsets, n, (m - 1) as nat, chained, classes);
    }
}

proof fn lemma_pairs_unknown(data: Seq<u8>, base: int, offsets: Seq<u16>, n: nat, m: nat, stride: int)
    requires
        n <= m,
        pair_sets_seconds(data, base, offsets, n, stride) is None,
    ensures
        pair_sets_seconds(data, base, offsets, m, stride) is None,
    decreases m,
{
    if n < m {
        lemma_pairs_unknown(data, base, offsets, n, (m - 1) as nat, stride);
    }
}

/// The glyphs that can come second in the rules of one set.
fn set_rules(data: &[u8], base: usize, offset: u16, chained: bool, classes: &ClassPairs) -> (r: Option<Vec<u32>>)
    requires
        base <= data@.len() <= 0xFFFF_0000,
    ensures
        r is Some <==> rule_set_seconds(data@, base as int, offset, chained, class_view(*classes)) is Some,
        r matches Some(v) ==> rule_set_seconds(data@, base as int, offset, chained, class_view(*classes)) == Some(v@),
{
    let mut out: Vec<u32> = Vec::new();
    if offset == 0 {
        assert(out@ =~= seq![]);
        return Some(out);
    }
    if (offset as usize) > data.len() - base || data.len() - base - (offset as usize) < 2 {
        return None;
    }
    let set: usize = base + offset as usize;
    let offsets = read_offsets(data, set + 2, be16(data, set).unwrap());
    let mut i: usize = 0;
    assert(out@ =~= seq![]);
    while i < offsets.len()
        invariant
            i <= offsets@.len(),
            fits(data@, set as int, 2),
            data@.len() <= 0xFFFF_0000,
            offsets@ == counted(data@, set as int),
            set == base + offset,
            offset != 0,
            rule_set_seconds(data@, base as int, offset, chained, class_view(*classes)) == rules_seconds(
                data@,
                set as int,
                offsets@.len(),
                chained,
                class_view(*classes),
            ),
            rules_seconds(data@, set as int, i as nat, chained, class_view(*classes)) == Some(out@),
        decreases offsets@.len() - i,
    {
        let off: usize = offsets[i] as usize;
        let next = if off != 0 && off <= data.len() - set {
            read_next(data, set + off, chained)
        } else {
            None
        };
        let known = match next {
            Some(next) => add_rule(&mut out, next, classes),
            None => false,
        };
        if !known {
            proof {
                assert(rule_seconds(data@, set as int, i as int, chained, class_view(*classes)) is None);
                lemma_rules_unknown(
                    data@,
                    set as int,
                    (i + 1) as nat,
                    offsets@.len(),
                    chained,
                    class_view(*classes),
                );
            }
            return None;
        }
        i += 1;
    }
    Some(out)
}

/// The glyphs that can come second in the rules of all sets.
fn all_rules(data: &[u8], base: usize, offsets: &Vec<u16>, chained: bool, classes: &ClassPairs) -> (r: Option<
    Vec<u32>,
>)
    requires
        base <= data@.len() <= 0xFFFF_0000,
    ensures
        r is Some <==> rule_sets_seconds(
            data@,
            base as int,
            offsets@,
            offsets@.len(),
            chained,
            class_view(*classes),
        ) is Some,
        r matches Some(v) ==> rule_sets_seconds(
            data@,
            base as int,
            offsets@,
            offsets@.len(),
            chained,
            class_view(*classes),
        ) == Some(v@),
{
    let mut out: Vec<u32> = Vec::new();
    let mut i: usize = 0;
    assert(out@ =~= seq![]);
    while i < offsets.len()
        invariant
            i <= offsets@.len(),
            base <= data@.len() <= 0xFFFF_0000,
            rule_sets_seconds(data@, base as int, offsets@, i as nat, chained, class_view(*classes)) == Some(out@),
        decreases offsets@.len() - i,
    {
        match set_rules(data, base, offsets[i], chained, classes) {
            Some(mut more) => out.append(&mut more),
            None => {
                proof {
                    lemma_sets_unknown(
                        data@,
                        base as int,
                        offsets@,
                        (i + 1) as nat,
                        offsets@.len(),
                        chained,
                        class_view(*classes),
                    );
                }
                return None;
            },
        }
        i += 1;
    }
    Some(out)
}

/// The second glyphs of one pair set.
fn pairs_of(data: &[u8], base: usize, offset: u16, stride: usize) -> (r: Option<Vec<u32>>)
    requires
        base <= data@.len(),
        2 <= stride <= 34,
    ensures
        r is Some <==> pair_seconds(data@, base as int, offset, stride as int) is Some,
        r matches Some(v) ==> pair_seconds(data@, base as int, offset, stride as int) == Some(v@),
{
    let mut out: Vec<u32> = Vec::new();
    if offset == 0 || (offset as usize) > data.len() - base || data.len() - base - (offset as usize) < 2 {
        return None;
    }
    let set: usize = base + offset as usize;
    let n: usize = be16(data, set).unwrap() as usize;
    assert(n * stride <= 0xffff * 34) by (nonlinear_arith)
        requires
            n <= 0xffff,
            stride <= 34,
    ;
    if data.len() - set - 2 < n * stride {
        assert(out@ =~= seq![]);
        return Some(out);
    }
    let end: usize = data.len();
    let mut i: usize = 0;
    while i < n
        invariant
            end == data@.len(),
            i <= n <= 0xffff,
            2 <= stride <= 34,
            n == word(data@, set as int),
            fits(data@, set + 2, n * stride),
            out@ == Seq::new(i as nat, |k: int| word(data@, set + 2 + k * stride) as u32),
        decreases n - i,
    {
        assert(i * stride + stride <= n * stride) by (nonlinear_arith)
            requires
                i + 1 <= n,
                stride >= 2,
        ;
        assert(i * stride <= n * stride);
        assert(i * stride >= 0) by (nonlinear_arith);
        let v: u16 = be16(data, set + 2 + i * stride).unwrap();
        out.push(v as u32);
        assert(out@ =~= Seq::new((i + 1) as nat, |k: int| word(data@, set + 2 + k * stride) as u32));
        i += 1;
    }
    Some(out)
}

/// The second glyphs of a list of pairs.
fn pair_pos_format1_seconds(data: &[u8], at: usize) -> (r: Option<Vec<u32>>)
    requires
        fits(data@, at as int, 10),
    ensures
        listed(r) == seconds(data@, Format::Pair1, at as int),
{
    let end: usize = data.len();
    let first: u16 = be16(data, at + 4).unwrap();
    let second: u16 = be16(data, at + 6).unwrap();
    let stride: usize = 2 + record_size(first) + record_size(second);
    let offsets = read_offsets(data, at + 10, be16(data, at + 8).unwrap());
    let mut out: Vec<u32> = Vec::new();
    let mut i: usize = 0;
    assert(out@ =~= seq![]);
    while i < offsets.len()
        invariant
            i <= offsets@.len(),
            at <= data@.len(),
            2 <= stride <= 34,
            stride == pair_stride(word(data@, at + 4), word(data@, at + 6)),
            offsets@ == offsets_at(data@, at + 10, word(data@, at + 8)),
            pair_sets_seconds(data@, at as int, offsets@, i as nat, stride as int) == Some(out@),
        decreases offsets@.len() - i,
    {
        match pairs_of(data, at, offsets[i], stride) {
            Some(mut more) => out.append(&mut more),
            None => {
                proof {
                    lemma_pairs_unknown(
                        data@,
                        at as int,
                        offsets@,
                        (i + 1) as nat,
                        offsets@.len(),
                        stride as int,
                    );
                }
                return None;
            },
        }
        i += 1;
    }
    Some(out)
}

/// The glyphs of the coverage at an offset, if it can be read.
pub fn coverage_seconds(data: &[u8], at: usize, offset: u16) -> (r: Option<Vec<u32>>)
    ensures
        r is Some <==> coverage_from(data@, at as int, offset as int) is Some,
        r matches Some(v) ==> coverage_from(data@, at as int, offset as int) == Some(v@),
{
    match resolve(data, at, offset as u32) {
        Some(d) => coverage_list(d),
        None => None,
    }
}

fn classes_at(data: &[u8], at: usize, offset: u16) -> (r: Option<Vec<(u32, u16)>>)
    ensures
        r is Some <==> class_def_from(data@, at as int, offset as int) is Some,
        r matches Some(v) ==> class_def_from(data@, at as int, offset as int) == Some(v@),
{
    match resolve(data, at, offset as u32) {
        Some(d) => class_def_list(d),
        None => None,
    }
}

/// The coverage of one of some offsets, if it can be read.
fn coverage_of(data: &[u8], at: usize, offsets: &Vec<u16>, i: usize) -> (r: Option<Vec<u32>>)
    ensures
        r is Some <==> coverage_among(data@, at as int, offsets@, i as int) is Some,
        r matches Some(v) ==> coverage_among(data@, at as int, offsets@, i as int) == Some(v@),
{
    if i < offsets.len() {
        coverage_seconds(data, at, offsets[i])
    } else {
        None
    }
}

/// A list of glyphs, if there is one, by its view.
pub open spec fn listed(r: Option<Vec<u32>>) -> Option<Seq<u32>> {
    match r {
        Some(v) => Some(v@),
        None => None,
    }
}

/// Pairs, if there are any, by their view.
pub open spec fn paired(r: Option<Vec<(u32, u16)>>) -> Option<Seq<(u32, u16)>> {
    match r {
        Some(v) => Some(v@),
        None => None,
    }
}

/// The glyphs that can come second in rules over classes.
fn class_rules(
    data: &[u8],
    at: usize,
    input: Option<Vec<(u32, u16)>>,
    ahead: Option<Vec<(u32, u16)>>,
    offsets: &Vec<u16>,
    chained: bool,
) -> (r: Option<Vec<u32>>)
    requires
        at <= data@.len() <= 0xFFFF_0000,
    ensures
        listed(r) == class_seconds(data@, at as int, paired(input), paired(ahead), offsets@, chained),
{
    match (input, ahead) {
        (Some(i), Some(a)) => all_rules(data, at, offsets, chained, &Some((i, a))),
        _ => None,
    }
}

/// The glyphs that can come second in what a subtable matches, where they are
/// known. Of ligatures nothing is known here.
pub fn seconds_of(data: &[u8], f: Format, at: usize) -> (r: Option<Vec<u32>>)
    requires
        fits(data@, at as int, header_bytes(f)),
        data@.len() <= 0xFFFF_0000,
    ensures
        listed(r) == seconds(data@, f, at as int),
{
    let end: usize = data.len();
    match f {
        Format::Pair1 => pair_pos_format1_seconds(data, at),
        Format::Context1 | Format::Chain1 => {
            let offsets = read_offsets(data, at + 6, be16(data, at + 4).unwrap());
            all_rules(data, at, &offsets, matches!(f, Format::Chain1), &None)
        },
        Format::Context2 => {
            let offset: u16 = be16(data, at + 4).unwrap();
            let offsets = read_offsets(data, at + 8, be16(data, at + 6).unwrap());
            class_rules(
                data,
                at,
                classes_at(data, at, offset),
                classes_at(data, at, offset),
                &offsets,
                false,
            )
        },
        Format::Chain2 => {
            let offsets = read_offsets(data, at + 12, be16(data, at + 10).unwrap());
            class_rules(
                data,
                at,
                classes_at(data, at, be16(data, at + 6).unwrap()),
                classes_at(data, at, be16(data, at + 8).unwrap()),
                &offsets,
                true,
            )
        },
        Format::Context3 => {
            let offsets = read_offsets(data, at + 6, be16(data, at + 2).unwrap());
            coverage_of(data, at, &offsets, 1)
        },
        Format::Chain3 => {
            let input: u64 = at as u64 + 4 + 2 * be16(data, at + 2).unwrap() as u64;
            let n: u16 = read_far_count(data, input);
            let inputs = read_far_offsets(data, input + 2, n);
            if inputs.len() > 1 {
                coverage_of(data, at, &inputs, 1)
            } else {
                let ahead: u64 = input + 2 + 2 * n as u64;
                let m: u16 = read_far_count(data, ahead);
                let aheads = read_far_offsets(data, ahead + 2, m);
                coverage_of(data, at, &aheads, 0)
            }
        },
        Format::Cursive => coverage_seconds(data, at, be16(data, at + 2).unwrap()),
        Format::MarkBase | Format::MarkLig | Format::MarkMark => coverage_seconds(
            data,
            at,
            be16(data, at + 4).unwrap(),
        ),
        _ => None,
    }
}

/// What follows the first glyph of a rule is its second input value, and of a
/// chained rule with one input value the first of what comes after.
pub proof fn what_follows_the_first_glyph(data: Seq<u8>, rule: int)
    requires
        0 <= rule,
        rule + 8 <= data.len(),
    ensures
        word(data, rule) >= 2 && rule + 2 + 2 * word(data, rule) <= data.len() ==> next_in_rule(data, rule, false)
            == Some(Next::Input(word(data, rule + 4))),
        word(data, rule) < 2 ==> next_in_rule(data, rule, false) is None,
        ({
            let input = rule + 2 + 2 * word(data, rule);
            let n = word(data, input);
            let ahead = input + 2 * n;
            &&& input + 2 + 2 * n <= data.len() && n >= 2 ==> next_in_rule(data, rule, true) == Some(
                Next::Input(word(data, input + 2)),
            )
            &&& input + 4 <= data.len() && n == 1 && word(data, ahead) >= 1 && ahead + 2 + 2 * word(data, ahead)
                <= data.len() ==> next_in_rule(data, rule, true) == Some(Next::Ahead(word(data, ahead + 2)))
        }),
{
}

proof fn lemma_members(pairs: Seq<(u32, u16)>, class: u16, g: u32)
    ensures
        members(pairs, class).contains(g) <==> pairs.contains((g, class)),
    decreases pairs.len(),
{
    if pairs.len() > 0 {
        let less = pairs.drop_last();
        lemma_members(less, class, g);
        let before = members(less, class);
        let now = members(pairs, class);
        if now.contains(g) {
            let k = choose|k: int| 0 <= k < now.len() && now[k] == g;
            if k < before.len() {
                assert(before[k] == g);
                let j = choose|j: int| 0 <= j < less.len() && less[j] == (g, class);
                assert(pairs[j] == (g, class));
            } else {
                assert(pairs.last() == (g, class));
            }
        }
        if pairs.contains((g, class)) {
            let j = choose|j: int| 0 <= j < pairs.len() && pairs[j] == (g, class);
            if j < less.len() {
                assert(less[j] == (g, class));
                let k = choose|k: int| 0 <= k < before.len() && before[k] == g;
                assert(now[k] == g);
            } else {
                assert(now.last() == g);
            }
        }
    }
}

/// A value stands for the glyph of its number, or for every glyph of its class;
/// class zero can be any glyph, so nothing is known of it.
pub proof fn a_value_stands_for_its_glyphs(v: u16, input: Seq<(u32, u16)>, ahead: Seq<(u32, u16)>, g: u32)
    ensures
        standing_for(Next::Input(v), None) is Some,
        standing_for(Next::Input(v), None)->0.contains(g) <==> g == v,
        standing_for(Next::Ahead(v), None) == standing_for(Next::Input(v), None),
        standing_for(Next::Input(0), Some((input, ahead))) is None,
        standing_for(Next::Ahead(0), Some((input, ahead))) is None,
        v != 0 ==> (standing_for(Next::Input(v), Some((input, ahead)))->0.contains(g) <==> input.contains((g, v))),
        v != 0 ==> (standing_for(Next::Ahead(v), Some((input, ahead)))->0.contains(g) <==> ahead.contains((g, v))),
{
    lemma_members(input, v, g);
    lemma_members(ahead, v, g);
    let one = seq![v as u32];
    assert(one[0] == v);
}

proof fn lemma_both(a: Seq<u32>, b: Seq<u32>, g: u32)
    ensures
        (a + b).contains(g) <==> a.contains(g) || b.contains(g),
{
    if a.contains(g) {
        let k = choose|k: int| 0 <= k < a.len() && a[k] == g;
        assert((a + b)[k] == g);
    }
    if b.contains(g) {
        let k = choose|k: int| 0 <= k < b.len() && b[k] == g;
        assert((a + b)[a.len() + k] == g);
    }
    if (a + b).contains(g) {
        let k = choose|k: int| 0 <= k < (a + b).len() && (a + b)[k] == g;
        if k < a.len() {
            assert(a[k] == g);
        } else {
            assert(b[k - a.len()] == g);
        }
    }
}

proof fn lemma_rules(data: Seq<u8>, set: int, n: nat, chained: bool, classes: Classes, i: int, g: u32)
    requires
        0 <= i < n,
        rules_seconds(data, set, n, chained, classes) is Some,
    ensures
        rule_seconds(data, set, i, chained, classes) is Some,
        rule_seconds(data, set, i, chained, classes)->0.contains(g) ==> rules_seconds(
            data,
            set,
            n,
            chained,
            classes,
        )->0.contains(g),
    decreases n,
{
    let before = rules_seconds(data, set, (n - 1) as nat, chained, classes);
    let last = rule_seconds(data, set, n - 1, chained, classes);
    lemma_both(before->0, last->0, g);
    if i < n - 1 {
        lemma_rules(data, set, (n - 1) as nat, chained, classes, i, g);
    }
}

proof fn lemma_rule_sets(
    data: Seq<u8>,
    base: int,
    offsets: Seq<u16>,
    n: nat,
    chained: bool,
    classes: Classes,
    k: int,
    g: u32,
)
    requires
        0 <= k < n,
        rule_sets_seconds(data, base, offsets, n, chained, classes) is Some,
    ensures
        rule_set_seconds(data, base, offsets[k], chained, classes) is Some,
        rule_set_seconds(data, base, offsets[k], chained, classes)->0.contains(g) ==> rule_sets_seconds(
            data,
            base,
            offsets,
            n,
            chained,
            classes,
        )->0.contains(g),
    decreases n,
{
    let before = rule_sets_seconds(data, base, offsets, (n - 1) as nat, chained, classes);
    let last = rule_set_seconds(data, base, offsets[n - 1], chained, classes);
    lemma_both(before->0, last->0, g);
    if k < n - 1 {
        lemma_rule_sets(data, base, offsets, (n - 1) as nat, chained, classes, k, g);
    }
}

/// No glyph that a rule of glyphs has second is left out: where anything is known
/// of a context that lists its rules by glyph, the second value of each of its
/// rules is among what can come second.
pub proof fn no_rules_second_glyph_is_left_out(
    data: &[u8],
    chained: bool,
    at: usize,
    r: Option<Vec<u32>>,
    k: int,
    i: int,
)
    requires
        fits(data@, at as int, 6),
        data@.len() <= 0xFFFF_0000,
        call_ensures(
            seconds_of,
            (
                data,
                if chained {
                    Format::Chain1
                } else {
                    Format::Context1
                },
                at,
            ),
            r,
        ),
        r is Some,
        0 <= k < word(data@, at + 4),
        at + 6 + 2 * word(data@, at + 4) <= data@.len(),
        word(data@, at + 6 + 2 * k) != 0,
        ({
            let set = at + word(data@, at + 6 + 2 * k);
            0 <= i < word(data@, set) && set + 2 + 2 * word(data@, set) <= data@.len()
        }),
    ensures
        ({
            let set = at + word(data@, at + 6 + 2 * k);
            let rule = set + word(data@, set + 2 + 2 * i);
            &&& next_in_rule(data@, rule, chained) is Some
            &&& r->0@.contains(
                match next_in_rule(data@, rule, chained)->0 {
                    Next::Input(v) => v as u32,
                    Next::Ahead(v) => v as u32,
                },
            )
        }),
{
    let d = data@;
    let f = if chained {
        Format::Chain1
    } else {
        Format::Context1
    };
    let base = at as int;
    let offsets = offsets_at(d, base + 6, word(d, base + 4));
    let set = base + word(d, base + 6 + 2 * k);
    assert(offsets[k] == word(d, base + 6 + 2 * k));
    assert(seconds(d, f, base) == Some(r->0@));
    let n = counted(d, set).len();
    assert(n == word(d, set));
    assert(counted(d, set)[i] == word(d, set + 2 + 2 * i));
    let rule = set + word(d, set + 2 + 2 * i);
    lemma_rule_sets(d, base, offsets, offsets.len(), chained, None, k, 0);
    lemma_rules(d, set, n, chained, None, i, 0);
    let v = match next_in_rule(d, rule, chained)->0 {
        Next::Input(v) => v,
        Next::Ahead(v) => v,
    };
    a_value_stands_for_its_glyphs(v, seq![], seq![], v as u32);
    lemma_rules(d, set, n, chained, None, i, v as u32);
    lemma_rule_sets(d, base, offsets, offsets.len(), chained, None, k, v as u32);
}

proof fn lemma_pair_sets(data: Seq<u8>, base: int, offsets: Seq<u16>, n: nat, stride: int, k: int, g: u32)
    requires
        0 <= k < n,
        pair_sets_seconds(data, base, offsets, n, stride) is Some,
    ensures
        pair_seconds(data, base, offsets[k], stride) is Some,
        pair_seconds(data, base, offsets[k], stride)->0.contains(g) ==> pair_sets_seconds(
            data,
            base,
            offsets,
            n,
            stride,
        )->0.contains(g),
    decreases n,
{
    let before = pair_sets_seconds(data, base, offsets, (n - 1) as nat, stride);
    let last = pair_seconds(data, base, offsets[n - 1], stride);
    lemma_both(before->0, last->0, g);
    if k < n - 1 {
        lemma_pair_sets(data, base, offsets, (n - 1) as nat, stride, k, g);
    }
}

/// No second glyph of a listed pair is left out; and what can come second where
/// marks are attached is what the second coverage has, and where glyphs are
/// joined, what the first has.
pub proof fn no_pairs_second_glyph_is_left_out(data: &[u8], at: usize, r: Option<Vec<u32>>, k: int, i: int)
    requires
        fits(data@, at as int, 10),
        data@.len() <= 0xFFFF_0000,
        call_ensures(seconds_of, (data, Format::Pair1, at), r),
        r is Some,
        0 <= k < word(data@, at + 8),
        at + 10 + 2 * word(data@, at + 8) <= data@.len(),
        ({
            let set = at + word(data@, at + 10 + 2 * k);
            let stride = pair_stride(word(data@, at + 4), word(data@, at + 6));
            0 <= i < word(data@, set) && set + 2 + word(data@, set) * stride <= data@.len()
        }),
    ensures
        ({
            let set = at + word(data@, at + 10 + 2 * k);
            let stride = pair_stride(word(data@, at + 4), word(data@, at + 6));
            r->0@.contains(word(data@, set + 2 + i * stride) as u32)
        }),
        forall|m: Option<Vec<u32>>|
            fits(data@, at as int, 12) && #[trigger] call_ensures(seconds_of, (data, Format::MarkBase, at), m)
                ==> listed(m) == coverage_from(data@, at as int, word(data@, at + 4) as int),
        forall|m: Option<Vec<u32>>|
            fits(data@, at as int, 12) && #[trigger] call_ensures(seconds_of, (data, Format::MarkMark, at), m)
                ==> listed(m) == coverage_from(data@, at as int, word(data@, at + 4) as int),
        forall|m: Option<Vec<u32>>| #[trigger]
            call_ensures(seconds_of, (data, Format::Cursive, at), m) ==> listed(m) == coverage_from(
                data@,
                at as int,
                word(data@, at + 2) as int,
            ),
{
    let d = data@;
    let base = at as int;
    let offsets = offsets_at(d, base + 10, word(d, base + 8));
    let stride = pair_stride(word(d, base + 4), word(d, base + 6));
    let set = base + word(d, base + 10 + 2 * k);
    assert(offsets[k] == word(d, base + 10 + 2 * k));
    assert(seconds(d, Format::Pair1, base) == Some(r->0@));
    lemma_pair_sets(d, base, offsets, offsets.len(), stride, k, 0);
    let listed_seconds = pair_seconds(d, base, offsets[k], stride)->0;
    let g = word(d, set + 2 + i * stride) as u32;
    assert(listed_seconds[i] == g);
    lemma_pair_sets(d, base, offsets, offsets.len(), stride, k, g);
}

} // verus!
