//! The contextual formats: which rules to try, what their values are compared
//! with, and what a match or a failed one owes the line.

use std::sync::Arc;
use vstd::prelude::*;

use crate::bytes::{be16, be16_far, fits, word, word_at};
use crate::class_map::ClassMap;
use crate::layout::{offsets_at, read_offsets};
use crate::lookup::SubtableKind;
use crate::set::GlyphSet;
use crate::summary::{
    or_open, rule_of, rule_set_word, rule_summaries_reject_only_the_impossible, second_value, value_bit,
    SetDigests,
};

verus! {

/// What a rule compares a position with: the glyph's class, or the glyph itself
/// where there are no classes.
pub open spec fn class_in(classes: Option<Arc<ClassMap>>, glyph: u32) -> u32 {
    match classes {
        Some(map) => map.class_of(glyph) as u32,
        None => glyph,
    }
}

fn class_of(classes: &Option<Arc<ClassMap>>, glyph: u32) -> (r: u32)
    requires
        *classes matches Some(map) ==> map.wf(),
    ensures
        r == class_in(*classes, glyph),
{
    match classes {
        Some(map) => map.get(glyph) as u32,
        None => glyph,
    }
}

/// The rules to try on a glyph, in font order: where their set stands, and the
/// offsets of the rules from there.
#[derive(Clone, Debug, PartialEq, Eq)]
pub struct RuleSet {
    pub index: u32,
    pub at: usize,
    pub rules: Vec<u16>,
}

/// Which set of rules a glyph selects: by its class, or by its place in the
/// coverage.
pub open spec fn set_for(kind: SubtableKind, glyph: u32, index: u32) -> Option<u32> {
    match kind {
        SubtableKind::Rules { input_classes, rule_set_count, .. } => {
            let set = match input_classes {
                Some(map) => map.class_of(glyph) as u32,
                None => index,
            };
            if set < rule_set_count {
                Some(set)
            } else {
                None
            }
        },
        _ => None,
    }
}

/// Where a set of rules stands, if there is one and all its offsets can be read.
pub open spec fn rules_at(kind: SubtableKind, d: Seq<u8>, set: u32) -> Option<int> {
    match kind {
        SubtableKind::Rules { rule_sets, base, .. } => match word_at(d, rule_sets + set * 2) {
            Some(off) => if off != 0 && fits(d, base + off, 2) && fits(
                d,
                base + off + 2,
                2 * word(d, base + off),
            ) {
                Some(base + off)
            } else {
                None
            },
            None => None,
        },
        _ => None,
    }
}

/// The rules to try on a glyph, if it has any.
pub fn at_rules(kind: &SubtableKind, table: &[u8], glyph: u32, index: u32) -> (r: Option<RuleSet>)
    requires
        kind.wf(),
    ensures
        r is Some <==> (set_for(*kind, glyph, index) matches Some(set) && rules_at(*kind, table@, set)
            is Some),
        r matches Some(rules) ==> {
            &&& set_for(*kind, glyph, index) == Some(rules.index)
            &&& rules_at(*kind, table@, rules.index) == Some(rules.at as int)
            &&& rules.rules@ == offsets_at(table@, rules.at + 2, word(table@, rules.at as int))
        },
{
    match kind {
        SubtableKind::Rules { input_classes, rule_sets, base, rule_set_count, .. } => {
            let set: u32 = match input_classes {
                Some(map) => map.get(glyph) as u32,
                None => index,
            };
            if set >= *rule_set_count as u32 {
                return None;
            }
            let off: u16 = match be16_far(table, *rule_sets as u64 + set as u64 * 2) {
                Some(off) => off,
                None => return None,
            };
            if off == 0 {
                return None;
            }
            let at: u64 = *base as u64 + off as u64;
            if at > table.len() as u64 {
                return None;
            }
            let at: usize = at as usize;
            let count: u16 = match be16(table, at) {
                Some(n) => n,
                None => return None,
            };
            if table.len() - at - 2 < 2 * count as usize {
                return None;
            }
            Some(RuleSet { index: set, at, rules: read_offsets(table, at + 2, count) })
        },
        _ => None,
    }
}

/// Whether a set of rules can be dismissed by the glyph at the position that
/// every one of its rules begins by testing: the set's summary has nothing of
/// the glyph's value.
pub fn dismisses(kind: &SubtableKind, set: u32, glyph: u32) -> (r: bool)
    requires
        kind.wf(),
    ensures
        r == (match *kind {
            SubtableKind::Rules { input_classes, index, .. } => {
                set < index.digests.slots@.len() && index.digests.slots@[set as int] & value_bit(
                    class_in(input_classes, glyph),
                ) == 0
            },
            _ => false,
        }),
{
    match kind {
        SubtableKind::Rules { input_classes, index, .. } => {
            !index.digests.may_hold(set, class_of(input_classes, glyph))
        },
        _ => false,
    }
}

/// A set is dismissed only where none of its rules has the value at that
/// position.
pub proof fn a_dismissed_set_has_no_such_rule(
    digests: SetDigests,
    data: Seq<u8>,
    rule_sets: int,
    base: int,
    set: u32,
    chained: bool,
    off: u16,
    count: u16,
    i: int,
    v: u32,
)
    requires
        set < digests.slots@.len(),
        digests.slots@[set as int] == or_open(rule_set_word(data, rule_sets, base, set as int, chained)),
        digests.slots@[set as int] & value_bit(v) == 0,
        word_at(data, rule_sets + set * 2) == Some(off),
        off != 0,
        word_at(data, base + off) == Some(count),
        0 <= i < count,
    ensures
        rule_of(data, base + off, i) matches Some(at) ==> second_value(data, at, chained) != Some(v),
{
    if let Some(at) = rule_of(data, base + off, i) {
        if second_value(data, at, chained) == Some(v) {
            rule_summaries_reject_only_the_impossible(
                data,
                rule_sets,
                base,
                set as int,
                chained,
                off,
                count,
                i,
                v,
            );
        }
    }
}

/// The three runs of positions a rule may compare.
#[derive(Copy, Clone, Debug, PartialEq, Eq, Structural)]
pub enum Part {
    Backtrack,
    Input,
    Lookahead,
}

/// Whether a glyph has the value that a rule names at one of its positions.
pub fn has_value(kind: &SubtableKind, part: Part, glyph: u32, value: u32) -> (r: bool)
    requires
        kind.wf(),
    ensures
        r == (match *kind {
            SubtableKind::Rules { input_classes, backtrack_classes, lookahead_classes, .. } => match part {
                Part::Backtrack => class_in(backtrack_classes, glyph) == value,
                Part::Input => class_in(input_classes, glyph) == value,
                Part::Lookahead => class_in(lookahead_classes, glyph) == value,
            },
            _ => false,
        }),
{
    match kind {
        SubtableKind::Rules { input_classes, backtrack_classes, lookahead_classes, .. } => match part {
            Part::Backtrack => class_of(backtrack_classes, glyph) == value,
            Part::Input => class_of(input_classes, glyph) == value,
            Part::Lookahead => class_of(lookahead_classes, glyph) == value,
        },
        _ => false,
    }
}

/// Whether a list of sets has a glyph at one of its positions.
pub open spec fn holds_at(sets: Seq<Arc<GlyphSet>>, i: int, glyph: u32) -> bool {
    i < sets.len() && sets[i]@.contains(glyph)
}

fn set_holds(sets: &Vec<Arc<GlyphSet>>, i: u32, glyph: u32) -> (r: bool)
    requires
        crate::lookup::sets_wf(sets@),
    ensures
        r == holds_at(sets@, i as int, glyph),
{
    if (i as usize) < sets.len() {
        sets[i as usize].contains(glyph)
    } else {
        false
    }
}

/// Whether a glyph is in the coverage that a format made of coverages has at one
/// of its positions. The input starts at the second.
pub fn is_covered(kind: &SubtableKind, part: Part, i: u32, glyph: u32) -> (r: bool)
    requires
        kind.wf(),
    ensures
        r == (match *kind {
            SubtableKind::ChainCtx3 { backtrack, input, lookahead, .. } => match part {
                Part::Backtrack => holds_at(backtrack@, i as int, glyph),
                Part::Input => holds_at(input@, i as int, glyph),
                Part::Lookahead => holds_at(lookahead@, i as int, glyph),
            },
            _ => false,
        }),
{
    match kind {
        SubtableKind::ChainCtx3 { backtrack, input, lookahead, .. } => match part {
            Part::Backtrack => set_holds(backtrack, i, glyph),
            Part::Input => set_holds(input, i, glyph),
            Part::Lookahead => set_holds(lookahead, i, glyph),
        },
        _ => false,
    }
}

/// What to do once the input and what follows it were compared.
#[derive(Copy, Clone, Debug, PartialEq, Eq, Structural)]
pub enum Chain3Step {
    /// No match; appending text could complete one.
    Fail { concat_from: usize, concat_to: usize },
    /// A match of a plain context: a hazard to breaking, then the nested lookups.
    Run { break_from: usize, break_to: usize },
    /// Compare what comes before, for a chained context whose match ends at
    /// `end`.
    Backtrack { end: usize },
}

/// How far a pattern got: to the end of what follows the input, or of the input,
/// or nowhere.
pub open spec fn pattern_end(idx: usize, input: (bool, usize), lookahead: (bool, usize)) -> usize {
    if input.0 {
        lookahead.1
    } else {
        idx
    }
}

/// Settle the forward half of a match. `input` says whether the input matched
/// and where it ended; `lookahead` whether what follows did and how far it got,
/// and counts only where the input matched.
///
/// A plain context reports a failure up to where its input ended, a chained one
/// up to how far the pattern got.
pub fn at_chain3(chained: bool, idx: usize, input: (bool, usize), lookahead: (bool, usize)) -> (r:
    Chain3Step)
    ensures
        r == (if !(input.0 && lookahead.0) {
            Chain3Step::Fail {
                concat_from: idx,
                concat_to: if chained {
                    pattern_end(idx, input, lookahead)
                } else {
                    input.1
                },
            }
        } else if !chained {
            Chain3Step::Run { break_from: idx, break_to: input.1 }
        } else {
            Chain3Step::Backtrack { end: lookahead.1 }
        }),
{
    let (input_matched, match_end) = input;
    let (ahead_matched, ahead_end) = lookahead;
    let end: usize = if input_matched {
        ahead_end
    } else {
        idx
    };
    if !(input_matched && ahead_matched) {
        let concat_to: usize = if chained {
            end
        } else {
            match_end
        };
        return Chain3Step::Fail { concat_from: idx, concat_to };
    }
    if !chained {
        return Chain3Step::Run { break_from: idx, break_to: match_end };
    }
    Chain3Step::Backtrack { end }
}

/// What a chained context owes the line once what comes before was compared,
/// counted from the start of what was put out.
#[derive(Copy, Clone, Debug, PartialEq, Eq, Structural)]
pub enum Chain3End {
    /// No match; appending text could complete one.
    Fail { concat_from: usize, concat_to: usize },
    /// A match: a hazard to breaking, then the nested lookups.
    Run { break_from: usize, break_to: usize },
}

/// Settle the backward half of a match, which reached back to `start`.
pub fn at_chain3_backtrack(matched: bool, start: usize, end: usize) -> (r: Chain3End)
    ensures
        r == (if matched {
            Chain3End::Run { break_from: start, break_to: end }
        } else {
            Chain3End::Fail { concat_from: start, concat_to: end }
        }),
{
    if matched {
        Chain3End::Run { break_from: start, break_to: end }
    } else {
        Chain3End::Fail { concat_from: start, concat_to: end }
    }
}

/// A context runs only where its input and what follows it match, and a chained
/// one only where what comes before it matches as well; what runs may not be
/// broken inside the match, and what fails is a hazard to appending text only.
pub proof fn a_context_runs_only_where_all_of_it_matches(
    chained: bool,
    idx: usize,
    input: (bool, usize),
    lookahead: (bool, usize),
    step: Chain3Step,
    matched: bool,
    start: usize,
    end: usize,
    last: Chain3End,
)
    requires
        call_ensures(at_chain3, (chained, idx, input, lookahead), step),
        call_ensures(at_chain3_backtrack, (matched, start, end), last),
    ensures
        step is Fail <==> !input.0 || !lookahead.0,
        step is Run ==> !chained,
        step is Backtrack ==> chained,
        step matches Chain3Step::Run { break_from, break_to } ==> break_from == idx && break_to == input.1,
        step matches Chain3Step::Backtrack { end } ==> end == lookahead.1,
        step matches Chain3Step::Fail { concat_from, concat_to } ==> {
            &&& concat_from == idx
            &&& !chained ==> concat_to == input.1
            &&& chained && input.0 ==> concat_to == lookahead.1
            &&& chained && !input.0 ==> concat_to == idx
        },
        last is Run <==> matched,
        last matches Chain3End::Run { break_from, break_to } ==> break_from == start && break_to == end,
        last matches Chain3End::Fail { concat_from, concat_to } ==> concat_from == start && concat_to == end,
{
}

/// Glyphs of one class are alike to every rule of classes, at the positions that
/// the classes are for; without classes a rule tells every two glyphs apart.
pub proof fn a_rule_sees_no_more_than_classes(
    kind: &SubtableKind,
    part: Part,
    a: u32,
    b: u32,
    value: u32,
    of_a: bool,
    of_b: bool,
)
    requires
        kind.wf(),
        *kind is Rules,
        call_ensures(has_value, (kind, part, a, value), of_a),
        call_ensures(has_value, (kind, part, b, value), of_b),
    ensures
        ({
            let classes = match part {
                Part::Backtrack => kind->Rules_backtrack_classes,
                Part::Input => kind->Rules_input_classes,
                Part::Lookahead => kind->Rules_lookahead_classes,
            };
            &&& classes is Some && classes->0.class_of(a) == classes->0.class_of(b) ==> of_a == of_b
            &&& classes is Some && of_a ==> value == classes->0.class_of(a)
            &&& classes is Some && value == classes->0.class_of(a) ==> of_a
            &&& classes is None ==> (of_a <==> a == value)
        }),
{
}

/// Where a glyph's rules are found, they are those of the set that its class or
/// its place in the coverage selects.
pub proof fn a_glyph_selects_its_rules(
    kind: &SubtableKind,
    table: &[u8],
    glyph: u32,
    index: u32,
    r: Option<RuleSet>,
)
    requires
        kind.wf(),
        *kind is Rules,
        call_ensures(at_rules, (kind, table, glyph, index), r),
    ensures
        r matches Some(rules) ==> {
            let by_class = kind->Rules_input_classes;
            &&& by_class is None ==> rules.index == index
            &&& by_class is Some ==> rules.index == by_class->0.class_of(glyph)
            &&& rules.index < kind->Rules_rule_set_count
            &&& rules.at == kind->Rules_base + word(table@, kind->Rules_rule_sets + 2 * rules.index)
            &&& rules.at != kind->Rules_base
            &&& rules.rules@.len() == word(table@, rules.at as int)
            &&& forall|i: int|
                0 <= i < rules.rules@.len() ==> #[trigger] rules.rules@[i] == word(
                    table@,
                    rules.at + 2 + 2 * i,
                )
        },
{
}

} // verus!
