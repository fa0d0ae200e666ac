//! Choosing the form a compiled table takes.

use vstd::prelude::*;

verus! {

/// Rough per-subtable ceiling, chosen so a compiled subtable stays in the same
/// range as the font bytes it stands for.
pub const DEFAULT_BUDGET: usize = 384;

/// How much larger than the smallest form a faster one may be, when picking a
/// representation.
pub const SLACK: usize = 8;

/// Which representation the size comparison settled on.
#[derive(Copy, Clone, PartialEq, Eq, Debug, Structural)]
pub enum Pick {
    Bitmap,
    Ranges,
    Sorted,
    Dense8,
    Dense16,
}

/// The size of the smallest candidate.
pub open spec fn least_bytes(cands: Seq<(Pick, u8, usize)>) -> int
    decreases cands.len(),
{
    if cands.len() == 0 {
        0
    } else if cands.len() == 1 {
        cands[0].2 as int
    } else {
        vstd::math::min(least_bytes(cands.drop_last()), cands.last().2 as int)
    }
}

/// What a form may cost: the budget, or `slack` times the smallest form.
pub open spec fn ceiling(cands: Seq<(Pick, u8, usize)>, budget: usize, slack: usize) -> int {
    vstd::math::max(
        budget as int,
        vstd::math::min(least_bytes(cands) * slack, usize::MAX as int),
    )
}

/// Faster, or as fast and smaller.
pub open spec fn better(a: (Pick, u8, usize), b: (Pick, u8, usize)) -> bool {
    a.1 < b.1 || (a.1 == b.1 && a.2 < b.2)
}

/// Whether candidate `k` is the one to take: the best of those under the
/// ceiling, or the smallest of all where none is; the first of equals.
pub open spec fn is_pick(cands: Seq<(Pick, u8, usize)>, budget: usize, slack: usize, k: int) -> bool {
    let top = ceiling(cands, budget, slack);
    &&& 0 <= k < cands.len()
    &&& if exists|i: int| 0 <= i < cands.len() && (#[trigger] cands[i]).2 <= top {
        &&& cands[k].2 <= top
        &&& forall|i: int|
            0 <= i < cands.len() && (#[trigger] cands[i]).2 <= top ==> !better(cands[i], cands[k])
        &&& forall|i: int| 0 <= i < k && (#[trigger] cands[i]).2 <= top ==> better(cands[k], cands[i])
    } else {
        &&& forall|i: int| 0 <= i < cands.len() ==> cands[k].2 <= (#[trigger] cands[i]).2
        &&& forall|i: int| 0 <= i < k ==> cands[k].2 < (#[trigger] cands[i]).2
    }
}

/// The form that candidates, budget and slack settle on.
pub open spec fn picked(cands: Seq<(Pick, u8, usize)>, budget: usize, slack: usize) -> Pick {
    cands[choose|k: int| is_pick(cands, budget, slack, k)].0
}

/// There is never a choice between two candidates.
pub proof fn lemma_pick_unique(cands: Seq<(Pick, u8, usize)>, budget: usize, slack: usize, j: int, k: int)
    requires
        is_pick(cands, budget, slack, j),
        is_pick(cands, budget, slack, k),
    ensures
        j == k,
{
    assert(cands[j].2 >= 0 && cands[k].2 >= 0);
}

/// The form taken is never larger than it has to be: no larger than the budget
/// or `slack` times the smallest, and where even the smallest is over that,
/// no larger than any other.
pub proof fn the_pick_is_affordable(cands: Seq<(Pick, u8, usize)>, budget: usize, slack: usize, k: int)
    requires
        is_pick(cands, budget, slack, k),
    ensures
        cands[k].2 <= ceiling(cands, budget, slack) || forall|i: int|
            0 <= i < cands.len() ==> cands[k].2 <= (#[trigger] cands[i]).2,
{
}

/// With some slack there is always a form under the ceiling, so the fastest
/// affordable form is taken.
pub proof fn slack_always_affords_one(cands: Seq<(Pick, u8, usize)>, budget: usize, slack: usize, k: int)
    requires
        slack >= 1,
        is_pick(cands, budget, slack, k),
    ensures
        cands[k].2 <= ceiling(cands, budget, slack),
{
    let j = lemma_least_attained(cands);
    let least = least_bytes(cands);
    assert(least * slack >= least) by (nonlinear_arith)
        requires
            slack >= 1,
            least >= 0,
    ;
    assert(cands[j].2 <= ceiling(cands, budget, slack));
}

proof fn lemma_least_attained(cands: Seq<(Pick, u8, usize)>) -> (i: int)
    requires
        cands.len() > 0,
    ensures
        0 <= i < cands.len(),
        cands[i].2 == least_bytes(cands),
    decreases cands.len(),
{
    if cands.len() == 1 {
        0
    } else {
        let i = lemma_least_attained(cands.drop_last());
        if cands.last().2 < cands[i].2 {
            cands.len() - 1
        } else {
            i
        }
    }
}

/// Choose among `(form, speed rank, bytes)` candidates. A lower rank is faster.
///
/// A flat byte budget is the wrong shape for this. Whether a direct table is
/// extravagant does not depend on how many bytes it is, but on how many bytes
/// the alternative would be: one byte per glyph of span is a bargain for a
/// class definition covering most of a font, and a scandal for one covering
/// three glyphs spread across it. So the rule is relative, with `budget` left
/// as a floor under which everything is affordable.
pub fn pick(cands: &[(Pick, u8, usize)], budget: usize, slack: usize) -> (r: Pick)
    requires
        cands@.len() > 0,
    ensures
        r == picked(cands@, budget, slack),
        exists|k: int| #[trigger] is_pick(cands@, budget, slack, k) && r == cands@[k].0,
{
    let mut smallest: usize = cands[0].2;
    let mut i: usize = 1;
    assert(cands@.take(1).len() == 1);
    while i < cands.len()
        invariant
            1 <= i <= cands@.len(),
            smallest == least_bytes(cands@.take(i as int)),
        decreases cands@.len() - i,
    {
        assert(cands@.take(i + 1).drop_last() =~= cands@.take(i as int));
        if cands[i].2 < smallest {
            smallest = cands[i].2;
        }
        i += 1;
    }
    assert(cands@.take(i as int) =~= cands@);
    let scaled: usize = match smallest.checked_mul(slack) {
        Some(b) => b,
        None => usize::MAX,
    };
    let top: usize = if budget < scaled { scaled } else { budget };
    assert(top == ceiling(cands@, budget, slack));

    let mut best: Option<usize> = None;
    let mut least: usize = 0;
    let mut j: usize = 0;
    while j < cands.len()
        invariant
            0 < cands@.len(),
            j <= cands@.len(),
            least < cands@.len(),
            least <= j,
            j > 0 ==> least < j,
            forall|i: int| 0 <= i < j ==> cands@[least as int].2 <= (#[trigger] cands@[i]).2,
            forall|i: int| 0 <= i < least ==> cands@[least as int].2 < (#[trigger] cands@[i]).2,
            best is None ==> forall|i: int| 0 <= i < j ==> (#[trigger] cands@[i]).2 > top,
            best matches Some(b) ==> {
                &&& b < j
                &&& cands@[b as int].2 <= top
                &&& forall|i: int|
                    0 <= i < j && (#[trigger] cands@[i]).2 <= top ==> !better(cands@[i], cands@[b as int])
                &&& forall|i: int|
                    0 <= i < b && (#[trigger] cands@[i]).2 <= top ==> better(cands@[b as int], cands@[i])
            },
        decreases cands@.len() - j,
    {
        let c = cands[j];
        if c.2 < cands[least].2 {
            least = j;
        }
        if c.2 <= top {
            match best {
                None => {
                    best = Some(j);
                },
                Some(b) => {
                    let old_best = cands[b];
                    if c.1 < old_best.1 || (c.1 == old_best.1 && c.2 < old_best.2) {
                        best = Some(j);
                    }
                },
            }
        }
        j += 1;
    }
    let k: usize = match best {
        Some(b) => b,
        None => least,
    };
    proof {
        assert(is_pick(cands@, budget, slack, k as int));
        let chosen = choose|k: int| is_pick(cands@, budget, slack, k);
        lemma_pick_unique(cands@, budget, slack, chosen, k as int);
    }
    cands[k].0
}

/// The form taken is one of the candidates. No faster one, and no smaller one as
/// fast, costs at most the budget or at most `slack` times what the form itself
/// would have to be at least; and whatever is within the budget is affordable.
pub proof fn no_affordable_form_is_faster(
    cands: &[(Pick, u8, usize)],
    budget: usize,
    slack: usize,
    r: Pick,
    i: int,
)
    requires
        cands@.len() > 0,
        call_ensures(pick, (cands, budget, slack), r),
        0 <= i < cands@.len(),
    ensures
        exists|k: int|
            0 <= k < cands@.len() && r == (#[trigger] cands@[k]).0 && (cands@[i].2 <= budget ==> cands@[k].1
                <= cands@[i].1) && (cands@[i].2 <= budget && cands@[k].1 == cands@[i].1 ==> cands@[k].2
                <= cands@[i].2) && (slack >= 1 && (forall|j: int|
                0 <= j < cands@.len() ==> cands@[i].2 <= (#[trigger] cands@[j]).2 * slack) && cands@[i].2
                <= usize::MAX ==> cands@[k].1 <= cands@[i].1),
{
    let k = choose|k: int| #[trigger] is_pick(cands@, budget, slack, k) && r == cands@[k].0;
    let top = ceiling(cands@, budget, slack);
    let j = lemma_least_attained(cands@);
    if cands@[i].2 <= budget {
        assert(cands@[i].2 <= top);
    }
    if slack >= 1 && (forall|j: int| 0 <= j < cands@.len() ==> cands@[i].2 <= (#[trigger] cands@[j]).2 * slack) {
        assert(cands@[i].2 <= cands@[j].2 * slack);
        assert(cands@[i].2 <= top);
    }
    assert(r == cands@[k].0);
}

/// A form that is over the budget and over `slack` times the smallest is not
/// taken while the smallest is not.
pub proof fn no_extravagant_form_is_taken(cands: &[(Pick, u8, usize)], budget: usize, slack: usize, r: Pick, i: int)
    requires
        cands@.len() > 0,
        slack >= 1,
        call_ensures(pick, (cands, budget, slack), r),
        0 <= i < cands@.len(),
    ensures
        exists|k: int|
            0 <= k < cands@.len() && r == (#[trigger] cands@[k]).0 && (cands@[k].2 <= budget || cands@[k].2
                <= cands@[i].2 * slack),
{
    let k = choose|k: int| #[trigger] is_pick(cands@, budget, slack, k) && r == cands@[k].0;
    slack_always_affords_one(cands@, budget, slack, k);
    lemma_least_below(cands@, i);
    let least = least_bytes(cands@);
    assert(least * slack <= cands@[i].2 * slack) by (nonlinear_arith)
        requires
            least <= cands@[i].2,
            slack >= 1,
    ;
    assert(r == cands@[k].0);
}

proof fn lemma_least_below(cands: Seq<(Pick, u8, usize)>, i: int)
    requires
        0 <= i < cands.len(),
    ensures
        least_bytes(cands) <= cands[i].2,
    decreases cands.len(),
{
    if cands.len() > 1 && i < cands.len() - 1 {
        lemma_least_below(cands.drop_last(), i);
    }
}

} // verus!
