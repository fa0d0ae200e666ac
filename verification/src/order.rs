//! Putting glyph lists and packed words in order.

use vstd::prelude::*;

use crate::glyphs::{ascending, lemma_ascending_unique};

verus! {

/// Whether two lists name the same glyphs.
pub open spec fn same_members(a: Seq<u32>, b: Seq<u32>) -> bool {
    forall|x: u32| #![trigger a.contains(x)] #![trigger b.contains(x)] a.contains(x) <==> b.contains(x)
}

/// The ascending list of the glyphs that a list names.
pub open spec fn ordered(s: Seq<u32>) -> Seq<u32> {
    choose|r: Seq<u32>| ascending(r) && same_members(r, s)
}

/// An ascending list with the members of another is what ordering it gives.
pub proof fn lemma_ordered(s: Seq<u32>, r: Seq<u32>)
    requires
        ascending(r),
        same_members(r, s),
    ensures
        ordered(s) == r,
{
    let o = ordered(s);
    assert(ascending(o) && same_members(o, s));
    assert forall|x: u32| o.contains(x) <==> r.contains(x) by {
        assert(s.contains(x) <==> o.contains(x));
        assert(s.contains(x) <==> r.contains(x));
    }
    lemma_ascending_unique(o, r);
}

/// One more glyph in its place.
spec fn with_member(r: Seq<u32>, x: u32) -> Seq<u32>
    decreases r.len(),
{
    if r.len() == 0 || r.last() < x {
        r.push(x)
    } else if r.last() == x {
        r
    } else {
        with_member(r.drop_last(), x).push(r.last())
    }
}

proof fn lemma_with_member(r: Seq<u32>, x: u32)
    requires
        ascending(r),
    ensures
        ascending(with_member(r, x)),
        with_member(r, x).len() > 0,
        with_member(r, x).last() == (if r.len() > 0 && r.last() > x {
            r.last()
        } else {
            x
        }),
        forall|y: u32| #[trigger] with_member(r, x).contains(y) <==> (r.contains(y) || y == x),
    decreases r.len(),
{
    let w = with_member(r, x);
    if r.len() == 0 || r.last() < x {
        assert forall|y: u32| #[trigger] w.contains(y) <==> (r.contains(y) || y == x) by {
            if r.contains(y) {
                let k = choose|k: int| 0 <= k < r.len() && r[k] == y;
                assert(w[k] == y);
            }
            if y == x {
                assert(w[r.len() as int] == y);
            }
        }
        assert forall|i: int, j: int| 0 <= i < j < w.len() implies w[i] < w[j] by {
            if j == r.len() {
                assert(r[i] <= r.last());
            }
        }
    } else if r.last() == x {
        assert(r.contains(x)) by {
            assert(r[r.len() - 1] == x);
        }
    } else {
        let less = r.drop_last();
        lemma_with_member(less, x);
        let v = with_member(less, x);
        assert(v.last() < r.last()) by {
            if less.len() > 0 {
                assert(less.last() == r[r.len() - 2]);
            }
        }
        assert forall|i: int, j: int| 0 <= i < j < w.len() implies w[i] < w[j] by {
            if j == v.len() {
                assert(v[i] <= v.last());
            }
        }
        assert forall|y: u32| #[trigger] w.contains(y) <==> (r.contains(y) || y == x) by {
            if w.contains(y) {
                let k = choose|k: int| 0 <= k < w.len() && w[k] == y;
                if k < v.len() {
                    assert(v[k] == y);
                    assert(v.contains(y));
                    if less.contains(y) {
                        let m = choose|m: int| 0 <= m < less.len() && less[m] == y;
                        assert(r[m] == y);
                    }
                } else {
                    assert(r[r.len() - 1] == y);
                }
            }
            if r.contains(y) {
                let k = choose|k: int| 0 <= k < r.len() && r[k] == y;
                if k < less.len() {
                    assert(less[k] == y);
                    assert(v.contains(y));
                    let m = choose|m: int| 0 <= m < v.len() && v[m] == y;
                    assert(w[m] == y);
                } else {
                    assert(w[v.len() as int] == y);
                }
            }
            if y == x {
                assert(v.contains(y));
                let m = choose|m: int| 0 <= m < v.len() && v[m] == y;
                assert(w[m] == y);
            }
        }
    }
}

/// Every list can be put in order.
pub proof fn lemma_ordered_exists(s: Seq<u32>)
    ensures
        ascending(ordered(s)),
        same_members(ordered(s), s),
    decreases s.len(),
{
    if s.len() == 0 {
        assert(ascending(s) && same_members(s, s));
        lemma_ordered(s, s);
    } else {
        let less = s.drop_last();
        lemma_ordered_exists(less);
        let r = with_member(ordered(less), s.last());
        lemma_with_member(ordered(less), s.last());
        assert forall|x: u32| #![trigger r.contains(x)] r.contains(x) <==> s.contains(x) by {
            assert(ordered(less).contains(x) <==> less.contains(x));
            if less.contains(x) {
                let k = choose|k: int| 0 <= k < less.len() && less[k] == x;
                assert(s[k] == x);
            }
            if s.contains(x) {
                let k = choose|k: int| 0 <= k < s.len() && s[k] == x;
                if k < less.len() {
                    assert(less[k] == x);
                }
            }
            if x == s.last() {
                assert(s[s.len() - 1] == x);
            }
        }
        lemma_ordered(s, r);
    }
}

/// `<[u32]>::sort_unstable`: the same numbers, smallest first.
#[verifier::external_body]
fn sort_ids(v: &mut Vec<u32>)
    ensures
        final(v)@.to_multiset() == old(v)@.to_multiset(),
        forall|i: int, j: int| 0 <= i < j < final(v)@.len() ==> final(v)@[i] <= final(v)@[j],
{
    v.sort_unstable();
}

/// `<[u64]>::sort_unstable`: the same numbers, smallest first.
#[verifier::external_body]
pub(crate) fn sort_words(v: &mut Vec<u64>)
    ensures
        final(v)@.to_multiset() == old(v)@.to_multiset(),
        forall|i: int, j: int| 0 <= i < j < final(v)@.len() ==> final(v)@[i] <= final(v)@[j],
{
    v.sort_unstable();
}

/// Lists of the same numbers have the same members.
pub proof fn lemma_multiset_members<A>(a: Seq<A>, b: Seq<A>, x: A)
    requires
        a.to_multiset() == b.to_multiset(),
    ensures
        a.contains(x) <==> b.contains(x),
        a.len() == b.len(),
{
    broadcast use vstd::seq_lib::group_to_multiset_ensures;
    assert(a.contains(x) <==> a.to_multiset().count(x) > 0);
    assert(b.contains(x) <==> b.to_multiset().count(x) > 0);
    assert(a.len() == a.to_multiset().len());
    assert(b.len() == b.to_multiset().len());
}

/// Whether a list is strictly ascending.
pub fn is_ascending(s: &[u32]) -> (r: bool)
    ensures
        r == ascending(s@),
{
    let mut i: usize = 1;
    while i < s.len()
        invariant
            1 <= i,
            i <= s@.len() || s@.len() == 0,
            forall|a: int, b: int| 0 <= a < b < i && b < s@.len() ==> s@[a] < s@[b],
        decreases s@.len() - i,
    {
        if s[i - 1] >= s[i] {
            return false;
        }
        proof {
            assert forall|a: int, b: int| 0 <= a < b < i + 1 && b < s@.len() implies s@[a] < s@[b] by {
                if b == i && a < i - 1 {
                    assert(s@[a] < s@[i - 1]);
                }
            }
        }
        i += 1;
    }
    true
}

/// Put a glyph list in ascending order and drop what occurs twice.
pub fn put_in_order(v: &mut Vec<u32>)
    ensures
        final(v)@ == ordered(old(v)@),
        ascending(final(v)@),
        same_members(final(v)@, old(v)@),
{
    if is_ascending(v) {
        proof {
            lemma_ordered(old(v)@, v@);
        }
        return;
    }
    sort_ids(v);
    let ghost sorted = v@;
    let mut out: Vec<u32> = Vec::new();
    let mut i: usize = 0;
    while i < v.len()
        invariant
            i <= v@.len(),
            v@ == sorted,
            forall|a: int, b: int| 0 <= a < b < sorted.len() ==> sorted[a] <= sorted[b],
            ascending(out@),
            i > 0 <==> out@.len() > 0,
            i > 0 ==> out@.last() == sorted[i - 1],
            forall|k: int| 0 <= k < out@.len() ==> sorted.take(i as int).contains(#[trigger] out@[k]),
            forall|k: int| 0 <= k < i ==> out@.contains(#[trigger] sorted[k]),
        decreases v@.len() - i,
    {
        let g: u32 = v[i];
        let n: usize = out.len();
        let ghost before = out@;
        if n == 0 || out[n - 1] != g {
            out.push(g);
        }
        proof {
            let now = sorted.take(i + 1);
            assert forall|k: int| 0 <= k < out@.len() implies now.contains(#[trigger] out@[k]) by {
                if k < before.len() {
                    assert(out@[k] == before[k]);
                    let m = choose|m: int| 0 <= m < i && sorted.take(i as int)[m] == before[k];
                    assert(now[m] == before[k]);
                } else {
                    assert(now[i as int] == g);
                }
            }
            assert forall|k: int| 0 <= k < i + 1 implies out@.contains(#[trigger] sorted[k]) by {
                if k < i {
                    let m = choose|m: int| 0 <= m < before.len() && before[m] == sorted[k];
                    assert(out@[m] == sorted[k]);
                } else {
                    assert(out@[out@.len() - 1] == g);
                }
            }
            if out@.len() > before.len() {
                assert forall|a: int, b: int| 0 <= a < b < out@.len() implies out@[a] < out@[b] by {
                    if b == before.len() {
                        assert(before[a] <= before.last());
                        if n > 0 {
                            assert(sorted[i - 1] <= sorted[i as int]);
                        }
                    }
                }
            }
        }
        i += 1;
    }
    proof {
        assert(sorted.take(i as int) =~= sorted);
        assert forall|x: u32| #![trigger out@.contains(x)] out@.contains(x) <==> old(v)@.contains(x) by {
            lemma_multiset_members(sorted, old(v)@, x);
            if out@.contains(x) {
                let k = choose|k: int| 0 <= k < out@.len() && out@[k] == x;
                assert(sorted.contains(out@[k]));
            }
            if sorted.contains(x) {
                let k = choose|k: int| 0 <= k < sorted.len() && sorted[k] == x;
                assert(out@.contains(sorted[k]));
            }
        }
        lemma_ordered(old(v)@, out@);
    }
    *v = out;
}

} // verus!
