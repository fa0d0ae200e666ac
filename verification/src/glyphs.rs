//! Ascending lists of glyph ids, and the shapes they are stored in.
//!
//! Every compiled set stands for one ascending list. The three shapes that
//! need decoding are a run of consecutive ids, a sequence of such runs, and a
//! bitmap over the ids from some base up.

use vstd::prelude::*;

use crate::bits::{bit, lemma_set_bit, lemma_zero_has_no_bits, ones, single};

verus! {

/// Strictly ascending, so nothing occurs twice.
pub open spec fn ascending(s: Seq<u32>) -> bool {
    forall|i: int, j: int| 0 <= i < j < s.len() ==> s[i] < s[j]
}

/// The ids from `a` to `b`, both included.
pub open spec fn run(a: u32, b: u32) -> Seq<u32> {
    Seq::new((b - a + 1) as nat, |i: int| (a + i) as u32)
}

/// Runs in order, none of them empty and none touching the one before it from
/// inside.
pub open spec fn runs_in_order(r: Seq<(u32, u32)>) -> bool {
    &&& forall|i: int| 0 <= i < r.len() ==> (#[trigger] r[i]).0 <= r[i].1
    &&& forall|i: int, j: int| 0 <= i < j < r.len() ==> (#[trigger] r[i]).1 < (#[trigger] r[j]).0
}

/// What a sequence of runs lists.
pub open spec fn runs_list(r: Seq<(u32, u32)>) -> Seq<u32>
    decreases r.len(),
{
    if r.len() == 0 {
        seq![]
    } else {
        runs_list(r.drop_last()) + run(r.last().0, r.last().1)
    }
}

/// How many runs of consecutive ids an ascending list falls into.
pub open spec fn run_count(s: Seq<u32>) -> nat
    decreases s.len(),
{
    if s.len() == 0 {
        0
    } else if s.len() >= 2 && s[s.len() - 2] + 1 == s.last() {
        run_count(s.drop_last())
    } else {
        run_count(s.drop_last()) + 1
    }
}

/// Whether a bitmap has the bit at offset `o`.
pub open spec fn bitmap_has(words: Seq<u64>, o: int) -> bool {
    0 <= o < words.len() * 64 && bit(words[o / 64], o % 64)
}

/// What the first `n` bits of a bitmap list, counted from `base`.
pub open spec fn bitmap_list(words: Seq<u64>, base: int, n: nat) -> Seq<u32>
    decreases n,
{
    if n == 0 {
        seq![]
    } else if bitmap_has(words, n - 1) {
        bitmap_list(words, base, (n - 1) as nat).push((base + n - 1) as u32)
    } else {
        bitmap_list(words, base, (n - 1) as nat)
    }
}

/// Every id a bitmap names is a glyph id.
pub open spec fn bitmap_fits(words: Seq<u64>, base: int) -> bool {
    &&& base >= 0
    &&& forall|o: int| #[trigger] bitmap_has(words, o) ==> base + o <= u32::MAX
}

/// An ascending list is determined by its members.
pub proof fn lemma_ascending_unique(a: Seq<u32>, b: Seq<u32>)
    requires
        ascending(a),
        ascending(b),
        forall|x: u32| a.contains(x) <==> b.contains(x),
    ensures
        a == b,
    decreases a.len(),
{
    if a.len() == 0 {
        if b.len() > 0 {
            assert(b.contains(b[0]));
        }
        assert(a =~= b);
    } else {
        assert(a.contains(a.last()));
        if b.len() == 0 {
            assert(false);
        }
        assert(b.contains(b.last()));
        let i = choose|i: int| 0 <= i < b.len() && b[i] == a.last();
        let j = choose|j: int| 0 <= j < a.len() && a[j] == b.last();
        assert(a.last() == b.last());
        let a1 = a.drop_last();
        let b1 = b.drop_last();
        assert forall|x: u32| a1.contains(x) implies b1.contains(x) by {
            let k = choose|k: int| 0 <= k < a1.len() && a1[k] == x;
            assert(a[k] == x);
            assert(b.contains(x));
            let m = choose|m: int| 0 <= m < b.len() && b[m] == x;
            assert(x < a.last());
            assert(b1[m] == x);
        }
        assert forall|x: u32| b1.contains(x) implies a1.contains(x) by {
            let k = choose|k: int| 0 <= k < b1.len() && b1[k] == x;
            assert(b[k] == x);
            assert(a.contains(x));
            let m = choose|m: int| 0 <= m < a.len() && a[m] == x;
            assert(x < b.last());
            assert(a1[m] == x);
        }
        lemma_ascending_unique(a1, b1);
        assert(a =~= a1.push(a.last()));
        assert(b =~= b1.push(b.last()));
    }
}

/// An ascending list from `first` to `last` is no longer than the span, and
/// the element at position `i` is at least `first + i`.
pub proof fn lemma_ascending_span(s: Seq<u32>, i: int)
    requires
        ascending(s),
        0 <= i < s.len(),
    ensures
        s[i] >= s[0] + i,
        s.last() >= s[i] + (s.len() - 1 - i),
    decreases s.len(),
{
    lemma_ascending_span_up(s, i);
    lemma_ascending_span_down(s, i);
}

proof fn lemma_ascending_span_up(s: Seq<u32>, i: int)
    requires
        ascending(s),
        0 <= i < s.len(),
    ensures
        s[i] >= s[0] + i,
    decreases i,
{
    if i > 0 {
        lemma_ascending_span_up(s, i - 1);
    }
}

proof fn lemma_ascending_span_down(s: Seq<u32>, i: int)
    requires
        ascending(s),
        0 <= i < s.len(),
    ensures
        s.last() >= s[i] + (s.len() - 1 - i),
    decreases s.len() - i,
{
    if i + 1 < s.len() {
        lemma_ascending_span_down(s, i + 1);
    }
}

/// A list as long as its span is one run.
pub proof fn lemma_full_span_is_run(s: Seq<u32>)
    requires
        ascending(s),
        s.len() > 0,
        s.last() - s[0] + 1 == s.len(),
    ensures
        s == run(s[0], s.last()),
{
    assert forall|i: int| 0 <= i < s.len() implies #[trigger] s[i] == s[0] + i by {
        lemma_ascending_span(s, i);
    }
    assert(s =~= run(s[0], s.last()));
}

/// Runs in order list an ascending sequence, and list exactly the ids inside
/// one of the runs. Everything listed is at most the end of the last run.
pub proof fn lemma_runs_list(r: Seq<(u32, u32)>)
    requires
        runs_in_order(r),
    ensures
        ascending(runs_list(r)),
        r.len() > 0 ==> runs_list(r).len() > 0 && runs_list(r).last() == r.last().1,
        r.len() > 0 ==> runs_list(r)[0] == r[0].0,
    decreases r.len(),
{
    if r.len() > 0 {
        let less = r.drop_last();
        lemma_runs_list(less);
        let head = runs_list(less);
        let tail = run(r.last().0, r.last().1);
        let all = runs_list(r);
        assert(tail.last() == r.last().1);
        assert forall|i: int, j: int| 0 <= i < j < all.len() implies all[i] < all[j] by {
            if i < head.len() && j >= head.len() {
                assert(head[i] <= head.last());
                assert(less.len() > 0);
                assert(head.last() == less.last().1);
                assert(less.last() == r[r.len() - 2]);
            }
        }
        if less.len() == 0 {
            assert(head.len() == 0);
        }
    }
}

/// The id at offset `g - start` of run `i` is listed after the runs before it.
pub proof fn lemma_runs_at(r: Seq<(u32, u32)>, i: int, g: u32)
    requires
        runs_in_order(r),
        0 <= i < r.len(),
        r[i].0 <= g <= r[i].1,
    ensures
        runs_list(r.take(i)).len() + (g - r[i].0) < runs_list(r).len(),
        runs_list(r)[runs_list(r.take(i)).len() + (g - r[i].0)] == g,
    decreases r.len(),
{
    let less = r.drop_last();
    if i == r.len() - 1 {
        assert(r.take(i) =~= less);
    } else {
        lemma_runs_at(less, i, g);
        assert(less.take(i) =~= r.take(i));
    }
}

/// Whatever a sequence of runs lists lies inside one of them.
pub proof fn lemma_runs_member(r: Seq<(u32, u32)>, k: int) -> (i: int)
    requires
        runs_in_order(r),
        0 <= k < runs_list(r).len(),
    ensures
        0 <= i < r.len(),
        r[i].0 <= runs_list(r)[k] <= r[i].1,
    decreases r.len(),
{
    let less = r.drop_last();
    if k >= runs_list(less).len() {
        r.len() - 1
    } else {
        let i = lemma_runs_member(less, k);
        assert(less[i] == r[i]);
        i
    }
}

/// The first `m` bits of a bitmap list a beginning of what the first `n` do.
pub proof fn lemma_bitmap_prefix(words: Seq<u64>, base: int, m: nat, n: nat)
    requires
        m <= n,
    ensures
        bitmap_list(words, base, m).len() <= bitmap_list(words, base, n).len(),
        bitmap_list(words, base, m).len() <= m,
        forall|i: int|
            0 <= i < bitmap_list(words, base, m).len() ==> bitmap_list(words, base, m)[i]
                == bitmap_list(words, base, n)[i],
    decreases n,
{
    if m < n {
        lemma_bitmap_prefix(words, base, m, (n - 1) as nat);
    } else if n > 0 {
        lemma_bitmap_prefix(words, base, (n - 1) as nat, (n - 1) as nat);
    }
}

/// A bitmap lists in ascending order, and lists only ids whose bit it has.
pub proof fn lemma_bitmap_list(words: Seq<u64>, base: int, n: nat)
    requires
        bitmap_fits(words, base),
    ensures
        ascending(bitmap_list(words, base, n)),
        forall|i: int|
            0 <= i < bitmap_list(words, base, n).len() ==> {
                let g = #[trigger] bitmap_list(words, base, n)[i];
                base <= g < base + n && bitmap_has(words, g - base)
            },
    decreases n,
{
    if n > 0 {
        lemma_bitmap_list(words, base, (n - 1) as nat);
    }
}

/// An id whose bit is set is listed after all set bits below it.
pub proof fn lemma_bitmap_at(words: Seq<u64>, base: int, o: int, n: nat)
    requires
        bitmap_fits(words, base),
        0 <= o < n,
        bitmap_has(words, o),
    ensures
        bitmap_list(words, base, o as nat).len() < bitmap_list(words, base, n).len(),
        bitmap_list(words, base, n)[bitmap_list(words, base, o as nat).len() as int] == base + o,
{
    lemma_bitmap_prefix(words, base, (o + 1) as nat, n);
    assert(bitmap_list(words, base, (o + 1) as nat) == bitmap_list(words, base, o as nat).push(
        (base + o) as u32,
    ));
}

/// The set bits of the words below `w`, and those below `b` within it.
pub proof fn lemma_bitmap_count(words: Seq<u64>, base: int, w: int, b: nat)
    requires
        0 <= w < words.len(),
        b <= 64,
    ensures
        bitmap_list(words, base, (w * 64 + b) as nat).len() == bitmap_list(
            words,
            base,
            (w * 64) as nat,
        ).len() + ones(words[w], b),
    decreases b,
{
    if b > 0 {
        lemma_bitmap_count(words, base, w, (b - 1) as nat);
        let o = w * 64 + b - 1;
        assert(o / 64 == w && o % 64 == b - 1);
    }
}

/// Setting the bit of one offset adds that offset and changes nothing else.
pub proof fn lemma_bitmap_set(words: Seq<u64>, o: int, p: int)
    requires
        0 <= o < words.len() * 64,
    ensures
        bitmap_has(words.update(o / 64, words[o / 64] | single(o % 64)), p) == (bitmap_has(
            words,
            p,
        ) || p == o),
{
    if 0 <= p < words.len() * 64 {
        lemma_set_bit(words[o / 64], o % 64, p % 64);
        assert(p == o <==> (p / 64 == o / 64 && p % 64 == o % 64));
    }
}

/// A bitmap with exactly the bits of an ascending list lists it.
pub proof fn lemma_bitmap_lists(words: Seq<u64>, glyphs: Seq<u32>)
    requires
        ascending(glyphs),
        glyphs.len() > 0,
        glyphs.last() - glyphs[0] < words.len() * 64,
        forall|o: int|
            #[trigger] bitmap_has(words, o) <==> exists|i: int|
                0 <= i < glyphs.len() && #[trigger] glyphs[i] - glyphs[0] == o,
    ensures
        bitmap_fits(words, glyphs[0] as int),
        bitmap_list(words, glyphs[0] as int, (words.len() * 64) as nat) == glyphs,
{
    let base = glyphs[0] as int;
    let n = (words.len() * 64) as nat;
    lemma_bitmap_list(words, base, n);
    let listed = bitmap_list(words, base, n);
    assert forall|x: u32| glyphs.contains(x) implies listed.contains(x) by {
        let i = choose|i: int| 0 <= i < glyphs.len() && glyphs[i] == x;
        lemma_ascending_span(glyphs, i);
        assert(bitmap_has(words, glyphs[i] - glyphs[0]));
        lemma_bitmap_at(words, base, glyphs[i] - base, n);
        assert(listed[bitmap_list(words, base, (glyphs[i] - base) as nat).len() as int] == x);
    }
    assert forall|x: u32| listed.contains(x) implies glyphs.contains(x) by {
        let i = choose|i: int| 0 <= i < listed.len() && listed[i] == x;
        assert(bitmap_has(words, listed[i] - base));
        let j = choose|j: int| 0 <= j < glyphs.len() && #[trigger] glyphs[j] - glyphs[0] == x - base;
        assert(glyphs[j] == x);
    }
    lemma_ascending_unique(listed, glyphs);
}

/// The bits of an ascending list, counted from its first member.
pub fn bitmap_of(glyphs: &[u32], n_words: usize) -> (words: Vec<u64>)
    requires
        ascending(glyphs@),
        glyphs@.len() > 0,
        glyphs@.last() - glyphs@[0] < n_words * 64,
    ensures
        words@.len() == n_words,
        bitmap_fits(words@, glyphs@[0] as int),
        bitmap_list(words@, glyphs@[0] as int, (n_words * 64) as nat) == glyphs@,
{
    let mut words: Vec<u64> = vec![0u64; n_words];
    let first: u32 = glyphs[0];
    proof {
        assert forall|o: int| !bitmap_has(words@, o) by {
            if 0 <= o < words@.len() * 64 {
                lemma_zero_has_no_bits(o % 64);
            }
        }
    }
    let mut i: usize = 0;
    while i < glyphs.len()
        invariant
            i <= glyphs@.len(),
            ascending(glyphs@),
            glyphs@.len() > 0,
            first == glyphs@[0],
            words@.len() == n_words,
            glyphs@.last() - glyphs@[0] < n_words * 64,
            forall|o: int|
                #[trigger] bitmap_has(words@, o) <==> exists|k: int|
                    0 <= k < i && #[trigger] glyphs@[k] - glyphs@[0] == o,
        decreases glyphs@.len() - i,
    {
        let ghost before = words@;
        proof {
            lemma_ascending_span(glyphs@, i as int);
        }
        let o: u32 = glyphs[i] - first;
        let w: usize = (o / 64) as usize;
        let b: u32 = o % 64;
        let word: u64 = words[w] | (1u64 << b);
        words.set(w, word);
        proof {
            assert(words@ =~= before.update(o as int / 64, before[o as int / 64] | single(o as int % 64)));
            assert forall|p: int|
                #[trigger] bitmap_has(words@, p) <==> exists|k: int|
                    0 <= k < i + 1 && #[trigger] glyphs@[k] - glyphs@[0] == p by {
                lemma_bitmap_set(before, o as int, p);
                if bitmap_has(words@, p) {
                    if p == o {
                        assert(glyphs@[i as int] - glyphs@[0] == p);
                    } else {
                        let k = choose|k: int| 0 <= k < i && #[trigger] glyphs@[k] - glyphs@[0] == p;
                        assert(glyphs@[k] - glyphs@[0] == p);
                    }
                }
                if exists|k: int| 0 <= k < i + 1 && #[trigger] glyphs@[k] - glyphs@[0] == p {
                    let k = choose|k: int| 0 <= k < i + 1 && #[trigger] glyphs@[k] - glyphs@[0] == p;
                    if k < i {
                        assert(bitmap_has(before, p));
                    }
                }
            }
        }
        i += 1;
    }
    proof {
        lemma_bitmap_lists(words@, glyphs@);
    }
    words
}

/// The maximal runs of an ascending list.
pub fn runs_of(glyphs: &[u32]) -> (runs: Vec<(u32, u32)>)
    requires
        ascending(glyphs@),
    ensures
        runs_in_order(runs@),
        runs_list(runs@) == glyphs@,
        runs@.len() == run_count(glyphs@),
{
    let mut runs: Vec<(u32, u32)> = Vec::new();
    let mut i: usize = 0;
    while i < glyphs.len()
        invariant
            i <= glyphs@.len(),
            ascending(glyphs@),
            runs_in_order(runs@),
            runs_list(runs@) == glyphs@.take(i as int),
            runs@.len() == run_count(glyphs@.take(i as int)),
            i > 0 <==> runs@.len() > 0,
            i > 0 ==> runs@.last().1 == glyphs@[i - 1],
        decreases glyphs@.len() - i,
    {
        let g: u32 = glyphs[i];
        let n: usize = runs.len();
        let ghost before = runs@;
        let ghost now = glyphs@.take(i + 1);
        proof {
            assert(now.drop_last() =~= glyphs@.take(i as int));
            assert(now =~= glyphs@.take(i as int).push(g));
        }
        if n > 0 && runs[n - 1].1 + 1 == g {
            let start: u32 = runs[n - 1].0;
            runs.set(n - 1, (start, g));
            proof {
                assert(now[now.len() - 2] == glyphs@[i - 1]);
                assert(runs@.drop_last() =~= before.drop_last());
                assert(run(start, g) =~= run(start, before.last().1).push(g));
                assert(runs_list(runs@) =~= runs_list(before).push(g));
            }
        } else {
            runs.push((g, g));
            proof {
                assert(runs@.drop_last() =~= before);
                assert(run(g, g) =~= seq![g]);
                assert(runs_list(runs@) =~= runs_list(before).push(g));
                if i > 0 {
                    assert(now[now.len() - 2] == glyphs@[i - 1]);
                    assert forall|k: int| 0 <= k < before.len() implies (#[trigger] before[k]).1 < g by {
                        assert(before[k].1 <= before.last().1);
                    }
                }
            }
        }
        i += 1;
    }
    assert(glyphs@.take(i as int) =~= glyphs@);
    runs
}

/// How many runs an ascending list falls into, without building them.
pub fn count_runs(glyphs: &[u32]) -> (n: usize)
    requires
        ascending(glyphs@),
    ensures
        n == run_count(glyphs@),
        n <= glyphs@.len(),
{
    let mut n: usize = 0;
    let mut i: usize = 0;
    while i < glyphs.len()
        invariant
            i <= glyphs@.len(),
            ascending(glyphs@),
            n == run_count(glyphs@.take(i as int)),
            n <= i,
        decreases glyphs@.len() - i,
    {
        proof {
            let now = glyphs@.take(i + 1);
            assert(now.drop_last() =~= glyphs@.take(i as int));
            if i > 0 {
                assert(now[now.len() - 2] == glyphs@[i - 1]);
                assert(glyphs@[i - 1] < glyphs@[i as int]);
            }
        }
        if i == 0 || glyphs[i - 1] + 1 != glyphs[i] {
            n += 1;
        }
        i += 1;
    }
    assert(glyphs@.take(i as int) =~= glyphs@);
    n
}

/// The run that holds `g`, by binary search.
pub fn search_runs(runs: &[(u32, u32)], g: u32) -> (r: Option<usize>)
    requires
        runs_in_order(runs@),
    ensures
        r matches Some(i) ==> i < runs@.len() && runs@[i as int].0 <= g <= runs@[i as int].1,
        r is None ==> forall|i: int|
            0 <= i < runs@.len() ==> !((#[trigger] runs@[i]).0 <= g <= runs@[i].1),
{
    let mut lo: usize = 0;
    let mut hi: usize = runs.len();
    while lo < hi
        invariant
            lo <= hi <= runs@.len(),
            runs_in_order(runs@),
            forall|i: int| 0 <= i < lo ==> (#[trigger] runs@[i]).1 < g,
            forall|i: int| hi <= i < runs@.len() ==> g < (#[trigger] runs@[i]).0,
        decreases hi - lo,
    {
        let mid: usize = lo + (hi - lo) / 2;
        let (a, b) = runs[mid];
        if g < a {
            hi = mid;
        } else if g > b {
            lo = mid + 1;
        } else {
            return Some(mid);
        }
    }
    None
}

/// Where `g` stands in an ascending list, by binary search.
pub fn search_sorted(s: &[u32], g: u32) -> (r: Option<usize>)
    requires
        ascending(s@),
    ensures
        r matches Some(i) ==> i < s@.len() && s@[i as int] == g,
        r is None ==> !s@.contains(g),
{
    let mut lo: usize = 0;
    let mut hi: usize = s.len();
    while lo < hi
        invariant
            lo <= hi <= s@.len(),
            ascending(s@),
            forall|i: int| 0 <= i < lo ==> s@[i] < g,
            forall|i: int| hi <= i < s@.len() ==> g < s@[i],
        decreases hi - lo,
    {
        let mid: usize = lo + (hi - lo) / 2;
        if g < s[mid] {
            hi = mid;
        } else if g > s[mid] {
            lo = mid + 1;
        } else {
            return Some(mid);
        }
    }
    None
}

/// Whether an ascending list has `g` in one of its runs.
pub proof fn lemma_runs_contain(r: Seq<(u32, u32)>, g: u32)
    requires
        runs_in_order(r),
    ensures
        runs_list(r).contains(g) <==> exists|i: int| 0 <= i < r.len() && (#[trigger] r[i]).0 <= g <= r[i].1,
{
    if runs_list(r).contains(g) {
        let k = choose|k: int| 0 <= k < runs_list(r).len() && runs_list(r)[k] == g;
        let i = lemma_runs_member(r, k);
        assert(r[i].0 <= g <= r[i].1);
    }
    if exists|i: int| 0 <= i < r.len() && (#[trigger] r[i]).0 <= g <= r[i].1 {
        let i = choose|i: int| 0 <= i < r.len() && (#[trigger] r[i]).0 <= g <= r[i].1;
        lemma_runs_at(r, i, g);
        let k = runs_list(r.take(i)).len() + (g - r[i].0);
        assert(runs_list(r)[k] == g);
    }
}

/// Whether a bitmap lists the id `base + o`.
pub proof fn lemma_bitmap_contains(words: Seq<u64>, base: int, g: u32)
    requires
        bitmap_fits(words, base),
    ensures
        bitmap_list(words, base, (words.len() * 64) as nat).contains(g) <==> bitmap_has(words, g - base),
{
    let n = (words.len() * 64) as nat;
    lemma_bitmap_list(words, base, n);
    let listed = bitmap_list(words, base, n);
    if bitmap_has(words, g - base) {
        lemma_bitmap_at(words, base, g - base, n);
        assert(listed[bitmap_list(words, base, (g - base) as nat).len() as int] == g);
    }
    if listed.contains(g) {
        let i = choose|i: int| 0 <= i < listed.len() && listed[i] == g;
        assert(bitmap_has(words, listed[i] - base));
    }
}

/// Tests one bit of a bitmap.
pub fn bitmap_test(words: &[u64], o: u32) -> (r: bool)
    ensures
        r == bitmap_has(words@, o as int),
{
    let w: usize = (o / 64) as usize;
    let b: u32 = o % 64;
    if w < words.len() {
        let word: u64 = words[w];
        assert((word >> b) & 1 != 0 <==> (word >> b) & 1 == 1) by (bit_vector)
            requires
                b < 64,
        ;
        (word >> b) & 1 != 0
    } else {
        false
    }
}

/// How many ids a bitmap lists.
pub fn bitmap_len(words: &[u64], base: u32) -> (n: usize)
    requires
        bitmap_list(words@, base as int, (words@.len() * 64) as nat).len() <= usize::MAX,
    ensures
        n == bitmap_list(words@, base as int, (words@.len() * 64) as nat).len(),
{
    let mut n: usize = 0;
    let mut w: usize = 0;
    while w < words.len()
        invariant
            w <= words@.len(),
            bitmap_list(words@, base as int, (words@.len() * 64) as nat).len() <= usize::MAX,
            n == bitmap_list(words@, base as int, (w * 64) as nat).len(),
        decreases words@.len() - w,
    {
        proof {
            lemma_bitmap_count(words@, base as int, w as int, 64);
            lemma_bitmap_prefix(
                words@,
                base as int,
                (w * 64 + 64) as nat,
                (words@.len() * 64) as nat,
            );
        }
        n += words[w].count_ones() as usize;
        w += 1;
    }
    n
}

/// Appends what a bitmap lists.
pub fn extend_bitmap(words: &[u64], base: u32, out: &mut Vec<u32>)
    requires
        bitmap_fits(words@, base as int),
        words@.len() <= 0x400_0000,
    ensures
        final(out)@ == old(out)@ + bitmap_list(words@, base as int, (words@.len() * 64) as nat),
{
    let mut w: usize = 0;
    assert(out@ =~= old(out)@ + bitmap_list(words@, base as int, 0));
    while w < words.len()
        invariant
            w <= words@.len(),
            words@.len() <= 0x400_0000,
            bitmap_fits(words@, base as int),
            out@ == old(out)@ + bitmap_list(words@, base as int, (w * 64) as nat),
        decreases words@.len() - w,
    {
        let word: u64 = words[w];
        let mut b: u32 = 0;
        while b < 64
            invariant
                w < words@.len(),
                words@.len() <= 0x400_0000,
                b <= 64,
                word == words@[w as int],
                bitmap_fits(words@, base as int),
                out@ == old(out)@ + bitmap_list(words@, base as int, (w * 64 + b) as nat),
            decreases 64 - b,
        {
            let o: u32 = (w as u32) * 64 + b;
            proof {
                assert((w * 64 + b) / 64 == w && (w * 64 + b) % 64 == b);
            }
            if bitmap_test(words, o) {
                assert(bitmap_has(words@, o as int));
                out.push(base + o);
                assert(out@ =~= old(out)@ + bitmap_list(words@, base as int, (w * 64 + b + 1) as nat));
            }
            b += 1;
        }
        w += 1;
    }
}

/// Appends the ids from `a` to `b`, both included.
pub fn extend_run(a: u32, b: u32, out: &mut Vec<u32>)
    requires
        a <= b,
    ensures
        final(out)@ == old(out)@ + run(a, b),
{
    let mut g: u32 = a;
    assert(out@ =~= old(out)@ + run(a, b).take(0));
    while g < b
        invariant
            a <= g <= b,
            out@ == old(out)@ + run(a, b).take(g - a),
        decreases b - g,
    {
        out.push(g);
        assert(out@ =~= old(out)@ + run(a, b).take(g + 1 - a));
        g += 1;
    }
    out.push(b);
    assert(out@ =~= old(out)@ + run(a, b));
}

/// Appends a list.
pub fn extend_list(s: &[u32], out: &mut Vec<u32>)
    ensures
        final(out)@ == old(out)@ + s@,
{
    let mut i: usize = 0;
    assert(out@ =~= old(out)@ + s@.take(0));
    while i < s.len()
        invariant
            i <= s@.len(),
            out@ == old(out)@ + s@.take(i as int),
        decreases s@.len() - i,
    {
        out.push(s[i]);
        assert(out@ =~= old(out)@ + s@.take(i + 1));
        i += 1;
    }
    assert(s@.take(i as int) =~= s@);
}

} // verus!
