//! Compiled class definitions.

use vstd::prelude::*;

use crate::pick::{pick, picked, Pick, DEFAULT_BUDGET, SLACK};

verus! {

/// What one [`ClassRange`] takes.
pub const CLASS_RANGE_BYTES: usize = 12;

/// One run of glyphs sharing a class.
#[derive(Copy, Clone, Debug, PartialEq, Eq, Structural)]
pub struct ClassRange {
    pub start: u32,
    /// Inclusive.
    pub end: u32,
    pub class: u16,
}

/// Pairs in strictly ascending order of glyph.
pub open spec fn by_glyph(entries: Seq<(u32, u16)>) -> bool {
    forall|i: int, j: int| 0 <= i < j < entries.len() ==> (#[trigger] entries[i]).0 < (#[trigger] entries[j]).0
}

/// The class that pairs give a glyph: zero unless one names it.
pub open spec fn class_in(entries: Seq<(u32, u16)>, g: u32) -> u16 {
    if exists|i: int| 0 <= i < entries.len() && (#[trigger] entries[i]).0 == g {
        entries[choose|i: int| 0 <= i < entries.len() && (#[trigger] entries[i]).0 == g].1
    } else {
        0
    }
}

/// The pairs whose class is not the default.
pub open spec fn nonzero(entries: Seq<(u32, u16)>) -> Seq<(u32, u16)>
    decreases entries.len(),
{
    if entries.len() == 0 {
        seq![]
    } else if entries.last().1 != 0 {
        nonzero(entries.drop_last()).push(entries.last())
    } else {
        nonzero(entries.drop_last())
    }
}

/// How many runs of consecutive glyphs with one class the pairs fall into.
pub open spec fn class_run_count(s: Seq<(u32, u16)>) -> nat
    decreases s.len(),
{
    if s.len() == 0 {
        0
    } else if s.len() >= 2 && s[s.len() - 2].0 + 1 == s.last().0 && s[s.len() - 2].1 == s.last().1 {
        class_run_count(s.drop_last())
    } else {
        class_run_count(s.drop_last()) + 1
    }
}

/// Whether every class fits one byte.
pub open spec fn narrow(s: Seq<(u32, u16)>) -> bool {
    forall|i: int| 0 <= i < s.len() ==> (#[trigger] s[i]).1 <= 0xff
}

/// The ids from the first pair's glyph to the last's.
pub open spec fn class_span(s: Seq<(u32, u16)>) -> int {
    s.last().0 - s[0].0 + 1
}

/// Whether pairs can be compiled: in order, their glyphs not spanning every id
/// there is, and with room to count what each form would take.
pub open spec fn class_compilable(entries: Seq<(u32, u16)>) -> bool {
    &&& by_glyph(entries)
    &&& entries.len() * CLASS_RANGE_BYTES <= usize::MAX
    &&& nonzero(entries).len() > 0 ==> class_span(nonzero(entries)) <= u32::MAX && class_span(
        nonzero(entries),
    ) * 2 <= usize::MAX
}

/// The forms pairs may take, as `(form, speed rank, bytes)`.
pub open spec fn class_candidates(nz: Seq<(u32, u16)>) -> Seq<(Pick, u8, usize)> {
    let wide = seq![
        (Pick::Dense16, 0u8, (class_span(nz) * 2) as usize),
        (Pick::Ranges, 1u8, (class_run_count(nz) * CLASS_RANGE_BYTES) as usize),
    ];
    if narrow(nz) {
        wide.push((Pick::Dense8, 0u8, class_span(nz) as usize))
    } else {
        wide
    }
}

/// Runs in order, none of them empty and none of the default class.
pub open spec fn class_runs_in_order(r: Seq<ClassRange>) -> bool {
    &&& forall|i: int| 0 <= i < r.len() ==> (#[trigger] r[i]).start <= r[i].end && r[i].class != 0
    &&& forall|i: int, j: int| 0 <= i < j < r.len() ==> (#[trigger] r[i]).end < (#[trigger] r[j]).start
}

/// The class that runs give a glyph.
pub open spec fn class_in_runs(r: Seq<ClassRange>, g: u32) -> u16 {
    if exists|i: int| 0 <= i < r.len() && (#[trigger] r[i]).start <= g <= r[i].end {
        r[choose|i: int| 0 <= i < r.len() && (#[trigger] r[i]).start <= g <= r[i].end].class
    } else {
        0
    }
}

/// The pairs that runs name, in order.
pub open spec fn class_runs_list(r: Seq<ClassRange>) -> Seq<(u32, u16)>
    decreases r.len(),
{
    if r.len() == 0 {
        seq![]
    } else {
        let last = r.last();
        class_runs_list(r.drop_last()) + Seq::new(
            (last.end - last.start + 1) as nat,
            |i: int| ((last.start + i) as u32, last.class),
        )
    }
}

/// Maps a glyph to its class, with class 0 as the implicit default.
#[derive(Clone, Debug, PartialEq, Eq)]
pub enum ClassMap {
    /// Every glyph is class 0.
    Empty,
    /// Direct index, one byte per glyph.
    Dense8 { first: u32, classes: Vec<u8> },
    /// Direct index: one load, no search.
    Dense { first: u32, classes: Vec<u16> },
    /// Sorted runs, binary searched.
    Ranges(Vec<ClassRange>),
}

impl Default for ClassMap {
    fn default() -> (r: ClassMap)
        ensures
            r is Empty,
    {
        ClassMap::Empty
    }
}

impl ClassMap {
    /// The class of a glyph.
    pub open spec fn class_of(&self, g: u32) -> u16 {
        match *self {
            ClassMap::Empty => 0,
            ClassMap::Dense8 { first, classes } => if first <= g && g - first < classes@.len() {
                classes@[g - first] as u16
            } else {
                0
            },
            ClassMap::Dense { first, classes } => if first <= g && g - first < classes@.len() {
                classes@[g - first]
            } else {
                0
            },
            ClassMap::Ranges(r) => class_in_runs(r@, g),
        }
    }

    /// What every built map keeps.
    pub open spec fn wf(&self) -> bool {
        match *self {
            ClassMap::Empty => true,
            ClassMap::Dense8 { first, classes } => first + classes@.len() <= u32::MAX + 1,
            ClassMap::Dense { first, classes } => first + classes@.len() <= u32::MAX + 1
                && classes@.len() * 2 <= usize::MAX,
            ClassMap::Ranges(r) => class_runs_in_order(r@) && r@.len() * CLASS_RANGE_BYTES
                <= usize::MAX,
        }
    }

    /// The form this map was given.
    pub open spec fn has_form(&self, p: Pick) -> bool {
        match p {
            Pick::Dense8 => *self is Dense8,
            Pick::Dense16 => *self is Dense,
            _ => *self is Ranges,
        }
    }

    /// The bytes each form holds on the heap.
    pub open spec fn bytes(&self) -> nat {
        match *self {
            ClassMap::Empty => 0,
            ClassMap::Dense8 { first, classes } => classes@.len(),
            ClassMap::Dense { first, classes } => classes@.len() * 2,
            ClassMap::Ranges(r) => r@.len() * CLASS_RANGE_BYTES as nat,
        }
    }

    /// Whether this map is as small as its form allows: one run for each run of
    /// the pairs, or one entry for each id from the first pair's to the last's.
    pub open spec fn is_tight(&self, nz: Seq<(u32, u16)>) -> bool {
        match *self {
            ClassMap::Empty => true,
            ClassMap::Dense8 { first, classes } => first == nz[0].0 && classes@.len() == class_span(nz),
            ClassMap::Dense { first, classes } => first == nz[0].0 && classes@.len() == class_span(nz),
            ClassMap::Ranges(r) => r@.len() == class_run_count(nz),
        }
    }

    /// Compile from ascending `(glyph, class)` pairs. Entries with class 0 are
    /// dropped, since class 0 is the default.
    pub fn build(entries: &[(u32, u16)]) -> (r: ClassMap)
        requires
            class_compilable(entries@),
        ensures
            r.wf(),
            forall|g: u32| r.class_of(g) == class_in(entries@, g),
            r is Empty <==> nonzero(entries@).len() == 0,
            nonzero(entries@).len() > 0 ==> r.has_form(
                picked(class_candidates(nonzero(entries@)), DEFAULT_BUDGET, SLACK),
            ),
            r.is_tight(nonzero(entries@)),
    {
        ClassMap::build_with_budget(entries, DEFAULT_BUDGET)
    }

    pub fn build_with_budget(entries: &[(u32, u16)], budget: usize) -> (r: ClassMap)
        requires
            class_compilable(entries@),
        ensures
            r.wf(),
            forall|g: u32| r.class_of(g) == class_in(entries@, g),
            r is Empty <==> nonzero(entries@).len() == 0,
            nonzero(entries@).len() > 0 ==> r.has_form(
                picked(class_candidates(nonzero(entries@)), budget, SLACK),
            ),
            r.is_tight(nonzero(entries@)),
    {
        ClassMap::build_with_slack(entries, budget, SLACK)
    }

    /// Build under an explicit slack, where one form has to be pinned.
    pub fn build_with_slack(entries: &[(u32, u16)], budget: usize, slack: usize) -> (r: ClassMap)
        requires
            class_compilable(entries@),
        ensures
            r.wf(),
            forall|g: u32| r.class_of(g) == class_in(entries@, g),
            r is Empty <==> nonzero(entries@).len() == 0,
            nonzero(entries@).len() > 0 ==> r.has_form(
                picked(class_candidates(nonzero(entries@)), budget, slack),
            ),
            r.is_tight(nonzero(entries@)),
    {
        let nz = keep_nonzero(entries);
        proof {
            lemma_nonzero(entries@);
            assert forall|g: u32| class_in(nz@, g) == class_in(entries@, g) by {
                lemma_nonzero_class(entries@, g);
            }
        }
        if nz.len() == 0 {
            return ClassMap::Empty;
        }
        let first: u32 = nz[0].0;
        let last: u32 = nz[nz.len() - 1].0;
        assert(first <= last);
        let span: u32 = last - first + 1;
        let n_ranges: usize = count_class_runs(&nz);
        let fits_byte: bool = is_narrow(&nz);
        let mut cands: Vec<(Pick, u8, usize)> = Vec::new();
        cands.push((Pick::Dense16, 0, span as usize * 2));
        cands.push((Pick::Ranges, 1, n_ranges * CLASS_RANGE_BYTES));
        if fits_byte {
            cands.push((Pick::Dense8, 0, span as usize));
        }
        assert(cands@ =~= class_candidates(nz@));
        let choice = pick(&cands, budget, slack);
        proof {
            let k = choose|k: int| #[trigger] crate::pick::is_pick(cands@, budget, slack, k) && choice == cands@[k].0;
            assert(choice is Dense8 ==> fits_byte);
        }
        match choice {
            Pick::Dense8 => {
                let mut classes: Vec<u8> = vec![0u8; span as usize];
                let mut i: usize = 0;
                while i < nz.len()
                    invariant
                        i <= nz@.len(),
                        by_glyph(nz@),
                        narrow(nz@),
                        nz@.len() > 0,
                        first == nz@[0].0,
                        last == nz@.last().0,
                        span == last - first + 1,
                        classes@.len() == span,
                        forall|k: int| 0 <= k < i ==> classes@[(#[trigger] nz@[k]).0 - first] == nz@[k].1,
                        forall|o: int|
                            0 <= o < span && (forall|k: int| 0 <= k < i ==> (#[trigger] nz@[k]).0 - first != o)
                                ==> #[trigger] classes@[o] == 0,
                    decreases nz@.len() - i,
                {
                    let (g, c) = nz[i];
                    assert(nz@[i as int].0 >= first && nz@[i as int].0 <= last);
                    assert(nz@[i as int].1 <= 0xff);
                    let ghost before = classes@;
                    classes.set((g - first) as usize, c as u8);
                    proof {
                        assert forall|o: int|
                            0 <= o < span && (forall|k: int|
                                0 <= k < i + 1 ==> (#[trigger] nz@[k]).0 - first != o) implies #[trigger] classes@[o]
                            == 0 by {
                            assert(nz@[i as int].0 - first != o);
                            assert(before[o] == 0);
                        }
                    }
                    i += 1;
                }
                proof {
                    let r = ClassMap::Dense8 { first, classes };
                    assert forall|g: u32| r.class_of(g) == class_in(entries@, g) by {
                        lemma_dense(nz@, g, first, span as int, |o: int| classes@[o] as u16);
                    }
                }
                ClassMap::Dense8 { first, classes }
            },
            Pick::Dense16 => {
                let mut classes: Vec<u16> = vec![0u16; span as usize];
                let mut i: usize = 0;
                while i < nz.len()
                    invariant
                        i <= nz@.len(),
                        by_glyph(nz@),
                        nz@.len() > 0,
                        first == nz@[0].0,
                        last == nz@.last().0,
                        span == last - first + 1,
                        classes@.len() == span,
                        forall|k: int| 0 <= k < i ==> classes@[(#[trigger] nz@[k]).0 - first] == nz@[k].1,
                        forall|o: int|
                            0 <= o < span && (forall|k: int| 0 <= k < i ==> (#[trigger] nz@[k]).0 - first != o)
                                ==> #[trigger] classes@[o] == 0,
                    decreases nz@.len() - i,
                {
                    let (g, c) = nz[i];
                    assert(nz@[i as int].0 >= first && nz@[i as int].0 <= last);
                    let ghost before = classes@;
                    classes.set((g - first) as usize, c);
                    proof {
                        assert forall|o: int|
                            0 <= o < span && (forall|k: int|
                                0 <= k < i + 1 ==> (#[trigger] nz@[k]).0 - first != o) implies #[trigger] classes@[o]
                            == 0 by {
                            assert(nz@[i as int].0 - first != o);
                            assert(before[o] == 0);
                        }
                    }
                    i += 1;
                }
                proof {
                    let r = ClassMap::Dense { first, classes };
                    assert forall|g: u32| r.class_of(g) == class_in(entries@, g) by {
                        lemma_dense(nz@, g, first, span as int, |o: int| classes@[o]);
                    }
                }
                ClassMap::Dense { first, classes }
            },
            _ => {
                let ranges = class_runs_of(&nz);
                proof {
                    let r = ClassMap::Ranges(ranges);
                    assert forall|g: u32| r.class_of(g) == class_in(entries@, g) by {
                        lemma_runs_class(ranges@, nz@, g);
                    }
                }
                ClassMap::Ranges(ranges)
            },
        }
    }

    /// Every glyph the definition names, with its class.
    ///
    /// Glyphs it does not name are class zero, and there is no bound on how
    /// many of those there are -- so a caller reasoning about class zero has to
    /// treat it as holding everything.
    pub fn for_each(&self) -> (out: Vec<(u32, u16)>)
        requires
            self.wf(),
        ensures
            by_glyph(out@),
            forall|k: int| 0 <= k < out@.len() ==> (#[trigger] out@[k]).1 != 0,
            forall|g: u32| #[trigger] class_in(out@, g) == self.class_of(g),
    {
        let mut out: Vec<(u32, u16)> = Vec::new();
        let ghost mut limit: int = 0;
        match self {
            ClassMap::Empty => {},
            ClassMap::Dense8 { first, classes } => {
                let mut o: usize = 0;
                while o < classes.len()
                    invariant
                        o <= classes@.len(),
                        first + classes@.len() <= u32::MAX + 1,
                        *self == (ClassMap::Dense8 { first: *first, classes: *classes }),
                        self.lists_below(out@, first + o),
                    decreases classes@.len() - o,
                {
                    self.list(&mut out, *first + o as u32, classes[o] as u16);
                    o += 1;
                }
                proof {
                    limit = first + o;
                }
            },
            ClassMap::Dense { first, classes } => {
                let mut o: usize = 0;
                while o < classes.len()
                    invariant
                        o <= classes@.len(),
                        first + classes@.len() <= u32::MAX + 1,
                        *self == (ClassMap::Dense { first: *first, classes: *classes }),
                        self.lists_below(out@, first + o),
                    decreases classes@.len() - o,
                {
                    self.list(&mut out, *first + o as u32, classes[o]);
                    o += 1;
                }
                proof {
                    limit = first + o;
                }
            },
            ClassMap::Ranges(r) => {
                let mut i: usize = 0;
                while i < r.len()
                    invariant
                        i <= r@.len(),
                        class_runs_in_order(r@),
                        *self == ClassMap::Ranges(*r),
                        self.lists_below(
                            out@,
                            if i == 0 {
                                0
                            } else {
                                r@[i - 1].end + 1
                            },
                        ),
                    decreases r@.len() - i,
                {
                    let e: ClassRange = r[i];
                    proof {
                        lemma_between(r@, i as int);
                    }
                    let mut g: u32 = e.start;
                    while g < e.end
                        invariant
                            i < r@.len(),
                            e == r@[i as int],
                            e.start <= g <= e.end,
                            class_runs_in_order(r@),
                            *self == ClassMap::Ranges(*r),
                            self.lists_below(out@, g as int),
                        decreases e.end - g,
                    {
                        proof {
                            lemma_class_in_run(r@, i as int, g);
                        }
                        self.list(&mut out, g, e.class);
                        g += 1;
                    }
                    proof {
                        lemma_class_in_run(r@, i as int, g);
                    }
                    self.list(&mut out, g, e.class);
                    i += 1;
                }
                proof {
                    lemma_between(r@, i as int);
                    if i > 0 {
                        limit = r@[i - 1].end + 1;
                    }
                }
            },
        }
        proof {
            self.lemma_listed(out@, limit);
        }
        out
    }

    /// Whether these are the glyphs below a limit that have a class, in order.
    spec fn lists_below(&self, out: Seq<(u32, u16)>, limit: int) -> bool {
        &&& by_glyph(out)
        &&& forall|k: int|
            0 <= k < out.len() ==> (#[trigger] out[k]).1 != 0 && out[k].1 == self.class_of(out[k].0) && out[k].0
                < limit
        &&& forall|g: u32|
            g < limit && (#[trigger] self.class_of(g)) != 0 ==> exists|k: int|
                0 <= k < out.len() && (#[trigger] out[k]).0 == g
    }

    /// List one more glyph, unless it has no class.
    fn list(&self, out: &mut Vec<(u32, u16)>, g: u32, class: u16)
        requires
            self.lists_below(old(out)@, g as int),
            class == self.class_of(g),
        ensures
            self.lists_below(final(out)@, g + 1),
    {
        if class != 0 {
            out.push((g, class));
            proof {
                let before = old(out)@;
                assert(out@ == before.push((g, class)));
                assert forall|x: u32| x < g + 1 && (#[trigger] self.class_of(x)) != 0 implies exists|k: int|
                    0 <= k < out@.len() && (#[trigger] out@[k]).0 == x by {
                    if x < g {
                        let k = choose|k: int| 0 <= k < before.len() && (#[trigger] before[k]).0 == x;
                        assert(out@[k].0 == x);
                    } else {
                        assert(out@[before.len() as int].0 == x);
                    }
                }
            }
        }
    }

    /// Where nothing past the list has a class, the list says what the map does.
    proof fn lemma_listed(&self, out: Seq<(u32, u16)>, limit: int)
        requires
            self.lists_below(out, limit),
            forall|g: u32| g >= limit ==> (#[trigger] self.class_of(g)) == 0,
        ensures
            by_glyph(out),
            forall|k: int| 0 <= k < out.len() ==> (#[trigger] out[k]).1 != 0,
            forall|g: u32| #[trigger] class_in(out, g) == self.class_of(g),
    {
    }

    pub fn get(&self, g: u32) -> (c: u16)
        requires
            self.wf(),
        ensures
            c == self.class_of(g),
    {
        match self {
            ClassMap::Empty => 0,
            ClassMap::Dense8 { first, classes } => {
                if g >= *first && ((g - *first) as usize) < classes.len() {
                    classes[(g - *first) as usize] as u16
                } else {
                    0
                }
            },
            ClassMap::Dense { first, classes } => {
                if g >= *first && ((g - *first) as usize) < classes.len() {
                    classes[(g - *first) as usize]
                } else {
                    0
                }
            },
            ClassMap::Ranges(r) => {
                let mut lo: usize = 0;
                let mut hi: usize = r.len();
                while lo < hi
                    invariant
                        lo <= hi <= r@.len(),
                        self.wf(),
                        *self == ClassMap::Ranges(*r),
                        class_runs_in_order(r@),
                        forall|i: int| 0 <= i < lo ==> (#[trigger] r@[i]).end < g,
                        forall|i: int| hi <= i < r@.len() ==> g < (#[trigger] r@[i]).start,
                    decreases hi - lo,
                {
                    let mid: usize = lo + (hi - lo) / 2;
                    let e: ClassRange = r[mid];
                    if g < e.start {
                        hi = mid;
                    } else if g > e.end {
                        lo = mid + 1;
                    } else {
                        proof {
                            let k = choose|i: int| 0 <= i < r@.len() && (#[trigger] r@[i]).start <= g <= r@[i].end;
                            assert(r@[mid as int].start <= g <= r@[mid as int].end);
                            assert(k == mid);
                        }
                        return e.class;
                    }
                }
                0
            },
        }
    }

    pub fn heap_bytes(&self) -> (n: usize)
        requires
            self.wf(),
        ensures
            n == self.bytes(),
    {
        match self {
            ClassMap::Empty => 0,
            ClassMap::Dense8 { first, classes } => classes.len(),
            ClassMap::Dense { first, classes } => classes.len() * 2,
            ClassMap::Ranges(r) => r.len() * CLASS_RANGE_BYTES,
        }
    }
}

/// Inside a run, a glyph has the run's class.
proof fn lemma_class_in_run(r: Seq<ClassRange>, i: int, g: u32)
    requires
        class_runs_in_order(r),
        0 <= i < r.len(),
        r[i].start <= g <= r[i].end,
    ensures
        class_in_runs(r, g) == r[i].class,
{
    let k = choose|k: int| 0 <= k < r.len() && (#[trigger] r[k]).start <= g <= r[k].end;
    assert(r[i].start <= g <= r[i].end);
    if k < i {
        assert(r[k].end < r[i].start);
    } else if i < k {
        assert(r[i].end < r[k].start);
    }
}

/// Between a run and the one before it, no glyph has a class.
proof fn lemma_between(r: Seq<ClassRange>, i: int)
    requires
        class_runs_in_order(r),
        0 <= i <= r.len(),
    ensures
        forall|g: u32|
            (i > 0 ==> r[i - 1].end < g) && (i < r.len() ==> g < r[i].start) ==> #[trigger] class_in_runs(r, g)
                == 0,
{
    assert forall|g: u32|
        (i > 0 ==> r[i - 1].end < g) && (i < r.len() ==> g < r[i].start) implies #[trigger] class_in_runs(r, g)
        == 0 by {
        assert forall|k: int| 0 <= k < r.len() implies !((#[trigger] r[k]).start <= g <= r[k].end) by {
            if k < i - 1 {
                assert(r[k].end < r[i - 1].start);
            } else if k > i {
                assert(r[i].end < r[k].start);
            }
        }
    }
}

/// Dropping the default class keeps the order and loses no other pair.
pub proof fn lemma_nonzero(entries: Seq<(u32, u16)>)
    requires
        by_glyph(entries),
    ensures
        by_glyph(nonzero(entries)),
        nonzero(entries).len() <= entries.len(),
        forall|k: int|
            0 <= k < nonzero(entries).len() ==> (#[trigger] nonzero(entries)[k]).1 != 0 && entries.contains(
                nonzero(entries)[k],
            ),
        forall|k: int|
            0 <= k < entries.len() && (#[trigger] entries[k]).1 != 0 ==> nonzero(entries).contains(entries[k]),
    decreases entries.len(),
{
    if entries.len() > 0 {
        let less = entries.drop_last();
        lemma_nonzero(less);
        let nz = nonzero(entries);
        assert forall|k: int| 0 <= k < nz.len() implies (#[trigger] nz[k]).1 != 0 && entries.contains(nz[k]) by {
            if k < nonzero(less).len() {
                assert(nz[k] == nonzero(less)[k]);
                let m = choose|m: int| 0 <= m < less.len() && less[m] == nz[k];
                assert(entries[m] == nz[k]);
            } else {
                assert(entries[entries.len() - 1] == nz[k]);
            }
        }
        assert forall|i: int, j: int| 0 <= i < j < nz.len() implies (#[trigger] nz[i]).0 < (#[trigger] nz[j]).0 by {
            if j == nonzero(less).len() {
                assert(nz[i] == nonzero(less)[i]);
                let m = choose|m: int| 0 <= m < less.len() && less[m] == nz[i];
                assert(entries[m].0 < entries[entries.len() - 1].0);
            }
        }
        assert forall|k: int| 0 <= k < entries.len() && (#[trigger] entries[k]).1 != 0 implies nz.contains(
            entries[k],
        ) by {
            if k < less.len() {
                assert(less[k] == entries[k]);
                let m = choose|m: int| 0 <= m < nonzero(less).len() && nonzero(less)[m] == entries[k];
                assert(nz[m] == entries[k]);
            } else {
                assert(nz[nz.len() - 1] == entries[k]);
            }
        }
    }
}

/// The class that pairs give a glyph they name.
pub proof fn lemma_class_in(s: Seq<(u32, u16)>, i: int)
    requires
        by_glyph(s),
        0 <= i < s.len(),
    ensures
        class_in(s, s[i].0) == s[i].1,
{
    let g = s[i].0;
    let k = choose|k: int| 0 <= k < s.len() && (#[trigger] s[k]).0 == g;
    assert(s[k].0 == g);
    assert(k == i);
}

/// Dropping the default class changes no glyph's class.
pub proof fn lemma_nonzero_class(entries: Seq<(u32, u16)>, g: u32)
    requires
        by_glyph(entries),
    ensures
        class_in(nonzero(entries), g) == class_in(entries, g),
{
    lemma_nonzero(entries);
    let nz = nonzero(entries);
    if exists|i: int| 0 <= i < entries.len() && (#[trigger] entries[i]).0 == g {
        let i = choose|i: int| 0 <= i < entries.len() && (#[trigger] entries[i]).0 == g;
        lemma_class_in(entries, i);
        if entries[i].1 != 0 {
            let m = choose|m: int| 0 <= m < nz.len() && nz[m] == entries[i];
            lemma_class_in(nz, m);
        } else {
            if exists|k: int| 0 <= k < nz.len() && (#[trigger] nz[k]).0 == g {
                let k = choose|k: int| 0 <= k < nz.len() && (#[trigger] nz[k]).0 == g;
                let m = choose|m: int| 0 <= m < entries.len() && entries[m] == nz[k];
                assert(m == i);
            }
        }
    } else {
        if exists|k: int| 0 <= k < nz.len() && (#[trigger] nz[k]).0 == g {
            let k = choose|k: int| 0 <= k < nz.len() && (#[trigger] nz[k]).0 == g;
            let m = choose|m: int| 0 <= m < entries.len() && entries[m] == nz[k];
            assert(entries[m].0 == g);
        }
    }
}

/// A direct table filled from pairs gives each glyph the class they give it.
proof fn lemma_dense(nz: Seq<(u32, u16)>, g: u32, first: u32, span: int, at: spec_fn(int) -> u16)
    requires
        by_glyph(nz),
        nz.len() > 0,
        first == nz[0].0,
        span == nz.last().0 - first + 1,
        forall|k: int| 0 <= k < nz.len() ==> at((#[trigger] nz[k]).0 - first) == nz[k].1,
        forall|o: int|
            0 <= o < span && (forall|k: int| 0 <= k < nz.len() ==> (#[trigger] nz[k]).0 - first != o)
                ==> #[trigger] at(o) == 0,
    ensures
        (if first <= g && g - first < span {
            at(g - first)
        } else {
            0
        }) == class_in(nz, g),
{
    if exists|i: int| 0 <= i < nz.len() && (#[trigger] nz[i]).0 == g {
        let i = choose|i: int| 0 <= i < nz.len() && (#[trigger] nz[i]).0 == g;
        lemma_class_in(nz, i);
        assert(nz[0].0 <= nz[i].0 <= nz.last().0);
    }
}

/// Runs that list the pairs give each glyph the class they give it.
proof fn lemma_runs_class(r: Seq<ClassRange>, nz: Seq<(u32, u16)>, g: u32)
    requires
        class_runs_in_order(r),
        by_glyph(nz),
        class_runs_list(r) == nz,
    ensures
        class_in_runs(r, g) == class_in(nz, g),
{
    if exists|i: int| 0 <= i < r.len() && (#[trigger] r[i]).start <= g <= r[i].end {
        let i = choose|i: int| 0 <= i < r.len() && (#[trigger] r[i]).start <= g <= r[i].end;
        let k = lemma_class_run_at(r, i, g);
        lemma_class_in(nz, k);
    } else {
        if exists|k: int| 0 <= k < nz.len() && (#[trigger] nz[k]).0 == g {
            let k = choose|k: int| 0 <= k < nz.len() && (#[trigger] nz[k]).0 == g;
            let i = lemma_class_run_member(r, k);
            assert(r[i].start <= g <= r[i].end);
        }
    }
}

/// A glyph inside a run is listed with the run's class.
proof fn lemma_class_run_at(r: Seq<ClassRange>, i: int, g: u32) -> (k: int)
    requires
        class_runs_in_order(r),
        0 <= i < r.len(),
        r[i].start <= g <= r[i].end,
    ensures
        0 <= k < class_runs_list(r).len(),
        class_runs_list(r)[k] == (g, r[i].class),
    decreases r.len(),
{
    let less = r.drop_last();
    if i == r.len() - 1 {
        class_runs_list(less).len() + (g - r[i].start)
    } else {
        lemma_class_run_at(less, i, g)
    }
}

/// Whatever runs list lies inside one of them.
proof fn lemma_class_run_member(r: Seq<ClassRange>, k: int) -> (i: int)
    requires
        class_runs_in_order(r),
        0 <= k < class_runs_list(r).len(),
    ensures
        0 <= i < r.len(),
        r[i].start <= class_runs_list(r)[k].0 <= r[i].end,
        class_runs_list(r)[k].1 == r[i].class,
    decreases r.len(),
{
    let less = r.drop_last();
    if k >= class_runs_list(less).len() {
        r.len() - 1
    } else {
        let i = lemma_class_run_member(less, k);
        assert(less[i] == r[i]);
        i
    }
}

/// The pairs whose class is not the default.
fn keep_nonzero(entries: &[(u32, u16)]) -> (nz: Vec<(u32, u16)>)
    ensures
        nz@ == nonzero(entries@),
{
    let mut nz: Vec<(u32, u16)> = Vec::new();
    let mut i: usize = 0;
    while i < entries.len()
        invariant
            i <= entries@.len(),
            nz@ == nonzero(entries@.take(i as int)),
        decreases entries@.len() - i,
    {
        assert(entries@.take(i + 1).drop_last() =~= entries@.take(i as int));
        if entries[i].1 != 0 {
            nz.push(entries[i]);
        }
        i += 1;
    }
    assert(entries@.take(i as int) =~= entries@);
    nz
}

/// How many runs of one class the pairs fall into.
fn count_class_runs(nz: &[(u32, u16)]) -> (n: usize)
    requires
        by_glyph(nz@),
    ensures
        n == class_run_count(nz@),
        n <= nz@.len(),
{
    let mut n: usize = 0;
    let mut i: usize = 0;
    while i < nz.len()
        invariant
            i <= nz@.len(),
            by_glyph(nz@),
            n == class_run_count(nz@.take(i as int)),
            n <= i,
        decreases nz@.len() - i,
    {
        proof {
            let now = nz@.take(i + 1);
            assert(now.drop_last() =~= nz@.take(i as int));
            if i > 0 {
                assert(now[now.len() - 2] == nz@[i - 1]);
                assert(nz@[i - 1].0 < nz@[i as int].0);
            }
        }
        if i == 0 || nz[i - 1].0 + 1 != nz[i].0 || nz[i - 1].1 != nz[i].1 {
            n += 1;
        }
        i += 1;
    }
    assert(nz@.take(i as int) =~= nz@);
    n
}

/// Whether every class fits one byte.
fn is_narrow(nz: &[(u32, u16)]) -> (r: bool)
    ensures
        r == narrow(nz@),
{
    let mut i: usize = 0;
    while i < nz.len()
        invariant
            i <= nz@.len(),
            forall|k: int| 0 <= k < i ==> (#[trigger] nz@[k]).1 <= 0xff,
        decreases nz@.len() - i,
    {
        if nz[i].1 > 0xff {
            return false;
        }
        i += 1;
    }
    true
}

/// The maximal runs of one class.
fn class_runs_of(nz: &[(u32, u16)]) -> (ranges: Vec<ClassRange>)
    requires
        by_glyph(nz@),
        forall|k: int| 0 <= k < nz@.len() ==> (#[trigger] nz@[k]).1 != 0,
    ensures
        class_runs_in_order(ranges@),
        class_runs_list(ranges@) == nz@,
        ranges@.len() == class_run_count(nz@),
{
    let mut ranges: Vec<ClassRange> = Vec::new();
    let mut i: usize = 0;
    while i < nz.len()
        invariant
            i <= nz@.len(),
            by_glyph(nz@),
            forall|k: int| 0 <= k < nz@.len() ==> (#[trigger] nz@[k]).1 != 0,
            class_runs_in_order(ranges@),
            class_runs_list(ranges@) == nz@.take(i as int),
            ranges@.len() == class_run_count(nz@.take(i as int)),
            i > 0 <==> ranges@.len() > 0,
            i > 0 ==> ranges@.last().end == nz@[i - 1].0 && ranges@.last().class == nz@[i - 1].1,
        decreases nz@.len() - i,
    {
        let (g, c) = nz[i];
        let n: usize = ranges.len();
        let ghost before = ranges@;
        let ghost now = nz@.take(i + 1);
        proof {
            assert(now.drop_last() =~= nz@.take(i as int));
            assert(now =~= nz@.take(i as int).push((g, c)));
            if i > 0 {
                assert(now[now.len() - 2] == nz@[i - 1]);
                assert(nz@[i - 1].0 < nz@[i as int].0);
            }
        }
        if n > 0 && ranges[n - 1].class == c && ranges[n - 1].end + 1 == g {
            let start: u32 = ranges[n - 1].start;
            ranges.set(n - 1, ClassRange { start, end: g, class: c });
            proof {
                assert(ranges@.drop_last() =~= before.drop_last());
                assert(class_runs_list(ranges@) =~= class_runs_list(before).push((g, c)));
            }
        } else {
            ranges.push(ClassRange { start: g, end: g, class: c });
            proof {
                assert(ranges@.drop_last() =~= before);
                assert(class_runs_list(ranges@) =~= class_runs_list(before).push((g, c)));
                if i > 0 {
                    assert forall|k: int| 0 <= k < before.len() implies (#[trigger] before[k]).end < g by {
                        assert(before[k].end <= before.last().end);
                    }
                }
            }
        }
        i += 1;
    }
    assert(nz@.take(i as int) =~= nz@);
    ranges
}

/// A map gives back what it was built from, whatever form it takes: the class
/// that a pair names for its glyph, and zero for a glyph that no pair names;
/// listing it gives the glyphs with a class, each once and in order.
pub proof fn a_map_gives_back_its_pairs(
    entries: &[(u32, u16)],
    budget: usize,
    m: ClassMap,
    g: u32,
    c: u16,
    out: Vec<(u32, u16)>,
    i: int,
)
    requires
        class_compilable(entries@),
        call_ensures(ClassMap::build_with_budget, (entries, budget), m),
        call_ensures(ClassMap::get, (&m, g), c),
        call_ensures(ClassMap::for_each, (&m,), out),
        0 <= i < entries@.len(),
    ensures
        entries@[i].0 == g ==> c == entries@[i].1,
        (forall|k: int| 0 <= k < entries@.len() ==> (#[trigger] entries@[k]).0 != g) ==> c == 0,
        c != 0 ==> exists|k: int| 0 <= k < out@.len() && #[trigger] out@[k] == (g, c),
        forall|k: int| 0 <= k < out@.len() && (#[trigger] out@[k]).0 == g ==> out@[k].1 == c && c != 0,
        forall|j: int, k: int| 0 <= j < k < out@.len() ==> (#[trigger] out@[j]).0 < (#[trigger] out@[k]).0,
{
    if entries@[i].0 == g {
        lemma_class_in(entries@, i);
    }
    assert(class_in(out@, g) == c);
    if c != 0 {
        let k = choose|k: int| 0 <= k < out@.len() && (#[trigger] out@[k]).0 == g;
        lemma_class_in(out@, k);
        assert(out@[k] == (g, c));
    }
    assert forall|k: int| 0 <= k < out@.len() && (#[trigger] out@[k]).0 == g implies out@[k].1 == c && c != 0 by {
        lemma_class_in(out@, k);
    }
}

} // verus!
