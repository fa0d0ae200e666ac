//! A line as the state machines of a font rewrite it.

use vstd::prelude::*;

use crate::aat_glyph_set::{GlyphSet, DELETED_GLYPH};
use crate::buffer::GlyphInfo;

verus! {

/// Whether a `morx` table is one that is known to be broken. Such a table is
/// told by its length and those of the tables beside it.
pub fn is_morx_blocklisted(morx_len: u32, gsub_len: u32, gdef_len: u32) -> (r: bool)
    ensures
        r <==> (morx_len, gsub_len, gdef_len) == (19892u32, 2794u32, 340u32),
{
    morx_len == 19892 && gsub_len == 2794 && gdef_len == 340
}

/// Which lengths decide on a `morx` table: tables that are missing have none.
pub fn keeps_morx(morx_len: Option<u32>, gsub_len: Option<u32>, gdef_len: Option<u32>) -> (r: bool)
    ensures
        r <==> (morx_len matches Some(n) && !(n == 19892 && gsub_len == Some(2794u32) && gdef_len == Some(
            340u32,
        ))),
{
    let gsub: u32 = match gsub_len {
        Some(n) => n,
        None => 0,
    };
    let gdef: u32 = match gdef_len {
        Some(n) => n,
        None => 0,
    };
    match morx_len {
        Some(n) => !is_morx_blocklisted(n, gsub, gdef),
        None => false,
    }
}

/// A glyph of a line, with what the machines note of it.
#[derive(Copy, Clone, Debug, PartialEq, Eq, Structural)]
pub struct AatInfo {
    pub info: GlyphInfo,
    pub glyph_props: u16,
    pub aat_deleted: bool,
}

/// A glyph with another id.
pub open spec fn with_id(g: AatInfo, glyph: u32) -> AatInfo {
    AatInfo { info: GlyphInfo { glyph_id: glyph, ..g.info }, ..g }
}

/// A glyph that was noted as deleted.
pub open spec fn as_deleted(g: AatInfo) -> AatInfo {
    AatInfo { aat_deleted: true, ..g }
}

/// A glyph with the properties of another, where the font has classes.
pub open spec fn with_props(g: AatInfo, classes: bool, props: u16) -> AatInfo {
    if classes {
        AatInfo { glyph_props: props, ..g }
    } else {
        g
    }
}

/// What is noted of a glyph before one is put out beside it.
pub open spec fn stamped(g: AatInfo, glyph: u32, classes: bool, props: u16) -> AatInfo {
    if glyph == DELETED_GLYPH {
        as_deleted(g)
    } else {
        with_props(g, classes, props)
    }
}

/// What is noted of a glyph that is replaced.
pub open spec fn restamped(g: AatInfo, glyph: u32, classes: bool, props: u16) -> AatInfo {
    with_props(
        if glyph == DELETED_GLYPH {
            as_deleted(g)
        } else {
            g
        },
        classes,
        props,
    )
}

/// A line while machines run over it: what is still to come, from `idx` on, and
/// what was put out.
pub struct AatApplyContext {
    pub info: Vec<AatInfo>,
    pub idx: usize,
    pub out: Vec<AatInfo>,
    /// Whether a glyph of the line was deleted.
    pub has_deleted: bool,
    pub has_glyph_classes: bool,
    pub buffer_is_reversed: bool,
    /// The glyphs of the line, for lines long enough to be worth it.
    pub glyph_set: Option<GlyphSet>,
}

/// Whether a set has every glyph of a list but the deleted.
pub open spec fn set_has_all(set: GlyphSet, list: Seq<AatInfo>) -> bool {
    forall|i: int|
        0 <= i < list.len() && (#[trigger] list[i]).info.glyph_id < DELETED_GLYPH ==> set.has(
            list[i].info.glyph_id,
        )
}

impl AatApplyContext {
    pub open spec fn wf(&self) -> bool {
        &&& self.idx <= self.info@.len()
        &&& self.glyph_set matches Some(s) ==> s.wf()
    }

    /// Whether the set of the line's glyphs lacks none of them. Machines add
    /// what they put out and remove nothing, so it may have more.
    pub open spec fn set_is_full(&self) -> bool {
        self.glyph_set matches Some(s) ==> set_has_all(s, self.info@) && set_has_all(s, self.out@)
    }

    /// What is left alone by everything that machines do to a line.
    pub open spec fn keeps(&self, before: AatApplyContext) -> bool {
        &&& self.wf()
        &&& self.info@.len() == before.info@.len()
        &&& self.has_glyph_classes == before.has_glyph_classes
        &&& self.buffer_is_reversed == before.buffer_is_reversed
        &&& self.glyph_set is Some <==> before.glyph_set is Some
        &&& before.set_is_full() ==> self.set_is_full()
    }

    /// Whether the set gained one glyph, if it is in use.
    pub open spec fn gained(&self, before: AatApplyContext, glyph: u32) -> bool {
        before.glyph_set matches Some(s) ==> forall|g: u32| #[trigger]
            (self.glyph_set->0).has(g) <==> s.has(g) || (g == glyph && glyph <= DELETED_GLYPH)
    }

    /// A line before any machine ran.
    pub fn new(info: Vec<AatInfo>, has_glyph_classes: bool) -> (r: AatApplyContext)
        ensures
            r.wf(),
            r.info@ == info@,
            r.idx == 0,
            r.out@.len() == 0,
            !r.has_deleted,
            r.has_glyph_classes == has_glyph_classes,
            !r.buffer_is_reversed,
            r.glyph_set is None,
    {
        AatApplyContext {
            info,
            idx: 0,
            out: Vec::new(),
            has_deleted: false,
            has_glyph_classes,
            buffer_is_reversed: false,
            glyph_set: None,
        }
    }

    /// Turn the line around.
    pub fn reverse_buffer(&mut self)
        requires
            old(self).wf(),
        ensures
            final(self).keeps_but_direction(*old(self)),
            final(self).info@ == old(self).info@.reverse(),
            final(self).buffer_is_reversed == !old(self).buffer_is_reversed,
    {
        let mut turned: Vec<AatInfo> = Vec::new();
        let n: usize = self.info.len();
        let mut i: usize = 0;
        while i < n
            invariant
                i <= n,
                n == self.info@.len(),
                *self == *old(self),
                turned@ == self.info@.reverse().take(i as int),
            decreases n - i,
        {
            turned.push(self.info[n - 1 - i]);
            assert(turned@ =~= self.info@.reverse().take(i + 1));
            i += 1;
        }
        assert(turned@ =~= self.info@.reverse());
        self.info = turned;
        self.buffer_is_reversed = !self.buffer_is_reversed;
        proof {
            if let Some(s) = &self.glyph_set {
                if set_has_all(*s, old(self).info@) {
                    assert forall|i: int| 0 <= i < self.info@.len() && (
                    #[trigger] self.info@[i]).info.glyph_id < DELETED_GLYPH implies s.has(
                        self.info@[i].info.glyph_id,
                    ) by {
                        let k = self.info@.len() - 1 - i;
                        assert(self.info@[i] == old(self).info@[k]);
                    }
                }
            }
        }
    }

    /// What turning a line around leaves alone.
    pub open spec fn keeps_but_direction(&self, before: AatApplyContext) -> bool {
        &&& self.wf()
        &&& self.idx == before.idx
        &&& self.out@ == before.out@
        &&& self.has_deleted == before.has_deleted
        &&& self.has_glyph_classes == before.has_glyph_classes
        &&& self.glyph_set == before.glyph_set
        &&& before.set_is_full() ==> self.set_is_full()
    }

    /// Gather the glyphs of the line, if it is long enough.
    pub fn setup_buffer_glyph_set(&mut self)
        requires
            old(self).wf(),
        ensures
            final(self).wf(),
            final(self).glyph_set is Some <==> old(self).info@.len() >= 4,
            final(self).glyph_set matches Some(s) ==> forall|g: u32| #[trigger]
                s.has(g) <==> g <= DELETED_GLYPH && exists|i: int|
                    0 <= i < old(self).info@.len() && (#[trigger] old(self).info@[i]).info.glyph_id == g,
            old(self).out@.len() == 0 ==> final(self).set_is_full(),
            final(self).info@ == old(self).info@,
            final(self).idx == old(self).idx,
            final(self).out@ == old(self).out@,
            final(self).has_deleted == old(self).has_deleted,
            final(self).has_glyph_classes == old(self).has_glyph_classes,
            final(self).buffer_is_reversed == old(self).buffer_is_reversed,
    {
        if self.info.len() < 4 {
            self.glyph_set = None;
            return;
        }
        let mut set = GlyphSet::default();
        let mut i: usize = 0;
        while i < self.info.len()
            invariant
                i <= self.info@.len(),
                *self == *old(self),
                set.wf(),
                forall|g: u32| #[trigger]
                    set.has(g) <==> g <= DELETED_GLYPH && exists|k: int|
                        0 <= k < i && (#[trigger] self.info@[k]).info.glyph_id == g,
            decreases self.info@.len() - i,
        {
            let ghost before = set;
            set.insert(self.info[i].info.glyph_id);
            proof {
                assert forall|g: u32| #[trigger] set.has(g) <==> g <= DELETED_GLYPH && exists|k: int|
                    0 <= k < i + 1 && (#[trigger] self.info@[k]).info.glyph_id == g by {
                    if g == self.info@[i as int].info.glyph_id {
                        assert(self.info@[i as int].info.glyph_id == g);
                    }
                    if before.has(g) {
                        let k = choose|k: int|
                            0 <= k < i && (#[trigger] self.info@[k]).info.glyph_id == g;
                        assert(self.info@[k].info.glyph_id == g);
                    }
                    if exists|k: int| 0 <= k < i + 1 && (#[trigger] self.info@[k]).info.glyph_id == g {
                        let k = choose|k: int|
                            0 <= k < i + 1 && (#[trigger] self.info@[k]).info.glyph_id == g;
                        if k < i && g <= DELETED_GLYPH {
                            assert(before.has(g));
                        }
                    }
                }
            }
            i += 1;
        }
        self.glyph_set = Some(set);
    }

    /// Whether the line has a glyph of a set, as far as is known: the line's set
    /// may have more than the line.
    pub open spec fn may_start(&self, first_set: GlyphSet) -> bool {
        match self.glyph_set {
            Some(s) => exists|g: u32| #[trigger] s.has(g) && first_set.has(g),
            None => exists|i: int|
                0 <= i < self.info@.len() && first_set.has((#[trigger] self.info@[i]).info.glyph_id),
        }
    }

    /// Whether a machine may have something to start on: always, where it is not
    /// known what it starts on.
    pub fn buffer_intersects_machine(&self, first_set: Option<&GlyphSet>) -> (r: bool)
        requires
            self.wf(),
            first_set matches Some(f) ==> f.wf(),
        ensures
            r == (match first_set {
                Some(f) => self.may_start(*f),
                None => true,
            }),
    {
        let first = match first_set {
            Some(f) => f,
            None => return true,
        };
        if let Some(set) = &self.glyph_set {
            return set.intersects_set(first);
        }
        let mut i: usize = 0;
        while i < self.info.len()
            invariant
                i <= self.info@.len(),
                first_set == Some(first),
                self.glyph_set is None,
                forall|k: int| 0 <= k < i ==> !first.has((#[trigger] self.info@[k]).info.glyph_id),
            decreases self.info@.len() - i,
        {
            if first.contains(self.info[i].info.glyph_id) {
                assert(first.has(self.info@[i as int].info.glyph_id));
                return true;
            }
            i += 1;
        }
        false
    }

    /// Put a glyph out without reading one: it takes over what is noted of the
    /// glyph to come, or, at the end of the line, of the one put out last.
    /// Nothing is put out where there is neither.
    pub fn output_glyph(&mut self, glyph: u32, props: u16)
        requires
            old(self).wf(),
        ensures
            final(self).keeps(*old(self)),
            final(self).gained(*old(self), glyph),
            final(self).idx == old(self).idx,
            old(self).idx < old(self).info@.len() ==> {
                let new = stamped(
                    old(self).info@[old(self).idx as int],
                    glyph,
                    old(self).has_glyph_classes,
                    props,
                );
                &&& final(self).info@ == old(self).info@.update(old(self).idx as int, new)
                &&& final(self).out@ == old(self).out@.push(with_id(new, glyph))
            },
            old(self).idx == old(self).info@.len() ==> {
                &&& final(self).info@ == old(self).info@
                &&& old(self).out@.len() == 0 ==> final(self).out@ == old(self).out@
                &&& old(self).out@.len() > 0 ==> final(self).out@ == old(self).out@.push(
                    stamped(
                        with_id(old(self).out@.last(), glyph),
                        glyph,
                        old(self).has_glyph_classes,
                        props,
                    ),
                )
            },
            final(self).has_deleted == (old(self).has_deleted || (glyph == DELETED_GLYPH && (old(self).idx
                < old(self).info@.len() || old(self).out@.len() > 0))),
    {
        self.note_glyph(glyph);
        let at_end: bool = self.idx == self.info.len();
        if at_end && self.out.len() == 0 {
            return;
        }
        let mut new: AatInfo = if at_end {
            self.out[self.out.len() - 1]
        } else {
            self.info[self.idx]
        };
        if glyph == DELETED_GLYPH {
            self.has_deleted = true;
            new.aat_deleted = true;
        } else if self.has_glyph_classes {
            new.glyph_props = props;
        }
        if !at_end {
            self.info.set(self.idx, new);
        }
        new.info.glyph_id = glyph;
        self.out.push(new);
    }

    /// Add a glyph to the line's set, if that is in use.
    fn note_glyph(&mut self, glyph: u32)
        requires
            old(self).wf(),
        ensures
            final(self).wf(),
            final(self).gained(*old(self), glyph),
            final(self).glyph_set is Some <==> old(self).glyph_set is Some,
            final(self).info@ == old(self).info@,
            final(self).idx == old(self).idx,
            final(self).out@ == old(self).out@,
            final(self).has_deleted == old(self).has_deleted,
            final(self).has_glyph_classes == old(self).has_glyph_classes,
            final(self).buffer_is_reversed == old(self).buffer_is_reversed,
    {
        if let Some(set) = &mut self.glyph_set {
            set.insert(glyph);
        }
    }

    /// Replace the glyph to come, and pass it.
    pub fn replace_glyph(&mut self, glyph: u32, props: u16)
        requires
            old(self).wf(),
            old(self).idx < old(self).info@.len(),
        ensures
            final(self).keeps(*old(self)),
            final(self).gained(*old(self), glyph),
            final(self).idx == old(self).idx + 1,
            final(self).has_deleted == (old(self).has_deleted || glyph == DELETED_GLYPH),
            ({
                let new = restamped(
                    old(self).info@[old(self).idx as int],
                    glyph,
                    old(self).has_glyph_classes,
                    props,
                );
                &&& final(self).info@ == old(self).info@.update(old(self).idx as int, new)
                &&& final(self).out@ == old(self).out@.push(with_id(new, glyph))
            }),
    {
        self.note_glyph(glyph);
        let mut new: AatInfo = self.info[self.idx];
        if glyph == DELETED_GLYPH {
            self.has_deleted = true;
            new.aat_deleted = true;
        }
        if self.has_glyph_classes {
            new.glyph_props = props;
        }
        self.info.set(self.idx, new);
        new.info.glyph_id = glyph;
        self.out.push(new);
        let len: usize = self.info.len();
        assert(self.idx < len);
        self.idx = self.idx + 1;
    }

    /// Delete the glyph to come: the deleted glyph takes its place.
    pub fn delete_glyph(&mut self)
        requires
            old(self).wf(),
            old(self).idx < old(self).info@.len(),
        ensures
            final(self).keeps(*old(self)),
            final(self).glyph_set == old(self).glyph_set,
            final(self).idx == old(self).idx + 1,
            final(self).has_deleted,
            ({
                let new = as_deleted(old(self).info@[old(self).idx as int]);
                &&& final(self).info@ == old(self).info@.update(old(self).idx as int, new)
                &&& final(self).out@ == old(self).out@.push(with_id(new, DELETED_GLYPH))
            }),
    {
        let mut new: AatInfo = self.info[self.idx];
        self.has_deleted = true;
        new.aat_deleted = true;
        self.info.set(self.idx, new);
        new.info.glyph_id = DELETED_GLYPH;
        self.out.push(new);
        let len: usize = self.info.len();
        assert(self.idx < len);
        self.idx = self.idx + 1;
    }

    /// Replace a glyph where it stands.
    pub fn replace_glyph_inplace(&mut self, i: usize, glyph: u32, props: u16)
        requires
            old(self).wf(),
            i < old(self).info@.len(),
        ensures
            final(self).keeps(*old(self)),
            final(self).gained(*old(self), glyph),
            final(self).idx == old(self).idx,
            final(self).out@ == old(self).out@,
            final(self).has_deleted == (old(self).has_deleted || glyph == DELETED_GLYPH),
            final(self).info@ == old(self).info@.update(
                i as int,
                restamped(
                    with_id(old(self).info@[i as int], glyph),
                    glyph,
                    old(self).has_glyph_classes,
                    props,
                ),
            ),
    {
        self.note_glyph(glyph);
        let mut new: AatInfo = self.info[i];
        new.info.glyph_id = glyph;
        if glyph == DELETED_GLYPH {
            self.has_deleted = true;
            new.aat_deleted = true;
        }
        if self.has_glyph_classes {
            new.glyph_props = props;
        }
        self.info.set(i, new);
    }
}

/// A machine that is passed over has nothing to start on: where the line's set
/// lacks none of its glyphs and shares none with what a machine starts on, no
/// glyph of the line but a deleted one is among those.
pub proof fn passing_over_a_machine_misses_nothing(c: AatApplyContext, first_set: GlyphSet, i: int)
    requires
        c.set_is_full(),
        !c.may_start(first_set),
        0 <= i < c.info@.len(),
        c.info@[i].info.glyph_id < DELETED_GLYPH,
    ensures
        !first_set.has(c.info@[i].info.glyph_id),
{
    let g = c.info@[i].info.glyph_id;
    if let Some(s) = &c.glyph_set {
        assert(s.has(g));
    }
}

/// Reading a line through changes neither how many glyphs are to come nor which
/// were put out: each replacement and each deletion reads one glyph and puts one
/// out, with the id it is given and the cluster of the glyph it stands for. Only
/// a deleted glyph is marked as one.
pub proof fn one_glyph_is_put_out_for_one(
    a: &mut AatApplyContext,
    b: &mut AatApplyContext,
    glyph: u32,
    props: u16,
)
    requires
        old(a).wf(),
        old(a).idx < old(a).info@.len(),
        *old(b) == *old(a),
        call_ensures(AatApplyContext::replace_glyph, (a, glyph, props), ()),
        call_ensures(AatApplyContext::delete_glyph, (b,), ()),
    ensures
        final(a).idx == old(a).idx + 1 && final(b).idx == old(a).idx + 1,
        final(a).out@.len() == old(a).out@.len() + 1 && final(b).out@.len() == old(a).out@.len() + 1,
        final(a).out@.drop_last() == old(a).out@ && final(b).out@.drop_last() == old(a).out@,
        final(a).out@.last().info.glyph_id == glyph,
        final(b).out@.last().info.glyph_id == 0xffff,
        final(a).out@.last().info.cluster == old(a).info@[old(a).idx as int].info.cluster,
        final(b).out@.last().info.cluster == old(a).info@[old(a).idx as int].info.cluster,
        final(b).out@.last().aat_deleted && final(b).has_deleted,
        glyph == 0xffff ==> final(a).out@.last().aat_deleted && final(a).has_deleted,
        glyph != 0xffff ==> final(a).has_deleted == old(a).has_deleted && final(a).out@.last().aat_deleted
            == old(a).info@[old(a).idx as int].aat_deleted,
        old(a).has_glyph_classes ==> final(a).out@.last().glyph_props == props,
        !old(a).has_glyph_classes ==> final(a).out@.last().glyph_props == old(
            a,
        ).info@[old(a).idx as int].glyph_props,
{
    assert(final(a).out@.drop_last() =~= old(a).out@);
    assert(final(b).out@.drop_last() =~= old(a).out@);
}

/// A glyph that is inserted reads none: it takes the cluster of the glyph to
/// come, or of the one put out last where the line is at its end, and there is
/// nothing to insert into an empty line.
pub proof fn inserting_reads_no_glyph(a: &mut AatApplyContext, glyph: u32, props: u16)
    requires
        old(a).wf(),
        call_ensures(AatApplyContext::output_glyph, (a, glyph, props), ()),
    ensures
        final(a).idx == old(a).idx,
        ({
            let at_end = old(a).idx == old(a).info@.len();
            &&& at_end && old(a).out@.len() == 0 ==> final(a).out@.len() == 0
            &&& !at_end || old(a).out@.len() > 0 ==> {
                let new = final(a).out@.last();
                let like = if at_end {
                    old(a).out@.last()
                } else {
                    old(a).info@[old(a).idx as int]
                };
                &&& final(a).out@.len() == old(a).out@.len() + 1
                &&& final(a).out@.drop_last() == old(a).out@
                &&& new.info.glyph_id == glyph
                &&& new.info.cluster == like.info.cluster
                &&& glyph == 0xffff ==> new.aat_deleted && final(a).has_deleted
                &&& glyph != 0xffff ==> new.aat_deleted == like.aat_deleted && final(a).has_deleted == old(
                    a,
                ).has_deleted
                &&& glyph != 0xffff && old(a).has_glyph_classes ==> new.glyph_props == props
            }
        }),
{
    if old(a).idx < old(a).info@.len() || old(a).out@.len() > 0 {
        assert(final(a).out@.drop_last() =~= old(a).out@);
    }
}

/// A glyph replaced where it stands keeps its place and its cluster, and no other
/// glyph changes.
pub proof fn replacing_in_place_changes_one_glyph(
    a: &mut AatApplyContext,
    i: usize,
    glyph: u32,
    props: u16,
    k: int,
)
    requires
        old(a).wf(),
        i < old(a).info@.len(),
        0 <= k < old(a).info@.len(),
        call_ensures(AatApplyContext::replace_glyph_inplace, (a, i, glyph, props), ()),
    ensures
        final(a).info@.len() == old(a).info@.len(),
        final(a).idx == old(a).idx,
        final(a).out@ == old(a).out@,
        k != i ==> final(a).info@[k] == old(a).info@[k],
        final(a).info@[i as int].info.glyph_id == glyph,
        final(a).info@[i as int].info.cluster == old(a).info@[i as int].info.cluster,
        glyph == 0xffff ==> final(a).info@[i as int].aat_deleted && final(a).has_deleted,
        glyph != 0xffff ==> final(a).info@[i as int].aat_deleted == old(a).info@[i as int].aat_deleted,
        old(a).has_glyph_classes ==> final(a).info@[i as int].glyph_props == props,
{
}

/// A line that is turned around twice is as it was.
pub proof fn turning_a_line_twice_changes_nothing(a: &mut AatApplyContext, b: &mut AatApplyContext)
    requires
        old(a).wf(),
        final(a).wf(),
        *old(b) == *final(a),
        call_ensures(AatApplyContext::reverse_buffer, (a,), ()),
        call_ensures(AatApplyContext::reverse_buffer, (b,), ()),
    ensures
        final(b).info@ == old(a).info@,
        final(b).buffer_is_reversed == old(a).buffer_is_reversed,
        final(a).buffer_is_reversed != old(a).buffer_is_reversed,
        forall|i: int|
            0 <= i < old(a).info@.len() ==> #[trigger] final(a).info@[i] == old(a).info@[old(a).info@.len() - 1
                - i],
{
    assert(final(b).info@ =~= old(a).info@);
}

/// A machine is run wherever one of the glyphs it starts on is in the line, and
/// wherever it is not known what it starts on; a line of a few glyphs is looked
/// through, and then it is run nowhere else.
pub proof fn a_machine_runs_where_it_can_start(
    a: &AatApplyContext,
    first: &GlyphSet,
    r: bool,
    always: bool,
    i: int,
)
    requires
        a.wf(),
        a.set_is_full(),
        first.wf(),
        call_ensures(AatApplyContext::buffer_intersects_machine, (a, Some(first)), r),
        call_ensures(AatApplyContext::buffer_intersects_machine, (a, None::<&GlyphSet>), always),
        0 <= i < a.info@.len(),
    ensures
        always,
        a.info@[i].info.glyph_id < DELETED_GLYPH && first.has(a.info@[i].info.glyph_id) ==> r,
        a.glyph_set is None && r ==> exists|k: int|
            0 <= k < a.info@.len() && first.has((#[trigger] a.info@[k]).info.glyph_id),
{
    if !r && a.info@[i].info.glyph_id < DELETED_GLYPH {
        passing_over_a_machine_misses_nothing(*a, *first, i);
    }
}

/// A `morx` table is kept unless all three lengths are those of the one that is
/// known to be broken; without a table there is nothing to keep.
pub proof fn only_the_broken_table_is_dropped(
    morx: Option<u32>,
    gsub: Option<u32>,
    gdef: Option<u32>,
    kept: bool,
)
    requires
        call_ensures(keeps_morx, (morx, gsub, gdef), kept),
    ensures
        morx is None ==> !kept,
        morx is Some && morx != Some(19892u32) ==> kept,
        morx is Some && gsub != Some(2794u32) ==> kept,
        morx is Some && gdef != Some(340u32) ==> kept,
        kept ==> !(morx == Some(19892u32) && gsub == Some(2794u32) && gdef == Some(340u32)),
{
}

} // verus!
