//! What shaping asks a font: by default its tables answer, and callers can
//! answer in their place.

use vstd::prelude::*;

use crate::buffer::{GlyphInfo, GlyphPosition};
use crate::charmap::{
    a_character_has_one_code, a_character_has_one_glyph, cache_t, cmap_variant, first_code, is_first_code, Charmap,
};
use crate::glyph_metrics::{GlyphExtents, GlyphMetrics};

verus! {

/// Half an advance, towards zero.
pub open spec fn half_towards_zero(advance: i32) -> int {
    if advance >= 0 {
        advance as int / 2
    } else {
        -(-(advance as int) / 2)
    }
}

/// Where a glyph hangs from horizontally: the middle of its advance.
pub fn horizontal_origin(advance: i32) -> (r: i32)
    ensures
        r == half_towards_zero(advance),
{
    if advance >= 0 {
        advance / 2
    } else {
        let positive: i64 = -(advance as i64);
        (-(positive / 2)) as i32
    }
}

/// The glyphs of a line and where they go, for filling in how far they advance.
#[derive(Clone, Debug)]
pub struct AdvanceWidthBatch {
    pub infos: Vec<GlyphInfo>,
    pub positions: Vec<GlyphPosition>,
}

/// Positions with other advances and nothing else changed.
pub open spec fn only_advances(before: Seq<GlyphPosition>, after: Seq<GlyphPosition>) -> bool {
    &&& after.len() == before.len()
    &&& forall|i: int|
        0 <= i < after.len() ==> #[trigger] after[i] == (GlyphPosition {
            x_advance: after[i].x_advance,
            ..before[i]
        })
}

impl AdvanceWidthBatch {
    pub open spec fn wf(&self) -> bool {
        self.infos@.len() == self.positions@.len()
    }

    pub fn new(infos: Vec<GlyphInfo>, positions: Vec<GlyphPosition>) -> (r: AdvanceWidthBatch)
        requires
            infos@.len() == positions@.len(),
        ensures
            r.wf(),
            r.infos@ == infos@,
            r.positions@ == positions@,
    {
        AdvanceWidthBatch { infos, positions }
    }

    /// Returns the number of entries in the batch.
    pub fn len(&self) -> (n: usize)
        ensures
            n == self.infos@.len(),
    {
        self.infos.len()
    }

    /// Returns true if the batch is empty.
    pub fn is_empty(&self) -> (r: bool)
        ensures
            r == (self.infos@.len() == 0),
    {
        self.infos.len() == 0
    }

    /// The glyph of an entry.
    pub fn glyph(&self, i: usize) -> (g: u32)
        requires
            i < self.infos@.len(),
        ensures
            g == self.infos@[i as int].glyph_id,
    {
        self.infos[i].glyph_id
    }

    /// Sets how far the glyph of an entry advances, and nothing else.
    pub fn set_advance(&mut self, i: usize, advance: i32)
        requires
            old(self).wf(),
            i < old(self).infos@.len(),
        ensures
            final(self).wf(),
            final(self).infos@ == old(self).infos@,
            final(self).positions@ == old(self).positions@.update(
                i as int,
                (GlyphPosition { x_advance: advance, ..old(self).positions@[i as int] }),
            ),
    {
        let mut p: GlyphPosition = self.positions[i];
        p.x_advance = advance;
        self.positions.set(i, p);
    }
}

/// What a table of private-use codes has for a code: the first entry's, zero
/// for none.
pub open spec fn pua_code(table: Seq<(u32, u32)>, code: u32, r: u32) -> bool {
    if exists|i: int| 0 <= i < table.len() && (#[trigger] table[i]).0 == code {
        exists|i: int|
            0 <= i < table.len() && (#[trigger] table[i]).0 == code && table[i].1 == r && forall|k: int|
                0 <= k < i ==> (#[trigger] table[k]).0 != code
    } else {
        r == 0
    }
}

fn find_pua(table: &[(u32, u32)], code: u32) -> (r: u32)
    ensures
        pua_code(table@, code, r),
{
    let mut i: usize = 0;
    while i < table.len()
        invariant
            i <= table@.len(),
            forall|k: int| 0 <= k < i ==> (#[trigger] table@[k]).0 != code,
        decreases table@.len() - i,
    {
        if table[i].0 == code {
            assert(table@[i as int].0 == code);
            return table[i].1;
        }
        i += 1;
    }
    0
}

/// Default implementations backed by font tables, in the font's own units.
pub struct BuiltinFontFuncs<'a> {
    pub charmap: &'a Charmap<'a>,
    pub metrics: &'a GlyphMetrics,
    /// The instance, by its position on each axis.
    pub coords: &'a [i16],
    /// The private-use codes of a legacy Arabic font.
    pub pua: &'a [(u32, u32)],
}

impl<'a> BuiltinFontFuncs<'a> {
    /// Whether a number is what the font's private-use page has for a character.
    pub open spec fn pua_of(&self, c: u32, r: u32) -> bool {
        match self.charmap.subtable {
            Some((s, _)) => exists|code: u32| #[trigger]
                is_first_code(s, c, code) && pua_code(self.pua@, code, r),
            None => r == 0,
        }
    }

    fn pua_for(&self, c: u32) -> (r: u32)
        ensures
            self.pua_of(c, r),
    {
        match &self.charmap.subtable {
            Some((s, _)) => {
                let code: u32 = first_code(s, c);
                assert(is_first_code(*s, c, code));
                find_pua(self.pua, code)
            },
            None => 0,
        }
    }

    /// Whether a glyph is the one that the font's mapping has for a character.
    pub open spec fn nominal(&self, c: u32, g: Option<u32>) -> bool {
        exists|pua: u32| #[trigger] self.pua_of(c, pua) && self.charmap.maps(c, pua, g)
    }

    /// Whether a glyph is the one that the font has for a variation sequence.
    pub open spec fn variant(&self, c: u32, vs: u32, g: Option<u32>) -> bool {
        match self.charmap.vs_subtable {
            None => g is None,
            Some(d) => match cmap_variant(d@, c, vs) {
                None => g is None,
                Some(None) => self.nominal(c, g),
                Some(Some(v)) => g == Some(v),
            },
        }
    }

    /// Maps a Unicode scalar value to a nominal glyph.
    pub fn nominal_glyph(&self, c: u32) -> (g: Option<u32>)
        ensures
            self.nominal(c, g),
            g != Some(0u32),
    {
        let pua: u32 = self.pua_for(c);
        let g = self.charmap.map(c, pua);
        assert(self.pua_of(c, pua) && self.charmap.maps(c, pua, g));
        g
    }

    /// Maps a Unicode scalar value and variation selector to a glyph.
    pub fn variant_glyph(&self, c: u32, vs: u32) -> (g: Option<u32>)
        ensures
            self.variant(c, vs, g),
    {
        let pua: u32 = self.pua_for(c);
        let g = self.charmap.map_variant(c, vs, pua);
        assert(self.pua_of(c, pua));
        g
    }

    /// Returns the horizontal advance for a glyph.
    pub fn advance_width(&self, glyph: u32) -> (r: i32)
        ensures
            r == self.metrics.width(glyph, self.coords@),
    {
        match self.metrics.advance_width(glyph, self.coords) {
            Some(w) => w,
            None => 0,
        }
    }

    /// Returns the vertical advance for a glyph.
    pub fn advance_height(&self, glyph: u32) -> (r: i32)
        ensures
            r == self.metrics.height(glyph, self.coords@),
    {
        match self.metrics.advance_height(glyph, self.coords) {
            Some(h) => h,
            None => 0,
        }
    }

    /// Returns the horizontal origin for a glyph.
    pub fn horizontal_origin(&self, glyph: u32) -> (r: i32)
        ensures
            r == half_towards_zero(self.metrics.width(glyph, self.coords@)),
    {
        horizontal_origin(self.advance_width(glyph))
    }

    /// Where a glyph hangs from when text runs vertically: the middle of its
    /// advance, at the height that the font gives.
    pub open spec fn hangs_from(&self, glyph: u32) -> (i32, i32) {
        (
            half_towards_zero(self.metrics.width(glyph, self.coords@)) as i32,
            self.metrics.origin(glyph, self.coords@),
        )
    }

    /// Returns the vertical origin for a glyph.
    pub fn vertical_origin(&self, glyph: u32) -> (r: (i32, i32))
        ensures
            r == self.hangs_from(glyph),
    {
        let x: i32 = self.horizontal_origin(glyph);
        let y: i32 = match self.metrics.v_origin(glyph, self.coords) {
            Some(o) => o,
            None => 0,
        };
        (x, y)
    }

    /// Returns extents for a glyph if available.
    pub fn extents(&self, glyph: u32) -> (r: Option<GlyphExtents>)
        ensures
            r == self.metrics.extents_of(glyph, self.coords@),
    {
        self.metrics.extents(glyph, self.coords)
    }

    /// Populates horizontal advances for all entries in the batch.
    pub fn populate_advance_widths(&self, batch: &mut AdvanceWidthBatch)
        requires
            old(batch).wf(),
        ensures
            final(batch).wf(),
            final(batch).infos@ == old(batch).infos@,
            only_advances(old(batch).positions@, final(batch).positions@),
            forall|i: int|
                0 <= i < final(batch).positions@.len() ==> (#[trigger] final(batch).positions@[i]).x_advance
                    == self.metrics.width(old(batch).infos@[i].glyph_id, self.coords@),
    {
        let mut i: usize = 0;
        while i < batch.infos.len()
            invariant
                i <= batch.infos@.len(),
                batch.wf(),
                batch.infos@ == old(batch).infos@,
                only_advances(old(batch).positions@, batch.positions@),
                forall|k: int|
                    0 <= k < i ==> (#[trigger] batch.positions@[k]).x_advance == self.metrics.width(
                        old(batch).infos@[k].glyph_id,
                        self.coords@,
                    ),
            decreases batch.infos@.len() - i,
        {
            let advance: i32 = self.advance_width(batch.glyph(i));
            batch.set_advance(i, advance);
            i += 1;
        }
    }
}

/// Customizable font callback surface. What a caller answers is its own; what it
/// leaves out, the font answers.
pub trait FontFuncs: Sized {
    /// Nominal character-to-glyph mapping callback.
    fn nominal_glyph(&mut self, builtin: &BuiltinFontFuncs, c: u32) -> (g: Option<u32>)
        default_ensures
            *final(self) == *old(self),
            builtin.nominal(c, g),
    {
        builtin.nominal_glyph(c)
    }

    /// Variation-selector mapping callback.
    fn variant_glyph(&mut self, builtin: &BuiltinFontFuncs, c: u32, vs: u32) -> (g: Option<u32>)
        default_ensures
            *final(self) == *old(self),
            builtin.variant(c, vs, g),
    {
        builtin.variant_glyph(c, vs)
    }

    /// Horizontal advance callback.
    fn advance_width(&mut self, builtin: &BuiltinFontFuncs, glyph: u32) -> (r: i32)
        default_ensures
            *final(self) == *old(self),
            r == builtin.metrics.width(glyph, builtin.coords@),
    {
        builtin.advance_width(glyph)
    }

    /// Batch horizontal-advance callback. One that is left out asks for one
    /// advance after the other, from the first entry on: each is what was
    /// answered for the entry's glyph by the callbacks as the one before left
    /// them.
    fn populate_advance_widths(&mut self, builtin: &BuiltinFontFuncs, batch: &mut AdvanceWidthBatch)
        requires
            old(batch).wf(),
        default_ensures
            final(batch).wf(),
            final(batch).infos@ == old(batch).infos@,
            exists|states: Seq<Self>|
                {
                    &&& #[trigger] states.len() == old(batch).infos@.len() + 1
                    &&& states.first() == *old(self)
                    &&& states.last() == *final(self)
                    &&& forall|i: int|
                        0 <= i < old(batch).infos@.len() ==> {
                            let p = #[trigger] final(batch).positions@[i];
                            &&& p == (GlyphPosition { x_advance: p.x_advance, ..old(batch).positions@[i] })
                            &&& exists|f: &mut Self|
                                *f == states[i] && *final(f) == states[i + 1] && #[trigger] call_ensures(
                                    Self::advance_width,
                                    (f, builtin, old(batch).infos@[i].glyph_id),
                                    p.x_advance,
                                )
                        }
                },
    {
        let mut i: usize = 0;
        let ghost infos = batch.infos@;
        let ghost mut states: Seq<Self> = seq![*self];
        while i < batch.len()
            invariant
                i <= batch.infos@.len(),
                batch.wf(),
                infos == old(batch).infos@,
                batch.infos@ == infos,
                forall|k: int|
                    i <= k < infos.len() ==> #[trigger] batch.positions@[k] == old(batch).positions@[k],
                states.len() == i + 1,
                states.first() == *old(self),
                states.last() == *self,
                forall|k: int|
                    0 <= k < i ==> {
                        let p = #[trigger] batch.positions@[k];
                        &&& p == (GlyphPosition { x_advance: p.x_advance, ..old(batch).positions@[k] })
                        &&& exists|f: &mut Self|
                            *f == states[k] && *final(f) == states[k + 1] && #[trigger] call_ensures(
                                Self::advance_width,
                                (f, builtin, infos[k].glyph_id),
                                p.x_advance,
                            )
                    },
            decreases batch.infos@.len() - i,
        {
            let ghost before = states;
            let ghost filled = batch.positions@;
            let glyph: u32 = batch.glyph(i);
            let advance: i32 = self.advance_width(builtin, glyph);
            assert(exists|f: &mut Self|
                *f == before.last() && *final(f) == *self && #[trigger] call_ensures(
                    Self::advance_width,
                    (f, builtin, glyph),
                    advance,
                ));
            batch.set_advance(i, advance);
            proof {
                states = states.push(*self);
                assert forall|k: int| 0 <= k < i + 1 implies {
                    let p = #[trigger] batch.positions@[k];
                    &&& p == (GlyphPosition { x_advance: p.x_advance, ..old(batch).positions@[k] })
                    &&& exists|f: &mut Self|
                        *f == states[k] && *final(f) == states[k + 1] && #[trigger] call_ensures(
                            Self::advance_width,
                            (f, builtin, infos[k].glyph_id),
                            p.x_advance,
                        )
                } by {
                    if k < i {
                        assert(filled[k] == batch.positions@[k]);
                        assert(before[k + 1] == states[k + 1] && before[k] == states[k]);
                    } else {
                        assert(states[k] == before.last() && states[k + 1] == *self);
                        assert(batch.positions@[k].x_advance == advance);
                    }
                }
            }
            i += 1;
        }
        assert(states.len() == old(batch).infos@.len() + 1);
    }

    /// Vertical advance callback.
    fn advance_height(&mut self, builtin: &BuiltinFontFuncs, glyph: u32) -> (r: i32)
        default_ensures
            *final(self) == *old(self),
            r == builtin.metrics.height(glyph, builtin.coords@),
    {
        builtin.advance_height(glyph)
    }

    /// Vertical origin callback.
    fn vertical_origin(&mut self, builtin: &BuiltinFontFuncs, glyph: u32) -> (r: (i32, i32))
        default_ensures
            *final(self) == *old(self),
            r == builtin.hangs_from(glyph),
    {
        builtin.vertical_origin(glyph)
    }

    /// Glyph extents callback.
    fn extents(&mut self, builtin: &BuiltinFontFuncs, glyph: u32) -> (r: Option<GlyphExtents>)
        default_ensures
            *final(self) == *old(self),
            r == builtin.metrics.extents_of(glyph, builtin.coords@),
    {
        builtin.extents(glyph)
    }
}

/// Callbacks that leave everything to the font.
pub struct DummyFontFuncs;

impl FontFuncs for DummyFontFuncs {

}

/// What answers for a font, with a cache of the glyphs of characters before it.
pub struct FontFuncsDispatch<'a, T: FontFuncs> {
    pub builtin: BuiltinFontFuncs<'a>,
    pub funcs: T,
    pub has_custom_funcs: bool,
    pub cmap_cache: cache_t,
}

/// Keeps the glyph that was answered for a character, if the cache has room for
/// the two.
pub fn note_glyph(cache: &mut cache_t, c: u32, answered: Option<u32>)
    requires
        old(cache).wf(),
    ensures
        final(cache).wf(),
        answered is None ==> *final(cache) == *old(cache),
        answered matches Some(g) ==> final(cache).took(*old(cache), c, g),
{
    if let Some(g) = answered {
        cache.set(c, g);
    }
}

impl<'a, T: FontFuncs> FontFuncsDispatch<'a, T> {
    pub fn new(builtin: BuiltinFontFuncs<'a>, funcs: T, has_custom_funcs: bool) -> (r: FontFuncsDispatch<'a, T>)
        ensures
            r.builtin == builtin,
            r.funcs == funcs,
            r.has_custom_funcs == has_custom_funcs,
            r.cmap_cache.wf(),
            forall|c: u32| #[trigger] r.cmap_cache.cached(c) is None,
    {
        proof {
            lemma_cmap_cache_fits();
        }
        FontFuncsDispatch { builtin, funcs, has_custom_funcs, cmap_cache: cache_t::new() }
    }

    /// The glyph of a character: the one in the cache, or else the one that is
    /// answered, which the cache then has if it has room for it.
    pub fn nominal_glyph(&mut self, c: u32) -> (g: Option<u32>)
        requires
            old(self).cmap_cache.wf(),
        ensures
            final(self).cmap_cache.wf(),
            final(self).builtin == old(self).builtin,
            final(self).has_custom_funcs == old(self).has_custom_funcs,
            old(self).cmap_cache.cached(c) is Some ==> g == old(self).cmap_cache.cached(c)
                && final(self).cmap_cache == old(self).cmap_cache && final(self).funcs == old(self).funcs,
            old(self).cmap_cache.cached(c) is None ==> match g {
                Some(id) => final(self).cmap_cache.took(old(self).cmap_cache, c, id),
                None => final(self).cmap_cache == old(self).cmap_cache,
            },
            old(self).cmap_cache.cached(c) is None ==> exists|f: &mut T|
                *f == old(self).funcs && *final(f) == final(self).funcs && #[trigger] call_ensures(
                    T::nominal_glyph,
                    (f, &old(self).builtin, c),
                    g,
                ),
    {
        match self.cmap_cache.get(c) {
            Some(g) => Some(g),
            None => {
                let answered = self.funcs.nominal_glyph(&self.builtin, c);
                note_glyph(&mut self.cmap_cache, c, answered);
                answered
            },
        }
    }

    pub fn has_glyph(&mut self, c: u32) -> (r: bool)
        requires
            old(self).cmap_cache.wf(),
        ensures
            final(self).cmap_cache.wf(),
            old(self).cmap_cache.cached(c) is Some ==> r,
            old(self).cmap_cache.cached(c) is None && !r ==> final(self).cmap_cache == old(self).cmap_cache,
            old(self).cmap_cache.cached(c) is None && r ==> exists|id: u32| #[trigger]
                final(self).cmap_cache.took(old(self).cmap_cache, c, id),
            old(self).cmap_cache.cached(c) is None ==> exists|f: &mut T, g: Option<u32>|
                *f == old(self).funcs && *final(f) == final(self).funcs && #[trigger] call_ensures(
                    T::nominal_glyph,
                    (f, &old(self).builtin, c),
                    g,
                ) && r == (g is Some),
    {
        self.nominal_glyph(c).is_some()
    }

    pub fn has_custom_funcs(&self) -> (r: bool)
        ensures
            r == self.has_custom_funcs,
    {
        self.has_custom_funcs
    }

    /// The glyph that is answered for a variation sequence.
    pub fn variant_glyph(&mut self, c: u32, vs: u32) -> (r: Option<u32>)
        ensures
            final(self).builtin == old(self).builtin,
            final(self).has_custom_funcs == old(self).has_custom_funcs,
            final(self).cmap_cache == old(self).cmap_cache,
            exists|f: &mut T|
                *f == old(self).funcs && *final(f) == final(self).funcs && #[trigger] call_ensures(
                    T::variant_glyph,
                    (f, &old(self).builtin, c, vs),
                    r,
                ),
    {
        self.funcs.variant_glyph(&self.builtin, c, vs)
    }

    /// The advance that is answered for a glyph.
    pub fn advance_width(&mut self, glyph: u32) -> (r: i32)
        ensures
            final(self).builtin == old(self).builtin,
            final(self).has_custom_funcs == old(self).has_custom_funcs,
            final(self).cmap_cache == old(self).cmap_cache,
            exists|f: &mut T|
                *f == old(self).funcs && *final(f) == final(self).funcs && #[trigger] call_ensures(
                    T::advance_width,
                    (f, &old(self).builtin, glyph),
                    r,
                ),
    {
        self.funcs.advance_width(&self.builtin, glyph)
    }

    /// The vertical advance that is answered for a glyph.
    pub fn advance_height(&mut self, glyph: u32) -> (r: i32)
        ensures
            final(self).builtin == old(self).builtin,
            final(self).has_custom_funcs == old(self).has_custom_funcs,
            final(self).cmap_cache == old(self).cmap_cache,
            exists|f: &mut T|
                *f == old(self).funcs && *final(f) == final(self).funcs && #[trigger] call_ensures(
                    T::advance_height,
                    (f, &old(self).builtin, glyph),
                    r,
                ),
    {
        self.funcs.advance_height(&self.builtin, glyph)
    }

    /// Where a glyph hangs from horizontally: the middle of the advance that is
    /// answered.
    pub fn horizontal_origin(&mut self, glyph: u32) -> (r: i32)
        ensures
            final(self).builtin == old(self).builtin,
            final(self).has_custom_funcs == old(self).has_custom_funcs,
            final(self).cmap_cache == old(self).cmap_cache,
            exists|f: &mut T, advance: i32|
                *f == old(self).funcs && *final(f) == final(self).funcs && #[trigger] call_ensures(
                    T::advance_width,
                    (f, &old(self).builtin, glyph),
                    advance,
                ) && r == half_towards_zero(advance),
    {
        let advance: i32 = self.advance_width(glyph);
        horizontal_origin(advance)
    }

    /// Where a glyph is answered to hang from vertically.
    pub fn vertical_origin(&mut self, glyph: u32) -> (r: (i32, i32))
        ensures
            final(self).builtin == old(self).builtin,
            final(self).has_custom_funcs == old(self).has_custom_funcs,
            final(self).cmap_cache == old(self).cmap_cache,
            exists|f: &mut T|
                *f == old(self).funcs && *final(f) == final(self).funcs && #[trigger] call_ensures(
                    T::vertical_origin,
                    (f, &old(self).builtin, glyph),
                    r,
                ),
    {
        self.funcs.vertical_origin(&self.builtin, glyph)
    }

    /// The extents that are answered for a glyph.
    pub fn extents(&mut self, glyph: u32) -> (r: Option<GlyphExtents>)
        ensures
            final(self).builtin == old(self).builtin,
            final(self).has_custom_funcs == old(self).has_custom_funcs,
            final(self).cmap_cache == old(self).cmap_cache,
            exists|f: &mut T|
                *f == old(self).funcs && *final(f) == final(self).funcs && #[trigger] call_ensures(
                    T::extents,
                    (f, &old(self).builtin, glyph),
                    r,
                ),
    {
        self.funcs.extents(&self.builtin, glyph)
    }

    /// Fills a batch with the advances that are answered.
    pub fn populate_advance_widths(&mut self, batch: &mut AdvanceWidthBatch)
        requires
            old(batch).wf(),
        ensures
            final(self).builtin == old(self).builtin,
            final(self).has_custom_funcs == old(self).has_custom_funcs,
            final(self).cmap_cache == old(self).cmap_cache,
            exists|f: &mut T, b: &mut AdvanceWidthBatch|
                *f == old(self).funcs && *final(f) == final(self).funcs && *b == *old(batch) && *final(b)
                    == *final(batch) && #[trigger] call_ensures(
                    T::populate_advance_widths,
                    (f, &old(self).builtin, b),
                    (),
                ),
    {
        self.funcs.populate_advance_widths(&self.builtin, batch);
    }
}

/// The cache's keys and values fit its slots.
proof fn lemma_cmap_cache_fits()
    ensures
        cache_t::fits(),
{
    vstd::arithmetic::power2::lemma2_to64();
    assert(vstd::arithmetic::power2::pow2(8) == 256);
}

/// What the tables say of a glyph is the same whichever way it is asked: one at a
/// time, in a batch, or from the metrics themselves; a glyph hangs from the middle
/// of its advance, and vertically at the height that the metrics have.
pub proof fn a_font_answers_from_its_metrics<'a>(
    f: &BuiltinFontFuncs<'a>,
    glyph: u32,
    batch: &mut AdvanceWidthBatch,
    i: int,
    width: i32,
    metric: Option<i32>,
    height: i32,
    tall: Option<i32>,
    origin: i32,
    hangs: (i32, i32),
    high: Option<i32>,
)
    requires
        old(batch).wf(),
        0 <= i < old(batch).infos@.len(),
        old(batch).infos@[i].glyph_id == glyph,
        call_ensures(BuiltinFontFuncs::advance_width, (f, glyph), width),
        call_ensures(GlyphMetrics::advance_width, (f.metrics, glyph, f.coords), metric),
        call_ensures(BuiltinFontFuncs::advance_height, (f, glyph), height),
        call_ensures(GlyphMetrics::advance_height, (f.metrics, glyph, f.coords), tall),
        call_ensures(BuiltinFontFuncs::horizontal_origin, (f, glyph), origin),
        call_ensures(BuiltinFontFuncs::vertical_origin, (f, glyph), hangs),
        call_ensures(GlyphMetrics::v_origin, (f.metrics, glyph, f.coords), high),
        call_ensures(BuiltinFontFuncs::populate_advance_widths, (f, batch), ()),
    ensures
        metric is Some ==> width == metric->0,
        metric is None ==> width == 0,
        tall is Some ==> height == tall->0,
        -1 <= width - 2 * origin <= 1,
        width >= 0 ==> 0 <= 2 * origin <= width,
        width <= 0 ==> width <= 2 * origin <= 0,
        hangs.0 == origin,
        high is Some ==> hangs.1 == high->0,
        final(batch).positions@.len() == old(batch).positions@.len(),
        final(batch).positions@[i].x_advance == width,
        final(batch).positions@[i].x_offset == old(batch).positions@[i].x_offset,
        final(batch).positions@[i].y_offset == old(batch).positions@[i].y_offset,
        final(batch).positions@[i].y_advance == old(batch).positions@[i].y_advance,
{
    assert(final(batch).positions@[i].x_advance == f.metrics.width(glyph, f.coords@));
}

/// A character's glyph is the one that the mapping has, given what the font's
/// private page has for the character's code: the first entry for it counts, and
/// there is none without an entry.
pub proof fn a_font_maps_with_its_private_page<'a>(
    f: &BuiltinFontFuncs<'a>,
    c: u32,
    vs: u32,
    code: u32,
    i: int,
    g: Option<u32>,
    mapped: Option<u32>,
    v: Option<u32>,
    variant: Option<u32>,
)
    requires
        f.charmap.subtable is Some,
        call_ensures(first_code, (&(f.charmap.subtable->0).0, c), code),
        0 <= i < f.pua@.len(),
        f.pua@[i].0 == code,
        forall|k: int| 0 <= k < i ==> (#[trigger] f.pua@[k]).0 != code,
        call_ensures(BuiltinFontFuncs::nominal_glyph, (f, c), g),
        call_ensures(Charmap::map, (f.charmap, c, f.pua@[i].1), mapped),
        call_ensures(BuiltinFontFuncs::variant_glyph, (f, c, vs), v),
        call_ensures(Charmap::map_variant, (f.charmap, c, vs, f.pua@[i].1), variant),
    ensures
        g == mapped,
        v == variant,
{
    let (s, d) = f.charmap.subtable->0;
    let own = f.pua@[i].1;
    assert forall|pua: u32| #[trigger] f.pua_of(c, pua) implies pua == own by {
        let other = choose|k: u32| #[trigger] is_first_code(s, c, k) && pua_code(f.pua@, k, pua);
        a_character_has_one_code(s, c, other, code);
        assert(f.pua@[i].0 == code);
        let j = choose|j: int|
            0 <= j < f.pua@.len() && (#[trigger] f.pua@[j]).0 == code && f.pua@[j].1 == pua && forall|k: int|
                0 <= k < j ==> (#[trigger] f.pua@[k]).0 != code;
        assert(j == i);
    }
    let used = choose|pua: u32| #[trigger] f.pua_of(c, pua) && f.charmap.maps(c, pua, g);
    a_character_has_one_glyph(f.charmap, c, own, g, mapped);
    if f.charmap.vs_subtable is Some && cmap_variant(f.charmap.vs_subtable->0@, c, vs) == Some(None::<u32>) {
        let used = choose|pua: u32| #[trigger] f.pua_of(c, pua) && f.charmap.maps(c, pua, v);
        a_character_has_one_glyph(f.charmap, c, own, v, variant);
    }
}

/// An answer that the cache has is given again, and nobody is asked; an answer
/// that it has not is the callbacks', and is had from then on if there is room.
pub proof fn a_cached_glyph_is_not_asked_for_again<'a, T: FontFuncs>(
    f: &mut FontFuncsDispatch<'a, T>,
    c: u32,
    g: Option<u32>,
)
    requires
        old(f).cmap_cache.wf(),
        call_ensures(FontFuncsDispatch::<'a, T>::nominal_glyph, (f, c), g),
    ensures
        old(f).cmap_cache.cached(c) is Some ==> g == old(f).cmap_cache.cached(c) && final(f).funcs == old(
            f,
        ).funcs,
        final(f).cmap_cache.cached(c) is Some ==> g == final(f).cmap_cache.cached(c),
        g is None ==> final(f).cmap_cache == old(f).cmap_cache,
        final(f).builtin == old(f).builtin,
        final(f).has_custom_funcs == old(f).has_custom_funcs,
{
}

} // verus!
