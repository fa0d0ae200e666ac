//! How far glyphs advance, where they start and how large they are, from the
//! metrics tables of a font and what an instance of it varies.

use read_fonts::tables::glyf::Glyf;
use read_fonts::tables::gvar::Gvar;
use read_fonts::tables::hmtx::Hmtx;
use read_fonts::tables::hvar::Hvar;
use read_fonts::tables::loca::Loca;
use read_fonts::tables::mvar::Mvar;
use read_fonts::tables::vmtx::Vmtx;
use read_fonts::tables::vorg::Vorg;
use read_fonts::tables::vvar::Vvar;
use read_fonts::types::{F2Dot14, GlyphId, Tag};
use read_fonts::{FontData, FontRead};
use vstd::prelude::*;

use crate::buffer::{halved, saturated, saturating_add, saturating_sub, GlyphInfo, GlyphPosition};
use crate::bytes::{fits, word};

verus! {

/// A word read as a signed number.
pub open spec fn signed(w: u16) -> i16 {
    if w >= 0x8000 {
        (w - 0x1_0000) as i16
    } else {
        w as i16
    }
}

/// How many long metrics a table has: those it says it has, if they lie inside.
pub open spec fn long_metrics(d: Seq<u8>, n: u16) -> int {
    if fits(d, 0, 4 * n) {
        n as int
    } else {
        0
    }
}

/// The advances of the long metrics.
pub open spec fn advances(d: Seq<u8>, n: u16) -> Seq<u16> {
    Seq::new(long_metrics(d, n) as nat, |i: int| word(d, 4 * i))
}

/// The side bearing of a glyph: its long metric's, or one of those that follow.
pub open spec fn bearing(d: Seq<u8>, n: u16, gid: u32) -> Option<i16> {
    let count = long_metrics(d, n);
    let at = 4 * n + 2 * (gid - count);
    if gid < count {
        Some(signed(word(d, 4 * gid + 2)))
    } else if fits(d, at, 2) && fits(d, 0, 4 * n) {
        Some(signed(word(d, at)))
    } else {
        None
    }
}

/// The advance of a glyph: past the last long metric, that one's.
pub open spec fn advance(d: Seq<u8>, n: u16, gid: u32) -> Option<u16> {
    let all = advances(d, n);
    if all.len() == 0 {
        None
    } else if gid < all.len() {
        Some(all[gid as int])
    } else {
        Some(all.last())
    }
}

/// What an instance adds to the advance width of a glyph.
pub uninterp spec fn hvar_advance(d: Seq<u8>, gid: u32, coords: Seq<i16>) -> i32;

/// What an instance adds to the left side bearing of a glyph.
pub uninterp spec fn hvar_bearing(d: Seq<u8>, gid: u32, coords: Seq<i16>) -> i32;

/// What an instance adds to the advance height of a glyph.
pub uninterp spec fn vvar_advance(d: Seq<u8>, gid: u32, coords: Seq<i16>) -> i32;

/// What an instance adds to the top side bearing of a glyph.
pub uninterp spec fn vvar_bearing(d: Seq<u8>, gid: u32, coords: Seq<i16>) -> i32;

/// What an instance adds to the vertical origin of a glyph.
pub uninterp spec fn vvar_origin(d: Seq<u8>, gid: u32, coords: Seq<i16>) -> i32;

/// What an instance adds to a metric of the font.
pub uninterp spec fn mvar_delta(d: Seq<u8>, tag: u32, coords: Seq<i16>) -> i32;

/// How many origins a table lists: those it says, if they lie inside.
pub open spec fn vorg_count(d: Seq<u8>) -> int {
    if fits(d, 8, 4 * word(d, 6)) {
        word(d, 6) as int
    } else {
        0
    }
}

/// Whether a table lists its origins in order of their glyphs.
pub open spec fn vorg_in_order(d: Seq<u8>) -> bool {
    forall|i: int, j: int|
        0 <= i < j < vorg_count(d) ==> #[trigger] word(d, 8 + 4 * i) < #[trigger] word(d, 8 + 4 * j)
}

/// The origin that a table lists for a glyph, or the default one.
pub open spec fn vorg_listed(d: Seq<u8>, gid: u32) -> i16 {
    if exists|i: int| 0 <= i < vorg_count(d) && #[trigger] word(d, 8 + 4 * i) == gid {
        let i = choose|i: int| 0 <= i < vorg_count(d) && #[trigger] word(d, 8 + 4 * i) == gid;
        signed(word(d, 8 + 4 * i + 2))
    } else {
        signed(word(d, 4))
    }
}

/// What a search finds in a table whose origins are out of order.
pub uninterp spec fn vorg_searched(d: Seq<u8>, gid: u32) -> i16;

/// The vertical origin of a glyph.
pub open spec fn vorg_origin(d: Seq<u8>, gid: u32) -> i16 {
    if !fits(d, 0, 8) {
        0
    } else if vorg_in_order(d) {
        vorg_listed(d, gid)
    } else {
        vorg_searched(d, gid)
    }
}

/// The box of a glyph as `(x_min, y_min, x_max, y_max)`, if the glyph can be
/// read; one without an outline has no box.
pub uninterp spec fn glyph_box(loca: Seq<u8>, long: bool, glyf: Seq<u8>, gid: u32) -> Option<
    Option<(i16, i16, i16, i16)>,
>;

/// How far an instance moves the points that stand for a glyph's metrics, if it
/// does: the left and right ones along, the top and bottom ones across.
pub uninterp spec fn phantom_points(
    loca: Seq<u8>,
    long: bool,
    glyf: Seq<u8>,
    gvar: Seq<u8>,
    gid: u32,
    coords: Seq<i16>,
) -> Option<(i32, i32, i32, i32)>;

/// `Hmtx::read` and `Hmtx::h_metrics`: the advances of the long metrics, none
/// where they run past the end.
#[verifier::external_body]
fn read_h_advances(d: &[u8], n: u16) -> (r: Vec<u16>)
    ensures
        r@ == advances(d@, n),
{
    match Hmtx::read(FontData::new(d), n) {
        Ok(t) => t.h_metrics().iter().map(|m| m.advance()).collect(),
        Err(_) => Vec::new(),
    }
}

/// `Hmtx::read` and `Hmtx::side_bearing`: the bearing in a glyph's long metric,
/// or in the list after those.
#[verifier::external_body]
fn read_h_bearing(d: &[u8], n: u16, gid: u32) -> (r: Option<i16>)
    ensures
        r == bearing(d@, n, gid),
{
    Hmtx::read(FontData::new(d), n).ok()?.side_bearing(GlyphId::new(gid))
}

/// `Vmtx::read` and `Vmtx::advance`: the advance in a glyph's long metric, or in
/// the last one.
#[verifier::external_body]
fn read_v_advance(d: &[u8], n: u16, gid: u32) -> (r: Option<u16>)
    ensures
        r == advance(d@, n, gid),
{
    Vmtx::read(FontData::new(d), n).ok()?.advance(GlyphId::new(gid))
}

/// `Vmtx::read` and `Vmtx::side_bearing`: the bearing in a glyph's long metric,
/// or in the list after those.
#[verifier::external_body]
fn read_v_bearing(d: &[u8], n: u16, gid: u32) -> (r: Option<i16>)
    ensures
        r == bearing(d@, n, gid),
{
    Vmtx::read(FontData::new(d), n).ok()?.side_bearing(GlyphId::new(gid))
}

/// `Hvar::read` and `Hvar::advance_delta`, rounded to whole units; zero where the
/// table says nothing readable of the glyph.
#[verifier::external_body]
fn read_hvar_advance(d: &[u8], gid: u32, coords: &[i16]) -> (r: i32)
    ensures
        r == hvar_advance(d@, gid, coords@),
{
    let coords: Vec<F2Dot14> = coords.iter().map(|c| F2Dot14::from_bits(*c)).collect();
    let table = Hvar::read(FontData::new(d)).ok();
    table.and_then(|t| t.advance_delta(GlyphId::new(gid), &coords)).unwrap_or_default().to_i32()
}

/// `Hvar::read` and `Hvar::lsb_delta`, rounded to whole units; zero where the
/// table says nothing readable of the glyph.
#[verifier::external_body]
fn read_hvar_bearing(d: &[u8], gid: u32, coords: &[i16]) -> (r: i32)
    ensures
        r == hvar_bearing(d@, gid, coords@),
{
    let coords: Vec<F2Dot14> = coords.iter().map(|c| F2Dot14::from_bits(*c)).collect();
    let table = Hvar::read(FontData::new(d)).ok();
    table.and_then(|t| t.lsb_delta(GlyphId::new(gid), &coords)).unwrap_or_default().to_i32()
}

/// `Vvar::read` and `Vvar::advance_delta`, rounded to whole units; zero where the
/// table says nothing readable of the glyph.
#[verifier::external_body]
fn read_vvar_advance(d: &[u8], gid: u32, coords: &[i16]) -> (r: i32)
    ensures
        r == vvar_advance(d@, gid, coords@),
{
    let coords: Vec<F2Dot14> = coords.iter().map(|c| F2Dot14::from_bits(*c)).collect();
    let table = Vvar::read(FontData::new(d)).ok();
    table.and_then(|t| t.advance_delta(GlyphId::new(gid), &coords)).unwrap_or_default().to_i32()
}

/// `Vvar::read` and `Vvar::tsb_delta`, rounded to whole units; zero where the
/// table says nothing readable of the glyph.
#[verifier::external_body]
fn read_vvar_bearing(d: &[u8], gid: u32, coords: &[i16]) -> (r: i32)
    ensures
        r == vvar_bearing(d@, gid, coords@),
{
    let coords: Vec<F2Dot14> = coords.iter().map(|c| F2Dot14::from_bits(*c)).collect();
    let table = Vvar::read(FontData::new(d)).ok();
    table.and_then(|t| t.tsb_delta(GlyphId::new(gid), &coords)).unwrap_or_default().to_i32()
}

/// `Vvar::read` and `Vvar::v_origin_y_delta`, rounded to whole units; zero where
/// the table says nothing readable of the glyph.
#[verifier::external_body]
fn read_vvar_origin(d: &[u8], gid: u32, coords: &[i16]) -> (r: i32)
    ensures
        r == vvar_origin(d@, gid, coords@),
{
    let coords: Vec<F2Dot14> = coords.iter().map(|c| F2Dot14::from_bits(*c)).collect();
    let table = Vvar::read(FontData::new(d)).ok();
    table.and_then(|t| t.v_origin_y_delta(GlyphId::new(gid), &coords)).unwrap_or_default().to_i32()
}

/// `Mvar::read` and `Mvar::metric_delta`, rounded to whole units; zero where the
/// table says nothing readable of the metric.
#[verifier::external_body]
fn read_mvar(d: &[u8], tag: u32, coords: &[i16]) -> (r: i32)
    ensures
        r == mvar_delta(d@, tag, coords@),
{
    let coords: Vec<F2Dot14> = coords.iter().map(|c| F2Dot14::from_bits(*c)).collect();
    let table = Mvar::read(FontData::new(d)).ok();
    table.and_then(|t| t.metric_delta(Tag::from_u32(tag), &coords).ok()).unwrap_or_default().to_i32()
}

/// `Vorg::read` and `Vorg::vertical_origin_y`: the origin listed for the glyph,
/// or the default one. The glyph is searched for by halves, so of a table out of
/// order only that it has an answer is said.
#[verifier::external_body]
fn read_vorg(d: &[u8], gid: u32) -> (r: i16)
    ensures
        r == vorg_origin(d@, gid),
        fits(d@, 0, 8) && !vorg_in_order(d@) ==> r == vorg_searched(d@, gid),
{
    match Vorg::read(FontData::new(d)) {
        Ok(t) => t.vertical_origin_y(GlyphId::new(gid)),
        Err(_) => 0,
    }
}

/// `Loca::read`, `Glyf::read` and `Loca::get_glyf`, then the four bounds in the
/// glyph's header.
#[verifier::external_body]
fn read_box(loca: &[u8], long: bool, glyf: &[u8], gid: u32) -> (r: Option<
    Option<(i16, i16, i16, i16)>,
>)
    ensures
        r == glyph_box(loca@, long, glyf@, gid),
{
    let loca = Loca::read(FontData::new(loca), long).ok()?;
    let glyf = Glyf::read(FontData::new(glyf)).ok()?;
    let glyph = loca.get_glyf(GlyphId::new(gid), &glyf).ok()?;
    Some(glyph.map(|g| (g.x_min(), g.y_min(), g.x_max(), g.y_max())))
}

/// `Gvar::read` and `Gvar::phantom_point_deltas`, rounded to whole units: of the
/// left and right points the horizontal part, of the top and bottom points the
/// vertical one.
#[verifier::external_body]
fn read_phantoms(loca: &[u8], long: bool, glyf: &[u8], gvar: &[u8], gid: u32, coords: &[i16]) -> (r: Option<
    (i32, i32, i32, i32),
>)
    ensures
        r == phantom_points(loca@, long, glyf@, gvar@, gid, coords@),
{
    let coords: Vec<F2Dot14> = coords.iter().map(|c| F2Dot14::from_bits(*c)).collect();
    let loca = Loca::read(FontData::new(loca), long).ok()?;
    let glyf = Glyf::read(FontData::new(glyf)).ok()?;
    let gvar = Gvar::read(FontData::new(gvar)).ok()?;
    let p = gvar.phantom_point_deltas(&glyf, &loca, &coords, GlyphId::new(gid)).ok()??;
    Some((p[0].x.to_i32(), p[1].x.to_i32(), p[2].y.to_i32(), p[3].y.to_i32()))
}

/// The outlines of a font, and how an instance varies them.
#[derive(Clone, Debug)]
pub struct GlyfTables {
    pub loca: Vec<u8>,
    pub loca_long: bool,
    pub glyf: Vec<u8>,
    pub gvar: Option<Vec<u8>>,
}

/// The tables of a font that say how large its glyphs are.
#[derive(Clone, Debug)]
pub struct GlyphMetrics {
    /// The horizontal metrics, and how many of them are long.
    pub hmtx: Option<(Vec<u8>, u16)>,
    pub hvar: Option<Vec<u8>>,
    /// The vertical metrics, and how many of them are long.
    pub vmtx: Option<(Vec<u8>, u16)>,
    pub vvar: Option<Vec<u8>>,
    pub vorg: Option<Vec<u8>>,
    pub glyf: Option<GlyfTables>,
    pub mvar: Option<Vec<u8>>,
    pub num_glyphs: u32,
    pub upem: u16,
    pub ascent: i16,
    pub descent: i16,
}

/// The bounds of a glyph.
#[derive(Copy, Clone, Debug, PartialEq, Eq, Structural)]
pub struct BoundingBox {
    pub x_min: i32,
    pub y_min: i32,
    pub x_max: i32,
    pub y_max: i32,
}

/// The extents of a glyph: where its ink starts, and how far it goes right and
/// up.
#[derive(Copy, Clone, Debug, PartialEq, Eq, Structural)]
pub struct GlyphExtents {
    pub x_bearing: i32,
    pub y_bearing: i32,
    pub width: i32,
    pub height: i32,
}

/// A table that is long enough to be read.
pub open spec fn long_enough(d: Option<Vec<u8>>, n: int) -> Option<Vec<u8>> {
    match d {
        Some(v) => if v@.len() >= n {
            Some(v)
        } else {
            None
        },
        None => None,
    }
}

fn keep_long_enough(d: Option<Vec<u8>>, n: usize) -> (r: Option<Vec<u8>>)
    ensures
        r == long_enough(d, n as int),
{
    match d {
        Some(v) => if v.len() >= n {
            Some(v)
        } else {
            None
        },
        None => None,
    }
}

/// `hasc`, the tag of the ascent.
pub const HASC: u32 = 0x6861_7363;

/// `hdsc`, the tag of the descent.
pub const HDSC: u32 = 0x6864_7363;

impl GlyphMetrics {
    /// The tables that can be read: the outlines need both their tables.
    pub fn new(
        hmtx: Option<(Vec<u8>, u16)>,
        hvar: Option<Vec<u8>>,
        vmtx: Option<(Vec<u8>, u16)>,
        vvar: Option<Vec<u8>>,
        vorg: Option<Vec<u8>>,
        loca: Option<(Vec<u8>, bool)>,
        glyf: Option<Vec<u8>>,
        gvar: Option<Vec<u8>>,
        mvar: Option<Vec<u8>>,
        basics: BasicFontMetrics,
    ) -> (r: GlyphMetrics)
        ensures
            r.hmtx == hmtx,
            r.hvar == long_enough(hvar, 20),
            r.vmtx == vmtx,
            r.vvar == long_enough(vvar, 24),
            r.vorg == long_enough(vorg, 8),
            r.mvar == long_enough(mvar, 12),
            r.glyf is Some <==> loca_readable(loca) && glyf is Some,
            r.glyf matches Some(g) ==> {
                &&& loca == Some((g.loca, g.loca_long))
                &&& glyf == Some(g.glyf)
                &&& g.gvar == long_enough(gvar, 20)
            },
            r.num_glyphs == basics.num_glyphs,
            r.upem == basics.units_per_em,
            r.ascent == basics.ascent,
            r.descent == basics.descent,
    {
        let glyf: Option<GlyfTables> = match (loca, glyf) {
            (Some((loca, loca_long)), Some(glyf)) => {
                let unit: usize = if loca_long {
                    4
                } else {
                    2
                };
                if loca.len() % unit == 0 {
                    Some(GlyfTables { loca, loca_long, glyf, gvar: keep_long_enough(gvar, 20) })
                } else {
                    None
                }
            },
            _ => None,
        };
        GlyphMetrics {
            hmtx,
            hvar: keep_long_enough(hvar, 20),
            vmtx,
            vvar: keep_long_enough(vvar, 24),
            vorg: keep_long_enough(vorg, 8),
            glyf,
            mvar: keep_long_enough(mvar, 12),
            num_glyphs: basics.num_glyphs,
            upem: basics.units_per_em,
            ascent: basics.ascent,
            descent: basics.descent,
        }
    }

    /// How many horizontal advances there are, and what they are.
    pub open spec fn h_advances(&self) -> Seq<u16> {
        match self.hmtx {
            Some((d, n)) => advances(d@, n),
            None => seq![],
        }
    }

    /// The horizontal advance before any variation: the same default for every
    /// glyph of a font without horizontal metrics, and none past the last glyph
    /// the font has.
    pub open spec fn plain_width(&self, gid: u32) -> i32 {
        let all = self.h_advances();
        if all.len() == 0 {
            (self.upem / 2) as i32
        } else if gid >= self.num_glyphs {
            0
        } else if gid < all.len() {
            all[gid as int] as i32
        } else {
            all.last() as i32
        }
    }

    fn plain_advance_width(&self, gid: u32) -> (w: i32)
        ensures
            w == self.plain_width(gid),
    {
        let all: Vec<u16> = match &self.hmtx {
            Some((d, n)) => read_h_advances(d, *n),
            None => {
                let none: Vec<u16> = Vec::new();
                assert(none@ =~= seq![]);
                none
            },
        };
        plain_advance(&all, self.upem, self.num_glyphs, gid)
    }

    /// How far an instance moves the points that stand for a glyph's metrics.
    pub open spec fn phantoms(&self, gid: u32, coords: Seq<i16>) -> Option<(i32, i32, i32, i32)> {
        match self.glyf {
            Some(g) => match g.gvar {
                Some(v) => phantom_points(g.loca@, g.loca_long, g.glyf@, v@, gid, coords),
                None => None,
            },
            None => None,
        }
    }

    fn phantom_deltas(&self, gid: u32, coords: &[i16]) -> (r: Option<(i32, i32, i32, i32)>)
        ensures
            r == self.phantoms(gid, coords@),
    {
        match &self.glyf {
            Some(g) => match &g.gvar {
                Some(v) => read_phantoms(&g.loca, g.loca_long, &g.glyf, v, gid, coords),
                None => None,
            },
            None => None,
        }
    }

    /// What an instance adds to the advance width of a glyph.
    pub open spec fn width_delta(&self, gid: u32, coords: Seq<i16>) -> int {
        if coords.len() == 0 {
            0
        } else {
            match self.hvar {
                Some(d) => hvar_advance(d@, gid, coords) as int,
                None => apart(self.phantoms(gid, coords)),
            }
        }
    }

    fn find_width_delta(&self, gid: u32, coords: &[i16]) -> (r: i32)
        ensures
            r == self.width_delta(gid, coords@),
    {
        if coords.len() == 0 {
            return 0;
        }
        match &self.hvar {
            Some(d) => read_hvar_advance(d, gid, coords),
            None => match self.phantom_deltas(gid, coords) {
                Some((left, right, _, _)) => saturating_sub(right, left),
                None => 0,
            },
        }
    }

    /// The advance width of a glyph in an instance.
    pub open spec fn width(&self, gid: u32, coords: Seq<i16>) -> i32 {
        saturated(self.plain_width(gid) + self.width_delta(gid, coords))
    }

    pub fn advance_width(&self, gid: u32, coords: &[i16]) -> (r: Option<i32>)
        ensures
            r == Some(self.width(gid, coords@)),
    {
        Some(saturating_add(self.plain_advance_width(gid), self.find_width_delta(gid, coords)))
    }

    /// The advance height of a glyph in an instance: the height of the line for
    /// a font without vertical metrics.
    pub open spec fn height(&self, gid: u32, coords: Seq<i16>) -> i32 {
        let plain = match self.vmtx {
            Some((d, n)) => advance(d@, n, gid),
            None => None,
        };
        match plain {
            None => (self.ascent - self.descent) as i32,
            Some(a) => if coords.len() == 0 {
                a as i32
            } else {
                match self.vvar {
                    Some(d) => saturated(a + vvar_advance(d@, gid, coords)),
                    None => saturated(a + below(self.phantoms(gid, coords))),
                }
            },
        }
    }

    pub fn advance_height(&self, gid: u32, coords: &[i16]) -> (r: Option<i32>)
        ensures
            r == Some(self.height(gid, coords@)),
    {
        let plain: Option<u16> = match &self.vmtx {
            Some((d, n)) => read_v_advance(d, *n, gid),
            None => None,
        };
        let advance: i32 = match plain {
            Some(a) => a as i32,
            None => return Some(self.ascent as i32 - self.descent as i32),
        };
        if coords.len() == 0 {
            return Some(advance);
        }
        match &self.vvar {
            Some(d) => Some(saturating_add(advance, read_vvar_advance(d, gid, coords))),
            None => match self.phantom_deltas(gid, coords) {
                Some((_, _, top, bottom)) => Some(
                    saturating_add(advance, saturating_sub(bottom, top)),
                ),
                None => Some(advance),
            },
        }
    }

    /// The left side bearing of a glyph in an instance: where a font has no
    /// horizontal metrics, the left edge of the glyph.
    pub open spec fn left_bearing(&self, gid: u32, coords: Seq<i16>) -> Option<i32> {
        match self.hmtx {
            None => match self.box_of(gid, coords) {
                Some(b) => Some(b.x_min),
                None => None,
            },
            Some((d, n)) => {
                let plain = or_zero(bearing(d@, n, gid));
                if coords.len() == 0 {
                    Some(plain as i32)
                } else {
                    match self.hvar {
                        Some(v) => Some(saturated(plain + hvar_bearing(v@, gid, coords))),
                        None => match self.phantoms(gid, coords) {
                            Some((left, _, _, _)) => Some(saturated(plain + left)),
                            None => Some(plain as i32),
                        },
                    }
                }
            },
        }
    }

    pub fn _left_side_bearing(&self, gid: u32, coords: &[i16]) -> (r: Option<i32>)
        ensures
            r == self.left_bearing(gid, coords@),
    {
        let plain: i32 = match &self.hmtx {
            Some((d, n)) => match read_h_bearing(d, *n, gid) {
                Some(b) => b as i32,
                None => 0,
            },
            None => {
                return match self.bounds(gid, coords) {
                    Some(b) => Some(b.x_min),
                    None => None,
                };
            },
        };
        if coords.len() == 0 {
            return Some(plain);
        }
        match &self.hvar {
            Some(d) => Some(saturating_add(plain, read_hvar_bearing(d, gid, coords))),
            None => match self.phantom_deltas(gid, coords) {
                Some((left, _, _, _)) => Some(saturating_add(plain, left)),
                None => Some(plain),
            },
        }
    }

    /// The top side bearing of a glyph in an instance, in a font with vertical
    /// metrics.
    pub open spec fn top_bearing(&self, gid: u32, coords: Seq<i16>) -> Option<i32> {
        match self.vmtx {
            None => None,
            Some((d, n)) => {
                let plain = or_zero(bearing(d@, n, gid));
                if coords.len() == 0 {
                    Some(plain as i32)
                } else {
                    match self.vvar {
                        Some(v) => Some(saturated(plain + vvar_bearing(v@, gid, coords))),
                        None => match self.phantoms(gid, coords) {
                            Some((_, _, _, bottom)) => Some(saturated(plain + bottom)),
                            None => Some(plain as i32),
                        },
                    }
                }
            },
        }
    }

    pub fn top_side_bearing(&self, gid: u32, coords: &[i16]) -> (r: Option<i32>)
        ensures
            r == self.top_bearing(gid, coords@),
    {
        let plain: i32 = match &self.vmtx {
            Some((d, n)) => match read_v_bearing(d, *n, gid) {
                Some(b) => b as i32,
                None => 0,
            },
            None => return None,
        };
        if coords.len() == 0 {
            return Some(plain);
        }
        match &self.vvar {
            Some(d) => Some(saturating_add(plain, read_vvar_bearing(d, gid, coords))),
            None => match self.phantom_deltas(gid, coords) {
                Some((_, _, _, bottom)) => Some(saturating_add(plain, bottom)),
                None => Some(plain),
            },
        }
    }

    /// The bounds of a glyph, where they are known: an instance keeps only those
    /// of a glyph without an outline.
    pub open spec fn box_of(&self, gid: u32, coords: Seq<i16>) -> Option<BoundingBox> {
        match self.glyf {
            None => None,
            Some(g) => match glyph_box(g.loca@, g.loca_long, g.glyf@, gid) {
                None => None,
                Some(None) => Some(BoundingBox { x_min: 0, y_min: 0, x_max: 0, y_max: 0 }),
                Some(Some(b)) => if coords.len() > 0 {
                    None
                } else {
                    Some(
                        BoundingBox {
                            x_min: b.0 as i32,
                            y_min: b.1 as i32,
                            x_max: b.2 as i32,
                            y_max: b.3 as i32,
                        },
                    )
                },
            },
        }
    }

    fn bounds(&self, gid: u32, coords: &[i16]) -> (r: Option<BoundingBox>)
        ensures
            r == self.box_of(gid, coords@),
    {
        let g = match &self.glyf {
            Some(g) => g,
            None => return None,
        };
        match read_box(&g.loca, g.loca_long, &g.glyf, gid) {
            None => None,
            Some(None) => Some(BoundingBox { x_min: 0, y_min: 0, x_max: 0, y_max: 0 }),
            Some(Some((x_min, y_min, x_max, y_max))) => {
                if coords.len() > 0 {
                    return None;
                }
                Some(
                    BoundingBox {
                        x_min: x_min as i32,
                        y_min: y_min as i32,
                        x_max: x_max as i32,
                        y_max: y_max as i32,
                    },
                )
            },
        }
    }

    /// What an instance adds to a metric of the font, if it varies any.
    pub open spec fn metric_delta(&self, tag: u32, coords: Seq<i16>) -> int {
        match self.mvar {
            Some(d) => mvar_delta(d@, tag, coords) as int,
            None => 0,
        }
    }

    fn find_metric_delta(&self, tag: u32, coords: &[i16]) -> (r: i32)
        ensures
            r == self.metric_delta(tag, coords@),
    {
        match &self.mvar {
            Some(d) => read_mvar(d, tag, coords),
            None => 0,
        }
    }

    /// What an instance adds to a vertical origin, if the table is there.
    pub open spec fn origin_delta(&self, gid: u32, coords: Seq<i16>) -> int {
        if coords.len() == 0 {
            0
        } else {
            match self.vvar {
                Some(d) => vvar_origin(d@, gid, coords) as int,
                None => 0,
            }
        }
    }

    fn find_origin_delta(&self, gid: u32, coords: &[i16]) -> (r: i32)
        ensures
            r == self.origin_delta(gid, coords@),
    {
        if coords.len() == 0 {
            return 0;
        }
        match &self.vvar {
            Some(d) => read_vvar_origin(d, gid, coords),
            None => 0,
        }
    }

    /// The vertical origin of a glyph in an instance: as listed; else the top of
    /// the glyph and its bearing there; else the glyph centred in the line; else
    /// the ascent.
    pub open spec fn origin(&self, gid: u32, coords: Seq<i16>) -> i32 {
        match self.vorg {
            Some(d) => saturated(vorg_origin(d@, gid) + self.origin_delta(gid, coords)),
            None => match self.box_of(gid, coords) {
                Some(b) => match self.top_bearing(gid, coords) {
                    Some(tsb) => saturated(
                        saturated(b.y_max + tsb) + self.origin_delta(gid, coords),
                    ),
                    None => centred(b, self.line_height(coords)),
                },
                None => saturated(self.ascent + self.metric_delta(HASC, coords)),
            },
        }
    }

    /// The height of a line in an instance.
    pub open spec fn line_height(&self, coords: Seq<i16>) -> i32 {
        saturated(
            saturated(self.ascent - self.descent + self.metric_delta(HASC, coords)) - self.metric_delta(
                HDSC,
                coords,
            ),
        )
    }

    pub fn v_origin(&self, gid: u32, coords: &[i16]) -> (r: Option<i32>)
        ensures
            r == Some(self.origin(gid, coords@)),
    {
        if let Some(d) = &self.vorg {
            let listed: i32 = read_vorg(d, gid) as i32;
            return Some(saturating_add(listed, self.find_origin_delta(gid, coords)));
        }
        let b = match self.bounds(gid, coords) {
            Some(b) => b,
            None => {
                return Some(
                    saturating_add(self.ascent as i32, self.find_metric_delta(HASC, coords)),
                );
            },
        };
        if let Some(tsb) = self.top_side_bearing(gid, coords) {
            let top: i32 = saturating_add(b.y_max, tsb);
            return Some(saturating_add(top, self.find_origin_delta(gid, coords)));
        }
        let plain: i32 = self.ascent as i32 - self.descent as i32;
        let line: i32 = saturating_sub(
            saturating_add(plain, self.find_metric_delta(HASC, coords)),
            self.find_metric_delta(HDSC, coords),
        );
        Some(centred_origin(b, line))
    }

    /// The extents of a glyph, where they are known.
    pub open spec fn extents_of(&self, gid: u32, coords: Seq<i16>) -> Option<GlyphExtents> {
        match self.glyf {
            None => None,
            Some(g) => match glyph_box(g.loca@, g.loca_long, g.glyf@, gid) {
                None => None,
                Some(None) => Some(GlyphExtents { x_bearing: 0, y_bearing: 0, width: 0, height: 0 }),
                Some(Some(b)) => if coords.len() > 0 {
                    None
                } else {
                    Some(
                        extents_in(
                            b,
                            match self.hmtx {
                                Some((d, n)) => bearing(d@, n, gid),
                                None => None,
                            },
                        ),
                    )
                },
            },
        }
    }

    pub fn extents(&self, gid: u32, coords: &[i16]) -> (r: Option<GlyphExtents>)
        ensures
            r == self.extents_of(gid, coords@),
    {
        let g = match &self.glyf {
            Some(g) => g,
            None => return None,
        };
        let b = match read_box(&g.loca, g.loca_long, &g.glyf, gid) {
            None => return None,
            Some(None) => {
                return Some(GlyphExtents { x_bearing: 0, y_bearing: 0, width: 0, height: 0 });
            },
            Some(Some(b)) => b,
        };
        if coords.len() > 0 {
            return None;
        }
        let lsb: Option<i16> = match &self.hmtx {
            Some((d, n)) => read_h_bearing(d, *n, gid),
            None => None,
        };
        Some(box_extents(b, lsb))
    }

    /// Give every glyph of a line its advance width in an instance, scaled.
    pub fn populate_advance_widths<F: Fn(i32) -> i32>(
        &self,
        infos: &[GlyphInfo],
        pos: &mut Vec<GlyphPosition>,
        coords: &[i16],
        scale_x: F,
    )
        requires
            forall|v: i32| #[trigger] call_requires(scale_x, (v,)),
        ensures
            final(pos)@.len() == old(pos)@.len(),
            forall|i: int|
                0 <= i < final(pos)@.len() ==> {
                    let before = if i < infos@.len() {
                        self.width(infos@[i].glyph_id, coords@)
                    } else {
                        old(pos)@[i].x_advance
                    };
                    let now = #[trigger] final(pos)@[i];
                    &&& call_ensures(scale_x, (before,), now.x_advance)
                    &&& now == (GlyphPosition { x_advance: now.x_advance, ..old(pos)@[i] })
                },
    {
        let mut i: usize = 0;
        while i < pos.len()
            invariant
                i <= pos@.len(),
                pos@.len() == old(pos)@.len(),
                forall|v: i32| #[trigger] call_requires(scale_x, (v,)),
                forall|k: int| i <= k < pos@.len() ==> #[trigger] pos@[k] == old(pos)@[k],
                forall|k: int|
                    0 <= k < i ==> {
                        let before = if k < infos@.len() {
                            self.width(infos@[k].glyph_id, coords@)
                        } else {
                            old(pos)@[k].x_advance
                        };
                        let now = #[trigger] pos@[k];
                        &&& call_ensures(scale_x, (before,), now.x_advance)
                        &&& now == (GlyphPosition { x_advance: now.x_advance, ..old(pos)@[k] })
                    },
            decreases pos@.len() - i,
        {
            let mut p: GlyphPosition = pos[i];
            if i < infos.len() {
                let gid: u32 = infos[i].glyph_id;
                p.x_advance = saturating_add(
                    self.plain_advance_width(gid),
                    self.find_width_delta(gid, coords),
                );
            }
            p.x_advance = scale_x(p.x_advance);
            pos.set(i, p);
            i += 1;
        }
    }
}

/// The basic metrics of a font.
#[derive(Copy, Clone, Debug, PartialEq, Eq, Structural)]
pub struct BasicFontMetrics {
    pub num_glyphs: u32,
    pub units_per_em: u16,
    pub ascent: i16,
    pub descent: i16,
}

/// Whether a table of places can be read: it is made of whole entries.
pub open spec fn loca_readable(loca: Option<(Vec<u8>, bool)>) -> bool {
    match loca {
        Some((d, long)) => d@.len() % (if long {
            4
        } else {
            2
        }) == 0,
        None => false,
    }
}

/// A bearing that may be missing.
pub open spec fn or_zero(b: Option<i16>) -> i16 {
    match b {
        Some(b) => b,
        None => 0,
    }
}

/// How much wider the moved points are.
pub open spec fn apart(p: Option<(i32, i32, i32, i32)>) -> int {
    match p {
        Some((left, right, _, _)) => saturated(right - left) as int,
        None => 0,
    }
}

/// How much taller the moved points are.
pub open spec fn below(p: Option<(i32, i32, i32, i32)>) -> int {
    match p {
        Some((_, _, top, bottom)) => saturated(bottom - top) as int,
        None => 0,
    }
}

/// The top of a line in which a glyph is centred.
pub open spec fn centred(b: BoundingBox, line: i32) -> i32 {
    let spare = saturated(line - saturated(b.y_max - b.y_min));
    saturated(b.y_max + spare as int / 2)
}

/// The top of a line in which a glyph is centred.
pub fn centred_origin(b: BoundingBox, line: i32) -> (r: i32)
    ensures
        r == centred(b, line),
{
    let height: i32 = saturating_sub(b.y_max, b.y_min);
    let spare: i32 = saturating_sub(line, height);
    saturating_add(b.y_max, halved(spare))
}

/// The extents of a glyph from its box, either way round, and its left side
/// bearing: the glyph is drawn with its left edge there, not where its box has
/// it.
pub open spec fn extents_in(b: (i16, i16, i16, i16), lsb: Option<i16>) -> GlyphExtents {
    let left = vstd::math::min(b.0 as int, b.2 as int);
    let right = vstd::math::max(b.0 as int, b.2 as int);
    let bottom = vstd::math::min(b.1 as int, b.3 as int);
    let top = vstd::math::max(b.1 as int, b.3 as int);
    GlyphExtents {
        x_bearing: match lsb {
            Some(l) => l as i32,
            None => left as i32,
        },
        y_bearing: top as i32,
        width: (right - left) as i32,
        height: (bottom - top) as i32,
    }
}

/// The extents of a glyph from its box and its left side bearing.
pub fn box_extents(b: (i16, i16, i16, i16), lsb: Option<i16>) -> (r: GlyphExtents)
    ensures
        r == extents_in(b, lsb),
{
    let (x_min, y_min, x_max, y_max) = b;
    let (left, right) = if x_min <= x_max {
        (x_min as i32, x_max as i32)
    } else {
        (x_max as i32, x_min as i32)
    };
    let (bottom, top) = if y_min <= y_max {
        (y_min as i32, y_max as i32)
    } else {
        (y_max as i32, y_min as i32)
    };
    let x_bearing: i32 = match lsb {
        Some(l) => l as i32,
        None => left,
    };
    GlyphExtents { x_bearing, y_bearing: top, width: right - left, height: bottom - top }
}

/// The advance of a glyph before any variation, from the advances of a font.
pub fn plain_advance(all: &[u16], upem: u16, num_glyphs: u32, gid: u32) -> (w: i32)
    ensures
        w == (if all@.len() == 0 {
            (upem / 2) as i32
        } else if gid >= num_glyphs {
            0
        } else if gid < all@.len() {
            all@[gid as int] as i32
        } else {
            all@.last() as i32
        }),
{
    if all.len() == 0 {
        return upem as i32 / 2;
    }
    if gid >= num_glyphs {
        return 0;
    }
    if (gid as usize) < all.len() {
        all[gid as usize] as i32
    } else {
        all[all.len() - 1] as i32
    }
}

/// A font without variations advances a glyph by what its metrics say, whatever
/// the instance.
pub proof fn without_variations_nothing_varies(m: GlyphMetrics, gid: u32, coords: Seq<i16>)
    requires
        m.hvar is None,
        m.glyf matches Some(g) ==> g.gvar is None,
    ensures
        m.width(gid, coords) == m.plain_width(gid),
{
}

/// The extents of a glyph are the same whichever way round its box is stored.
pub proof fn a_box_may_be_either_way_round(b: (i16, i16, i16, i16), lsb: Option<i16>)
    ensures
        extents_in((b.2, b.1, b.0, b.3), lsb) == extents_in(b, lsb),
        extents_in((b.0, b.3, b.2, b.1), lsb) == extents_in(b, lsb),
{
}

/// An instance of a font with a table of variations makes a glyph wider by what
/// that table adds; without one, by how much further the right point of the
/// outline moves than the left.
pub proof fn an_instance_adds_to_the_advance(m: GlyphMetrics, gid: u32, coords: Seq<i16>)
    requires
        coords.len() > 0,
        -0x1000_0000 <= m.plain_width(gid) <= 0x1000_0000,
    ensures
        m.hvar matches Some(d) && -0x1000_0000 <= hvar_advance(d@, gid, coords) <= 0x1000_0000 ==> m.width(
            gid,
            coords,
        ) - m.plain_width(gid) == hvar_advance(m.hvar->0@, gid, coords),
        m.hvar is None && m.glyf is Some && m.glyf->0.gvar is Some ==> {
            let g = m.glyf->0;
            phantom_points(g.loca@, g.loca_long, g.glyf@, g.gvar->0@, gid, coords) matches Some(
                (left, right, _, _),
            ) && -0x1000_0000 <= right - left <= 0x1000_0000 ==> {
                let (left, right, _, _) = phantom_points(
                    g.loca@,
                    g.loca_long,
                    g.glyf@,
                    g.gvar->0@,
                    gid,
                    coords,
                )->0;
                m.width(gid, coords) - m.plain_width(gid) == right - left
            }
        },
{
}

/// Without coordinates nothing is added to the advance.
pub proof fn the_default_instance_adds_nothing(m: GlyphMetrics, gid: u32)
    ensures
        m.width(gid, seq![]) == m.plain_width(gid),
{
}

/// The advance of a glyph is the word that the metrics have for it: its own long
/// metric's, or the last long one's, and none past the last glyph.
pub proof fn an_advance_is_read_from_its_metric(m: GlyphMetrics, d: Vec<u8>, n: u16, gid: u32)
    requires
        m.hmtx == Some((d, n)),
        n > 0,
        d@.len() >= 4 * n,
    ensures
        gid < m.num_glyphs && gid < n ==> m.plain_width(gid) == d@[4 * gid] * 256 + d@[4 * gid + 1],
        gid < m.num_glyphs && gid >= n ==> m.plain_width(gid) == d@[4 * (n - 1)] * 256 + d@[4 * (n - 1) + 1],
        gid >= m.num_glyphs ==> m.plain_width(gid) == 0,
{
}

/// In a font without horizontal metrics every glyph advances by half an em.
pub proof fn without_metrics_a_glyph_is_half_an_em(m: GlyphMetrics, gid: u32)
    requires
        m.hmtx is None,
    ensures
        2 * m.plain_width(gid) <= m.upem <= 2 * m.plain_width(gid) + 1,
{
}

/// A glyph's height is what its vertical metrics say and what an instance adds,
/// by its table or by how much further down the bottom point of the outline
/// moves than the top; without vertical metrics, it is that of the line.
pub proof fn a_height_is_the_metrics_or_the_lines(m: GlyphMetrics, gid: u32, coords: Seq<i16>)
    ensures
        m.vmtx is None ==> m.height(gid, coords) == m.ascent - m.descent,
        m.vmtx matches Some((d, n)) && n > 0 && d@.len() >= 4 * n ==> {
            let (d, n) = m.vmtx->0;
            let last = if gid < n {
                gid as int
            } else {
                n - 1
            };
            let plain = d@[4 * last] * 256 + d@[4 * last + 1];
            &&& coords.len() == 0 ==> m.height(gid, coords) == plain
            &&& coords.len() > 0 && m.vvar is Some && -0x1000_0000 <= vvar_advance(
                m.vvar->0@,
                gid,
                coords,
            ) <= 0x1000_0000 ==> m.height(gid, coords) == plain + vvar_advance(m.vvar->0@, gid, coords)
            &&& coords.len() > 0 && m.vvar is None && m.phantoms(gid, coords) is None ==> m.height(gid, coords)
                == plain
            &&& coords.len() > 0 && m.vvar is None && m.phantoms(gid, coords) is Some ==> {
                let (_, _, top, bottom) = m.phantoms(gid, coords)->0;
                -0x1000_0000 <= bottom - top <= 0x1000_0000 ==> m.height(gid, coords) == plain + (bottom - top)
            }
        },
{
}

/// The side bearings are those that the metrics have, and what an instance adds
/// to them.
pub proof fn bearings_are_the_metrics_and_what_varies(m: GlyphMetrics, gid: u32, coords: Seq<i16>)
    ensures
        m.vmtx is None ==> m.top_bearing(gid, coords) is None,
        m.vmtx matches Some((d, n)) && gid < n && d@.len() >= 4 * n ==> {
            let (d, n) = m.vmtx->0;
            let raw = d@[4 * gid + 2] * 256 + d@[4 * gid + 3];
            let plain = if raw < 0x8000 {
                raw as int
            } else {
                raw - 0x1_0000
            };
            &&& coords.len() == 0 ==> m.top_bearing(gid, coords) == Some(plain as i32)
            &&& coords.len() > 0 && m.vvar is Some && -0x1000_0000 <= vvar_bearing(
                m.vvar->0@,
                gid,
                coords,
            ) <= 0x1000_0000 ==> m.top_bearing(gid, coords)->0 == plain + vvar_bearing(
                m.vvar->0@,
                gid,
                coords,
            )
            &&& coords.len() > 0 && m.vvar is None && m.phantoms(gid, coords) is Some ==> {
                let (_, _, _, bottom) = m.phantoms(gid, coords)->0;
                -0x1000_0000 <= bottom <= 0x1000_0000 ==> m.top_bearing(gid, coords)->0 == plain + bottom
            }
        },
        m.hmtx matches Some((d, n)) && gid < n && d@.len() >= 4 * n ==> {
            let (d, n) = m.hmtx->0;
            let raw = d@[4 * gid + 2] * 256 + d@[4 * gid + 3];
            let plain = if raw < 0x8000 {
                raw as int
            } else {
                raw - 0x1_0000
            };
            &&& coords.len() == 0 ==> m.left_bearing(gid, coords) == Some(plain as i32)
            &&& coords.len() > 0 && m.hvar is Some && -0x1000_0000 <= hvar_bearing(
                m.hvar->0@,
                gid,
                coords,
            ) <= 0x1000_0000 ==> m.left_bearing(gid, coords)->0 == plain + hvar_bearing(
                m.hvar->0@,
                gid,
                coords,
            )
            &&& coords.len() > 0 && m.hvar is None && m.phantoms(gid, coords) is Some ==> {
                let (left, _, _, _) = m.phantoms(gid, coords)->0;
                -0x1000_0000 <= left <= 0x1000_0000 ==> m.left_bearing(gid, coords)->0 == plain + left
            }
        },
{
}

/// A glyph hangs from the origin that is listed for it and what an instance adds;
/// where none are listed, from its top and the bearing there; without vertical
/// metrics, it is centred in the line; and without a box it hangs from the ascent.
pub proof fn a_glyph_hangs_from_the_best_known_origin(m: GlyphMetrics, gid: u32)
    ensures
        m.vorg matches Some(d) ==> m.origin(gid, seq![]) == vorg_origin(m.vorg->0@, gid),
        m.vorg is None && m.glyf is None ==> {
            let delta = match m.mvar {
                Some(d) => mvar_delta(d@, HASC, seq![]) as int,
                None => 0,
            };
            -0x1000_0000 <= delta <= 0x1000_0000 ==> m.origin(gid, seq![]) == m.ascent + delta
        },
        m.vorg is None && m.box_of(gid, seq![]) is Some && m.vmtx is Some ==> {
            let top = m.box_of(gid, seq![])->0.y_max;
            let tsb = m.top_bearing(gid, seq![])->0;
            -0x1000_0000 <= top <= 0x1000_0000 && -0x1000_0000 <= tsb <= 0x1000_0000 ==> m.origin(gid, seq![])
                == top + tsb
        },
        m.vorg is None && m.box_of(gid, seq![]) is Some && m.vmtx is None && m.mvar is None ==> {
            let b = m.box_of(gid, seq![])->0;
            let o = m.origin(gid, seq![]);
            let line = m.ascent - m.descent;
            -0x1000_0000 <= b.y_max <= 0x1000_0000 && -0x1000_0000 <= b.y_min <= 0x1000_0000 ==> {
                // As much of the line is above the glyph as below it.
                let above = o - b.y_max;
                let below = b.y_min - (o - line);
                above <= below <= above + 1
            }
        },
{
}

/// What an instance adds to an origin that is listed, or that comes from the box.
pub proof fn an_instance_adds_to_the_origin(m: GlyphMetrics, gid: u32, coords: Seq<i16>)
    requires
        coords.len() > 0,
        m.vorg is Some,
    ensures
        m.vvar is None ==> m.origin(gid, coords) == m.origin(gid, seq![]),
        m.vvar matches Some(d) && -0x1000_0000 <= vvar_origin(d@, gid, coords) <= 0x1000_0000 ==> m.origin(
            gid,
            coords,
        ) - m.origin(gid, seq![]) == vvar_origin(m.vvar->0@, gid, coords),
{
}

/// A glyph's extents start at its left side bearing and at its top, and go as far
/// right and as far down as its box is wide and high; one without an outline has
/// none, and of an instance nothing is known.
pub proof fn extents_span_the_box(m: GlyphMetrics, gid: u32, coords: Seq<i16>)
    ensures
        m.glyf is None ==> m.extents_of(gid, coords) is None,
        m.glyf matches Some(g) ==> {
            let g = m.glyf->0;
            let stored = glyph_box(g.loca@, g.loca_long, g.glyf@, gid);
            &&& stored is None ==> m.extents_of(gid, coords) is None
            &&& stored == Some(None::<(i16, i16, i16, i16)>) ==> m.extents_of(gid, coords) == Some(
                GlyphExtents { x_bearing: 0, y_bearing: 0, width: 0, height: 0 },
            )
            &&& stored is Some && stored->0 is Some && coords.len() > 0 ==> m.extents_of(gid, coords) is None
            &&& stored is Some && stored->0 is Some && coords.len() == 0 ==> {
                let b = stored->0->0;
                let e = m.extents_of(gid, coords)->0;
                let lsb = match m.hmtx {
                    Some((d, n)) => bearing(d@, n, gid),
                    None => None,
                };
                &&& m.extents_of(gid, coords) is Some
                &&& lsb is Some ==> e.x_bearing == lsb->0
                &&& lsb is None ==> e.x_bearing <= b.0 && e.x_bearing <= b.2 && (e.x_bearing == b.0
                    || e.x_bearing == b.2)
                &&& e.y_bearing >= b.1 && e.y_bearing >= b.3 && (e.y_bearing == b.1 || e.y_bearing == b.3)
                &&& e.width >= 0 && (e.width == b.2 - b.0 || e.width == b.0 - b.2)
                &&& e.height <= 0 && (e.height == b.1 - b.3 || e.height == b.3 - b.1)
            }
        },
{
}

/// An instance makes a glyph wider than it is in the default instance by what the
/// font's table of variations has for it, and by nothing else: never narrower
/// where that is positive.
pub proof fn an_instance_is_wider_by_its_variation(
    m: &GlyphMetrics,
    gid: u32,
    coords: &[i16],
    none: &[i16],
    varied: Option<i32>,
    plain: Option<i32>,
)
    requires
        none@.len() == 0,
        coords@.len() > 0,
        m.hvar is Some,
        call_ensures(GlyphMetrics::advance_width, (m, gid, coords), varied),
        call_ensures(GlyphMetrics::advance_width, (m, gid, none), plain),
    ensures
        varied is Some && plain is Some,
        ({
            let delta = hvar_advance(m.hvar->0@, gid, coords@);
            &&& i32::MIN <= plain->0 + delta <= i32::MAX ==> varied->0 - plain->0 == delta
            &&& delta >= 0 ==> varied->0 >= plain->0
            &&& delta <= 0 ==> varied->0 <= plain->0
        }),
{
}

} // verus!
