//! The tables of one face of a font file.

use read_fonts::tables::head::Head;
use read_fonts::tables::hhea::Hhea;
use read_fonts::tables::maxp::Maxp;
use read_fonts::tables::vhea::Vhea;
use read_fonts::types::Tag;
use read_fonts::{FontData, FontRead, FontRef};
use vstd::prelude::*;

use crate::bytes::{fits, word};
use crate::glyph_metrics::{loca_readable, long_enough, signed, BasicFontMetrics, GlyphMetrics};

verus! {

/// Whether a file has a face of this index.
pub uninterp spec fn face_in(file: Seq<u8>, index: u32) -> bool;

/// The bytes of a table of a face.
pub uninterp spec fn table_in(file: Seq<u8>, index: u32, tag: u32) -> Option<Seq<u8>>;

/// Bytes that may not be there.
pub open spec fn bytes_of(d: Option<Vec<u8>>) -> Option<Seq<u8>> {
    match d {
        Some(v) => Some(v@),
        None => None,
    }
}

/// `FontRef::from_index`: whether the file is a font or a collection of them
/// with a face of this index.
#[verifier::external_body]
fn read_face(file: &[u8], index: u32) -> (r: bool)
    ensures
        r == face_in(file@, index),
{
    FontRef::from_index(file, index).is_ok()
}

/// `FontRef::from_index` and `FontRef::table_data`: the bytes that the face's
/// directory gives the tag, none where there is no such face.
#[verifier::external_body]
fn read_table(file: &[u8], index: u32, tag: u32) -> (r: Option<Vec<u8>>)
    ensures
        bytes_of(r) == table_in(file@, index, tag),
        !face_in(file@, index) ==> r is None,
{
    let font = FontRef::from_index(file, index).ok()?;
    font.table_data(Tag::from_u32(tag)).map(|d| d.as_bytes().to_vec())
}

/// The ascender, the descender and the number of long metrics in a horizontal
/// header.
pub open spec fn hhea_numbers(d: Seq<u8>) -> Option<(i16, i16, u16)> {
    if fits(d, 0, 36) {
        Some((signed(word(d, 4)), signed(word(d, 6)), word(d, 34)))
    } else {
        None
    }
}

/// `Hhea::read`, then `Hhea::ascender`, `Hhea::descender` and
/// `Hhea::number_of_h_metrics`: the three words at their places, if the whole
/// header is there.
#[verifier::external_body]
fn read_hhea(d: &[u8]) -> (r: Option<(i16, i16, u16)>)
    ensures
        r == hhea_numbers(d@),
{
    let t = Hhea::read(FontData::new(d)).ok()?;
    Some((t.ascender().to_i16(), t.descender().to_i16(), t.number_of_h_metrics()))
}

/// The number of long metrics in a vertical header.
pub open spec fn vhea_number(d: Seq<u8>) -> Option<u16> {
    if fits(d, 0, 36) {
        Some(word(d, 34))
    } else {
        None
    }
}

/// `Vhea::read` and `Vhea::number_of_long_ver_metrics`: the header's last word,
/// if the whole header is there.
#[verifier::external_body]
fn read_vhea(d: &[u8]) -> (r: Option<u16>)
    ensures
        r == vhea_number(d@),
{
    Some(Vhea::read(FontData::new(d)).ok()?.number_of_long_ver_metrics())
}

/// The units per em and the format of the glyph offsets in a font header.
pub open spec fn head_numbers(d: Seq<u8>) -> Option<(u16, i16)> {
    if fits(d, 0, 54) {
        Some((word(d, 18), signed(word(d, 50))))
    } else {
        None
    }
}

/// `Head::read`, then `Head::units_per_em` and `Head::index_to_loc_format`: the
/// two words at their places, if the whole header is there.
#[verifier::external_body]
fn read_head(d: &[u8]) -> (r: Option<(u16, i16)>)
    ensures
        r == head_numbers(d@),
{
    let t = Head::read(FontData::new(d)).ok()?;
    Some((t.units_per_em(), t.index_to_loc_format()))
}

/// The number of glyphs in a maximum profile.
pub open spec fn maxp_number(d: Seq<u8>) -> Option<u16> {
    if fits(d, 0, 6) {
        Some(word(d, 4))
    } else {
        None
    }
}

/// `Maxp::read` and `Maxp::num_glyphs`: the word after the version, if it is
/// there.
#[verifier::external_body]
fn read_maxp(d: &[u8]) -> (r: Option<u16>)
    ensures
        r == maxp_number(d@),
{
    Some(Maxp::read(FontData::new(d)).ok()?.num_glyphs())
}

/// The units per em of a font that does not say.
pub const DEFAULT_UNITS_PER_EM: u16 = 1000;

/// The tables that say how large the glyphs of a face are.
#[derive(Clone, Debug)]
pub struct MetricTables {
    pub head: Option<Vec<u8>>,
    pub maxp: Option<Vec<u8>>,
    pub hhea: Option<Vec<u8>>,
    pub vhea: Option<Vec<u8>>,
    pub hmtx: Option<Vec<u8>>,
    pub vmtx: Option<Vec<u8>>,
    pub hvar: Option<Vec<u8>>,
    pub vvar: Option<Vec<u8>>,
    pub mvar: Option<Vec<u8>>,
    pub vorg: Option<Vec<u8>>,
    pub loca: Option<Vec<u8>>,
    pub glyf: Option<Vec<u8>>,
    pub gvar: Option<Vec<u8>>,
}

/// A table with a number that another table gives for it, where both are there.
pub open spec fn with<T>(d: Option<Vec<u8>>, n: Option<T>) -> Option<(Vec<u8>, T)> {
    match (d, n) {
        (Some(d), Some(n)) => Some((d, n)),
        _ => None,
    }
}

fn pair<T>(d: Option<Vec<u8>>, n: Option<T>) -> (r: Option<(Vec<u8>, T)>)
    ensures
        r == with(d, n),
{
    match (d, n) {
        (Some(d), Some(n)) => Some((d, n)),
        _ => None,
    }
}

impl MetricTables {
    /// What the horizontal header says.
    pub open spec fn h_numbers(&self) -> Option<(i16, i16, u16)> {
        match self.hhea {
            Some(d) => hhea_numbers(d@),
            None => None,
        }
    }

    /// How many horizontal metrics are long, if a header says so.
    pub open spec fn h_metrics(&self) -> Option<u16> {
        match self.h_numbers() {
            Some(n) => Some(n.2),
            None => None,
        }
    }

    /// How many vertical metrics are long, if a header says so.
    pub open spec fn v_metrics(&self) -> Option<u16> {
        match self.vhea {
            Some(d) => vhea_number(d@),
            None => None,
        }
    }

    /// What the font header says.
    pub open spec fn head_says(&self) -> Option<(u16, i16)> {
        match self.head {
            Some(d) => head_numbers(d@),
            None => None,
        }
    }

    /// Whether the glyph offsets are long, if a header says so.
    pub open spec fn loca_long(&self) -> Option<bool> {
        match self.head_says() {
            Some(n) => Some(n.1 == 1),
            None => None,
        }
    }

    /// The numbers of the face itself: zero where a table is missing, and
    /// a usual number of units per em.
    pub open spec fn basics_spec(&self) -> BasicFontMetrics {
        BasicFontMetrics {
            num_glyphs: match self.maxp {
                Some(d) => match maxp_number(d@) {
                    Some(n) => n as u32,
                    None => 0,
                },
                None => 0,
            },
            units_per_em: match self.head_says() {
                Some(n) => n.0,
                None => DEFAULT_UNITS_PER_EM,
            },
            ascent: match self.h_numbers() {
                Some(n) => n.0,
                None => 0,
            },
            descent: match self.h_numbers() {
                Some(n) => n.1,
                None => 0,
            },
        }
    }

    fn find_h_numbers(&self) -> (r: Option<(i16, i16, u16)>)
        ensures
            r == self.h_numbers(),
    {
        match &self.hhea {
            Some(d) => read_hhea(d),
            None => None,
        }
    }

    fn find_head(&self) -> (r: Option<(u16, i16)>)
        ensures
            r == self.head_says(),
    {
        match &self.head {
            Some(d) => read_head(d),
            None => None,
        }
    }

    /// The numbers of the face itself.
    pub fn basics(&self) -> (r: BasicFontMetrics)
        ensures
            r == self.basics_spec(),
    {
        let glyphs: Option<u16> = match &self.maxp {
            Some(d) => read_maxp(d),
            None => None,
        };
        let (ascent, descent) = match self.find_h_numbers() {
            Some(n) => (n.0, n.1),
            None => (0i16, 0i16),
        };
        BasicFontMetrics {
            num_glyphs: match glyphs {
                Some(n) => n as u32,
                None => 0,
            },
            units_per_em: match self.find_head() {
                Some(n) => n.0,
                None => DEFAULT_UNITS_PER_EM,
            },
            ascent,
            descent,
        }
    }

    /// The metrics of the face's glyphs: a table of metrics needs the header
    /// that counts them, and glyph offsets the header that gives their format.
    pub fn into_metrics(self) -> (r: GlyphMetrics)
        ensures
            r.hmtx == with(self.hmtx, self.h_metrics()),
            r.vmtx == with(self.vmtx, self.v_metrics()),
            r.hvar == long_enough(self.hvar, 20),
            r.vvar == long_enough(self.vvar, 24),
            r.vorg == long_enough(self.vorg, 8),
            r.mvar == long_enough(self.mvar, 12),
            r.glyf is Some <==> loca_readable(with(self.loca, self.loca_long())) && self.glyf is Some,
            r.glyf matches Some(g) ==> {
                &&& with(self.loca, self.loca_long()) == Some((g.loca, g.loca_long))
                &&& self.glyf == Some(g.glyf)
                &&& g.gvar == long_enough(self.gvar, 20)
            },
            r.num_glyphs == self.basics_spec().num_glyphs,
            r.upem == self.basics_spec().units_per_em,
            r.ascent == self.basics_spec().ascent,
            r.descent == self.basics_spec().descent,
    {
        let basics = self.basics();
        let h: Option<u16> = match self.find_h_numbers() {
            Some(n) => Some(n.2),
            None => None,
        };
        let v: Option<u16> = match &self.vhea {
            Some(d) => read_vhea(d),
            None => None,
        };
        let long: Option<bool> = match self.find_head() {
            Some(n) => Some(n.1 == 1),
            None => None,
        };
        GlyphMetrics::new(
            pair(self.hmtx, h),
            self.hvar,
            pair(self.vmtx, v),
            self.vvar,
            self.vorg,
            pair(self.loca, long),
            self.glyf,
            self.gvar,
            self.mvar,
            basics,
        )
    }
}

/// The tables of one face.
#[derive(Clone, Debug)]
pub struct FontTables {
    pub cmap: Option<Vec<u8>>,
    pub gdef: Option<Vec<u8>>,
    pub gsub: Option<Vec<u8>>,
    pub gpos: Option<Vec<u8>>,
    pub kern: Option<Vec<u8>>,
    pub morx: Option<Vec<u8>>,
    pub metrics: MetricTables,
}

impl FontTables {
    /// Whether these are the tables of a face, each under its tag.
    pub open spec fn are_of(&self, file: Seq<u8>, index: u32) -> bool {
        let m = self.metrics;
        &&& bytes_of(self.cmap) == table_in(file, index, 0x636D_6170)
        &&& bytes_of(self.gdef) == table_in(file, index, 0x4744_4546)
        &&& bytes_of(self.gsub) == table_in(file, index, 0x4753_5542)
        &&& bytes_of(self.gpos) == table_in(file, index, 0x4750_4F53)
        &&& bytes_of(self.kern) == table_in(file, index, 0x6B65_726E)
        &&& bytes_of(self.morx) == table_in(file, index, 0x6D6F_7278)
        &&& bytes_of(m.head) == table_in(file, index, 0x6865_6164)
        &&& bytes_of(m.maxp) == table_in(file, index, 0x6D61_7870)
        &&& bytes_of(m.hhea) == table_in(file, index, 0x6868_6561)
        &&& bytes_of(m.vhea) == table_in(file, index, 0x7668_6561)
        &&& bytes_of(m.hmtx) == table_in(file, index, 0x686D_7478)
        &&& bytes_of(m.vmtx) == table_in(file, index, 0x766D_7478)
        &&& bytes_of(m.hvar) == table_in(file, index, 0x4856_4152)
        &&& bytes_of(m.vvar) == table_in(file, index, 0x5656_4152)
        &&& bytes_of(m.mvar) == table_in(file, index, 0x4D56_4152)
        &&& bytes_of(m.vorg) == table_in(file, index, 0x564F_5247)
        &&& bytes_of(m.loca) == table_in(file, index, 0x6C6F_6361)
        &&& bytes_of(m.glyf) == table_in(file, index, 0x676C_7966)
        &&& bytes_of(m.gvar) == table_in(file, index, 0x6776_6172)
    }

    /// The tables of a face, if the file has one of this index.
    pub fn read(file: &[u8], index: u32) -> (r: Option<FontTables>)
        ensures
            r is Some <==> face_in(file@, index),
            r matches Some(t) ==> t.are_of(file@, index),
    {
        if !read_face(file, index) {
            return None;
        }
        let metrics = MetricTables {
            head: read_table(file, index, 0x6865_6164),
            maxp: read_table(file, index, 0x6D61_7870),
            hhea: read_table(file, index, 0x6868_6561),
            vhea: read_table(file, index, 0x7668_6561),
            hmtx: read_table(file, index, 0x686D_7478),
            vmtx: read_table(file, index, 0x766D_7478),
            hvar: read_table(file, index, 0x4856_4152),
            vvar: read_table(file, index, 0x5656_4152),
            mvar: read_table(file, index, 0x4D56_4152),
            vorg: read_table(file, index, 0x564F_5247),
            loca: read_table(file, index, 0x6C6F_6361),
            glyf: read_table(file, index, 0x676C_7966),
            gvar: read_table(file, index, 0x6776_6172),
        };
        Some(
            FontTables {
                cmap: read_table(file, index, 0x636D_6170),
                gdef: read_table(file, index, 0x4744_4546),
                gsub: read_table(file, index, 0x4753_5542),
                gpos: read_table(file, index, 0x4750_4F53),
                kern: read_table(file, index, 0x6B65_726E),
                morx: read_table(file, index, 0x6D6F_7278),
                metrics,
            },
        )
    }
}

/// The number of a name of four letters.
pub open spec fn name_number(a: char, b: char, c: char, d: char) -> u32 {
    (((a as u32 * 256 + b as u32) * 256 + c as u32) * 256 + d as u32) as u32
}

/// Each table of a face is read under its own name.
pub proof fn a_table_is_read_under_its_name(file: &[u8], index: u32, r: Option<FontTables>)
    requires
        call_ensures(FontTables::read, (file, index), r),
    ensures
        r is Some <==> face_in(file@, index),
        r is Some ==> {
            let t = r->0;
            let m = t.metrics;
            &&& bytes_of(t.cmap) == table_in(file@, index, name_number('c', 'm', 'a', 'p'))
            &&& bytes_of(t.gdef) == table_in(file@, index, name_number('G', 'D', 'E', 'F'))
            &&& bytes_of(t.gsub) == table_in(file@, index, name_number('G', 'S', 'U', 'B'))
            &&& bytes_of(t.gpos) == table_in(file@, index, name_number('G', 'P', 'O', 'S'))
            &&& bytes_of(t.kern) == table_in(file@, index, name_number('k', 'e', 'r', 'n'))
            &&& bytes_of(t.morx) == table_in(file@, index, name_number('m', 'o', 'r', 'x'))
            &&& bytes_of(m.head) == table_in(file@, index, name_number('h', 'e', 'a', 'd'))
            &&& bytes_of(m.maxp) == table_in(file@, index, name_number('m', 'a', 'x', 'p'))
            &&& bytes_of(m.hhea) == table_in(file@, index, name_number('h', 'h', 'e', 'a'))
            &&& bytes_of(m.vhea) == table_in(file@, index, name_number('v', 'h', 'e', 'a'))
            &&& bytes_of(m.hmtx) == table_in(file@, index, name_number('h', 'm', 't', 'x'))
            &&& bytes_of(m.vmtx) == table_in(file@, index, name_number('v', 'm', 't', 'x'))
            &&& bytes_of(m.hvar) == table_in(file@, index, name_number('H', 'V', 'A', 'R'))
            &&& bytes_of(m.vvar) == table_in(file@, index, name_number('V', 'V', 'A', 'R'))
            &&& bytes_of(m.mvar) == table_in(file@, index, name_number('M', 'V', 'A', 'R'))
            &&& bytes_of(m.vorg) == table_in(file@, index, name_number('V', 'O', 'R', 'G'))
            &&& bytes_of(m.loca) == table_in(file@, index, name_number('l', 'o', 'c', 'a'))
            &&& bytes_of(m.glyf) == table_in(file@, index, name_number('g', 'l', 'y', 'f'))
            &&& bytes_of(m.gvar) == table_in(file@, index, name_number('g', 'v', 'a', 'r'))
        },
{
}

/// The numbers of a face are those of its headers: the glyphs that the profile
/// counts, the units of the font header, and the line that the horizontal header
/// gives; a face without a header has a thousand units and no line.
pub proof fn a_face_has_the_numbers_of_its_headers(t: &MetricTables, r: BasicFontMetrics)
    requires
        call_ensures(MetricTables::basics, (t,), r),
    ensures
        t.maxp is Some && t.maxp->0@.len() >= 6 ==> r.num_glyphs == word(t.maxp->0@, 4),
        t.maxp is None ==> r.num_glyphs == 0,
        t.head is None ==> r.units_per_em == 1000,
        t.head is Some && t.head->0@.len() >= 54 ==> r.units_per_em == word(t.head->0@, 18),
        t.hhea is None ==> r.ascent == 0 && r.descent == 0,
        t.hhea is Some && t.hhea->0@.len() >= 36 ==> (r.ascent - word(t.hhea->0@, 4)) % 0x1_0000 == 0 && (r.descent
            - word(t.hhea->0@, 6)) % 0x1_0000 == 0,
{
}

/// Metrics are used only with the header that counts them, and variations only
/// where the table is there.
pub proof fn metrics_need_their_header(t: MetricTables, r: GlyphMetrics)
    requires
        call_ensures(MetricTables::into_metrics, (t,), r),
    ensures
        t.hmtx is None || t.hhea is None ==> r.hmtx is None,
        t.vmtx is None || t.vhea is None ==> r.vmtx is None,
        r.hmtx is Some ==> (r.hmtx->0).0 == t.hmtx->0,
        r.hmtx is Some && t.hhea->0@.len() >= 36 ==> (r.hmtx->0).1 == word(t.hhea->0@, 34),
        r.vmtx is Some ==> (r.vmtx->0).0 == t.vmtx->0,
        r.hvar is Some ==> r.hvar == t.hvar,
        r.vvar is Some ==> r.vvar == t.vvar,
        r.mvar is Some ==> r.mvar == t.mvar,
        r.vorg is Some ==> r.vorg == t.vorg,
        t.hvar is Some && t.hvar->0@.len() >= 20 ==> r.hvar == t.hvar,
        t.vvar is Some && t.vvar->0@.len() >= 24 ==> r.vvar == t.vvar,
        t.loca is None || t.glyf is None ==> r.glyf is None,
        r.glyf is Some ==> r.glyf->0.loca == t.loca->0 && r.glyf->0.glyf == t.glyf->0,
        r.glyf is Some && t.head is Some && t.head->0@.len() >= 54 ==> (r.glyf->0.loca_long <==> word(
            t.head->0@,
            50,
        ) == 1),
{
}

} // verus!
