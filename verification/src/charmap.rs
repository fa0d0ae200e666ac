//! From characters to glyphs.

use read_fonts::tables::cmap::{Cmap, CmapSubtable, MapVariant};
use read_fonts::{FontData, FontRead};
use vstd::prelude::*;

use crate::bytes::{be16, be32, fits, long, tail, word};
use crate::cache::hb_cache_t;
use crate::tables::resolves;

verus! {

/// A cache of the glyphs of characters: 21-bit keys, 19-bit values.
pub type cache_t = hb_cache_t<21, 19, 256, 32>;

/// Which mapping of a font was selected, and how its codes are to be read.
#[derive(Copy, Clone, Debug, PartialEq, Eq, Structural)]
pub struct SelectedCmapSubtable {
    pub index: u16,
    pub is_mac_roman: bool,
    pub is_symbol: bool,
    /// The private-use page that a legacy symbol font keeps its glyphs on.
    pub symbol_font_page: u16,
}

/// What a mapping gives a code.
pub uninterp spec fn cmap_glyph(d: Seq<u8>, code: u32) -> Option<u32>;

/// What a mapping of variation sequences gives a character and a selector:
/// nothing, the default, or a glyph of its own.
pub uninterp spec fn cmap_variant(d: Seq<u8>, c: u32, vs: u32) -> Option<Option<u32>>;

/// Which mapping of a table is the most comprehensive, and whether its codes are
/// those of Mac Roman or of a symbol font.
pub uninterp spec fn cmap_best(d: Seq<u8>) -> Option<(u16, bool, bool)>;

/// Whether a mapping of a table maps variation sequences: it has their format,
/// and its header is there.
pub open spec fn maps_variants(d: Seq<u8>, index: u16) -> bool {
    subtable_at(d, index) matches Some(at) && fits(d, at, 10) && word(d, at) == 14
}

/// The first mapping of variation sequences from one on.
pub open spec fn variants_from(d: Seq<u8>, i: int) -> Option<u16>
    decreases word(d, 2) - i,
{
    if i < 0 || i >= word(d, 2) {
        None
    } else if maps_variants(d, i as u16) {
        Some(i as u16)
    } else {
        variants_from(d, i + 1)
    }
}

/// Which mapping of a table maps variation sequences.
pub open spec fn cmap_variants(d: Seq<u8>) -> Option<u16> {
    if fits(d, 0, 4) {
        variants_from(d, 0)
    } else {
        None
    }
}

/// `CmapSubtable::read` and `CmapSubtable::map_codepoint`: the glyph of a code,
/// none where the mapping cannot be read.
#[verifier::external_body]
fn read_glyph(d: &[u8], code: u32) -> (r: Option<u32>)
    ensures
        r == cmap_glyph(d@, code),
{
    let table = CmapSubtable::read(FontData::new(d)).ok()?;
    table.map_codepoint(code).map(|g| g.to_u32())
}

/// `CmapSubtable::read` and `Cmap14::map_variant`: what is said of a variation
/// sequence, nothing where the mapping is of another kind.
#[verifier::external_body]
fn read_variant(d: &[u8], c: u32, vs: u32) -> (r: Option<Option<u32>>)
    ensures
        r == cmap_variant(d@, c, vs),
{
    match CmapSubtable::read(FontData::new(d)).ok()? {
        CmapSubtable::Format14(table) => match table.map_variant(c, vs)? {
            MapVariant::UseDefault => Some(None),
            MapVariant::Variant(g) => Some(Some(g.to_u32())),
        },
        _ => None,
    }
}

/// `Cmap::read` and `Cmap::best_subtable`: the index of the mapping, with
/// `EncodingRecord::is_mac_roman` and `EncodingRecord::is_symbol` of its record.
#[verifier::external_body]
fn read_best(d: &[u8]) -> (r: Option<(u16, bool, bool)>)
    ensures
        r == cmap_best(d@),
{
    let cmap = Cmap::read(FontData::new(d)).ok()?;
    let (index, record, _) = cmap.best_subtable()?;
    Some((index, record.is_mac_roman(), record.is_symbol()))
}

/// `Cmap::read` and `Cmap::uvs_subtable`: the index of the first mapping of
/// variation sequences.
#[verifier::external_body]
fn read_variants(d: &[u8]) -> (r: Option<u16>)
    ensures
        r == cmap_variants(d@),
{
    let cmap = Cmap::read(FontData::new(d)).ok()?;
    cmap.uvs_subtable().map(|found| found.0)
}

/// Where a mapping of a table stands, if its record can be read and leads
/// anywhere.
pub open spec fn subtable_at(d: Seq<u8>, index: u16) -> Option<int> {
    let n = word(d, 2);
    if fits(d, 0, 4) && index < n && fits(d, 4, 8 * n) && resolves(d, 0, long(d, 8 + 8 * index) as int) {
        Some(long(d, 8 + 8 * index) as int)
    } else {
        None
    }
}

/// The bytes of a mapping.
fn subtable_bytes<'a>(d: &'a [u8], index: u16) -> (r: Option<&'a [u8]>)
    ensures
        r is Some <==> subtable_at(d@, index) is Some,
        r matches Some(v) ==> v@ == tail(d@, subtable_at(d@, index)->0),
{
    if d.len() < 4 {
        return None;
    }
    let n: u16 = be16(d, 2).unwrap();
    if index >= n || d.len() - 4 < 8 * n as usize {
        return None;
    }
    let at: usize = be32(d, 8 + 8 * index as usize).unwrap() as usize;
    if at == 0 || at > d.len() {
        return None;
    }
    Some(vstd::slice::slice_subrange(d, at, d.len()))
}

/// The characters of Mac Roman past the first half, in order.
pub open spec fn mac_roman() -> Seq<u16> {
    seq![
        0x00C4u16, 0x00C5, 0x00C7, 0x00C9, 0x00D1, 0x00D6, 0x00DC, 0x00E1,
        0x00E0, 0x00E2, 0x00E4, 0x00E3, 0x00E5, 0x00E7, 0x00E9, 0x00E8,
        0x00EA, 0x00EB, 0x00ED, 0x00EC, 0x00EE, 0x00EF, 0x00F1, 0x00F3,
        0x00F2, 0x00F4, 0x00F6, 0x00F5, 0x00FA, 0x00F9, 0x00FB, 0x00FC,
        0x2020, 0x00B0, 0x00A2, 0x00A3, 0x00A7, 0x2022, 0x00B6, 0x00DF,
        0x00AE, 0x00A9, 0x2122, 0x00B4, 0x00A8, 0x2260, 0x00C6, 0x00D8,
        0x221E, 0x00B1, 0x2264, 0x2265, 0x00A5, 0x00B5, 0x2202, 0x2211,
        0x220F, 0x03C0, 0x222B, 0x00AA, 0x00BA, 0x03A9, 0x00E6, 0x00F8,
        0x00BF, 0x00A1, 0x00AC, 0x221A, 0x0192, 0x2248, 0x2206, 0x00AB,
        0x00BB, 0x2026, 0x00A0, 0x00C0, 0x00C3, 0x00D5, 0x0152, 0x0153,
        0x2013, 0x2014, 0x201C, 0x201D, 0x2018, 0x2019, 0x00F7, 0x25CA,
        0x00FF, 0x0178, 0x2044, 0x20AC, 0x2039, 0x203A, 0xFB01, 0xFB02,
        0x2021, 0x00B7, 0x201A, 0x201E, 0x2030, 0x00C2, 0x00CA, 0x00C1,
        0x00CB, 0x00C8, 0x00CD, 0x00CE, 0x00CF, 0x00CC, 0x00D3, 0x00D4,
        0xF8FF, 0x00D2, 0x00DA, 0x00DB, 0x00D9, 0x0131, 0x02C6, 0x02DC,
        0x00AF, 0x02D8, 0x02D9, 0x02DA, 0x00B8, 0x02DD, 0x02DB, 0x02C7,
    ]
}

/// Whether `code` is the Mac Roman code of a character; zero stands for a
/// character that Mac Roman lacks.
pub open spec fn is_mac_code(c: u32, code: u32) -> bool {
    let u = c as u16;
    if c <= 0xFFFF && mac_roman().contains(u) {
        &&& 0x80 <= code < 0x100
        &&& mac_roman()[code - 0x80] == u
        &&& forall|k: int| 0 <= k < code - 0x80 ==> #[trigger] mac_roman()[k] != u
    } else {
        code == 0
    }
}

pub fn unicode_to_macroman(c: u32) -> (code: u32)
    ensures
        is_mac_code(c, code),
{
    let table: [u16; 128] = [
        0x00C4, 0x00C5, 0x00C7, 0x00C9, 0x00D1, 0x00D6, 0x00DC, 0x00E1,
        0x00E0, 0x00E2, 0x00E4, 0x00E3, 0x00E5, 0x00E7, 0x00E9, 0x00E8,
        0x00EA, 0x00EB, 0x00ED, 0x00EC, 0x00EE, 0x00EF, 0x00F1, 0x00F3,
        0x00F2, 0x00F4, 0x00F6, 0x00F5, 0x00FA, 0x00F9, 0x00FB, 0x00FC,
        0x2020, 0x00B0, 0x00A2, 0x00A3, 0x00A7, 0x2022, 0x00B6, 0x00DF,
        0x00AE, 0x00A9, 0x2122, 0x00B4, 0x00A8, 0x2260, 0x00C6, 0x00D8,
        0x221E, 0x00B1, 0x2264, 0x2265, 0x00A5, 0x00B5, 0x2202, 0x2211,
        0x220F, 0x03C0, 0x222B, 0x00AA, 0x00BA, 0x03A9, 0x00E6, 0x00F8,
        0x00BF, 0x00A1, 0x00AC, 0x221A, 0x0192, 0x2248, 0x2206, 0x00AB,
        0x00BB, 0x2026, 0x00A0, 0x00C0, 0x00C3, 0x00D5, 0x0152, 0x0153,
        0x2013, 0x2014, 0x201C, 0x201D, 0x2018, 0x2019, 0x00F7, 0x25CA,
        0x00FF, 0x0178, 0x2044, 0x20AC, 0x2039, 0x203A, 0xFB01, 0xFB02,
        0x2021, 0x00B7, 0x201A, 0x201E, 0x2030, 0x00C2, 0x00CA, 0x00C1,
        0x00CB, 0x00C8, 0x00CD, 0x00CE, 0x00CF, 0x00CC, 0x00D3, 0x00D4,
        0xF8FF, 0x00D2, 0x00DA, 0x00DB, 0x00D9, 0x0131, 0x02C6, 0x02DC,
        0x00AF, 0x02D8, 0x02D9, 0x02DA, 0x00B8, 0x02DD, 0x02DB, 0x02C7,
    ];
    assert(table@ =~= mac_roman());
    if c > 0xFFFF {
        return 0;
    }
    let u: u16 = c as u16;
    let mut i: usize = 0;
    while i < 128
        invariant
            i <= 128,
            table@ == mac_roman(),
            c <= 0xFFFF,
            u == c as u16,
            forall|k: int| 0 <= k < i ==> #[trigger] mac_roman()[k] != u,
        decreases 128 - i,
    {
        if table[i] == u {
            assert(mac_roman()[i as int] == u);
            return 0x80 + i as u32;
        }
        i += 1;
    }
    0
}

/// A glyph that was found: the missing glyph is not one.
pub open spec fn found(g: Option<u32>) -> Option<u32> {
    if g == Some(0u32) {
        None
    } else {
        g
    }
}

/// A glyph that was found.
pub fn as_found(g: Option<u32>) -> (r: Option<u32>)
    ensures
        r == found(g),
{
    match g {
        Some(0) => None,
        _ => g,
    }
}

/// The code to look up for a code that a symbol font lacks: on the page of a
/// legacy Arabic font, what that page's table has, and on no page, a symbol's
/// own place. Zero stands for none.
pub open spec fn symbol_code(page: u16, code: u32, pua: u32) -> u32 {
    if page == 0xB200 || page == 0xB300 {
        pua
    } else if page == 0 && code <= 0xFF {
        (0xF000 + code) as u32
    } else {
        0
    }
}

/// The code to look up for a code that a symbol font lacks.
pub fn second_code(page: u16, code: u32, pua: u32) -> (r: u32)
    ensures
        r == symbol_code(page, code, pua),
{
    if page == 0xB200 || page == 0xB300 {
        pua
    } else if page == 0 && code <= 0xFF {
        0xF000 + code
    } else {
        0
    }
}

/// Whether `code` is the first code to look up for a character.
pub open spec fn is_first_code(s: SelectedCmapSubtable, c: u32, code: u32) -> bool {
    if s.is_mac_roman && c > 0x7F {
        is_mac_code(c, code)
    } else {
        code == c
    }
}

/// The first code to look up for a character.
pub fn first_code(s: &SelectedCmapSubtable, c: u32) -> (code: u32)
    ensures
        is_first_code(*s, c, code),
{
    if s.is_mac_roman && c > 0x7F {
        unicode_to_macroman(c)
    } else {
        c
    }
}

/// The mappings of a font that are used.
#[derive(Clone, Debug)]
pub struct Charmap<'a> {
    pub subtable: Option<(SelectedCmapSubtable, &'a [u8])>,
    pub vs_subtable: Option<&'a [u8]>,
}

impl<'a> Charmap<'a> {
    /// The mappings at given places of a table.
    pub fn new(cmap: Option<&'a [u8]>, selected: Option<SelectedCmapSubtable>, vs_index: Option<u16>) -> (r:
        Charmap<'a>)
        ensures
            r.subtable is Some <==> (cmap matches Some(d) && selected matches Some(s) && subtable_at(
                d@,
                s.index,
            ) is Some),
            r.subtable matches Some((s, v)) ==> selected == Some(s) && v@ == tail(
                cmap->0@,
                subtable_at(cmap->0@, s.index)->0,
            ),
            r.vs_subtable is Some <==> (cmap matches Some(d) && vs_index matches Some(i) && subtable_at(
                d@,
                i,
            ) is Some),
            r.vs_subtable matches Some(v) ==> v@ == tail(
                cmap->0@,
                subtable_at(cmap->0@, vs_index->0)->0,
            ),
    {
        let d = match cmap {
            Some(d) => d,
            None => return Charmap { subtable: None, vs_subtable: None },
        };
        let subtable = match selected {
            Some(s) => match subtable_bytes(d, s.index) {
                Some(v) => Some((s, v)),
                None => None,
            },
            None => None,
        };
        let vs_subtable = match vs_index {
            Some(i) => subtable_bytes(d, i),
            None => None,
        };
        Charmap { subtable, vs_subtable }
    }

    /// The best mappings of a table.
    pub fn from_tables(cmap: Option<&'a [u8]>, symbol_font_page: u16) -> (r: Charmap<'a>)
        ensures
            r.subtable is Some <==> (cmap matches Some(d) && cmap_best(d@) matches Some((index, _, _))
                && subtable_at(d@, index) is Some),
            r.subtable matches Some((s, v)) ==> {
                &&& cmap_best(cmap->0@) == Some((s.index, s.is_mac_roman, s.is_symbol))
                &&& s.symbol_font_page == symbol_font_page
                &&& v@ == tail(cmap->0@, subtable_at(cmap->0@, s.index)->0)
            },
            r.vs_subtable is Some <==> (cmap matches Some(d) && cmap_variants(d@) matches Some(i)
                && subtable_at(d@, i) is Some),
            r.vs_subtable matches Some(v) ==> v@ == tail(
                cmap->0@,
                subtable_at(cmap->0@, cmap_variants(cmap->0@)->0)->0,
            ),
    {
        match cmap {
            Some(d) => {
                let selected = match read_best(d) {
                    Some((index, is_mac_roman, is_symbol)) => Some(
                        SelectedCmapSubtable { index, is_mac_roman, is_symbol, symbol_font_page },
                    ),
                    None => None,
                };
                Charmap::new(Some(d), selected, read_variants(d))
            },
            None => Charmap { subtable: None, vs_subtable: None },
        }
    }

    /// Whether `g` is the glyph of a character: of its code, or, in a symbol font
    /// that lacks it, of the code on the font's own page.
    pub open spec fn maps(&self, c: u32, pua: u32, g: Option<u32>) -> bool {
        match self.subtable {
            None => g is None,
            Some((s, d)) => exists|code: u32| #[trigger]
                is_first_code(s, c, code) && g == (if found(cmap_glyph(d@, code)) is None && s.is_symbol
                    && symbol_code(s.symbol_font_page, code, pua) != 0 {
                    found(cmap_glyph(d@, symbol_code(s.symbol_font_page, code, pua)))
                } else {
                    found(cmap_glyph(d@, code))
                }),
        }
    }

    /// The glyph of a character. `pua` is what the table of a legacy Arabic
    /// font's page has for the character's code, zero for nothing.
    pub fn map(&self, c: u32, pua: u32) -> (g: Option<u32>)
        ensures
            self.maps(c, pua, g),
            g != Some(0u32),
    {
        match &self.subtable {
            None => None,
            Some((s, d)) => {
                let code: u32 = first_code(s, c);
                assert(is_first_code(*s, c, code));
                let g = as_found(read_glyph(d, code));
                if g.is_none() && s.is_symbol {
                    let other: u32 = second_code(s.symbol_font_page, code, pua);
                    if other != 0 {
                        return as_found(read_glyph(d, other));
                    }
                }
                g
            },
        }
    }

    /// The glyph of a character with a variation selector, if the font says
    /// anything of the two: the default glyph of the character, or one of its
    /// own.
    pub fn map_variant(&self, c: u32, vs: u32, pua: u32) -> (g: Option<u32>)
        ensures
            match self.vs_subtable {
                None => g is None,
                Some(d) => match cmap_variant(d@, c, vs) {
                    None => g is None,
                    Some(None) => self.maps(c, pua, g),
                    Some(Some(v)) => g == Some(v),
                },
            },
    {
        match &self.vs_subtable {
            None => None,
            Some(d) => match read_variant(d, c, vs) {
                None => None,
                Some(None) => self.map(c, pua),
                Some(Some(v)) => Some(v),
            },
        }
    }
}

/// The first code for a character is determined by the character.
pub proof fn a_character_has_one_code(s: SelectedCmapSubtable, c: u32, a: u32, b: u32)
    requires
        is_first_code(s, c, a),
        is_first_code(s, c, b),
    ensures
        a == b,
{
    if s.is_mac_roman && c > 0x7F && mac_roman().contains((c % 0x1_0000) as u16) {
        if a < b {
            assert(mac_roman()[a - 0x80] != (c % 0x1_0000) as u16);
        }
        if b < a {
            assert(mac_roman()[b - 0x80] != (c % 0x1_0000) as u16);
        }
    }
}

/// Mac Roman gives each of its characters past the first half a code of its own,
/// from which the character can be told, and every other character none.
pub proof fn a_mac_code_tells_its_character(c: u32, e: u32, code: u32, other: u32)
    requires
        call_ensures(unicode_to_macroman, (c,), code),
        call_ensures(unicode_to_macroman, (e,), other),
    ensures
        code == 0 || 0x80 <= code < 0x100,
        code == other && code != 0 ==> c == e,
        code != 0 ==> c == mac_roman()[code - 0x80],
        code == 0 ==> forall|k: int| 0 <= k < 128 ==> #[trigger] mac_roman()[k] != c,
{
    assert(mac_roman().len() == 128);
    if code == 0 {
        assert forall|k: int| 0 <= k < 128 implies #[trigger] mac_roman()[k] != c by {
            if mac_roman()[k] == c {
                assert(mac_roman().contains(c as u16));
            }
        }
    }
}

/// The code of a character is the character, but for what a Mac Roman mapping
/// has past the first half.
pub proof fn a_code_is_the_character_or_mac_romans(
    s: &SelectedCmapSubtable,
    c: u32,
    code: u32,
    mac: u32,
)
    requires
        call_ensures(first_code, (s, c), code),
        call_ensures(unicode_to_macroman, (c,), mac),
    ensures
        !s.is_mac_roman || c < 0x80 ==> code == c,
        s.is_mac_roman && c >= 0x80 ==> code == mac,
{
    if s.is_mac_roman && c > 0x7F {
        a_character_has_one_code(*s, c, code, mac);
    }
}

/// A symbol font keeps what it has for the first page of codes on its private
/// page; what it has of Arabic depends on the page, and nothing else is tried.
pub proof fn a_symbol_stands_on_its_fonts_page(page: u16, code: u32, pua: u32, r: u32)
    requires
        call_ensures(second_code, (page, code, pua), r),
    ensures
        page == 0 && code < 0x100 ==> 0xF000 <= r <= 0xF0FF && r - 0xF000 == code,
        page == 0 && code >= 0x100 ==> r == 0,
        page == 0xB200 ==> r == pua,
        page == 0xB300 ==> r == pua,
        page != 0 && page != 0xB200 && page != 0xB300 ==> r == 0,
{
}

/// A character gets the glyph of its code wherever the mapping has one. Only a
/// symbol font that lacks it looks further, at the code that stands in for it;
/// no character gets the missing glyph.
pub proof fn a_character_gets_its_codes_glyph<'a>(
    m: &Charmap<'a>,
    c: u32,
    pua: u32,
    code: u32,
    other: u32,
    g: Option<u32>,
)
    requires
        m.subtable is Some,
        call_ensures(first_code, (&(m.subtable->0).0, c), code),
        call_ensures(second_code, ((m.subtable->0).0.symbol_font_page, code, pua), other),
        call_ensures(Charmap::map, (m, c, pua), g),
    ensures
        g != Some(0u32),
        ({
            let (s, d) = m.subtable->0;
            let own = cmap_glyph(d@, code);
            let stand_in = cmap_glyph(d@, other);
            let lacks = own is None || own == Some(0u32);
            &&& !lacks ==> g == own
            &&& lacks && (!s.is_symbol || other == 0) ==> g is None
            &&& lacks && s.is_symbol && other != 0 && (stand_in is None || stand_in == Some(0u32)) ==> g is None
            &&& lacks && s.is_symbol && other != 0 && stand_in is Some && stand_in->0 != 0 ==> g == stand_in
        }),
{
    let (s, d) = m.subtable->0;
    let chosen = choose|k: u32| #[trigger]
        is_first_code(s, c, k) && g == (if found(cmap_glyph(d@, k)) is None && s.is_symbol && symbol_code(
            s.symbol_font_page,
            k,
            pua,
        ) != 0 {
            found(cmap_glyph(d@, symbol_code(s.symbol_font_page, k, pua)))
        } else {
            found(cmap_glyph(d@, k))
        });
    a_character_has_one_code(s, c, chosen, code);
}

/// What a font says of a character with a selector is a glyph of its own, or the
/// character's own glyph, and otherwise nothing; a font without mappings maps
/// nothing.
pub proof fn a_variant_is_its_own_or_the_default<'a>(
    m: &Charmap<'a>,
    c: u32,
    vs: u32,
    pua: u32,
    plain: Option<u32>,
    g: Option<u32>,
)
    requires
        call_ensures(Charmap::map, (m, c, pua), plain),
        call_ensures(Charmap::map_variant, (m, c, vs, pua), g),
    ensures
        m.subtable is None ==> plain is None,
        m.vs_subtable is None ==> g is None,
        m.vs_subtable is Some ==> ({
            let said = cmap_variant(m.vs_subtable->0@, c, vs);
            &&& said is None ==> g is None
            &&& said is Some && said->0 is Some ==> g == said->0
            &&& said is Some && said->0 is None ==> g == plain
        }),
{
    if m.vs_subtable is Some && cmap_variant(m.vs_subtable->0@, c, vs) == Some(None::<u32>) {
        a_character_has_one_glyph(m, c, pua, g, plain);
    }
}

/// The mapping of variation sequences is the first of its format, and every one
/// before it is of another.
pub proof fn the_first_variant_mapping_is_used(d: Seq<u8>, i: int)
    requires
        0 <= i,
    ensures
        variants_from(d, i) matches Some(k) ==> {
            &&& i <= k < word(d, 2)
            &&& word(d, long(d, 8 + 8 * k) as int) == 14
            &&& forall|j: int| i <= j < k ==> !#[trigger] maps_variants(d, j as u16)
        },
        variants_from(d, i) is None ==> forall|j: int|
            i <= j < word(d, 2) ==> !#[trigger] maps_variants(d, j as u16),
    decreases word(d, 2) - i,
{
    if i < word(d, 2) && !maps_variants(d, i as u16) {
        the_first_variant_mapping_is_used(d, i + 1);
    }
}

/// The glyph of a character is determined by the mapping and by what the font's
/// page has for its code.
pub proof fn a_character_has_one_glyph<'a>(m: &Charmap<'a>, c: u32, pua: u32, g: Option<u32>, h: Option<u32>)
    requires
        m.maps(c, pua, g),
        m.maps(c, pua, h),
    ensures
        g == h,
{
    if m.subtable is Some {
        let (s, d) = m.subtable->0;
        let a = choose|k: u32| #[trigger]
            is_first_code(s, c, k) && g == (if found(cmap_glyph(d@, k)) is None && s.is_symbol && symbol_code(
                s.symbol_font_page,
                k,
                pua,
            ) != 0 {
                found(cmap_glyph(d@, symbol_code(s.symbol_font_page, k, pua)))
            } else {
                found(cmap_glyph(d@, k))
            });
        let b = choose|k: u32| #[trigger]
            is_first_code(s, c, k) && h == (if found(cmap_glyph(d@, k)) is None && s.is_symbol && symbol_code(
                s.symbol_font_page,
                k,
                pua,
            ) != 0 {
                found(cmap_glyph(d@, symbol_code(s.symbol_font_page, k, pua)))
            } else {
                found(cmap_glyph(d@, k))
            });
        a_character_has_one_code(s, c, a, b);
    }
}

/// A mapping is read from where its record says: the records follow the count,
/// eight bytes each, with the place in the last four; a mapping past the count is
/// none.
pub proof fn a_mapping_stands_where_its_record_says<'a>(
    d: &'a [u8],
    s: SelectedCmapSubtable,
    vs: u16,
    r: Charmap<'a>,
)
    requires
        call_ensures(Charmap::new, (Some(d), Some(s), Some(vs)), r),
        d@.len() >= 4,
        4 + 8 * word(d@, 2) <= d@.len(),
    ensures
        s.index >= word(d@, 2) ==> r.subtable is None,
        vs >= word(d@, 2) ==> r.vs_subtable is None,
        s.index < word(d@, 2) ==> ({
            let at = long(d@, 4 + 8 * s.index + 4);
            &&& r.subtable is Some <==> 0 < at <= d@.len()
            &&& r.subtable is Some ==> (r.subtable->0).0 == s && (r.subtable->0).1@.len() == d@.len() - at
            &&& r.subtable is Some && at + 2 <= d@.len() ==> word((r.subtable->0).1@, 0) == word(d@, at as int)
        }),
        vs < word(d@, 2) ==> ({
            let at = long(d@, 4 + 8 * vs + 4);
            &&& r.vs_subtable is Some <==> 0 < at <= d@.len()
            &&& r.vs_subtable is Some && at + 2 <= d@.len() ==> word(r.vs_subtable->0@, 0) == word(d@, at as int)
        }),
{
}

} // verus!
