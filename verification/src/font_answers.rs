//! What a font with callbacks, a scale and a direction answers, from what its
//! callbacks and its tables say.

use vstd::prelude::*;

use crate::buffer::{saturated, saturating_add, saturating_sub};
use crate::font_funcs::{half_towards_zero, horizontal_origin};
use crate::glyph_metrics::GlyphExtents;
use crate::numbers::{a_written_number_reads_back, digits, number, parse_number, push_number};

verus! {

/// Which callbacks a font carries.
#[derive(Copy, Clone, Debug, PartialEq, Eq, Structural)]
pub enum Carried {
    /// None of its own: its parent answers.
    Nothing,
    /// The ones that read the font's own tables.
    Builtin,
    /// A caller's.
    Custom,
}

/// Whether a font, or any it descends from, carries a caller's callbacks. The
/// chain starts with the font. The built-in callbacks are what shaping does
/// anyway.
pub fn has_callbacks(chain: &[Carried]) -> (r: bool)
    ensures
        r == exists|i: int| 0 <= i < chain@.len() && #[trigger] chain@[i] == Carried::Custom,
{
    let mut i: usize = 0;
    while i < chain.len()
        invariant
            i <= chain@.len(),
            forall|k: int| 0 <= k < i ==> #[trigger] chain@[k] != Carried::Custom,
        decreases chain@.len() - i,
    {
        if matches!(chain[i], Carried::Custom) {
            assert(chain@[i as int] == Carried::Custom);
            return true;
        }
        i += 1;
    }
    false
}

/// Who answers: a callback, or the font's own tables where nobody carries
/// callbacks.
#[derive(Copy, Clone, Debug)]
pub enum Answer<T> {
    Builtin,
    Value(T),
}

/// What is answered, from what the callbacks and the tables say. Callbacks that
/// do not answer leave nothing: they are not blended with the tables.
pub fn answered<T>(asked: Option<Answer<T>>, builtin: Option<T>) -> (r: Option<T>)
    ensures
        r == (match asked {
            None => None,
            Some(Answer::Value(v)) => Some(v),
            Some(Answer::Builtin) => builtin,
        }),
{
    match asked {
        None => None,
        Some(Answer::Value(v)) => Some(v),
        Some(Answer::Builtin) => builtin,
    }
}

/// The glyph of a character, with or without a variation selector: a selector
/// that the font has no glyph for falls back to the plain mapping.
pub fn glyph_with_selector(selector: u32, variation: Option<u32>, nominal: Option<u32>) -> (r: Option<u32>)
    ensures
        r == (if selector != 0 && variation is Some {
            variation
        } else {
            nominal
        }),
{
    if selector != 0 {
        if let Some(g) = variation {
            return Some(g);
        }
    }
    nominal
}

/// An advance in a direction, as a step along each axis.
pub fn advance_for_direction(horizontal: bool, h_advance: i32, v_advance: i32) -> (r: (i32, i32))
    ensures
        r == (if horizontal {
            (h_advance, 0i32)
        } else {
            (0i32, v_advance)
        }),
{
    if horizontal {
        (h_advance, 0)
    } else {
        (0, v_advance)
    }
}

/// Where a glyph hangs from in a direction: horizontally its own origin, and
/// nothing is guessed for it; vertically where the font says, and where it
/// cannot, the middle of the advance, at the ascender.
pub open spec fn origin_in(horizontal: bool, v_origin: Option<(i32, i32)>, h_advance: i32, ascender: i32) -> (
    i32,
    i32,
) {
    if horizontal {
        (0, 0)
    } else {
        match v_origin {
            Some(o) => o,
            None => (half_towards_zero(h_advance) as i32, ascender),
        }
    }
}

/// Where a glyph hangs from in a direction.
pub fn origin_for_direction(horizontal: bool, v_origin: Option<(i32, i32)>, h_advance: i32, ascender: i32) -> (r: (
    i32,
    i32,
))
    ensures
        r == origin_in(horizontal, v_origin, h_advance, ascender),
{
    if horizontal {
        return (0, 0);
    }
    match v_origin {
        Some(o) => o,
        None => (horizontal_origin(h_advance), ascender),
    }
}

/// Moves a point from the glyph's own origin to the direction's.
pub fn add_origin(point: (i32, i32), origin: (i32, i32)) -> (r: (i32, i32))
    ensures
        r == (saturated(point.0 + origin.0), saturated(point.1 + origin.1)),
{
    (saturating_add(point.0, origin.0), saturating_add(point.1, origin.1))
}

/// Moves a point from the direction's origin back to the glyph's own.
pub fn subtract_origin(point: (i32, i32), origin: (i32, i32)) -> (r: (i32, i32))
    ensures
        r == (saturated(point.0 - origin.0), saturated(point.1 - origin.1)),
{
    (saturating_sub(point.0, origin.0), saturating_sub(point.1, origin.1))
}

/// Moving a point to the direction's origin and back leaves it where it was, as
/// long as the numbers hold it.
pub proof fn subtracting_an_origin_undoes_adding_it(x: i32, origin: i32)
    requires
        i32::MIN <= x + origin <= i32::MAX,
    ensures
        saturated(saturated(x + origin) - origin) == x,
{
}

/// The extents of a glyph, measured from the direction's origin.
pub fn extents_for_origin(extents: GlyphExtents, origin: (i32, i32)) -> (r: GlyphExtents)
    ensures
        r == (GlyphExtents {
            x_bearing: saturated(extents.x_bearing - origin.0),
            y_bearing: saturated(extents.y_bearing - origin.1),
            ..extents
        }),
{
    GlyphExtents {
        x_bearing: saturating_sub(extents.x_bearing, origin.0),
        y_bearing: saturating_sub(extents.y_bearing, origin.1),
        width: extents.width,
        height: extents.height,
    }
}

/// As much of some bytes as fits `size`, always ended by a zero.
pub fn cstr_bytes(bytes: &[u8], size: usize) -> (out: Vec<u8>)
    requires
        size > 0,
    ensures
        out@ == bytes@.take(vstd::math::min(bytes@.len() as int, size - 1)).push(0),
{
    let take: usize = if bytes.len() < size - 1 {
        bytes.len()
    } else {
        size - 1
    };
    let mut out: Vec<u8> = Vec::new();
    let mut i: usize = 0;
    while i < take
        invariant
            i <= take <= bytes@.len(),
            out@ == bytes@.take(i as int),
        decreases take - i,
    {
        out.push(bytes[i]);
        assert(out@ =~= bytes@.take(i + 1));
        i += 1;
    }
    out.push(0);
    out
}

/// Names by their views.
pub open spec fn named(names: Seq<Option<Vec<char>>>, i: int) -> Option<Seq<char>> {
    match names[i] {
        Some(n) => Some(n@),
        None => None,
    }
}

fn same_text(a: &Vec<char>, b: &[char]) -> (r: bool)
    ensures
        r == (a@ == b@),
{
    if a.len() != b.len() {
        return false;
    }
    let mut i: usize = 0;
    while i < a.len()
        invariant
            i <= a@.len(),
            a@.len() == b@.len(),
            forall|k: int| 0 <= k < i ==> a@[k] == b@[k],
        decreases a@.len() - i,
    {
        if a[i] != b[i] {
            assert(a@[i as int] != b@[i as int]);
            return false;
        }
        i += 1;
    }
    assert(a@ =~= b@);
    true
}

/// The first glyph that a face gives a name to.
pub fn glyph_from_name(names: &[Option<Vec<char>>], wanted: &[char]) -> (r: Option<usize>)
    ensures
        match r {
            Some(i) => i < names@.len() && named(names@, i as int) == Some(wanted@) && forall|k: int|
                0 <= k < i ==> #[trigger] named(names@, k) != Some(wanted@),
            None => forall|k: int| 0 <= k < names@.len() ==> #[trigger] named(names@, k) != Some(wanted@),
        },
{
    let mut i: usize = 0;
    while i < names.len()
        invariant
            i <= names@.len(),
            forall|k: int| 0 <= k < i ==> #[trigger] named(names@, k) != Some(wanted@),
        decreases names@.len() - i,
    {
        if let Some(name) = &names[i] {
            if same_text(name, wanted) {
                return Some(i);
            }
        }
        i += 1;
    }
    None
}

/// What a glyph without a name goes by.
pub open spec fn glyph_text(glyph: u32) -> Seq<char> {
    seq!['g', 'i', 'd'] + digits(glyph as int, 10)
}

/// What a glyph goes by: the face's own name for it, and its number where the
/// face names it nothing.
pub fn glyph_to_string(name: Option<&[char]>, glyph: u32) -> (out: Vec<char>)
    ensures
        out@ == (match name {
            Some(n) => n@,
            None => glyph_text(glyph),
        }),
{
    let mut out: Vec<char> = Vec::new();
    match name {
        Some(n) => {
            let mut i: usize = 0;
            while i < n.len()
                invariant
                    i <= n@.len(),
                    out@ == n@.take(i as int),
                decreases n@.len() - i,
            {
                out.push(n[i]);
                assert(out@ =~= n@.take(i + 1));
                i += 1;
            }
            assert(n@.take(i as int) =~= n@);
        },
        None => {
            out.push('g');
            out.push('i');
            out.push('d');
            push_number(&mut out, glyph as u64, 10);
            assert(out@ =~= glyph_text(glyph));
        },
    }
    out
}

/// What text that is no glyph's name stands for.
#[derive(Copy, Clone, Debug, PartialEq, Eq, Structural)]
pub enum Named {
    Glyph(u32),
    /// The glyph of a character.
    Character(u32),
    Nothing,
}

/// What follows three characters, if text starts with them.
pub open spec fn after(s: Seq<char>, a: char, b: char, c: char) -> Option<Seq<char>> {
    if s.len() >= 3 && s[0] == a && s[1] == b && s[2] == c {
        Some(s.skip(3))
    } else {
        None
    }
}

/// What text stands for: a glyph by number, with `gid` before it or not, or a
/// character by hexadecimal number with `uni` before it.
pub open spec fn named_glyph(s: Seq<char>) -> Named {
    match number(s, 10) {
        Some(g) => Named::Glyph(g),
        None => match after(s, 'g', 'i', 'd') {
            Some(t) => match number(t, 10) {
                Some(g) => Named::Glyph(g),
                None => Named::Nothing,
            },
            None => match after(s, 'u', 'n', 'i') {
                Some(t) => match number(t, 16) {
                    Some(c) => Named::Character(c),
                    None => Named::Nothing,
                },
                None => Named::Nothing,
            },
        },
    }
}

/// What text stands for: the glyph that the face gives that name, and only where
/// it gives it to none, what the text says by itself.
pub fn glyph_from_string(found: Option<u32>, s: &[char]) -> (r: Named)
    ensures
        r == (match found {
            Some(g) => Named::Glyph(g),
            None => named_glyph(s@),
        }),
{
    if let Some(g) = found {
        return Named::Glyph(g);
    }
    if let Some(g) = parse_number(s, 10) {
        return Named::Glyph(g);
    }
    if s.len() < 3 {
        return Named::Nothing;
    }
    let rest = vstd::slice::slice_subrange(s, 3, s.len());
    assert(rest@ =~= s@.skip(3));
    if s[0] == 'g' && s[1] == 'i' && s[2] == 'd' {
        return match parse_number(rest, 10) {
            Some(g) => Named::Glyph(g),
            None => Named::Nothing,
        };
    }
    if s[0] == 'u' && s[1] == 'n' && s[2] == 'i' {
        return match parse_number(rest, 16) {
            Some(c) => Named::Character(c),
            None => Named::Nothing,
        };
    }
    Named::Nothing
}

/// The text that a glyph without a name goes by names that glyph.
pub proof fn a_glyphs_text_names_it(glyph: u32)
    ensures
        named_glyph(glyph_text(glyph)) == Named::Glyph(glyph),
{
    let s = glyph_text(glyph);
    a_written_number_reads_back(glyph, 10);
    assert(s.skip(3) =~= digits(glyph as int, 10));
    assert(s[0] == 'g');
    lemma_no_number(s, 10);
}

/// Text that starts with a letter past the digits is no number.
proof fn lemma_no_number(s: Seq<char>, base: int)
    requires
        s.len() > 0,
        s[0] == 'g',
    ensures
        number(s, base) is None,
{
    assert(crate::numbers::unsigned(s) == s);
    lemma_bad_digit(s, base, s.len());
}

proof fn lemma_bad_digit(s: Seq<char>, base: int, n: nat)
    requires
        1 <= n <= s.len(),
        s[0] == 'g',
    ensures
        crate::numbers::value(s.take(n as int), base) is None,
        n == s.len() ==> crate::numbers::value(s, base) is None,
    decreases n,
{
    let t = s.take(n as int);
    if n > 1 {
        lemma_bad_digit(s, base, (n - 1) as nat);
        assert(t.drop_last() =~= s.take(n - 1));
    } else {
        assert(t.last() == 'g');
    }
    if n == s.len() {
        assert(t =~= s);
    }
}

/// A position on an axis, as sixteen bits hold it.
pub open spec fn coord_bits(v: i32) -> i16 {
    let low = v as int % 0x1_0000;
    if low >= 0x8000 {
        (low - 0x1_0000) as i16
    } else {
        low as i16
    }
}

/// The positions of an instance on its axes, from wider numbers: the low sixteen
/// bits of each.
pub fn coords_from(coords: &[i32]) -> (out: Vec<i16>)
    ensures
        out@ == Seq::new(coords@.len(), |i: int| coord_bits(coords@[i])),
{
    let mut out: Vec<i16> = Vec::new();
    let mut i: usize = 0;
    while i < coords.len()
        invariant
            i <= coords@.len(),
            out@ == Seq::new(i as nat, |k: int| coord_bits(coords@[k])),
        decreases coords@.len() - i,
    {
        let v: i64 = coords[i] as i64 + 0x1_0000_0000;
        let low: i64 = v % 0x1_0000;
        let bits: i16 = if low >= 0x8000 {
            (low - 0x1_0000) as i16
        } else {
            low as i16
        };
        out.push(bits);
        assert(out@ =~= Seq::new((i + 1) as nat, |k: int| coord_bits(coords@[k])));
        i += 1;
    }
    out
}

/// The positions of an instance on its axes, as wider numbers.
pub fn coords_widened(coords: &[i16]) -> (out: Vec<i32>)
    ensures
        out@ == Seq::new(coords@.len(), |i: int| coords@[i] as i32),
{
    let mut out: Vec<i32> = Vec::new();
    let mut i: usize = 0;
    while i < coords.len()
        invariant
            i <= coords@.len(),
            out@ == Seq::new(i as nat, |k: int| coords@[k] as i32),
        decreases coords@.len() - i,
    {
        out.push(coords[i] as i32);
        assert(out@ =~= Seq::new((i + 1) as nat, |k: int| coords@[k] as i32));
        i += 1;
    }
    out
}

/// Positions that were widened come back.
pub proof fn widened_coords_come_back(v: i16)
    ensures
        coord_bits(v as i32) == v,
{
}

/// How far each glyph of a run advances, as is answered for one.
pub fn advances<F: Fn(u32) -> i32>(glyphs: &[u32], advance: F) -> (out: Vec<i32>)
    requires
        forall|g: u32| #[trigger] call_requires(advance, (g,)),
    ensures
        out@.len() == glyphs@.len(),
        forall|i: int| 0 <= i < out@.len() ==> call_ensures(advance, (glyphs@[i],), #[trigger] out@[i]),
{
    let mut out: Vec<i32> = Vec::new();
    let mut i: usize = 0;
    while i < glyphs.len()
        invariant
            i <= glyphs@.len(),
            forall|g: u32| #[trigger] call_requires(advance, (g,)),
            out@.len() == i,
            forall|k: int| 0 <= k < i ==> call_ensures(advance, (glyphs@[k],), #[trigger] out@[k]),
        decreases glyphs@.len() - i,
    {
        out.push(advance(glyphs[i]));
        i += 1;
    }
    out
}

/// A caller's callbacks are seen wherever in the chain they are; the ones that
/// read the font's own tables are not a caller's.
pub proof fn callbacks_are_inherited(chain: &[Carried], longer: &[Carried], r: bool, s: bool)
    requires
        call_ensures(has_callbacks, (chain,), r),
        call_ensures(has_callbacks, (longer,), s),
        longer@.len() == chain@.len() + 1,
        longer@.skip(1) == chain@,
    ensures
        longer@[0] == Carried::Custom ==> s,
        longer@[0] != Carried::Custom ==> s == r,
        chain@.len() == 0 ==> !r,
{
    if r {
        let i = choose|i: int| 0 <= i < chain@.len() && #[trigger] chain@[i] == Carried::Custom;
        assert(longer@.skip(1)[i] == longer@[i + 1]);
    }
    if s {
        let i = choose|i: int| 0 <= i < longer@.len() && #[trigger] longer@[i] == Carried::Custom;
        if i > 0 {
            assert(longer@.skip(1)[i - 1] == longer@[i]);
        }
    }
}

/// Callbacks that are silent leave nothing, whatever the tables say; the tables
/// answer only where no callbacks are carried.
pub proof fn tables_answer_only_without_callbacks<T>(
    asked: Option<Answer<T>>,
    builtin: Option<T>,
    r: Option<T>,
)
    requires
        call_ensures(answered::<T>, (asked, builtin), r),
    ensures
        asked is None ==> r is None,
        asked is Some && asked->0 is Value ==> r == Some(asked->0->Value_0),
        asked is Some && asked->0 is Builtin ==> r == builtin,
{
}

/// A selector picks its own glyph where the font has one, and changes nothing
/// where it has none; no selector picks no variation.
pub proof fn a_selector_falls_back_to_the_plain_glyph(
    selector: u32,
    variation: Option<u32>,
    nominal: Option<u32>,
    r: Option<u32>,
    plain: Option<u32>,
)
    requires
        call_ensures(glyph_with_selector, (selector, variation, nominal), r),
        call_ensures(glyph_with_selector, (0u32, variation, nominal), plain),
    ensures
        plain == nominal,
        variation is None ==> r == nominal,
        selector != 0 && variation is Some ==> r == variation,
{
}

/// A glyph advances along its line only, and hangs from its own origin on a
/// horizontal one; on a vertical one it hangs from where the font says, or from
/// the middle of its advance at the ascender.
pub proof fn a_glyph_advances_along_its_line(
    h: i32,
    v: i32,
    v_origin: Option<(i32, i32)>,
    ascender: i32,
    along_x: (i32, i32),
    along_y: (i32, i32),
    origin_x: (i32, i32),
    origin_y: (i32, i32),
)
    requires
        call_ensures(advance_for_direction, (true, h, v), along_x),
        call_ensures(advance_for_direction, (false, h, v), along_y),
        call_ensures(origin_for_direction, (true, v_origin, h, ascender), origin_x),
        call_ensures(origin_for_direction, (false, v_origin, h, ascender), origin_y),
    ensures
        along_x.0 == h && along_x.1 == 0,
        along_y.0 == 0 && along_y.1 == v,
        origin_x.0 == 0 && origin_x.1 == 0,
        v_origin is Some ==> origin_y == v_origin->0,
        v_origin is None ==> origin_y.1 == ascender,
        v_origin is None ==> -1 <= h - 2 * origin_y.0 <= 1,
        v_origin is None && h >= 0 ==> 0 <= h - 2 * origin_y.0,
        v_origin is None && h <= 0 ==> h - 2 * origin_y.0 <= 0,
{
}

/// A point moved to the direction's origin and back is where it was, and extents
/// are measured from the origin as a point is, and keep their size.
pub proof fn extents_are_measured_from_the_origin(
    extents: GlyphExtents,
    origin: (i32, i32),
    there: (i32, i32),
    back: (i32, i32),
    r: GlyphExtents,
)
    requires
        call_ensures(subtract_origin, ((extents.x_bearing, extents.y_bearing), origin), there),
        call_ensures(add_origin, (there, origin), back),
        call_ensures(extents_for_origin, (extents, origin), r),
        -0x4000_0000 <= extents.x_bearing <= 0x4000_0000,
        -0x4000_0000 <= extents.y_bearing <= 0x4000_0000,
        -0x3fff_ffff <= origin.0 <= 0x3fff_ffff,
        -0x3fff_ffff <= origin.1 <= 0x3fff_ffff,
    ensures
        back == (extents.x_bearing, extents.y_bearing),
        there.0 + origin.0 == extents.x_bearing,
        there.1 + origin.1 == extents.y_bearing,
        r.x_bearing == there.0,
        r.y_bearing == there.1,
        r.width == extents.width,
        r.height == extents.height,
{
}

/// Bytes that fit are kept whole, with a zero after them; what does not fit is
/// cut off at the size.
pub proof fn text_is_cut_to_its_size(bytes: &[u8], size: usize, out: Vec<u8>)
    requires
        size > 0,
        call_ensures(cstr_bytes, (bytes, size), out),
    ensures
        0 < out@.len() <= size,
        out@.last() == 0,
        bytes@.len() < size ==> out@.len() == bytes@.len() + 1,
        bytes@.len() >= size ==> out@.len() == size,
        forall|i: int| 0 <= i < out@.len() - 1 ==> #[trigger] out@[i] == bytes@[i],
{
}

/// A name wins over what its text says. Otherwise a number names the glyph of
/// that number, as does one with `gid` before it, and one in base sixteen with
/// `uni` before it a character.
pub proof fn a_name_wins_over_a_number(found: Option<u32>, s: &[char], g: u32, r: Named)
    requires
        call_ensures(glyph_from_string, (found, s), r),
    ensures
        found is Some ==> r == Named::Glyph(found->0),
        found is None && number(s@, 10) == Some(g) ==> r == Named::Glyph(g),
        found is None && s@ == seq!['g', 'i', 'd'] + digits(g as int, 10) ==> r == Named::Glyph(g),
        found is None && number(s@, 10) is None && s@.len() >= 3 && s@[0] == 'u' && s@[1] == 'n' && s@[2] == 'i'
            && number(s@.skip(3), 16) == Some(g) ==> r == Named::Character(g),
        found is None && number(s@, 10) is None && s@.len() < 3 ==> r == Named::Nothing,
        r is Character ==> s@.len() >= 3 && s@[0] == 'u',
{
    a_glyphs_text_names_it(g);
    assert(glyph_text(g) == seq!['g', 'i', 'd'] + digits(g as int, 10));
}

/// A position narrowed to sixteen bits is the same modulo their number, and one
/// that sixteen bits hold is kept; widening changes none.
pub proof fn positions_are_narrowed_to_sixteen_bits(
    wide: &[i32],
    narrow: Vec<i16>,
    given: &[i16],
    widened: Vec<i32>,
    i: int,
)
    requires
        call_ensures(coords_from, (wide,), narrow),
        call_ensures(coords_widened, (given,), widened),
        given@ == narrow@,
        0 <= i < wide@.len(),
    ensures
        narrow@.len() == wide@.len(),
        widened@.len() == wide@.len(),
        (wide@[i] - narrow@[i]) % 0x1_0000 == 0,
        widened@[i] == narrow@[i],
        -0x8000 <= wide@[i] < 0x8000 ==> widened@[i] == wide@[i],
{
    assert(narrow@[i] == coord_bits(wide@[i]));
    let w = wide@[i] as int;
    let low = w % 0x1_0000;
    assert((w - low) % 0x1_0000 == 0);
    assert((w - (low - 0x1_0000)) % 0x1_0000 == 0);
    assert(widened@[i] == narrow@[i]);
}

} // verus!
