//! The text that is shaped and the glyphs it becomes, in one place.

use vstd::prelude::*;
use vstd::string::*;

use crate::buffer::{GlyphInfo, GlyphPosition};
use crate::shape_plan::{Direction, Language, Script, ShapePlan};
use crate::text::{utf8_bytes, BufferClusterLevel, BufferFlags};

verus! {

/// The script of text whose script is not known.
pub const UNKNOWN_SCRIPT: u32 = 0x5A7A_7A7A;

/// What a buffer holds.
#[derive(Copy, Clone, Debug, PartialEq, Eq, Structural)]
pub enum BufferContentType {
    Unicode,
    Glyphs,
}

/// A buffer of characters to shape, or of the glyphs they became, with the
/// properties of the text and what the caller asked for.
#[derive(Clone, Debug)]
pub struct Buffer {
    pub infos: Vec<GlyphInfo>,
    /// Where the glyphs go; nothing until it is asked for.
    pub positions: Vec<GlyphPosition>,
    pub content_type: Option<BufferContentType>,
    pub direction: Direction,
    pub script: Script,
    pub language: Option<Language>,
    pub cluster_level: BufferClusterLevel,
    pub flags: BufferFlags,
    pub invisible_glyph: Option<u32>,
    pub not_found_variation_selector_glyph: Option<u32>,
}

/// An item that stands for nothing.
pub open spec fn zero_info() -> GlyphInfo {
    GlyphInfo { glyph_id: 0, mask: 0, cluster: 0 }
}

/// A character as an item.
pub open spec fn item(codepoint: u32, cluster: u32) -> GlyphInfo {
    GlyphInfo { glyph_id: codepoint, mask: 0, cluster }
}

/// Characters as items, each with the byte that it starts at.
pub open spec fn items_of(s: Seq<char>) -> Seq<GlyphInfo> {
    Seq::new(s.len(), |i: int| item(s[i] as u32, utf8_bytes(s.take(i)) as u32))
}

/// Where the run of items with the same cluster as item `i` starts.
pub open spec fn run_start(infos: Seq<GlyphInfo>, i: int) -> int
    decreases i,
{
    if i <= 0 || infos[i - 1].cluster != infos[i].cluster {
        i
    } else {
        run_start(infos, i - 1)
    }
}

/// Items with their runs of equal cluster in the other order, and the items of
/// each run as they stand.
pub open spec fn clusters_reversed(infos: Seq<GlyphInfo>) -> Seq<GlyphInfo>
    decreases infos.len(),
{
    if infos.len() == 0 {
        seq![]
    } else {
        let from = run_start(infos, infos.len() - 1);
        if 0 <= from < infos.len() {
            infos.skip(from) + clusters_reversed(infos.take(from))
        } else {
            seq![]
        }
    }
}

/// Items numbered from zero.
pub open spec fn renumbered(infos: Seq<GlyphInfo>) -> Seq<GlyphInfo> {
    Seq::new(infos.len(), |i: int| GlyphInfo { cluster: i as u32, ..infos[i] })
}

/// The first items, followed by as many that stand for nothing as are missing.
pub open spec fn resized(infos: Seq<GlyphInfo>, len: nat) -> Seq<GlyphInfo> {
    Seq::new(
        len,
        |i: int|
            if i < infos.len() {
                infos[i]
            } else {
                zero_info()
            },
    )
}

/// Whether positions are those of before, as far as there were any, and zero
/// past them.
pub open spec fn kept_or_zero(before: Seq<GlyphPosition>, after: Seq<GlyphPosition>) -> bool {
    forall|i: int|
        0 <= i < after.len() ==> {
            if i < before.len() {
                #[trigger] after[i] == before[i]
            } else {
                is_zero(after[i])
            }
        }
}

/// Why a buffer is not shaped. Nothing was touched.
#[derive(Copy, Clone, Debug, PartialEq, Eq, Structural)]
pub enum ShapeError {
    AlreadyShaped,
    DirectionUnset,
    DirectionMismatch { plan: Direction, buffer: Direction },
    ScriptMismatch { plan: Script, buffer: Script },
}

/// A direction by name.
pub open spec fn direction_name(d: Direction) -> Seq<char> {
    match d {
        Direction::Invalid => "Invalid"@,
        Direction::LeftToRight => "LeftToRight"@,
        Direction::RightToLeft => "RightToLeft"@,
        Direction::TopToBottom => "TopToBottom"@,
        Direction::BottomToTop => "BottomToTop"@,
    }
}

fn name_of(d: Direction) -> (r: &'static str)
    ensures
        r@ == direction_name(d),
{
    match d {
        Direction::Invalid => "Invalid",
        Direction::LeftToRight => "LeftToRight",
        Direction::RightToLeft => "RightToLeft",
        Direction::TopToBottom => "TopToBottom",
        Direction::BottomToTop => "BottomToTop",
    }
}

impl ShapeError {
    /// What went wrong, in words.
    pub fn to_string(&self) -> (r: String)
        ensures
            r@ == (match *self {
                ShapeError::AlreadyShaped => "buffer already holds shaped glyphs"@,
                ShapeError::DirectionUnset => "buffer direction is not set"@,
                ShapeError::DirectionMismatch { plan, buffer } => {
                    "buffer direction does not match plan direction: "@ + direction_name(buffer) + " != "@
                        + direction_name(plan)
                },
                ShapeError::ScriptMismatch { .. } => "buffer script does not match plan script"@,
            }),
    {
        match self {
            ShapeError::AlreadyShaped => String::from_str("buffer already holds shaped glyphs"),
            ShapeError::DirectionUnset => String::from_str("buffer direction is not set"),
            ShapeError::DirectionMismatch { plan, buffer } => {
                let mut s = String::from_str("buffer direction does not match plan direction: ");
                s.append(name_of(*buffer));
                s.append(" != ");
                s.append(name_of(*plan));
                s
            },
            ShapeError::ScriptMismatch { .. } => String::from_str(
                "buffer script does not match plan script",
            ),
        }
    }
}

/// The script of a plan, known or not.
pub open spec fn plan_script(plan: ShapePlan) -> Script {
    match plan.script {
        Some(s) => s,
        None => Script(UNKNOWN_SCRIPT),
    }
}

impl Buffer {
    /// An empty buffer, with nothing known of its text and nothing asked for.
    pub fn new() -> (r: Buffer)
        ensures
            r.infos@.len() == 0,
            r.positions@.len() == 0,
            r.is_default_but(r),
            r.flags == BufferFlags::none(),
            r.invisible_glyph is None,
            r.not_found_variation_selector_glyph is None,
    {
        Buffer {
            infos: Vec::new(),
            positions: Vec::new(),
            content_type: None,
            direction: Direction::Invalid,
            script: Script(UNKNOWN_SCRIPT),
            language: None,
            cluster_level: BufferClusterLevel::MonotoneGraphemes,
            flags: BufferFlags::empty(),
            invisible_glyph: None,
            not_found_variation_selector_glyph: None,
        }
    }

    /// Whether a buffer is empty, with nothing known of its text, and asks for
    /// what another does.
    pub open spec fn is_default_but(&self, other: Buffer) -> bool {
        &&& self.infos@.len() == 0
        &&& self.positions@.len() == 0
        &&& self.content_type is None
        &&& self.direction == Direction::Invalid
        &&& self.script == Script(UNKNOWN_SCRIPT)
        &&& self.language is None
        &&& self.cluster_level == BufferClusterLevel::MonotoneGraphemes
        &&& self.flags == other.flags
        &&& self.invisible_glyph == other.invisible_glyph
        &&& self.not_found_variation_selector_glyph == other.not_found_variation_selector_glyph
    }

    /// Whether nothing but the items, where they go and what they are differs.
    pub open spec fn same_settings(&self, other: Buffer) -> bool {
        &&& self.direction == other.direction
        &&& self.script == other.script
        &&& self.language == other.language
        &&& self.cluster_level == other.cluster_level
        &&& self.flags == other.flags
        &&& self.invisible_glyph == other.invisible_glyph
        &&& self.not_found_variation_selector_glyph == other.not_found_variation_selector_glyph
    }

    pub fn len(&self) -> (n: usize)
        ensures
            n == self.infos@.len(),
    {
        self.infos.len()
    }

    pub fn is_empty(&self) -> (r: bool)
        ensures
            r == (self.infos@.len() == 0),
    {
        self.infos.len() == 0
    }

    pub fn content_type(&self) -> (r: Option<BufferContentType>)
        ensures
            r == self.content_type,
    {
        self.content_type
    }

    pub fn direction(&self) -> (r: Direction)
        ensures
            r == self.direction,
    {
        self.direction
    }

    /// Sets which way the text runs, and nothing else.
    pub fn set_direction(&mut self, direction: Direction)
        ensures
            *final(self) == (Buffer { direction, ..*old(self) }),
    {
        self.direction = direction;
    }

    pub fn script(&self) -> (r: Script)
        ensures
            r == self.script,
    {
        self.script
    }

    /// Sets the script of the text, and nothing else.
    pub fn set_script(&mut self, script: Script)
        ensures
            *final(self) == (Buffer { script, ..*old(self) }),
    {
        self.script = script;
    }

    pub fn language(&self) -> (r: Option<&Language>)
        ensures
            r is Some <==> self.language is Some,
            r matches Some(l) ==> self.language == Some(*l),
    {
        self.language.as_ref()
    }

    /// Sets the language of the text, and nothing else.
    pub fn set_language(&mut self, language: Language)
        ensures
            *final(self) == (Buffer { language: Some(language), ..*old(self) }),
    {
        self.language = Some(language);
    }

    pub fn cluster_level(&self) -> (r: BufferClusterLevel)
        ensures
            r == self.cluster_level,
    {
        self.cluster_level
    }

    /// Sets how characters are kept together, and nothing else.
    pub fn set_cluster_level(&mut self, cluster_level: BufferClusterLevel)
        ensures
            *final(self) == (Buffer { cluster_level, ..*old(self) }),
    {
        self.cluster_level = cluster_level;
    }

    pub fn flags(&self) -> (r: BufferFlags)
        ensures
            r == self.flags,
    {
        self.flags
    }

    /// Sets what is asked of shaping, and nothing else.
    pub fn set_flags(&mut self, flags: BufferFlags)
        ensures
            *final(self) == (Buffer { flags, ..*old(self) }),
    {
        self.flags = flags;
    }

    pub fn invisible_glyph(&self) -> (r: Option<u32>)
        ensures
            r == self.invisible_glyph,
    {
        self.invisible_glyph
    }

    /// Sets the glyph that stands for an invisible one, and nothing else.
    pub fn set_invisible_glyph(&mut self, invisible_glyph: Option<u32>)
        ensures
            *final(self) == (Buffer { invisible_glyph, ..*old(self) }),
    {
        self.invisible_glyph = invisible_glyph;
    }

    pub fn not_found_variation_selector_glyph(&self) -> (r: Option<u32>)
        ensures
            r == self.not_found_variation_selector_glyph,
    {
        self.not_found_variation_selector_glyph
    }

    /// Sets the glyph of a variation selector without an effect, and nothing else.
    pub fn set_not_found_variation_selector_glyph(&mut self, not_found_variation_selector_glyph: Option<u32>)
        ensures
            *final(self) == (Buffer { not_found_variation_selector_glyph, ..*old(self) }),
    {
        self.not_found_variation_selector_glyph = not_found_variation_selector_glyph;
    }

    pub fn glyph_infos(&self) -> (r: &[GlyphInfo])
        ensures
            r@ == self.infos@,
    {
        self.infos.as_slice()
    }

    pub fn glyph_positions(&self) -> (r: &[GlyphPosition])
        ensures
            r@ == self.positions@,
    {
        self.positions.as_slice()
    }

    /// Make room for where the glyphs go, at zero, if there is none yet.
    pub fn allocate_positions(&mut self)
        ensures
            final(self).infos@ == old(self).infos@,
            final(self).same_settings(*old(self)),
            final(self).content_type == old(self).content_type,
            old(self).positions@.len() > 0 ==> final(self).positions@ == old(self).positions@,
            old(self).positions@.len() == 0 ==> {
                &&& final(self).positions@.len() == old(self).infos@.len()
                &&& forall|i: int|
                    0 <= i < final(self).positions@.len() ==> is_zero(#[trigger] final(self).positions@[i])
            },
    {
        if self.positions.len() > 0 {
            return;
        }
        let n: usize = self.infos.len();
        let mut i: usize = 0;
        while i < n
            invariant
                i <= n,
                n == old(self).infos@.len(),
                self.infos@ == old(self).infos@,
                self.same_settings(*old(self)),
                self.content_type == old(self).content_type,
                self.positions@.len() == i,
                forall|k: int| 0 <= k < i ==> is_zero(#[trigger] self.positions@[k]),
            decreases n - i,
        {
            self.positions.push(GlyphPosition::default());
            i += 1;
        }
    }

    /// Where the glyphs go, to be changed.
    pub fn glyph_positions_mut(&mut self) -> (r: &mut Vec<GlyphPosition>)
        ensures
            old(self).positions@.len() > 0 ==> r@ == old(self).positions@,
            old(self).positions@.len() == 0 ==> r@.len() == old(self).infos@.len() && forall|i: int|
                0 <= i < r@.len() ==> is_zero(#[trigger] r@[i]),
            final(self).positions == *final(r),
            final(self).infos@ == old(self).infos@,
            final(self).same_settings(*old(self)),
            final(self).content_type == old(self).content_type,
    {
        self.allocate_positions();
        &mut self.positions
    }

    /// Add a character, with its cluster.
    pub fn push(&mut self, codepoint: u32, cluster: u32)
        ensures
            final(self).infos@ == old(self).infos@.push(item(codepoint, cluster)),
            final(self).positions@ == old(self).positions@,
            final(self).content_type == Some(BufferContentType::Unicode),
            final(self).same_settings(*old(self)),
    {
        self.infos.push(GlyphInfo { glyph_id: codepoint, mask: 0, cluster });
        self.content_type = Some(BufferContentType::Unicode);
    }

    /// Add text. The cluster of a character is the byte of the text that it
    /// starts at.
    pub fn push_str(&mut self, text: &str)
        requires
            text@.len() <= 0x3fff_ffff,
        ensures
            final(self).infos@ == old(self).infos@ + items_of(text@),
            final(self).positions@ == old(self).positions@,
            final(self).content_type == Some(BufferContentType::Unicode),
            final(self).same_settings(*old(self)),
    {
        let n: usize = text.unicode_len();
        let mut offset: u32 = 0;
        let mut i: usize = 0;
        let ghost before = self.infos@;
        assert(self.infos@ =~= before + items_of(text@).take(0));
        while i < n
            invariant
                i <= n,
                n == text@.len(),
                n <= 0x3fff_ffff,
                offset == utf8_bytes(text@.take(i as int)),
                offset <= 4 * i,
                self.infos@ == before + items_of(text@).take(i as int),
                self.positions@ == old(self).positions@,
                self.same_settings(*old(self)),
            decreases n - i,
        {
            let c: char = text.get_char(i);
            self.infos.push(GlyphInfo { glyph_id: c as u32, mask: 0, cluster: offset });
            assert(self.infos@ =~= before + items_of(text@).take(i + 1));
            assert(text@.take(i + 1).drop_last() =~= text@.take(i as int));
            let v: u32 = c as u32;
            offset = offset + if v < 0x80 {
                1
            } else if v < 0x800 {
                2
            } else if v < 0x1_0000 {
                3
            } else {
                4
            };
            i += 1;
        }
        assert(items_of(text@).take(i as int) =~= items_of(text@));
        self.content_type = Some(BufferContentType::Unicode);
    }

    /// Add characters. The cluster of each is its place among them.
    pub fn push_codepoints(&mut self, codepoints: &[u32])
        requires
            codepoints@.len() <= u32::MAX,
        ensures
            final(self).infos@ == old(self).infos@ + Seq::new(
                codepoints@.len(),
                |i: int| item(codepoints@[i], i as u32),
            ),
            final(self).positions@ == old(self).positions@,
            final(self).content_type == Some(BufferContentType::Unicode),
            final(self).same_settings(*old(self)),
    {
        let ghost all = Seq::new(codepoints@.len(), |i: int| item(codepoints@[i], i as u32));
        let ghost before = self.infos@;
        let mut i: usize = 0;
        assert(self.infos@ =~= before + all.take(0));
        while i < codepoints.len()
            invariant
                i <= codepoints@.len() <= u32::MAX,
                all == Seq::new(codepoints@.len(), |i: int| item(codepoints@[i], i as u32)),
                self.infos@ == before + all.take(i as int),
                self.positions@ == old(self).positions@,
                self.same_settings(*old(self)),
            decreases codepoints@.len() - i,
        {
            self.infos.push(GlyphInfo { glyph_id: codepoints[i], mask: 0, cluster: i as u32 });
            assert(self.infos@ =~= before + all.take(i + 1));
            i += 1;
        }
        assert(all.take(i as int) =~= all);
        self.content_type = Some(BufferContentType::Unicode);
    }

    /// Add items as they are.
    pub fn push_glyph_infos(&mut self, infos: &[GlyphInfo])
        ensures
            final(self).infos@ == old(self).infos@ + infos@,
            final(self).positions@ == old(self).positions@,
            final(self).content_type == old(self).content_type,
            final(self).same_settings(*old(self)),
    {
        let ghost before = self.infos@;
        let mut i: usize = 0;
        assert(self.infos@ =~= before + infos@.take(0));
        while i < infos.len()
            invariant
                i <= infos@.len(),
                self.infos@ == before + infos@.take(i as int),
                self.positions@ == old(self).positions@,
                self.content_type == old(self).content_type,
                self.same_settings(*old(self)),
            decreases infos@.len() - i,
        {
            self.infos.push(infos[i]);
            assert(self.infos@ =~= before + infos@.take(i + 1));
            i += 1;
        }
        assert(infos@.take(i as int) =~= infos@);
    }

    /// Say what the buffer holds. This only relabels it; it never clears it.
    pub fn set_content_type(&mut self, content_type: Option<BufferContentType>)
        ensures
            final(self).content_type == content_type,
            final(self).infos@ == old(self).infos@,
            final(self).positions@ == old(self).positions@,
            final(self).same_settings(*old(self)),
    {
        self.content_type = content_type;
    }

    /// Set how many items there are. Growing the buffer fills the new items with
    /// zeros.
    pub fn set_length(&mut self, len: usize) -> (r: bool)
        ensures
            r,
            final(self).infos@ == resized(old(self).infos@, len as nat),
            old(self).positions@.len() == 0 ==> final(self).positions@.len() == 0,
            old(self).positions@.len() > 0 ==> final(self).positions@.len() == len,
            kept_or_zero(old(self).positions@, final(self).positions@),
            final(self).content_type == old(self).content_type,
            final(self).same_settings(*old(self)),
    {
        let placed: bool = self.positions.len() > 0;
        if self.infos.len() > len {
            self.infos.truncate(len);
        }
        if self.positions.len() > len {
            self.positions.truncate(len);
        }
        assert(self.infos@ =~= resized(old(self).infos@, self.infos@.len()));
        while self.infos.len() < len
            invariant
                self.infos@.len() <= len,
                self.infos@ == resized(old(self).infos@, self.infos@.len()),
                self.infos@.len() < len ==> self.infos@.len() >= old(self).infos@.len(),
                self.positions@.len() <= len,
                self.positions@.len() < len ==> self.positions@.len() >= old(self).positions@.len(),
                kept_or_zero(old(self).positions@, self.positions@),
                !placed ==> self.positions@.len() == 0,
                self.content_type == old(self).content_type,
                self.same_settings(*old(self)),
            decreases len - self.infos@.len(),
        {
            let ghost before = self.infos@;
            self.infos.push(GlyphInfo { glyph_id: 0, mask: 0, cluster: 0 });
            assert(self.infos@ =~= resized(old(self).infos@, before.len() + 1));
        }
        while placed && self.positions.len() < len
            invariant
                self.infos@ == resized(old(self).infos@, len as nat),
                self.positions@.len() <= len,
                self.positions@.len() < len ==> self.positions@.len() >= old(self).positions@.len(),
                kept_or_zero(old(self).positions@, self.positions@),
                !placed ==> self.positions@.len() == 0,
                self.content_type == old(self).content_type,
                self.same_settings(*old(self)),
            decreases len - self.positions@.len(),
        {
            self.positions.push(GlyphPosition::default());
        }
        true
    }

    /// Turn the items around.
    pub fn reverse(&mut self)
        ensures
            final(self).infos@ == old(self).infos@.reverse(),
            final(self).positions@ == old(self).positions@.reverse(),
            final(self).content_type == old(self).content_type,
            final(self).same_settings(*old(self)),
    {
        let mut infos: Vec<GlyphInfo> = Vec::new();
        let n: usize = self.infos.len();
        let mut i: usize = 0;
        while i < n
            invariant
                i <= n,
                n == self.infos@.len(),
                *self == *old(self),
                infos@ == self.infos@.reverse().take(i as int),
            decreases n - i,
        {
            infos.push(self.infos[n - 1 - i]);
            assert(infos@ =~= self.infos@.reverse().take(i + 1));
            i += 1;
        }
        assert(infos@ =~= self.infos@.reverse());
        let mut positions: Vec<GlyphPosition> = Vec::new();
        let n: usize = self.positions.len();
        let mut i: usize = 0;
        while i < n
            invariant
                i <= n,
                n == self.positions@.len(),
                *self == *old(self),
                positions@ == self.positions@.reverse().take(i as int),
            decreases n - i,
        {
            positions.push(self.positions[n - 1 - i]);
            assert(positions@ =~= self.positions@.reverse().take(i + 1));
            i += 1;
        }
        assert(positions@ =~= self.positions@.reverse());
        self.infos = infos;
        self.positions = positions;
    }

    /// Reverse the order of the clusters, keeping the items within each cluster
    /// in their original order.
    pub fn reverse_clusters(&mut self)
        ensures
            final(self).infos@ == clusters_reversed(old(self).infos@),
            final(self).positions@ == old(self).positions@,
            final(self).content_type == old(self).content_type,
            final(self).same_settings(*old(self)),
    {
        let mut out: Vec<GlyphInfo> = Vec::new();
        let mut end: usize = self.infos.len();
        let ghost all = self.infos@;
        assert(out@ + clusters_reversed(all.take(end as int)) =~= clusters_reversed(all)) by {
            assert(all.take(end as int) =~= all);
        }
        while end > 0
            invariant
                end <= all.len(),
                all == self.infos@,
                *self == *old(self),
                out@ + clusters_reversed(all.take(end as int)) == clusters_reversed(all),
            decreases end,
        {
            let ghost left = all.take(end as int);
            let mut from: usize = end - 1;
            proof {
                lemma_run_start(left, end - 1);
            }
            while from > 0 && self.infos[from - 1].cluster == self.infos[from].cluster
                invariant
                    from < end <= all.len(),
                    all == self.infos@,
                    left == all.take(end as int),
                    run_start(left, end - 1) == run_start(left, from as int),
                decreases from,
            {
                assert(left[from - 1] == all[from - 1] && left[from as int] == all[from as int]);
                from -= 1;
            }
            proof {
                assert(left[from as int] == all[from as int]);
                if from > 0 {
                    assert(left[from - 1] == all[from - 1]);
                }
                assert(run_start(left, end - 1) == from);
            }
            let ghost before = out@;
            let mut i: usize = from;
            while i < end
                invariant
                    from <= i <= end <= all.len(),
                    all == self.infos@,
                    *self == *old(self),
                    out@ == before + all.subrange(from as int, i as int),
                decreases end - i,
            {
                out.push(self.infos[i]);
                assert(out@ =~= before + all.subrange(from as int, i + 1));
                i += 1;
            }
            proof {
                assert(left.skip(from as int) =~= all.subrange(from as int, end as int));
                assert(left.take(from as int) =~= all.take(from as int));
                assert(out@ + clusters_reversed(all.take(from as int)) =~= before + (left.skip(from as int)
                    + clusters_reversed(left.take(from as int))));
            }
            end = from;
        }
        assert(out@ =~= clusters_reversed(all)) by {
            assert(clusters_reversed(all.take(0)) =~= seq![]);
        }
        self.infos = out;
    }

    /// Resets the cluster value of each item to its index.
    pub fn reset_clusters(&mut self)
        requires
            old(self).infos@.len() <= u32::MAX,
        ensures
            final(self).infos@ == renumbered(old(self).infos@),
            final(self).positions@ == old(self).positions@,
            final(self).content_type == old(self).content_type,
            final(self).same_settings(*old(self)),
    {
        let mut i: usize = 0;
        while i < self.infos.len()
            invariant
                i <= self.infos@.len() <= u32::MAX,
                self.infos@.len() == old(self).infos@.len(),
                forall|k: int| 0 <= k < i ==> #[trigger] self.infos@[k] == renumbered(old(self).infos@)[k],
                forall|k: int| i <= k < self.infos@.len() ==> #[trigger] self.infos@[k] == old(self).infos@[k],
                self.positions@ == old(self).positions@,
                self.content_type == old(self).content_type,
                self.same_settings(*old(self)),
            decreases self.infos@.len() - i,
        {
            let mut info: GlyphInfo = self.infos[i];
            info.cluster = i as u32;
            self.infos.set(i, info);
            i += 1;
        }
        assert(self.infos@ =~= renumbered(old(self).infos@));
    }

    /// Empty the buffer and forget what was known of the text. What the caller
    /// asked for stays.
    pub fn clear(&mut self)
        ensures
            final(self).is_default_but(*old(self)),
    {
        self.infos = Vec::new();
        self.positions = Vec::new();
        self.content_type = None;
        self.direction = Direction::Invalid;
        self.script = Script(UNKNOWN_SCRIPT);
        self.language = None;
        self.cluster_level = BufferClusterLevel::MonotoneGraphemes;
    }

    /// Reset the buffer to its default state.
    pub fn reset(&mut self)
        ensures
            final(self).is_default_but(*final(self)),
            final(self).flags == BufferFlags::none(),
            final(self).invisible_glyph is None,
            final(self).not_found_variation_selector_glyph is None,
    {
        self.clear();
        self.flags = BufferFlags::empty();
        self.invisible_glyph = None;
        self.not_found_variation_selector_glyph = None;
    }

    /// Fill in what is still unset of the text's properties, from what was found
    /// out of it: the first script in it, the direction of that script, and the
    /// language of the place. Text without either runs left to right.
    pub fn guess_segment_properties(
        &mut self,
        script: Option<Script>,
        direction: Option<Direction>,
        language: Option<Language>,
    )
        ensures
            final(self).infos@ == old(self).infos@,
            final(self).positions@ == old(self).positions@,
            final(self).content_type == old(self).content_type,
            final(self).cluster_level == old(self).cluster_level,
            final(self).flags == old(self).flags,
            final(self).invisible_glyph == old(self).invisible_glyph,
            final(self).not_found_variation_selector_glyph
                == old(self).not_found_variation_selector_glyph,
            final(self).script == guessed_script(old(self).script, script),
            final(self).direction == guessed_direction(old(self).direction, direction),
            final(self).language == guessed_language(old(self).language, language),
            final(self).direction != Direction::Invalid,
    {
        if self.script == Script(UNKNOWN_SCRIPT) {
            if let Some(s) = script {
                self.script = s;
            }
        }
        if self.direction == Direction::Invalid {
            self.direction = match direction {
                Some(Direction::Invalid) => Direction::LeftToRight,
                Some(d) => d,
                None => Direction::LeftToRight,
            };
        }
        if self.language.is_none() {
            self.language = language;
        }
    }

    /// Whether the buffer can be shaped, with a plan that was made before or
    /// without: the first of the reasons why it cannot.
    pub open spec fn refusal(&self, plan: Option<&ShapePlan>) -> Option<ShapeError> {
        if self.content_type == Some(BufferContentType::Glyphs) {
            Some(ShapeError::AlreadyShaped)
        } else if self.direction == Direction::Invalid {
            Some(ShapeError::DirectionUnset)
        } else {
            match plan {
                Some(p) => if p.direction != self.direction {
                    Some(
                        ShapeError::DirectionMismatch { plan: p.direction, buffer: self.direction },
                    )
                } else if plan_script(*p) != self.script {
                    Some(ShapeError::ScriptMismatch { plan: plan_script(*p), buffer: self.script })
                } else {
                    None
                },
                None => None,
            }
        }
    }

    /// Whether the buffer can be shaped. Every refusal is a misuse, caught before
    /// anything is touched.
    pub fn check_shape(&self, plan: Option<&ShapePlan>) -> (r: Result<(), ShapeError>)
        ensures
            match self.refusal(plan) {
                Some(e) => r == Err::<(), ShapeError>(e),
                None => r is Ok,
            },
    {
        if let Some(BufferContentType::Glyphs) = self.content_type {
            return Err(ShapeError::AlreadyShaped);
        }
        if self.direction == Direction::Invalid {
            return Err(ShapeError::DirectionUnset);
        }
        if let Some(p) = plan {
            if p.direction != self.direction {
                return Err(
                    ShapeError::DirectionMismatch { plan: p.direction, buffer: self.direction },
                );
            }
            let script: Script = match p.script {
                Some(s) => s,
                None => Script(UNKNOWN_SCRIPT),
            };
            if script != self.script {
                return Err(ShapeError::ScriptMismatch { plan: script, buffer: self.script });
            }
        }
        Ok(())
    }
}

/// A script that is filled in where it is not known.
pub open spec fn guessed_script(script: Script, found: Option<Script>) -> Script {
    if script != Script(UNKNOWN_SCRIPT) || found is None {
        script
    } else {
        found->0
    }
}

/// A direction that is filled in where it is not set: left to right, where
/// nothing else was found.
pub open spec fn guessed_direction(direction: Direction, found: Option<Direction>) -> Direction {
    if direction != Direction::Invalid {
        direction
    } else if found is None || found == Some(Direction::Invalid) {
        Direction::LeftToRight
    } else {
        found->0
    }
}

/// A language that is filled in where there is none.
pub open spec fn guessed_language(language: Option<Language>, found: Option<Language>) -> Option<Language> {
    if language is Some {
        language
    } else {
        found
    }
}

/// Guessing fills in only what is unset, so guessing the same again changes
/// nothing.
pub proof fn guessing_again_changes_nothing(
    script: Script,
    direction: Direction,
    language: Option<Language>,
    found_script: Option<Script>,
    found_direction: Option<Direction>,
    found_language: Option<Language>,
)
    ensures
        ({
            let s = guessed_script(script, found_script);
            let d = guessed_direction(direction, found_direction);
            let l = guessed_language(language, found_language);
            &&& guessed_script(s, found_script) == s
            &&& guessed_direction(d, found_direction) == d
            &&& guessed_language(l, found_language) == l
            &&& d != Direction::Invalid
            &&& direction != Direction::Invalid ==> d == direction
            &&& script != Script(UNKNOWN_SCRIPT) ==> s == script
        }),
{
}

/// Whether a position is zero throughout.
pub open spec fn is_zero(p: GlyphPosition) -> bool {
    p.x_advance == 0 && p.y_advance == 0 && p.x_offset == 0 && p.y_offset == 0 && p.attach_type == 0
        && p.attach_chain == 0
}

proof fn lemma_run_start(infos: Seq<GlyphInfo>, i: int)
    requires
        0 <= i < infos.len(),
    ensures
        0 <= run_start(infos, i) <= i,
    decreases i,
{
    if i > 0 && infos[i - 1].cluster == infos[i].cluster {
        lemma_run_start(infos, i - 1);
    }
}

/// Reversing the clusters loses no item and adds none.
pub proof fn reversing_clusters_keeps_every_item(infos: Seq<GlyphInfo>)
    ensures
        clusters_reversed(infos).to_multiset() == infos.to_multiset(),
    decreases infos.len(),
{
    if infos.len() > 0 {
        let from = run_start(infos, infos.len() - 1);
        lemma_run_start(infos, infos.len() - 1);
        let (a, b) = (infos.take(from), infos.skip(from));
        reversing_clusters_keeps_every_item(a);
        vstd::seq_lib::lemma_multiset_commutative(a, b);
        vstd::seq_lib::lemma_multiset_commutative(b, clusters_reversed(a));
        assert(a + b =~= infos);
        assert(clusters_reversed(infos).to_multiset() =~= infos.to_multiset());
    } else {
        assert(clusters_reversed(infos) =~= infos);
    }
}

/// Turning a line around twice leaves it as it was.
pub proof fn reversing_twice_changes_nothing(infos: Seq<GlyphInfo>)
    ensures
        infos.reverse().reverse() == infos,
{
    assert(infos.reverse().reverse() =~= infos);
}

/// A buffer that is known to hold text.
#[derive(Clone, Debug)]
pub struct UnicodeBuffer {
    pub buffer: Buffer,
}

/// A buffer that is known to hold glyphs.
#[derive(Clone, Debug)]
pub struct GlyphBuffer {
    pub buffer: Buffer,
}

/// A buffer that holds something else than was expected.
#[derive(Copy, Clone, Debug, PartialEq, Eq, Structural)]
pub struct ContentTypeError {
    pub found: Option<BufferContentType>,
    pub expected: BufferContentType,
}

impl UnicodeBuffer {
    /// The buffer as one of text. An empty buffer that says nothing of what it
    /// holds is one.
    pub fn try_from(buffer: Buffer) -> (r: Result<UnicodeBuffer, ContentTypeError>)
        ensures
            r is Ok <==> (buffer.content_type == Some(BufferContentType::Unicode) || (
            buffer.content_type is None && buffer.infos@.len() == 0)),
            r matches Ok(u) ==> u.buffer == (Buffer {
                content_type: Some(BufferContentType::Unicode),
                ..buffer
            }),
            r matches Err(e) ==> e == (ContentTypeError {
                found: buffer.content_type,
                expected: BufferContentType::Unicode,
            }),
    {
        let text: bool = match buffer.content_type {
            Some(BufferContentType::Unicode) => true,
            Some(BufferContentType::Glyphs) => false,
            None => buffer.infos.len() == 0,
        };
        if text {
            let mut buffer = buffer;
            buffer.content_type = Some(BufferContentType::Unicode);
            Ok(UnicodeBuffer { buffer })
        } else {
            Err(
                ContentTypeError {
                    found: buffer.content_type,
                    expected: BufferContentType::Unicode,
                },
            )
        }
    }

    /// The buffer as one of anything.
    pub fn into_buffer(self) -> (r: Buffer)
        ensures
            r == (Buffer { content_type: Some(BufferContentType::Unicode), ..self.buffer }),
    {
        let mut buffer = self.buffer;
        buffer.content_type = Some(BufferContentType::Unicode);
        buffer
    }
}

impl GlyphBuffer {
    /// The buffer as one of glyphs, if it is.
    pub fn try_from(buffer: Buffer) -> (r: Result<GlyphBuffer, ContentTypeError>)
        ensures
            r is Ok <==> buffer.content_type == Some(BufferContentType::Glyphs),
            r matches Ok(g) ==> g.buffer == buffer,
            r matches Err(e) ==> e == (ContentTypeError {
                found: buffer.content_type,
                expected: BufferContentType::Glyphs,
            }),
    {
        match buffer.content_type {
            Some(BufferContentType::Glyphs) => Ok(GlyphBuffer { buffer }),
            found => Err(ContentTypeError { found, expected: BufferContentType::Glyphs }),
        }
    }

    /// The buffer as one of anything.
    pub fn into_buffer(self) -> (r: Buffer)
        ensures
            r == (Buffer { content_type: Some(BufferContentType::Glyphs), ..self.buffer }),
    {
        let mut buffer = self.buffer;
        buffer.content_type = Some(BufferContentType::Glyphs);
        buffer
    }
}

proof fn lemma_run_shift(a: Seq<GlyphInfo>, b: Seq<GlyphInfo>, i: int)
    requires
        0 <= i < b.len(),
        a.len() == 0 || a.last().cluster != b[0].cluster,
    ensures
        run_start(a + b, a.len() + i) == a.len() + run_start(b, i),
    decreases i,
{
    assert((a + b)[a.len() + i] == b[i]);
    if i > 0 {
        assert((a + b)[a.len() + i - 1] == b[i - 1]);
        if b[i - 1].cluster == b[i].cluster {
            lemma_run_shift(a, b, i - 1);
        }
    } else if a.len() > 0 {
        assert((a + b)[a.len() - 1] == a.last());
    }
}

/// Clusters change places as wholes: what comes after a place where one cluster
/// ends and another starts comes before it in the other order.
pub proof fn clusters_change_places(a: Seq<GlyphInfo>, b: Seq<GlyphInfo>)
    requires
        a.len() == 0 || b.len() == 0 || a.last().cluster != b[0].cluster,
    ensures
        clusters_reversed(a + b) == clusters_reversed(b) + clusters_reversed(a),
    decreases b.len(),
{
    if b.len() == 0 {
        assert(a + b =~= a);
        assert(clusters_reversed(b) + clusters_reversed(a) =~= clusters_reversed(a));
    } else {
        let last = b.len() - 1;
        let from = run_start(b, last);
        lemma_run_start(b, last);
        lemma_run_shift(a, b, last);
        let front = b.take(from);
        assert((a + b).skip(a.len() + from) =~= b.skip(from));
        assert((a + b).take(a.len() + from) =~= a + front);
        clusters_change_places(a, front);
        assert(b.skip(from) + (clusters_reversed(front) + clusters_reversed(a)) =~= (b.skip(from)
            + clusters_reversed(front)) + clusters_reversed(a));
    }
}

proof fn lemma_one_run(infos: Seq<GlyphInfo>, i: int)
    requires
        0 <= i < infos.len(),
        forall|j: int, k: int| 0 <= j < k < infos.len() ==> infos[j].cluster == infos[k].cluster,
    ensures
        run_start(infos, i) == 0,
    decreases i,
{
    if i > 0 {
        lemma_one_run(infos, i - 1);
    }
}

/// The items of one cluster stay as they stand.
pub proof fn a_cluster_stays_as_it_stands(infos: Seq<GlyphInfo>)
    requires
        forall|j: int, k: int| 0 <= j < k < infos.len() ==> infos[j].cluster == infos[k].cluster,
    ensures
        clusters_reversed(infos) == infos,
{
    if infos.len() > 0 {
        lemma_one_run(infos, infos.len() - 1);
        assert(infos.take(0) =~= seq![]);
        assert(clusters_reversed(infos.take(0)) =~= seq![]);
        assert(infos.skip(0) + clusters_reversed(infos.take(0)) =~= infos);
    } else {
        assert(clusters_reversed(infos) =~= infos);
    }
}

/// Text is added at the end, one item for each character in order; the cluster
/// of the first is zero, and each next one's is further by the bytes that the
/// character takes in UTF-8.
pub proof fn clusters_count_bytes(b: &mut Buffer, text: &str, i: int)
    requires
        text@.len() <= 0x3fff_ffff,
        call_ensures(Buffer::push_str, (b, text), ()),
        0 <= i < text@.len(),
    ensures
        ({
            let n = old(b).infos@.len();
            let here = final(b).infos@[n + i];
            let c = text@[i] as u32;
            &&& final(b).infos@.len() == n + text@.len()
            &&& final(b).infos@.take(n as int) == old(b).infos@
            &&& here.glyph_id == c
            &&& here.mask == 0
            &&& i == 0 ==> here.cluster == 0
            &&& i + 1 < text@.len() ==> {
                let step = final(b).infos@[n + i + 1].cluster - here.cluster;
                &&& c <= 0x7f ==> step == 1
                &&& 0x80 <= c <= 0x7ff ==> step == 2
                &&& 0x800 <= c <= 0xffff ==> step == 3
                &&& c > 0xffff ==> step == 4
            }
            &&& final(b).content_type == Some(BufferContentType::Unicode)
        }),
{
    let n = old(b).infos@.len();
    assert(final(b).infos@.take(n as int) =~= old(b).infos@);
    assert(final(b).infos@[n + i] == items_of(text@)[i]);
    lemma_utf8_bound(text@.take(i));
    if i + 1 < text@.len() {
        assert(final(b).infos@[n + i + 1] == items_of(text@)[i + 1]);
        assert(text@.take(i + 1).drop_last() =~= text@.take(i));
        lemma_utf8_bound(text@.take(i + 1));
    }
    assert(text@.take(0) =~= seq![]);
}

proof fn lemma_utf8_bound(s: Seq<char>)
    ensures
        utf8_bytes(s) <= 4 * s.len(),
    decreases s.len(),
{
    if s.len() > 0 {
        lemma_utf8_bound(s.drop_last());
    }
}

/// A buffer is refused if it was shaped, or its direction is not set, or the plan
/// is for another direction or script, in that order, and otherwise shaped.
pub proof fn a_buffer_is_refused_for_the_first_reason(
    b: &Buffer,
    plan: &ShapePlan,
    r: Result<(), ShapeError>,
    alone: Result<(), ShapeError>,
)
    requires
        call_ensures(Buffer::check_shape, (b, Some(plan)), r),
        call_ensures(Buffer::check_shape, (b, None::<&ShapePlan>), alone),
    ensures
        alone is Err ==> r == alone,
        b.content_type == Some(BufferContentType::Glyphs) <==> r == Err::<(), ShapeError>(
            ShapeError::AlreadyShaped,
        ),
        alone is Ok <==> b.content_type != Some(BufferContentType::Glyphs) && b.direction != Direction::Invalid,
        r is Ok ==> plan.direction == b.direction,
        r is Ok ==> (plan.script == Some(b.script) || (plan.script is None && b.script == Script(0x5A7A_7A7A))),
        r is Err && r->Err_0 is DirectionMismatch ==> {
            &&& r->Err_0->DirectionMismatch_plan == plan.direction
            &&& r->Err_0->DirectionMismatch_buffer == b.direction
            &&& plan.direction != b.direction
        },
        r is Err && r->Err_0 is ScriptMismatch ==> {
            &&& r->Err_0->ScriptMismatch_buffer == b.script
            &&& r->Err_0->ScriptMismatch_plan != b.script
            &&& plan.direction == b.direction
            &&& plan.script is Some ==> r->Err_0->ScriptMismatch_plan == plan.script->0
        },
        alone is Ok && plan.direction == b.direction && plan.script == Some(b.script) ==> r is Ok,
        alone is Err && b.content_type != Some(BufferContentType::Glyphs) ==> alone->Err_0
            == ShapeError::DirectionUnset,
{
}

/// Guessing changes only what is not set, and leaves a direction set.
pub proof fn guessing_fills_in_what_is_unset(
    b: &mut Buffer,
    script: Option<Script>,
    direction: Option<Direction>,
    language: Option<Language>,
)
    requires
        call_ensures(Buffer::guess_segment_properties, (b, script, direction, language), ()),
    ensures
        old(b).direction != Direction::Invalid ==> final(b).direction == old(b).direction,
        final(b).direction != Direction::Invalid,
        old(b).direction == Direction::Invalid && direction is Some && direction->0 != Direction::Invalid
            ==> final(b).direction == direction->0,
        old(b).direction == Direction::Invalid && direction is None ==> final(b).direction
            == Direction::LeftToRight,
        old(b).script != Script(0x5A7A_7A7A) ==> final(b).script == old(b).script,
        old(b).script == Script(0x5A7A_7A7A) && script is Some ==> final(b).script == script->0,
        script is None ==> final(b).script == old(b).script,
        old(b).language is Some ==> final(b).language == old(b).language,
        old(b).language is None ==> final(b).language == language,
        final(b).infos@ == old(b).infos@,
{
}

/// Clearing a buffer forgets its text and keeps what was asked for; resetting it
/// forgets that too, and leaves it as a new one.
pub proof fn clearing_keeps_what_was_asked_for(a: &mut Buffer, b: &mut Buffer, new: Buffer)
    requires
        *old(a) == *old(b),
        call_ensures(Buffer::clear, (a,), ()),
        call_ensures(Buffer::reset, (b,), ()),
        call_ensures(Buffer::new, (), new),
    ensures
        final(a).infos@.len() == 0 && final(b).infos@.len() == 0,
        final(a).flags == old(a).flags,
        final(a).invisible_glyph == old(a).invisible_glyph,
        final(a).not_found_variation_selector_glyph == old(a).not_found_variation_selector_glyph,
        final(a).content_type is None && final(a).language is None,
        final(a).direction == Direction::Invalid,
        final(b).same_settings(new),
        final(b).content_type == new.content_type,
        final(b).positions@ == new.positions@,
        final(b).infos@ == new.infos@,
{
    assert(final(b).positions@ =~= new.positions@);
    assert(final(b).infos@ =~= new.infos@);
}

/// A buffer is one of text or of glyphs and never both; one that says nothing is
/// one of text, if it is empty. What it is made of comes back.
pub proof fn a_buffer_is_of_text_or_of_glyphs(
    b: Buffer,
    text: Result<UnicodeBuffer, ContentTypeError>,
    glyphs: Result<GlyphBuffer, ContentTypeError>,
    back: Buffer,
)
    requires
        call_ensures(UnicodeBuffer::try_from, (b,), text),
        call_ensures(GlyphBuffer::try_from, (b,), glyphs),
        text is Ok ==> call_ensures(UnicodeBuffer::into_buffer, (text->Ok_0,), back),
        glyphs is Ok ==> call_ensures(GlyphBuffer::into_buffer, (glyphs->Ok_0,), back),
    ensures
        !(text is Ok && glyphs is Ok),
        b.content_type == Some(BufferContentType::Unicode) ==> text is Ok && back == b,
        b.content_type == Some(BufferContentType::Glyphs) ==> glyphs is Ok && back == b,
        b.content_type is None ==> (text is Ok <==> b.infos@.len() == 0) && glyphs is Err,
        text is Ok ==> back.infos@ == b.infos@ && back.same_settings(b),
        text is Err ==> text->Err_0.found == b.content_type,
{
}

} // verus!
