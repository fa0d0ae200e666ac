//! Conservative summaries of glyph sets.

use vstd::prelude::*;

use crate::bits::{bit, lemma_or_bit, lemma_set_bit, lemma_shared_bit, lemma_zero_has_no_bits, single};

verus! {

/// Which slice of a glyph id each word of a digest looks at: the low six bits,
/// bits four upward, and bits nine upward.
pub open spec fn slot(gid: u32, word: int) -> int {
    if word == 0 {
        (gid & 63) as int
    } else if word == 1 {
        ((gid >> 4) & 63) as int
    } else {
        ((gid >> 9) & 63) as int
    }
}

/// A conservative summary of a set of glyphs, in three machine words.
///
/// Answers one question -- could these two sets possibly overlap? -- with three
/// ands and no memory traffic, and is allowed to say yes when the answer is no.
/// Three different shifts of the glyph id are each folded into 64 bits. One
/// alone would collide on any font whose glyphs run past 64; an accidental
/// overlap in all three is unlikely.
#[derive(Copy, Clone, Debug, PartialEq, Eq)]
pub struct Digest {
    pub words: [u64; 3],
}

/// The words hold, for each slice of the id, which of its 64 values occur.
pub open spec fn words_with(words: Seq<u64>, gid: u32) -> Seq<u64> {
    Seq::new(3, |k: int| words[k] | single(slot(gid, k)))
}

/// What a digest of these glyphs holds, one after another.
pub open spec fn words_of(glyphs: Seq<u32>) -> Seq<u64>
    decreases glyphs.len(),
{
    if glyphs.len() == 0 {
        seq![0u64, 0u64, 0u64]
    } else {
        words_with(words_of(glyphs.drop_last()), glyphs.last())
    }
}

impl Digest {
    /// Whether the digest cannot deny that `gid` is a member.
    pub open spec fn admits(self, gid: u32) -> bool {
        forall|k: int| 0 <= k < 3 ==> bit(#[trigger] self.words@[k], slot(gid, k))
    }

    /// A digest of nothing.
    pub fn empty() -> (r: Digest)
        ensures
            r.words@ == seq![0u64, 0u64, 0u64],
    {
        Digest { words: [0, 0, 0] }
    }

    /// A digest that claims to contain everything, for the cases where nothing
    /// is known and rejecting would be wrong.
    pub fn full() -> (r: Digest)
        ensures
            r.words@ == seq![u64::MAX, u64::MAX, u64::MAX],
    {
        Digest { words: [u64::MAX, u64::MAX, u64::MAX] }
    }

    #[inline]
    pub fn insert(&mut self, gid: u32)
        ensures
            final(self).words@ == words_with(old(self).words@, gid),
    {
        assert(gid & 63 < 64 && (gid >> 4) & 63 < 64 && (gid >> 9) & 63 < 64) by (bit_vector);
        let w = self.words;
        self.words = [
            w[0] | (1u64 << (gid & 63)),
            w[1] | (1u64 << ((gid >> 4) & 63)),
            w[2] | (1u64 << ((gid >> 9) & 63)),
        ];
    }

    pub fn from_glyphs(glyphs: &[u32]) -> (r: Digest)
        ensures
            r.words@ == words_of(glyphs@),
    {
        let mut d = Digest::empty();
        let mut i: usize = 0;
        while i < glyphs.len()
            invariant
                i <= glyphs@.len(),
                d.words@ == words_of(glyphs@.take(i as int)),
            decreases glyphs@.len() - i,
        {
            d.insert(glyphs[i]);
            proof {
                let now = glyphs@.take(i + 1);
                assert(now.drop_last() =~= glyphs@.take(i as int));
            }
            i += 1;
        }
        assert(glyphs@.take(i as int) =~= glyphs@);
        d
    }

    #[inline]
    pub fn union(&mut self, other: &Digest)
        ensures
            final(self).words@ == Seq::new(3, |k: int| old(self).words@[k] | other.words@[k]),
    {
        let w = self.words;
        self.words = [w[0] | other.words[0], w[1] | other.words[1], w[2] | other.words[2]];
    }

    /// Whether the two sets might share a glyph. False is certain; true is not.
    #[inline]
    pub fn may_intersect(&self, other: &Digest) -> (r: bool)
        ensures
            r == forall|k: int| 0 <= k < 3 ==> #[trigger] self.words@[k] & other.words@[k] != 0,
    {
        let r = self.words[0] & other.words[0] != 0 && self.words[1] & other.words[1] != 0
            && self.words[2] & other.words[2] != 0;
        proof {
            if r {
                assert forall|k: int| 0 <= k < 3 implies #[trigger] self.words@[k] & other.words@[k]
                    != 0 by {
                    assert(k == 0 || k == 1 || k == 2);
                }
            }
        }
        r
    }

    /// Whether a glyph might be a member. False is certain; true is not.
    #[inline]
    pub fn may_have(&self, gid: u32) -> (r: bool)
        ensures
            r == self.admits(gid),
    {
        assert(gid & 63 < 64 && (gid >> 4) & 63 < 64 && (gid >> 9) & 63 < 64) by (bit_vector);
        let w = self.words;
        let r = (w[0] >> ((gid & 63) as u64)) & 1 == 1 && (w[1] >> (((gid >> 4) & 63) as u64)) & 1 == 1
            && (w[2] >> (((gid >> 9) & 63) as u64)) & 1 == 1;
        proof {
            assert(bit(self.words@[0], slot(gid, 0)) && bit(self.words@[1], slot(gid, 1)) && bit(
                self.words@[2],
                slot(gid, 2),
            ) <==> r);
            if r {
                assert forall|k: int| 0 <= k < 3 implies bit(#[trigger] self.words@[k], slot(gid, k)) by {
                    assert(k == 0 || k == 1 || k == 2);
                }
            }
        }
        r
    }

    #[inline]
    pub fn is_empty(&self) -> (r: bool)
        ensures
            r == (self.words@ == seq![0u64, 0u64, 0u64]),
    {
        let r = self.words[0] == 0 && self.words[1] == 0 && self.words[2] == 0;
        proof {
            if r {
                assert(self.words@ =~= seq![0u64, 0u64, 0u64]);
            }
        }
        r
    }
}

/// A slice of a glyph id is one of 64 values.
pub proof fn lemma_slot(gid: u32, word: int)
    ensures
        0 <= slot(gid, word) < 64,
{
    assert(gid & 63 < 64 && (gid >> 4) & 63 < 64 && (gid >> 9) & 63 < 64) by (bit_vector);
}

/// A digest never denies a glyph that was put into it, and putting one in
/// never makes it deny another.
pub proof fn inserting_admits(before: Digest, after: Digest, gid: u32, other: u32)
    requires
        after.words@ == words_with(before.words@, gid),
    ensures
        after.admits(gid),
        before.admits(other) ==> after.admits(other),
{
    assert forall|k: int| 0 <= k < 3 implies bit(#[trigger] after.words@[k], slot(gid, k)) by {
        lemma_slot(gid, k);
        lemma_set_bit(before.words@[k], slot(gid, k), slot(gid, k));
    }
    if before.admits(other) {
        assert forall|k: int| 0 <= k < 3 implies bit(#[trigger] after.words@[k], slot(other, k)) by {
            lemma_slot(gid, k);
            lemma_slot(other, k);
            assert(bit(before.words@[k], slot(other, k)));
            lemma_set_bit(before.words@[k], slot(gid, k), slot(other, k));
        }
    }
}

/// A digest of some glyphs admits every one of them.
pub proof fn a_digest_admits_its_glyphs(glyphs: Seq<u32>, d: Digest, i: int)
    requires
        d.words@ == words_of(glyphs),
        0 <= i < glyphs.len(),
    ensures
        d.admits(glyphs[i]),
    decreases glyphs.len(),
{
    let less = glyphs.drop_last();
    let gid = glyphs[i];
    assert forall|k: int| 0 <= k < 3 implies bit(#[trigger] d.words@[k], slot(gid, k)) by {
        lemma_slot(gid, k);
        lemma_slot(glyphs.last(), k);
        lemma_set_bit(words_of(less)[k], slot(glyphs.last(), k), slot(gid, k));
        if i < less.len() {
            lemma_words_hold(less, i, k);
        }
    }
}

/// Each word of a digest has the bit of each glyph in it.
proof fn lemma_words_hold(glyphs: Seq<u32>, i: int, k: int)
    requires
        0 <= i < glyphs.len(),
        0 <= k < 3,
    ensures
        words_of(glyphs).len() == 3,
        bit(words_of(glyphs)[k], slot(glyphs[i], k)),
    decreases glyphs.len(),
{
    let less = glyphs.drop_last();
    lemma_slot(glyphs[i], k);
    lemma_slot(glyphs.last(), k);
    lemma_set_bit(words_of(less)[k], slot(glyphs.last(), k), slot(glyphs[i], k));
    if i < less.len() {
        lemma_words_hold(less, i, k);
    }
}

/// A union admits exactly what its words allow of either side, so it denies
/// nothing that one of them admits.
pub proof fn a_union_admits_both_sides(a: Digest, b: Digest, both: Digest, gid: u32)
    requires
        both.words@ == Seq::new(3, |k: int| a.words@[k] | b.words@[k]),
        a.admits(gid) || b.admits(gid),
    ensures
        both.admits(gid),
{
    assert forall|k: int| 0 <= k < 3 implies bit(#[trigger] both.words@[k], slot(gid, k)) by {
        lemma_slot(gid, k);
        assert(bit(a.words@[k], slot(gid, k)) || bit(b.words@[k], slot(gid, k)));
        lemma_or_bit(a.words@[k], b.words@[k], slot(gid, k));
    }
}

/// Two digests that admit a glyph in common cannot read as disjoint: a refusal
/// is certain.
pub proof fn a_shared_glyph_is_never_denied(a: Digest, b: Digest, gid: u32)
    requires
        a.admits(gid),
        b.admits(gid),
    ensures
        forall|k: int| 0 <= k < 3 ==> #[trigger] a.words@[k] & b.words@[k] != 0,
{
    assert forall|k: int| 0 <= k < 3 implies #[trigger] a.words@[k] & b.words@[k] != 0 by {
        lemma_slot(gid, k);
        assert(bit(a.words@[k], slot(gid, k)));
        assert(bit(b.words@[k], slot(gid, k)));
        lemma_shared_bit(a.words@[k], b.words@[k], slot(gid, k));
    }
}

/// A digest of nothing admits nothing and meets nothing; one of everything
/// admits every glyph and meets whatever is not empty in some word of it.
pub proof fn empty_and_full(nothing: Digest, everything: Digest, other: Digest, gid: u32)
    requires
        nothing.words@ == seq![0u64, 0u64, 0u64],
        everything.words@ == seq![u64::MAX, u64::MAX, u64::MAX],
    ensures
        !nothing.admits(gid),
        nothing.words@[0] & other.words@[0] == 0,
        everything.admits(gid),
        forall|k: int| 0 <= k < 3 ==> #[trigger] everything.words@[k] & other.words@[k]
            == other.words@[k],
{
    lemma_slot(gid, 0);
    lemma_zero_has_no_bits(slot(gid, 0));
    assert(!bit(nothing.words@[0], slot(gid, 0)));
    let first = other.words@[0];
    assert(0u64 & first == 0) by (bit_vector);
    assert forall|k: int| 0 <= k < 3 implies bit(#[trigger] everything.words@[k], slot(gid, k)) by {
        lemma_slot(gid, k);
        let b = slot(gid, k) as u64;
        assert((u64::MAX >> b) & 1 == 1) by (bit_vector)
            requires
                b < 64,
        ;
    }
    assert forall|k: int| 0 <= k < 3 implies #[trigger] everything.words@[k] & other.words@[k]
        == other.words@[k] by {
        let w = other.words@[k];
        assert(u64::MAX & w == w) by (bit_vector);
    }
}

/// A digest keeps three parts of a glyph's number, each of six bits: from its
/// lowest bit on, from its fifth, and from its tenth.
pub proof fn a_digest_keeps_three_parts_of_a_number(gid: u32)
    ensures
        slot(gid, 0) == gid % 64,
        slot(gid, 1) == (gid / 16) % 64,
        slot(gid, 2) == (gid / 512) % 64,
{
    assert(gid & 63 == gid % 64 && (gid >> 4) & 63 == (gid / 16) % 64 && (gid >> 9) & 63 == (gid / 512) % 64)
        by (bit_vector);
}

} // verus!
