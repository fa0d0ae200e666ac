//! A flat bitmap over the 16-bit glyph space, specialized for applying AAT
//! tables.
//!
//! The set of a line's glyphs is rebuilt for every line and probed for every
//! subtable, so membership is one bit per glyph id, indexed directly. AAT
//! tables address glyphs as 16-bit ids, so the deleted glyph is tracked as a
//! flag and larger ids -- which no AAT table can reference -- are simply not
//! members.

use vstd::prelude::*;

use crate::bits::{bit, lemma_or_bit, lemma_shared_bit, lemma_zero_has_no_bits, single};
use crate::glyphs::{bitmap_has, bitmap_test, lemma_bitmap_set};

verus! {

/// The last glyph id that has a bit.
pub const MAX_GLYPH: u32 = 0xFFFE;

/// The id that stands for a deleted glyph.
pub const DELETED_GLYPH: u32 = 0xFFFF;

/// Words per block that `clear` goes by: eight words of 64 bits.
pub const BLOCK_WORDS: usize = 8;

/// Whether a block may have set bits.
pub open spec fn block_touched(touched: u128, block: int) -> bool {
    (touched >> (block as u128)) & 1 == 1
}

pub struct GlyphSet {
    /// One bit per glyph id, grown on demand to the highest inserted id.
    pub words: Vec<u64>,
    /// One bit per block of `words`, tracking which blocks may contain set
    /// bits; `clear` zeroes only those blocks, so clearing costs in proportion
    /// to what a line actually touched.
    pub touched: u128,
    pub has_deleted: bool,
}

impl Default for GlyphSet {
    fn default() -> (r: GlyphSet)
        ensures
            r.wf(),
            forall|g: u32| !#[trigger] r.has(g),
    {
        GlyphSet { words: Vec::new(), touched: 0, has_deleted: false }
    }
}

impl GlyphSet {
    /// Whether a glyph is a member.
    pub open spec fn has(&self, g: u32) -> bool {
        if g > MAX_GLYPH {
            g == DELETED_GLYPH && self.has_deleted
        } else {
            bitmap_has(self.words@, g as int)
        }
    }

    /// There are words for sixteen-bit ids only, none of them has the bit of
    /// the deleted glyph, and a block that is not touched is all zeros.
    pub open spec fn wf(&self) -> bool {
        &&& self.words@.len() <= 1024
        &&& !bitmap_has(self.words@, DELETED_GLYPH as int)
        &&& forall|w: int|
            0 <= w < self.words@.len() && !block_touched(self.touched, w / 8) ==> #[trigger] self.words@[w] == 0
    }

    #[inline]
    pub fn insert(&mut self, g: u32)
        requires
            old(self).wf(),
        ensures
            final(self).wf(),
            forall|x: u32| #[trigger] final(self).has(x) <==> old(self).has(x) || (x == g && g <= DELETED_GLYPH),
    {
        if g > MAX_GLYPH {
            if g == DELETED_GLYPH {
                self.has_deleted = true;
            }
            return;
        }
        let w: usize = (g / 64) as usize;
        let b: u32 = g % 64;
        self.grow(w + 1);
        let ghost grown = *self;
        let ghost before = self.words@;
        let word: u64 = self.words[w] | (1u64 << b);
        self.words.set(w, word);
        self.touch(g / 512);
        proof {
            assert(self.words@ =~= before.update(g as int / 64, before[g as int / 64] | single(g as int % 64)));
            lemma_bitmap_set(before, g as int, DELETED_GLYPH as int);
            assert forall|x: u32| #[trigger] self.has(x) <==> old(self).has(x) || x == g by {
                assert(grown.has(x) <==> old(self).has(x));
                if x <= MAX_GLYPH {
                    lemma_bitmap_set(before, g as int, x as int);
                }
            }
        }
    }

    /// Make room for at least `n` words.
    fn grow(&mut self, n: usize)
        requires
            old(self).wf(),
            n <= 1024,
        ensures
            final(self).wf(),
            final(self).words@.len() == (if n > old(self).words@.len() {
                n as nat
            } else {
                old(self).words@.len()
            }),
            final(self).touched == old(self).touched,
            final(self).has_deleted == old(self).has_deleted,
            forall|x: u32| #[trigger] final(self).has(x) <==> old(self).has(x),
    {
        while self.words.len() < n
            invariant
                self.wf(),
                n <= 1024,
                self.words@.len() <= (if n > old(self).words@.len() {
                    n as nat
                } else {
                    old(self).words@.len()
                }),
                self.words@.len() >= old(self).words@.len(),
                self.touched == old(self).touched,
                self.has_deleted == old(self).has_deleted,
                forall|x: u32| #[trigger] self.has(x) <==> old(self).has(x),
            decreases n - self.words@.len(),
        {
            let ghost before = *self;
            self.words.push(0);
            proof {
                lemma_zero_has_no_bits(63);
                assert forall|x: u32| #[trigger] self.has(x) <==> old(self).has(x) by {
                    assert(before.has(x) <==> old(self).has(x));
                    if x <= MAX_GLYPH && x as int / 64 == before.words@.len() {
                        lemma_zero_has_no_bits(x as int % 64);
                    }
                }
            }
        }
    }

    /// Note that a block may have set bits.
    fn touch(&mut self, block: u32)
        requires
            block < 128,
        ensures
            final(self).words == old(self).words,
            final(self).has_deleted == old(self).has_deleted,
            forall|k: int|
                0 <= k < 128 ==> #[trigger] block_touched(final(self).touched, k) == (block_touched(
                    old(self).touched,
                    k,
                ) || k == block),
    {
        let before: u128 = self.touched;
        self.touched = before | (1u128 << block);
        proof {
            assert forall|k: int| 0 <= k < 128 implies #[trigger] block_touched(self.touched, k) == (
            block_touched(before, k) || k == block) by {
                let b = k as u128;
                let m = block as u128;
                assert(((before | (1u128 << m)) >> b) & 1 == 1 <==> ((before >> b) & 1 == 1 || b == m))
                    by (bit_vector)
                    requires
                        b < 128,
                        m < 128,
                ;
            }
        }
    }

    #[inline]
    pub fn contains(&self, g: u32) -> (r: bool)
        ensures
            r == self.has(g),
    {
        if g > MAX_GLYPH {
            return g == DELETED_GLYPH && self.has_deleted;
        }
        bitmap_test(&self.words, g)
    }

    /// Insert every id from `start` to `end`, both included.
    pub fn insert_range(&mut self, start: u32, end: u32)
        requires
            old(self).wf(),
        ensures
            final(self).wf(),
            forall|x: u32| #[trigger]
                final(self).has(x) <==> old(self).has(x) || (start <= x <= end && x <= DELETED_GLYPH),
    {
        if start > end {
            return;
        }
        if end >= DELETED_GLYPH && start <= DELETED_GLYPH {
            self.has_deleted = true;
        }
        let last: u32 = if end > MAX_GLYPH {
            MAX_GLYPH
        } else {
            end
        };
        if start > last {
            return;
        }
        let ws: usize = (start / 64) as usize;
        let we: usize = (last / 64) as usize;
        let ghost flagged = *self;
        self.grow(we + 1);
        let ghost grown = *self;
        let mut major: u32 = start / 512;
        while major <= last / 512
            invariant
                start / 512 <= major <= last / 512 + 1,
                last <= MAX_GLYPH,
                self.words == grown.words,
                self.has_deleted == grown.has_deleted,
                forall|k: int|
                    0 <= k < 128 ==> #[trigger] block_touched(self.touched, k) == (block_touched(
                        grown.touched,
                        k,
                    ) || start / 512 <= k < major),
            decreases last / 512 + 1 - major,
        {
            self.touch(major);
            major += 1;
        }
        let ghost noted = *self;
        let mut w: usize = ws;
        while w <= we
            invariant
                ws <= w <= we + 1,
                ws == start / 64,
                we == last / 64,
                start <= last <= MAX_GLYPH,
                self.touched == noted.touched,
                self.has_deleted == noted.has_deleted,
                self.words@.len() == noted.words@.len(),
                we < self.words@.len() <= 1024,
                forall|k: int|
                    0 <= k < self.words@.len() && !(ws <= k < w) ==> #[trigger] self.words@[k]
                        == noted.words@[k],
                forall|x: u32|
                    #![trigger bitmap_has(self.words@, x as int)]
                    x <= DELETED_GLYPH && x as int / 64 < w ==> (bitmap_has(self.words@, x as int)
                        <==> bitmap_has(noted.words@, x as int) || start <= x <= last),
            decreases we + 1 - w,
        {
            let lo: u32 = if w == ws {
                start % 64
            } else {
                0
            };
            let hi: u32 = if w == we {
                last % 64
            } else {
                63
            };
            let mask: u64 = (u64::MAX << lo) & (u64::MAX >> (63 - hi));
            let ghost before = self.words@;
            let word: u64 = self.words[w] | mask;
            self.words.set(w, word);
            proof {
                assert forall|x: u32|
                    #![trigger bitmap_has(self.words@, x as int)]
                    x <= DELETED_GLYPH && x as int / 64 < w + 1 implies (bitmap_has(self.words@, x as int)
                    <==> bitmap_has(noted.words@, x as int) || start <= x <= last) by {
                    let k = x as int / 64;
                    if k == w {
                        let i = x as int % 64;
                        lemma_or_bit(before[w as int], mask, i);
                        let b = i as u64;
                        let l = lo as u64;
                        let h = hi as u64;
                        assert((((u64::MAX << l) & (u64::MAX >> sub_from_63(h))) >> b) & 1 == 1 <==> (l <= b
                            && b <= h)) by (bit_vector)
                            requires
                                l < 64,
                                h < 64,
                                b < 64,
                        ;
                        assert(bitmap_has(noted.words@, x as int) == bit(before[w as int], i));
                    } else {
                        assert(self.words@[k] == before[k]);
                        assert(bitmap_has(before, x as int) == bitmap_has(self.words@, x as int));
                    }
                }
            }
            w += 1;
        }
        proof {
            assert forall|x: u32| #[trigger] self.has(x) <==> old(self).has(x) || (start <= x <= end && x
                <= DELETED_GLYPH) by {
                assert(grown.has(x) <==> flagged.has(x));
                if x <= MAX_GLYPH {
                    assert(noted.words == grown.words);
                    if x as int / 64 <= we {
                        assert(bitmap_has(self.words@, x as int) <==> bitmap_has(noted.words@, x as int)
                            || start <= x <= last);
                    } else {
                        assert(bitmap_has(self.words@, x as int) == bitmap_has(noted.words@, x as int)) by {
                            if x as int / 64 < self.words@.len() {
                                assert(self.words@[x as int / 64] == noted.words@[x as int / 64]);
                            }
                        }
                    }
                }
            }
            assert(bitmap_has(self.words@, DELETED_GLYPH as int) ==> bitmap_has(
                noted.words@,
                DELETED_GLYPH as int,
            )) by {
                let x = DELETED_GLYPH;
                if x as int / 64 < self.words@.len() && x as int / 64 > we {
                    assert(self.words@[x as int / 64] == noted.words@[x as int / 64]);
                } else if x as int / 64 < self.words@.len() {
                    assert(bitmap_has(self.words@, x as int) <==> bitmap_has(noted.words@, x as int)
                        || start <= x <= last);
                }
            }
            assert forall|k: int|
                0 <= k < self.words@.len() && !block_touched(self.touched, k / 8) implies #[trigger] self.words@[k]
                == 0 by {
                assert(!(ws <= k <= we));
                assert(self.words@[k] == noted.words@[k]);
                assert(!block_touched(grown.touched, k / 8));
                assert(grown.words@[k] == 0);
            }
        }
    }

    /// Forget every member, block by block.
    pub fn clear(&mut self)
        requires
            old(self).wf(),
        ensures
            final(self).wf(),
            forall|g: u32| !#[trigger] final(self).has(g),
    {
        let len: usize = self.words.len();
        let mut block: u32 = 0;
        while block < 128
            invariant
                block <= 128,
                len == self.words@.len(),
                self.wf(),
                self.touched == old(self).touched,
                forall|w: int| 0 <= w < self.words@.len() && w / 8 < block ==> #[trigger] self.words@[w] == 0,
            decreases 128 - block,
        {
            let t: u128 = (self.touched >> block) & 1;
            if t == 1 {
                let base: usize = block as usize * BLOCK_WORDS;
                let mut w: usize = base;
                while w < base + BLOCK_WORDS && w < len
                    invariant
                        base <= w <= base + BLOCK_WORDS,
                        base == block * 8,
                        block < 128,
                        len == self.words@.len(),
                        self.wf(),
                        self.touched == old(self).touched,
                        forall|k: int|
                            0 <= k < self.words@.len() && k / 8 < block ==> #[trigger] self.words@[k] == 0,
                        forall|k: int| base <= k < w && k < self.words@.len() ==> #[trigger] self.words@[k] == 0,
                    decreases base + BLOCK_WORDS - w,
                {
                    let ghost before = self.words@;
                    self.words.set(w, 0);
                    proof {
                        lemma_zero_has_no_bits(63);
                        assert(!bitmap_has(before, DELETED_GLYPH as int));
                    }
                    w += 1;
                }
            }
            proof {
                let shift = block as u128;
                assert(block_touched(self.touched, block as int) == (t == 1));
            }
            block += 1;
        }
        self.touched = 0;
        self.has_deleted = false;
        proof {
            assert forall|g: u32| !#[trigger] self.has(g) by {
                if g <= MAX_GLYPH && (g as int / 64) < self.words@.len() {
                    assert(self.words@[g as int / 64] == 0);
                    lemma_zero_has_no_bits(g as int % 64);
                }
            }
        }
    }

    /// Whether two sets share a glyph.
    #[inline]
    pub fn intersects_set(&self, other: &GlyphSet) -> (r: bool)
        requires
            self.wf(),
            other.wf(),
        ensures
            r == exists|g: u32| #[trigger] self.has(g) && other.has(g),
    {
        if self.has_deleted && other.has_deleted {
            assert(self.has(DELETED_GLYPH) && other.has(DELETED_GLYPH));
            return true;
        }
        let mut w: usize = 0;
        while w < self.words.len() && w < other.words.len()
            invariant
                w <= self.words@.len(),
                w <= other.words@.len(),
                self.wf(),
                other.wf(),
                !(self.has_deleted && other.has_deleted),
                forall|k: int| 0 <= k < w ==> #[trigger] self.words@[k] & other.words@[k] == 0,
            decreases self.words@.len() - w,
        {
            let both: u64 = self.words[w] & other.words[w];
            if both != 0 {
                proof {
                    let i = lemma_common_bit(self.words@[w as int], other.words@[w as int]);
                    let g = (w * 64 + i) as u32;
                    assert(g as int / 64 == w && g as int % 64 == i);
                    assert(bitmap_has(self.words@, g as int) && bitmap_has(other.words@, g as int));
                    assert(self.has(g) && other.has(g));
                }
                return true;
            }
            w += 1;
        }
        proof {
            assert forall|g: u32| !(#[trigger] self.has(g) && other.has(g)) by {
                if self.has(g) && other.has(g) {
                    assert(g <= MAX_GLYPH);
                    let k = g as int / 64;
                    lemma_shared_bit(self.words@[k], other.words@[k], g as int % 64);
                    assert(self.words@[k] & other.words@[k] == 0);
                }
            }
        }
        false
    }
}

/// The distance from a bit to the last.
spec fn sub_from_63(h: u64) -> u64 {
    (63 - h) as u64
}

/// Two words with a non-zero conjunction have a set bit in common.
proof fn lemma_common_bit(a: u64, b: u64) -> (i: int)
    requires
        a & b != 0,
    ensures
        0 <= i < 64,
        bit(a, i),
        bit(b, i),
{
    let both = a & b;
    vstd::std_specs::bits::axiom_u64_trailing_zeros(both);
    let t = vstd::std_specs::bits::u64_trailing_zeros(both) as u64;
    assert(((a & b) >> t) & 1 == 1 ==> (a >> t) & 1 == 1 && (b >> t) & 1 == 1) by (bit_vector)
        requires
            t < 64,
    ;
    t as int
}

} // verus!
