//! Big-endian numbers in a font, addressed by byte offset.

use vstd::prelude::*;

verus! {

/// Whether `n` bytes can be read at `at`.
pub open spec fn fits(data: Seq<u8>, at: int, n: int) -> bool {
    0 <= at && at + n <= data.len()
}

/// The big-endian number in the two bytes at `at`.
pub open spec fn word(data: Seq<u8>, at: int) -> u16 {
    (data[at] * 256 + data[at + 1]) as u16
}

/// The big-endian number in the four bytes at `at`.
pub open spec fn long(data: Seq<u8>, at: int) -> u32 {
    (word(data, at) * 65536 + word(data, at + 2)) as u32
}

/// A word that may lie past the end.
pub open spec fn word_at(data: Seq<u8>, at: int) -> Option<u16> {
    if fits(data, at, 2) {
        Some(word(data, at))
    } else {
        None
    }
}

/// A big-endian `u16` at a byte offset, bounds checked.
pub fn be16(data: &[u8], at: usize) -> (r: Option<u16>)
    ensures
        r == word_at(data@, at as int),
{
    if data.len() >= 2 && at <= data.len() - 2 {
        let hi: u8 = data[at];
        let lo: u8 = data[at + 1];
        Some(hi as u16 * 256 + lo as u16)
    } else {
        None
    }
}

/// A big-endian `u16` at an offset that may be past any address.
pub fn be16_far(data: &[u8], at: u64) -> (r: Option<u16>)
    ensures
        r == word_at(data@, at as int),
{
    if at >= data.len() as u64 {
        None
    } else {
        be16(data, at as usize)
    }
}

/// A big-endian `u32` at a byte offset, bounds checked.
pub fn be32(data: &[u8], at: usize) -> (r: Option<u32>)
    ensures
        r == (if fits(data@, at as int, 4) {
            Some(long(data@, at as int))
        } else {
            None
        }),
{
    if data.len() >= 4 && at <= data.len() - 4 {
        let hi: u32 = data[at] as u32 * 256 + data[at + 1] as u32;
        let lo: u32 = data[at + 2] as u32 * 256 + data[at + 3] as u32;
        Some(hi * 65536 + lo)
    } else {
        None
    }
}

/// What is left of some bytes from `at` on.
pub open spec fn tail(data: Seq<u8>, at: int) -> Seq<u8> {
    data.subrange(at, data.len() as int)
}

/// A word of a tail is a word of the whole.
pub proof fn lemma_tail_word(data: Seq<u8>, at: int, k: int)
    requires
        0 <= at <= data.len(),
        0 <= k,
    ensures
        tail(data, at).len() == data.len() - at,
        fits(tail(data, at), k, 2) <==> fits(data, at + k, 2),
        fits(data, at + k, 2) ==> word(tail(data, at), k) == word(data, at + k),
{
}

/// A big-endian `u16` array living in the font, addressed by byte offset from
/// the start of the layout table.
///
/// Eight bytes here replace a copy of the array. Reads are bounds checked and
/// return `None` on a malformed offset rather than trusting the font.
#[derive(Copy, Clone, Debug, PartialEq, Eq, Structural)]
pub struct U16Array {
    pub offset: u32,
    pub len: u16,
}

impl U16Array {
    #[inline]
    pub fn get(&self, table: &[u8], i: u32) -> (r: Option<u16>)
        ensures
            r == (if i < self.len {
                word_at(table@, self.offset + i * 2)
            } else {
                None
            }),
    {
        if i >= self.len as u32 {
            return None;
        }
        let at: u64 = self.offset as u64 + i as u64 * 2;
        if at >= table.len() as u64 {
            return None;
        }
        be16(table, at as usize)
    }

    #[inline]
    pub fn len(&self) -> (n: u16)
        ensures
            n == self.len,
    {
        self.len
    }

    #[inline]
    pub fn is_empty(&self) -> (r: bool)
        ensures
            r == (self.len == 0),
    {
        self.len == 0
    }
}

impl Default for U16Array {
    fn default() -> (r: U16Array)
        ensures
            r.offset == 0,
            r.len == 0,
    {
        U16Array { offset: 0, len: 0 }
    }
}

/// The first byte of a number is the one that counts most.
pub proof fn the_first_byte_counts_most(data: Seq<u8>, at: int)
    ensures
        word(data, at) / 256 == data[at],
        word(data, at) % 256 == data[at + 1],
        long(data, at) / 65536 == word(data, at),
        long(data, at) % 65536 == word(data, at + 2),
{
}

} // verus!
