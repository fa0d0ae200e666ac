//! A small direct-mapped cache.
//!
//! The slot of a key is its low bits, and the rest of the key is stored as a tag
//! beside the value, so a key that shares a slot with another misses rather
//! than reads the other's value.

use vstd::arithmetic::power2::pow2;
use vstd::prelude::*;

verus! {

/// What one slot of a cache is stored in.
pub trait AtomicStorage: Sized {
    /// How many bits it has.
    spec fn bits() -> nat;

    /// The number it holds.
    spec fn held(&self) -> u32;

    fn get(&self) -> (r: u32)
        ensures
            r == self.held(),
    ;

    fn set(&mut self, val: u32)
        requires
            val < pow2(Self::bits()),
        ensures
            final(self).held() == val,
    ;

    /// All ones, which stands for an empty slot.
    fn empty() -> (r: Self)
        ensures
            Self::bits() <= 32,
            r.held() == pow2(Self::bits()) - 1,
    ;
}

impl AtomicStorage for u8 {
    open spec fn bits() -> nat {
        8
    }

    open spec fn held(&self) -> u32 {
        *self as u32
    }

    fn get(&self) -> (r: u32) {
        *self as u32
    }

    fn set(&mut self, val: u32) {
        proof {
            vstd::arithmetic::power2::lemma2_to64();
        }
        *self = val as u8;
    }

    fn empty() -> (r: u8) {
        proof {
            vstd::arithmetic::power2::lemma2_to64();
        }
        u8::MAX
    }
}

impl AtomicStorage for u16 {
    open spec fn bits() -> nat {
        16
    }

    open spec fn held(&self) -> u32 {
        *self as u32
    }

    fn get(&self) -> (r: u32) {
        *self as u32
    }

    fn set(&mut self, val: u32) {
        proof {
            vstd::arithmetic::power2::lemma2_to64();
        }
        *self = val as u16;
    }

    fn empty() -> (r: u16) {
        proof {
            vstd::arithmetic::power2::lemma2_to64();
        }
        u16::MAX
    }
}

impl AtomicStorage for u32 {
    open spec fn bits() -> nat {
        32
    }

    open spec fn held(&self) -> u32 {
        *self
    }

    fn get(&self) -> (r: u32) {
        *self
    }

    fn set(&mut self, val: u32) {
        *self = val;
    }

    fn empty() -> (r: u32) {
        proof {
            vstd::arithmetic::power2::lemma2_to64();
        }
        u32::MAX
    }
}

/// Selects the storage of a number of bits.
pub trait SelectAtomic<const BITS: usize> {
    type Type: AtomicStorage;
}

impl SelectAtomic<8> for () {
    type Type = u8;
}

impl SelectAtomic<16> for () {
    type Type = u16;
}

impl SelectAtomic<32> for () {
    type Type = u32;
}

/// A cache of keys and values of so many bits each.
#[derive(Debug)]
pub struct hb_cache_core_t<
    const KEY_BITS: usize,
    const VALUE_BITS: usize,
    const CACHE_SIZE: usize,
    T: AtomicStorage,
> {
    pub values: Vec<T>,
}

/// A cache by the number of bits of its slots.
pub type hb_cache_t<
    const KEY_BITS: usize,
    const VALUE_BITS: usize,
    const CACHE_SIZE: usize,
    const STORAGE_BITS: usize,
> = hb_cache_core_t<KEY_BITS, VALUE_BITS, CACHE_SIZE, <() as SelectAtomic<STORAGE_BITS>>::Type>;

impl<const KEY_BITS: usize, const VALUE_BITS: usize, const CACHE_SIZE: usize, T: AtomicStorage>
    hb_cache_core_t<KEY_BITS, VALUE_BITS, CACHE_SIZE, T> {
    /// Whether keys and values of these widths fit the slots: the size is a
    /// power of two, and what is left of a key beside a value fits one slot.
    pub open spec fn fits() -> bool {
        &&& VALUE_BITS < 32
        &&& KEY_BITS < 32
        &&& T::bits() <= 32
        &&& exists|c: nat|
            #![trigger pow2(c)]
            pow2(c) == CACHE_SIZE && c <= KEY_BITS && KEY_BITS + VALUE_BITS <= c + T::bits()
    }

    pub open spec fn wf(&self) -> bool {
        Self::fits() && self.values@.len() == CACHE_SIZE && CACHE_SIZE > 0
    }

    /// What a key reads back as: the value part of its slot where the slot is
    /// in use and tagged with the rest of the key.
    pub open spec fn cached(&self, key: u32) -> Option<u32> {
        let stored = self.values@[key as int % CACHE_SIZE as int].held();
        if stored == pow2(T::bits()) - 1 || stored as int / pow2(VALUE_BITS as nat) as int != key as int
            / CACHE_SIZE as int {
            None
        } else {
            Some((stored as int % pow2(VALUE_BITS as nat) as int) as u32)
        }
    }

    /// Whether a key and a value fit their widths.
    pub open spec fn accepts(key: u32, value: u32) -> bool {
        key < pow2(KEY_BITS as nat) && value < pow2(VALUE_BITS as nat)
    }

    /// Whether this is a cache after a value was written for a key. One that
    /// does not fit changes nothing; one that reads as an empty slot leaves the
    /// slot empty; another key's value in the slot is gone.
    pub open spec fn took(&self, before: Self, key: u32, value: u32) -> bool {
        if Self::accepts(key, value) {
            &&& self.cached(key) == Some(value) || self.cached(key) is None
            &&& self.cached(key) is None <==> key as int / CACHE_SIZE as int * pow2(VALUE_BITS as nat)
                + value == pow2(T::bits()) - 1
            &&& forall|k: u32|
                k != key ==> #[trigger] self.cached(k) == (if k as int % CACHE_SIZE as int == key as int
                    % CACHE_SIZE as int {
                    None
                } else {
                    before.cached(k)
                })
        } else {
            *self == before
        }
    }

    pub fn new() -> (r: Self)
        requires
            Self::fits(),
        ensures
            r.wf(),
            forall|key: u32| #[trigger] r.cached(key) is None,
    {
        proof {
            let c = choose|c: nat|
                #![trigger pow2(c)]
                pow2(c) == CACHE_SIZE && c <= KEY_BITS && KEY_BITS + VALUE_BITS <= c + T::bits();
            vstd::arithmetic::power2::lemma_pow2_pos(c);
        }
        let mut values: Vec<T> = Vec::new();
        let mut i: usize = 0;
        while i < CACHE_SIZE
            invariant
                i <= CACHE_SIZE,
                values@.len() == i,
                forall|k: int| 0 <= k < i ==> (#[trigger] values@[k]).held() == pow2(T::bits()) - 1,
            decreases CACHE_SIZE - i,
        {
            values.push(T::empty());
            i += 1;
        }
        let r = hb_cache_core_t { values };
        proof {
            assert forall|key: u32| #[trigger] r.cached(key) is None by {
                lemma_slot(key, CACHE_SIZE);
            }
        }
        r
    }

    #[inline]
    pub fn get(&self, key: u32) -> (r: Option<u32>)
        requires
            self.wf(),
        ensures
            r == self.cached(key),
    {
        proof {
            lemma_slot(key, CACHE_SIZE);
            lemma_range(VALUE_BITS as nat);
        }
        let at: usize = (key as usize) % CACHE_SIZE;
        let stored: u32 = self.values[at].get();
        let none: u32 = T::empty().get();
        let range: u32 = 1u32 << VALUE_BITS;
        let tag: u32 = stored / range;
        if stored == none || tag as usize != key as usize / CACHE_SIZE {
            None
        } else {
            Some(stored % range)
        }
    }

    /// Remember a value for a key. A key or a value that does not fit its width
    /// is dropped.
    #[inline]
    pub fn set(&mut self, key: u32, value: u32)
        requires
            old(self).wf(),
        ensures
            final(self).wf(),
            final(self).took(*old(self), key, value),
    {
        proof {
            lemma_range(VALUE_BITS as nat);
            lemma_range(KEY_BITS as nat);
        }
        let keys: u32 = 1u32 << KEY_BITS;
        let range: u32 = 1u32 << VALUE_BITS;
        if key >= keys || value >= range {
            return;
        }
        self.set_unchecked(key, value);
    }

    #[inline]
    fn set_unchecked(&mut self, key: u32, value: u32)
        requires
            old(self).wf(),
            Self::accepts(key, value),
        ensures
            final(self).wf(),
            final(self).cached(key) == Some(value) || final(self).cached(key) is None,
            final(self).cached(key) is None <==> key as int / CACHE_SIZE as int * pow2(VALUE_BITS as nat)
                + value == pow2(T::bits()) - 1,
            forall|k: u32|
                k != key ==> #[trigger] final(self).cached(k) == (if k as int % CACHE_SIZE as int
                    == key as int % CACHE_SIZE as int {
                    None
                } else {
                    old(self).cached(k)
                }),
    {
        let ghost v = pow2(VALUE_BITS as nat);
        let ghost top = pow2(T::bits());
        let ghost tag = key as int / CACHE_SIZE as int;
        proof {
            lemma_slot(key, CACHE_SIZE);
            lemma_range(VALUE_BITS as nat);
            let c = choose|c: nat|
                #![trigger pow2(c)]
                pow2(c) == CACHE_SIZE && c <= KEY_BITS && KEY_BITS + VALUE_BITS <= c + T::bits();
            lemma_packed(key as int, value as int, KEY_BITS as nat, VALUE_BITS as nat, c, T::bits());
            vstd::arithmetic::power2::lemma2_to64();
            if T::bits() < 32 {
                vstd::arithmetic::power2::lemma_pow2_strictly_increases(T::bits(), 32);
            }
        }
        let at: usize = (key as usize) % CACHE_SIZE;
        let range: u32 = 1u32 << VALUE_BITS;
        let rest: u32 = (key as usize / CACHE_SIZE) as u32;
        let packed: u32 = rest * range + value;
        let mut slot: T = T::empty();
        slot.set(packed);
        self.values.set(at, slot);
        proof {
            assert(packed as int / v as int == tag && packed as int % v as int == value) by (nonlinear_arith)
                requires
                    packed == tag * v + value,
                    0 <= value < v,
                    v > 0,
                    tag >= 0,
            ;
            assert forall|k: u32| k != key implies #[trigger] self.cached(k) == (if k as int % CACHE_SIZE as int
                == key as int % CACHE_SIZE as int {
                None
            } else {
                old(self).cached(k)
            }) by {
                lemma_slot(k, CACHE_SIZE);
                if k as int % CACHE_SIZE as int == key as int % CACHE_SIZE as int {
                    assert(k as int / CACHE_SIZE as int != key as int / CACHE_SIZE as int) by (nonlinear_arith)
                        requires
                            k != key,
                            CACHE_SIZE > 0,
                            k as int % CACHE_SIZE as int == key as int % CACHE_SIZE as int,
                    ;
                }
            }
        }
    }
}

proof fn lemma_slot(key: u32, size: usize)
    requires
        size > 0,
    ensures
        0 <= key as int % size as int,
        (key as int % size as int) < size,
        0 <= key as int / size as int <= key,
{
    let k = key as int;
    let n = size as int;
    assert(0 <= k % n && k % n < n && 0 <= k / n && k / n <= k) by (nonlinear_arith)
        requires
            n > 0,
            k >= 0,
    ;
}

/// A shifted one is a power of two.
proof fn lemma_range(n: nat)
    requires
        n < 32,
    ensures
        1u32 << (n as usize) == pow2(n),
        0 < pow2(n) <= u32::MAX,
{
    vstd::arithmetic::power2::lemma2_to64();
    vstd::arithmetic::power2::lemma_pow2_strictly_increases(n, 32);
    vstd::arithmetic::power2::lemma_pow2_pos(n);
    vstd::bits::lemma_u32_shl_is_mul(1u32, n as u32);
    let k = n as u32;
    assert(1u32 << (n as usize) == 1u32 << k);
}

/// What is left of a key above its slot, beside a value, fits one slot.
proof fn lemma_packed(key: int, value: int, key_bits: nat, value_bits: nat, c: nat, bits: nat)
    requires
        0 <= key < pow2(key_bits),
        0 <= value < pow2(value_bits),
        c <= key_bits,
        key_bits + value_bits <= c + bits,
        bits <= 32,
    ensures
        pow2(c) > 0,
        0 <= key / (pow2(c) as int) * pow2(value_bits) + value < pow2(bits),
{
    vstd::arithmetic::power2::lemma_pow2_pos(c);
    vstd::arithmetic::power2::lemma_pow2_pos(value_bits);
    let above = (key_bits - c) as nat;
    vstd::arithmetic::power2::lemma_pow2_adds(above, c);
    vstd::arithmetic::power2::lemma_pow2_adds(above, value_bits);
    let size = pow2(c) as int;
    let v = pow2(value_bits) as int;
    let tags = pow2(above) as int;
    assert(0 <= key / size < tags) by (nonlinear_arith)
        requires
            size > 0,
            0 <= key < tags * size,
    ;
    let tag = key / size;
    assert(tag * v + value < tags * v) by (nonlinear_arith)
        requires
            0 <= tag <= tags - 1,
            0 <= value < v,
            v > 0,
    ;
    assert(tag * v >= 0) by (nonlinear_arith)
        requires
            tag >= 0,
            v > 0,
    ;
    if above + value_bits < bits {
        vstd::arithmetic::power2::lemma_pow2_strictly_increases(above + value_bits, bits);
    }
}

/// Whether every hit of a cache is the last value written for its key.
pub open spec fn remembers<
    const KEY_BITS: usize,
    const VALUE_BITS: usize,
    const CACHE_SIZE: usize,
    T: AtomicStorage,
>(cache: hb_cache_core_t<KEY_BITS, VALUE_BITS, CACHE_SIZE, T>, written: Map<u32, u32>) -> bool {
    forall|key: u32|
        (#[trigger] cache.cached(key)) is Some ==> written.dom().contains(key) && cache.cached(key)
            == Some(written[key])
}

/// A hit carries the last value written for its key, whatever was written
/// before and since; a write that is refused changes nothing.
pub proof fn a_hit_is_the_last_value_written<
    const KEY_BITS: usize,
    const VALUE_BITS: usize,
    const CACHE_SIZE: usize,
    T: AtomicStorage,
>(
    before: hb_cache_core_t<KEY_BITS, VALUE_BITS, CACHE_SIZE, T>,
    after: hb_cache_core_t<KEY_BITS, VALUE_BITS, CACHE_SIZE, T>,
    written: Map<u32, u32>,
    key: u32,
    value: u32,
)
    requires
        remembers(before, written),
        after.took(before, key, value),
    ensures
        hb_cache_core_t::<KEY_BITS, VALUE_BITS, CACHE_SIZE, T>::accepts(key, value) ==> remembers(
            after,
            written.insert(key, value),
        ),
        !hb_cache_core_t::<KEY_BITS, VALUE_BITS, CACHE_SIZE, T>::accepts(key, value) ==> remembers(
            after,
            written,
        ),
{
    if hb_cache_core_t::<KEY_BITS, VALUE_BITS, CACHE_SIZE, T>::accepts(key, value) {
        assert forall|k: u32| (#[trigger] after.cached(k)) is Some implies written.insert(
            key,
            value,
        ).dom().contains(k) && after.cached(k) == Some(written.insert(key, value)[k]) by {
            if k != key {
                assert(before.cached(k) is Some);
            }
        }
    }
}

/// A value that fits reads back once it is written, but for the one that is all
/// ones beside its key; a key of another slot reads as before, and another key of
/// the slot reads as nothing. A key or a value that is too wide changes nothing.
pub proof fn a_value_written_reads_back<
    const KEY_BITS: usize,
    const VALUE_BITS: usize,
    const CACHE_SIZE: usize,
    T: AtomicStorage,
>(
    cache: &mut hb_cache_core_t<KEY_BITS, VALUE_BITS, CACHE_SIZE, T>,
    key: u32,
    value: u32,
    other: u32,
    read: Option<u32>,
    before: Option<u32>,
    after: Option<u32>,
)
    requires
        old(cache).wf(),
        final(cache).wf(),
        other != key,
        call_ensures(hb_cache_core_t::<KEY_BITS, VALUE_BITS, CACHE_SIZE, T>::set, (cache, key, value), ()),
        call_ensures(
            hb_cache_core_t::<KEY_BITS, VALUE_BITS, CACHE_SIZE, T>::get,
            (&*final(cache), key),
            read,
        ),
        call_ensures(
            hb_cache_core_t::<KEY_BITS, VALUE_BITS, CACHE_SIZE, T>::get,
            (&*old(cache), other),
            before,
        ),
        call_ensures(
            hb_cache_core_t::<KEY_BITS, VALUE_BITS, CACHE_SIZE, T>::get,
            (&*final(cache), other),
            after,
        ),
    ensures
        key < pow2(KEY_BITS as nat) && value < pow2(VALUE_BITS as nat) ==> {
            &&& read is Some ==> read->0 == value
            &&& read is None ==> key as int / CACHE_SIZE as int * pow2(VALUE_BITS as nat) + value + 1 == pow2(
                T::bits(),
            )
            &&& key as int % CACHE_SIZE as int == other as int % CACHE_SIZE as int ==> after is None
            &&& key as int % CACHE_SIZE as int != other as int % CACHE_SIZE as int ==> after == before
        },
        !(key < pow2(KEY_BITS as nat) && value < pow2(VALUE_BITS as nat)) ==> after == before,
{
}

} // verus!
