use vstd::arithmetic::power2::{lemma_pow2_strictly_increases, pow2};
use vstd::bits::{lemma_usize_low_bits_mask_is_mod, low_bits_mask};
use vstd::layout::unsigned_int_max_values;
use vstd::prelude::*;

verus! {

/// `n` is a power of two.
pub open spec fn is_power_of_two(n: nat) -> bool {
    exists|k: nat| pow2(k) == n
}

/// The offset of the slot that `index` names in a buffer of `cap` slots.
pub open spec fn slot_offset(index: usize, cap: usize) -> int {
    index as int % cap as int
}

/// A power of two that fits in a `usize` is `2^k` for an exponent below the width of `usize`.
pub proof fn lemma_pow2_exponent_fits(l: usize, k: nat)
    requires
        pow2(k) == l,
    ensures
        k < usize::BITS,
{
    unsigned_int_max_values();
    if k >= usize::BITS {
        if k > usize::BITS {
            lemma_pow2_strictly_increases(usize::BITS as nat, k);
        }
        assert(false);
    }
}

/// For a power of two `l`, masking with `l - 1` keeps the remainder modulo `l`.
pub proof fn lemma_mask_is_mod(x: usize, l: usize)
    requires
        is_power_of_two(l as nat),
    ensures
        l > 0,
        x & ((l - 1) as usize) == x % l,
{
    let k = choose|k: nat| pow2(k) == l as nat;
    lemma_pow2_exponent_fits(l, k);
    vstd::arithmetic::power2::lemma_pow2_pos(k);
    assert(low_bits_mask(k) == l - 1);
    lemma_usize_low_bits_mask_is_mod(x, k);
}

/// An index packs a lap and an offset: `lap * cap + offset` names the slot at
/// `offset`, whatever the lap.
pub proof fn law_index_packs_lap_and_offset(cap: usize, lap: nat, offset: nat)
    requires
        0 < cap,
        offset < cap,
        lap * cap + offset <= usize::MAX,
    ensures
        slot_offset((lap * cap + offset) as usize, cap) == offset,
{
    vstd::arithmetic::mul::lemma_mul_is_commutative(lap as int, cap as int);
    vstd::arithmetic::div_mod::lemma_mod_multiples_vanish(lap as int, offset as int, cap as int);
    vstd::arithmetic::div_mod::lemma_small_mod(offset, cap as nat);
}

/// A read at an index gives back what a write at that index wrote, and a write
/// leaves the slots at the other offsets as they were.
pub proof fn law_read_after_write<T>(
    s: Seq<(usize, Option<T>)>,
    cap: usize,
    index: usize,
    other: usize,
    v: T,
)
    requires
        s.len() == cap,
        0 < cap,
    ensures
        ({
            let w = s.update(slot_offset(index, cap), (index, Some(v)));
            &&& w[slot_offset(index, cap)].0 == index
            &&& w[slot_offset(index, cap)].1 == Some(v)
            &&& slot_offset(other, cap) != slot_offset(index, cap) ==> w[slot_offset(other, cap)]
                == s[slot_offset(other, cap)]
        }),
{
    vstd::arithmetic::div_mod::lemma_mod_bound(index as int, cap as int);
    vstd::arithmetic::div_mod::lemma_mod_bound(other as int, cap as int);
}

/// A slot in buffer.
#[derive(Debug)]
pub struct Slot<T> {
    /// The index of this slot's data.
    ///
    /// An index consists of an offset into the buffer and a lap, packed into a single `usize`.
    /// The lower bits represent the offset, while the upper bits represent the lap.  For example if
    /// the buffer capacity is 4, then index 6 represents offset 2 in lap 1.
    index: usize,
    /// The value in this slot, if there is one.
    data: Option<T>,
}

impl<T> View for Slot<T> {
    type V = (usize, Option<T>);

    closed spec fn view(&self) -> (usize, Option<T>) {
        (self.index, self.data)
    }
}

/// A buffer of slots that holds values in a queue.
///
/// Its capacity is always a power of two, and an index names the slot at
/// `index % capacity`.  Reading a slot leaves it as it is; a value leaves its
/// slot only through `take_value`.  The slots own their values: writing over a
/// slot that still holds one drops it, and dropping the buffer drops the values
/// that its slots still hold.
#[derive(Debug)]
pub struct Buffer<T> {
    /// The slots of the buffer.
    slots: Vec<Slot<T>>,
    /// Capacity of the buffer. Always a power of two.
    cap: usize,
}

impl<T> View for Buffer<T> {
    type V = Seq<(usize, Option<T>)>;

    closed spec fn view(&self) -> Seq<(usize, Option<T>)> {
        self.slots@.map_values(|s: Slot<T>| s@)
    }
}

impl<T> Buffer<T> {
    /// The capacity of the buffer.
    pub closed spec fn capacity(&self) -> usize {
        self.cap
    }

    /// The buffer holds exactly `capacity()` slots, a power of two.
    pub closed spec fn wf(&self) -> bool {
        &&& self.slots@.len() == self.cap
        &&& is_power_of_two(self.cap as nat)
    }

    /// Well-formedness, seen through the view.
    pub proof fn lemma_wf(&self)
        requires
            self.wf(),
        ensures
            self@.len() == self.capacity(),
            self.capacity() > 0,
            is_power_of_two(self.capacity() as nat),
    {
        lemma_mask_is_mod(0, self.cap);
    }

    /// Allocates a new buffer with the specified capacity.
    ///
    /// Every slot starts out empty, with an index that no lap of it will
    /// ever hold: slot `i` gets index `i + 1`.
    pub fn new(cap: usize) -> (b: Self)
        requires
            is_power_of_two(cap as nat),
        ensures
            b.wf(),
            b.capacity() == cap,
            b@ == Seq::new(cap as nat, |i: int| ((i + 1) as usize, None::<T>)),
    {
        let mut slots: Vec<Slot<T>> = Vec::with_capacity(cap);
        let mut i: usize = 0;
        while i < cap
            invariant
                i <= cap,
                slots@.len() == i,
                forall|j: int| 0 <= j < i ==> #[trigger] slots@[j]@ == ((j + 1) as usize, None::<T>),
            decreases cap - i,
        {
            // Index `i + 1` for the `i`-th entry is invalid; only the indexes of the form `i +
            // N * cap` are valid.
            slots.push(Slot { index: i + 1, data: None });
            i = i + 1;
        }
        let b = Buffer { slots, cap };
        assert(b@ =~= Seq::new(cap as nat, |i: int| ((i + 1) as usize, None::<T>)));
        b
    }

    /// Returns the capacity of the buffer.
    pub fn cap(&self) -> (r: usize)
        ensures
            r == self.capacity(),
    {
        self.cap
    }

    /// The offset of the slot that `index` names.
    fn offset(&self, index: usize) -> (r: usize)
        requires
            self.wf(),
        ensures
            r == slot_offset(index, self.capacity()),
            r < self.capacity(),
            r < self@.len(),
    {
        proof {
            lemma_mask_is_mod(index, self.cap);
        }
        // `cap` is always a power of two.
        index & (self.cap - 1)
    }

    /// Returns the slot at the specified `index`.
    pub fn at(&self, index: usize) -> (r: &Slot<T>)
        requires
            self.wf(),
        ensures
            r@ == self@[slot_offset(index, self.capacity())],
    {
        let o = self.offset(index);
        &self.slots[o]
    }

    /// Reads a value from the specified `index`.
    ///
    /// Returns `Some(v)` if `v` is at `index`; or `None` if there's no valid
    /// value for `index`.  The buffer is left as it is.
    pub fn read(&self, index: usize) -> (r: Option<&T>)
        requires
            self.wf(),
        ensures
            ({
                let s = self@[slot_offset(index, self.capacity())];
                r == (if s.0 == index && s.1 is Some {
                    Some(&s.1->0)
                } else {
                    None::<&T>
                })
            }),
    {
        let o = self.offset(index);
        // If the index in the buffer mismatches with the queried index, there's no valid value.
        if self.slots[o].index != index {
            return None;
        }
        match &self.slots[o].data {
            Some(v) => Some(v),
            None => None,
        }
    }

    /// Reads a value from the specified `index` without checking the index.
    ///
    /// Returns the value at `index` regardless of whether it's valid or not.
    /// The buffer is left as it is.
    pub fn read_unchecked(&self, index: usize) -> (r: Option<&T>)
        requires
            self.wf(),
        ensures
            ({
                let s = self@[slot_offset(index, self.capacity())];
                r == (if s.1 is Some {
                    Some(&s.1->0)
                } else {
                    None::<&T>
                })
            }),
    {
        let o = self.offset(index);
        match &self.slots[o].data {
            Some(v) => Some(v),
            None => None,
        }
    }

    /// Writes `value` into the specified `index`, and stamps the slot with `index`.
    pub fn write(&mut self, index: usize, value: T)
        requires
            old(self).wf(),
        ensures
            final(self).wf(),
            final(self).capacity() == old(self).capacity(),
            final(self)@ == old(self)@.update(
                slot_offset(index, old(self).capacity()),
                (index, Some(value)),
            ),
    {
        let o = self.offset(index);
        self.slots.set(o, Slot { index, data: Some(value) });
        proof {
            assert(self@ =~= old(self)@.update(o as int, (index, Some(value))));
        }
    }

    /// Reads the index from the slot at the specified offset.
    pub fn read_index(&self, offset: usize) -> (r: usize)
        requires
            self.wf(),
        ensures
            r == self@[slot_offset(offset, self.capacity())].0,
    {
        let o = self.offset(offset);
        self.slots[o].index
    }

    /// Writes the specified `index` in the slot that it names.
    pub fn write_index(&mut self, index: usize)
        requires
            old(self).wf(),
        ensures
            final(self).wf(),
            final(self).capacity() == old(self).capacity(),
            ({
                let o = slot_offset(index, old(self).capacity());
                final(self)@ == old(self)@.update(o, (index, old(self)@[o].1))
            }),
    {
        let o = self.offset(index);
        self.slots[o].index = index;
        proof {
            assert(self@ =~= old(self)@.update(o as int, (index, old(self)@[o as int].1)));
        }
    }

    /// Reads the value from the slot at the specified offset.
    ///
    /// The buffer is left as it is.
    pub fn read_value(&self, offset: usize) -> (r: Option<&T>)
        requires
            self.wf(),
        ensures
            ({
                let s = self@[slot_offset(offset, self.capacity())];
                r == (if s.1 is Some {
                    Some(&s.1->0)
                } else {
                    None::<&T>
                })
            }),
    {
        let o = self.offset(offset);
        match &self.slots[o].data {
            Some(v) => Some(v),
            None => None,
        }
    }

    /// Moves the value out of the slot at the specified offset, leaving the
    /// slot empty and its index as it was.
    pub fn take_value(&mut self, offset: usize) -> (r: Option<T>)
        requires
            old(self).wf(),
        ensures
            final(self).wf(),
            final(self).capacity() == old(self).capacity(),
            ({
                let o = slot_offset(offset, old(self).capacity());
                &&& r == old(self)@[o].1
                &&& final(self)@ == old(self)@.update(o, (old(self)@[o].0, None::<T>))
            }),
    {
        let o = self.offset(offset);
        let r = self.slots[o].data.take();
        proof {
            assert(self@ =~= old(self)@.update(o as int, (old(self)@[o as int].0, None::<T>)));
        }
        r
    }
}

/// The return type for `try_recv` methods.
#[derive(Debug, Clone, Copy, PartialEq, Eq)]
pub enum TryRecv<T> {
    /// Received a value.
    Data(T),
    /// Not received a value because the buffer is empty.
    Empty,
    /// Lost the race to a concurrent operation. Try again.
    Retry,
}

impl<T> TryRecv<T> {
    /// Applies a function to the content of `TryRecv::Data`.
    pub fn map<U, F: FnOnce(T) -> U>(self, f: F) -> (r: TryRecv<U>)
        requires
            self matches TryRecv::Data(v) ==> f.requires((v,)),
        ensures
            map_result(self, f, r),
    {
        match self {
            TryRecv::Data(v) => TryRecv::Data(f(v)),
            TryRecv::Empty => TryRecv::Empty,
            TryRecv::Retry => TryRecv::Retry,
        }
    }
}

/// What `map` gives: `Data(v)` becomes `Data(u)` for an outcome `u` of
/// `f(v)`, and `Empty` and `Retry` stay as they are.
pub open spec fn map_result<T, U, F: FnOnce(T) -> U>(t: TryRecv<T>, f: F, r: TryRecv<U>) -> bool {
    match t {
        TryRecv::Data(v) => r matches TryRecv::Data(u) && f.ensures((v,), u),
        TryRecv::Empty => r is Empty,
        TryRecv::Retry => r is Retry,
    }
}

/// Applies the function `f` to the content of `TryRecv::Data`.
pub open spec fn map_spec<T, U>(t: TryRecv<T>, f: spec_fn(T) -> U) -> TryRecv<U> {
    match t {
        TryRecv::Data(v) => TryRecv::Data(f(v)),
        TryRecv::Empty => TryRecv::Empty,
        TryRecv::Retry => TryRecv::Retry,
    }
}

/// Every outcome of the closure `f` is the value of the function `fs`.
pub open spec fn computes<T, U, F: FnOnce(T) -> U>(f: F, fs: spec_fn(T) -> U) -> bool {
    forall|x: T, y: U| #[trigger] f.ensures((x,), y) ==> y == fs(x)
}

/// Mapping by a closure that computes a function gives the content mapped by
/// that function.
pub proof fn law_map_by_function<T, U, F: FnOnce(T) -> U>(
    t: TryRecv<T>,
    f: F,
    r: TryRecv<U>,
    fs: spec_fn(T) -> U,
)
    requires
        map_result(t, f, r),
        computes(f, fs),
    ensures
        r == map_spec(t, fs),
{
}

/// Mapping twice is mapping once by the composition: for closures `f` and `g`
/// without side effects, `t.map(f).map(g) == t.map(|x| g(f(x)))`.
pub proof fn law_map_composes<T, U, V, F: FnOnce(T) -> U, G: FnOnce(U) -> V>(
    t: TryRecv<T>,
    f: F,
    g: G,
    r1: TryRecv<U>,
    r2: TryRecv<V>,
    fs: spec_fn(T) -> U,
    gs: spec_fn(U) -> V,
)
    requires
        map_result(t, f, r1),
        map_result(r1, g, r2),
        computes(f, fs),
        computes(g, gs),
    ensures
        r2 == map_spec(t, |x: T| gs(fs(x))),
        r2 == map_spec(map_spec(t, fs), gs),
{
}

} // verus!
