//! A bounded queue based on a fixed-sized circular buffer.
//!
//! The protocol is Dmitry Vyukov's bounded MPMC queue: every slot carries a
//! stamp, the sending end may fill a slot whose stamp equals its tail, and the
//! receiving end may empty a slot whose stamp equals its head.  Both ends move
//! one offset at a time and jump two laps ahead at the end of a lap, so the
//! stamps of the two ends never meet by accident.
pub use crate::util::buffer::TryRecv;
use crate::util::buffer::{is_power_of_two, lemma_mask_is_mod, Buffer};
use crate::util::stamp::{
    lemma_mask_split, lemma_residues_differ, lemma_stamp_gap, lemma_stamp_next,
    lemma_stamp_offset, lemma_wrap_add, lemma_wrap_lap_parity, lemma_wrap_shift_differs,
    lemma_wrapping_add, lemma_wrapping_mul, stamp, word_range, wrap,
};
use crossbeam::utils::CachePadded;
use vstd::arithmetic::div_mod::*;
use vstd::arithmetic::power2::*;
use vstd::prelude::*;

verus! {

/// `crossbeam::utils::CachePadded`, which pads and aligns a value to the
/// length of a cache line; its contents are opaque here.
#[verifier::external_type_specification]
#[verifier::external_body]
#[verifier::reject_recursive_types(T)]
pub struct ExCachePadded<T>(CachePadded<T>);

/// The `usize` that a `CachePadded<usize>` holds.
pub uninterp spec fn padded_value(p: CachePadded<usize>) -> usize;

/// Pads `v` with `CachePadded::new`, which stores it as the padded value.
#[verifier::external_body]
fn pad(v: usize) -> (r: CachePadded<usize>)
    ensures
        padded_value(r) == v,
{
    CachePadded::new(v)
}

/// Reads the padded value through `CachePadded`'s `Deref`, which hands out
/// a reference to the stored value.
#[verifier::external_body]
fn load(p: &CachePadded<usize>) -> (r: usize)
    ensures
        r == padded_value(*p),
{
    **p
}

/// Overwrites the padded value through `CachePadded`'s `DerefMut`, which hands
/// out a mutable reference to the stored value.
#[verifier::external_body]
fn store(p: &mut CachePadded<usize>, v: usize)
    ensures
        padded_value(*final(p)) == v,
{
    **p = v;
}

/// `p` is the smallest power of two that is at least `n`.
pub open spec fn is_next_power_of_two(n: nat, p: nat) -> bool {
    &&& is_power_of_two(p)
    &&& n <= p
    &&& forall|q: nat| is_power_of_two(q) && n <= q ==> p <= q
}

/// The number of values a queue created with capacity `cap` holds at most:
/// a queue of capacity zero still has one usable slot.
pub open spec fn effective_capacity(cap: usize) -> nat {
    if cap == 0 {
        1
    } else {
        cap as nat
    }
}

/// The queue `s` after sending `v` to it: `v` joins the end unless the queue
/// already holds `capacity` values.
pub open spec fn send_model<T>(s: Seq<T>, capacity: nat, v: T) -> Seq<T> {
    if s.len() < capacity {
        s.push(v)
    } else {
        s
    }
}

/// The value that receiving from the queue `s` gives: its oldest one.
pub open spec fn recv_model<T>(s: Seq<T>) -> Option<T> {
    if s.len() > 0 {
        Some(s[0])
    } else {
        None
    }
}

/// The queue `s` after receiving from it: its oldest value leaves it.
pub open spec fn recv_rest<T>(s: Seq<T>) -> Seq<T> {
    if s.len() > 0 {
        s.drop_first()
    } else {
        s
    }
}

/// The queue `s` after sending the values `vs` one by one.
pub open spec fn send_all<T>(s: Seq<T>, capacity: nat, vs: Seq<T>) -> Seq<T>
    decreases vs.len(),
{
    if vs.len() == 0 {
        s
    } else {
        send_all(send_model(s, capacity, vs[0]), capacity, vs.drop_first())
    }
}

/// What `n` receives in a row from the queue `s` give, in order.
pub open spec fn receive_n<T>(s: Seq<T>, n: nat) -> Seq<Option<T>>
    decreases n,
{
    if n == 0 {
        Seq::empty()
    } else {
        seq![recv_model(s)] + receive_n(recv_rest(s), (n - 1) as nat)
    }
}

/// Sending values that fit appends them, in order, to what the queue holds.
pub proof fn law_send_all_appends<T>(s: Seq<T>, capacity: nat, vs: Seq<T>)
    requires
        s.len() + vs.len() <= capacity,
    ensures
        send_all(s, capacity, vs) == s + vs,
    decreases vs.len(),
{
    if vs.len() > 0 {
        law_send_all_appends(s.push(vs[0]), capacity, vs.drop_first());
        assert(s.push(vs[0]) + vs.drop_first() =~= s + vs);
    } else {
        assert(s + vs =~= s);
    }
}

/// Receiving as many times as the queue holds values gives them back oldest first.
pub proof fn law_receive_in_order<T>(s: Seq<T>)
    ensures
        receive_n(s, s.len()) == s.map_values(|v: T| Some(v)),
    decreases s.len(),
{
    if s.len() > 0 {
        law_receive_in_order(s.drop_first());
        assert(receive_n(s, s.len()) =~= s.map_values(|v: T| Some(v)));
    } else {
        assert(receive_n(s, s.len()) =~= s.map_values(|v: T| Some(v)));
    }
}

/// First in, first out: values sent into an empty queue, as many as fit, come
/// back out in the order in which they were sent.
pub proof fn law_fifo<T>(capacity: nat, vs: Seq<T>)
    requires
        vs.len() <= capacity,
    ensures
        receive_n(send_all(Seq::<T>::empty(), capacity, vs), vs.len()) == vs.map_values(
            |v: T| Some(v),
        ),
{
    law_send_all_appends(Seq::<T>::empty(), capacity, vs);
    assert(Seq::<T>::empty() + vs =~= vs);
    law_receive_in_order(vs);
}

/// Sending does not change which value is received next: the oldest one, or
/// the value sent if the queue was empty and has room for it.
pub proof fn law_send_keeps_front<T>(s: Seq<T>, capacity: nat, v: T)
    requires
        s.len() <= capacity,
        capacity > 0,
    ensures
        s.len() > 0 ==> recv_model(send_model(s, capacity, v)) == recv_model(s),
        s.len() == 0 ==> recv_model(send_model(s, capacity, v)) == Some(v),
{
}

/// A send that fails, or a receive from an empty queue, leaves the queue as it was.
pub proof fn law_refusals_change_nothing<T>(s: Seq<T>, capacity: nat, v: T)
    requires
        s.len() <= capacity,
    ensures
        s.len() == capacity ==> send_model(s, capacity, v) == s,
        s.len() == 0 ==> recv_rest(s) == s && recv_model(s) is None,
{
}

/// Returns the smallest power of two greater than or equal to `n`.
fn next_power_of_two(n: usize) -> (p: usize)
    requires
        n <= usize::MAX / 4,
    ensures
        is_next_power_of_two(n as nat, p as nat),
        2 * p < word_range(),
{
    let mut p: usize = 1;
    let ghost mut k: nat = 0;
    proof {
        lemma2_to64();
    }
    while p < n
        invariant
            n <= usize::MAX / 4,
            pow2(k) == p,
            1 <= p,
            k == 0 || pow2((k - 1) as nat) < n,
        decreases usize::MAX - p,
    {
        proof {
            lemma_pow2_unfold(k + 1);
        }
        p = p * 2;
        proof {
            k = k + 1;
        }
    }
    proof {
        if k > 0 {
            lemma_pow2_unfold(k);
        }
        assert forall|q: nat| is_power_of_two(q) && n <= q implies p <= q by {
            let j = choose|j: nat| pow2(j) == q;
            if q < p {
                if j > k {
                    lemma_pow2_strictly_increases(k, j);
                }
                if j < k {
                    if j < k - 1 {
                        lemma_pow2_strictly_increases(j, (k - 1) as nat);
                    }
                }
            }
        }
    }
    p
}

/// A bounded queue.
///
/// Its view is the sequence of values it holds, oldest first.  The head and
/// the tail are indices that the queue owns, so its operations take
/// `&mut self`; with a single owner, the protocol never has to retry.
pub struct Queue<T> {
    /// The head index from which values are popped.
    ///
    /// The lap of the head index is always an odd number.
    head: CachePadded<usize>,
    /// The tail index into which values are pushed.
    ///
    /// The lap in the tail is always an even number.
    tail: CachePadded<usize>,
    /// The underlying buffer.
    buffer: Buffer<T>,
    /// The capacity of the queue.
    cap: usize,
    /// How many values have been pushed so far.
    sent: Ghost<nat>,
    /// How many values have been popped so far.
    received: Ghost<nat>,
}

impl<T> View for Queue<T> {
    type V = Seq<T>;

    closed spec fn view(&self) -> Seq<T> {
        let e = effective_capacity(self.cap);
        let nr = self.received@;
        Seq::new((self.sent@ - nr) as nat, |k: int| self.buffer@[(nr + k) % (e as int)].1->0)
    }
}

impl<T> Queue<T> {
    /// The capacity that the queue was created with.
    pub closed spec fn requested_cap(&self) -> usize {
        self.cap
    }

    /// The most values that the queue holds.
    pub open spec fn capacity(&self) -> nat {
        effective_capacity(self.requested_cap())
    }

    /// The size of one lap: the number of slots of the buffer.
    pub closed spec fn lap_size(&self) -> usize {
        self.buffer.capacity()
    }

    /// The slot that the `n`-th value goes through is stamped as the protocol
    /// requires: with the receiving end's index while it holds the value, and
    /// with the sending end's index while it waits for it.
    closed spec fn slot_holds(&self, n: nat) -> bool {
        let e = self.capacity();
        let lap = self.buffer.capacity() as nat;
        let s = self.buffer@[(n % e) as int];
        if n < self.sent@ {
            &&& s.0 == wrap(stamp(n, e, lap) + lap)
            &&& s.1 is Some
        } else {
            &&& s.0 == wrap(stamp(n, e, lap))
            &&& s.1 is None
        }
    }

    /// The slots past the first `capacity()` offsets of a lap are never used,
    /// and hold nothing.
    #[verifier::opaque]
    closed spec fn unused_slots_empty(&self) -> bool {
        forall|o: int|
            self.capacity() <= o < self.buffer.capacity() ==> (#[trigger] self.buffer@[o]).1 is None
    }

    /// The invariant of the queue.
    pub closed spec fn wf(&self) -> bool {
        let e = self.capacity();
        let lap = self.buffer.capacity() as nat;
        let nr = self.received@;
        let ns = self.sent@;
        &&& self.buffer.wf()
        &&& e <= lap
        &&& 2 * lap < word_range()
        &&& nr <= ns <= nr + e
        &&& padded_value(self.tail) == wrap(stamp(ns, e, lap))
        &&& padded_value(self.head) == wrap(stamp(nr, e, lap) + lap)
        &&& forall|n: nat| nr <= n < nr + e ==> #[trigger] self.slot_holds(n)
        &&& self.unused_slots_empty()
    }

    /// The index that the receiving end pops from next.
    pub closed spec fn head_index(&self) -> usize {
        padded_value(self.head)
    }

    /// The index that the sending end pushes into next.
    pub closed spec fn tail_index(&self) -> usize {
        padded_value(self.tail)
    }

    /// The lap of the head index is always an odd number, and the lap of the
    /// tail index always an even one; both point at one of the first
    /// `capacity()` offsets of a lap.
    pub proof fn lemma_lap_parity(&self)
        requires
            self.wf(),
        ensures
            self.lap_size() > 0,
            (self.head_index() / self.lap_size()) % 2 == 1,
            (self.tail_index() / self.lap_size()) % 2 == 0,
            self.head_index() % self.lap_size() < self.capacity(),
            self.tail_index() % self.lap_size() < self.capacity(),
    {
        let e = self.capacity();
        let l = self.buffer.capacity() as nat;
        let nr = self.received@;
        let ns = self.sent@;
        self.buffer.lemma_wf();
        lemma_mod_bound(nr as int, e as int);
        lemma_mod_bound(ns as int, e as int);
        let qr: int = 2 * ((nr / e) as int);
        let qs: int = 2 * ((ns / e) as int);
        lemma_wrap_lap_parity(l, qs, (ns % e) as int);
        vstd::arithmetic::mul::lemma_mul_is_distributive_add(l as int, qr, 1);
        lemma_wrap_lap_parity(l, qr + 1, (nr % e) as int);
    }

    /// A queue never holds more values than its capacity, which is at least one,
    /// so it is never both empty and full.
    pub proof fn lemma_len_at_most_capacity(&self)
        requires
            self.wf(),
        ensures
            self@.len() <= self.capacity(),
            self.capacity() >= 1,
            !(self@.len() == 0 && self@.len() == self.capacity()),
    {
    }

    /// Creates a new queue of capacity at least `cap`.
    ///
    /// One lap of the buffer is the smallest power of two greater than or
    /// equal to `cap`.
    pub fn new(cap: usize) -> (q: Self)
        requires
            cap <= usize::MAX / 4,
        ensures
            q.wf(),
            q@ == Seq::<T>::empty(),
            q.requested_cap() == cap,
            is_next_power_of_two(cap as nat, q.lap_size() as nat),
    {
        // One lap is the smallest power of two greater than or equal to `cap`.
        let lap = next_power_of_two(cap);

        // Allocate a buffer of `lap` slots.
        let mut buffer: Buffer<T> = Buffer::new(lap);

        // Initialize stamps in the slots.
        let mut i: usize = 0;
        while i < lap
            invariant
                buffer.wf(),
                buffer.capacity() == lap,
                buffer@.len() == lap,
                i <= lap,
                forall|j: int| 0 <= j < i ==> #[trigger] buffer@[j] == (j as usize, None::<T>),
                forall|j: int| i <= j < lap ==> (#[trigger] buffer@[j]).1 is None,
            decreases lap - i,
        {
            proof {
                lemma_small_mod(i as nat, lap as nat);
            }
            // Set the index to `{ lap: 0, offset: i }`.
            buffer.write_index(i);
            i = i + 1;
        }

        // Head is initialized to `{ lap: 1, offset: 0 }`.
        // Tail is initialized to `{ lap: 0, offset: 0 }`.
        let q = Queue {
            head: pad(lap),
            tail: pad(0),
            buffer,
            cap,
            sent: Ghost(0),
            received: Ghost(0),
        };
        proof {
            let e = effective_capacity(cap);
            buffer.lemma_wf();
            lemma_small_mod(0, e);
            lemma_basic_div(0, e as int);
            vstd::arithmetic::mul::lemma_mul_by_zero_is_zero(lap as int);
            assert(stamp(0, e, lap as nat) == 0);
            lemma_small_mod(lap as nat, word_range() as nat);
            lemma_small_mod(0, word_range() as nat);
            assert forall|n: nat| 0 <= n < e implies #[trigger] q.slot_holds(n) by {
                lemma_small_mod(n, e);
                lemma_basic_div(n as int, e as int);
                vstd::arithmetic::mul::lemma_mul_by_zero_is_zero(lap as int);
                assert(stamp(n, e, lap as nat) == n);
                lemma_small_mod(n, word_range() as nat);
            }
            assert(q@ =~= Seq::<T>::empty());
            reveal(Queue::unused_slots_empty);
        }
        q
    }

    /// Filling the slot of the next value to send, with the receiving end's
    /// stamp, and moving the tail on adds that value at the end of the queue.
    proof fn lemma_after_push(pre: Self, post: Self, value: T)
        requires
            pre.wf(),
            pre.sent@ < pre.received@ + pre.capacity(),
            post.cap == pre.cap,
            post.received == pre.received,
            post.sent@ == pre.sent@ + 1,
            post.buffer.wf(),
            post.buffer.capacity() == pre.buffer.capacity(),
            post.buffer@ == pre.buffer@.update(
                (pre.sent@ % pre.capacity()) as int,
                (
                    wrap(
                        stamp(pre.sent@, pre.capacity(), pre.buffer.capacity() as nat)
                            + pre.buffer.capacity(),
                    ) as usize,
                    Some(value),
                ),
            ),
            padded_value(post.head) == padded_value(pre.head),
            padded_value(post.tail) == wrap(
                stamp(pre.sent@ + 1, pre.capacity(), pre.buffer.capacity() as nat),
            ),
        ensures
            post.wf(),
            post@ == pre@.push(value),
    {
        let e = pre.capacity();
        let nr = pre.received@;
        let ns = pre.sent@;
        pre.buffer.lemma_wf();
        post.buffer.lemma_wf();
        reveal(Queue::unused_slots_empty);
        lemma_wrap_add(stamp(ns, e, pre.buffer.capacity() as nat) + pre.buffer.capacity(), 0);
        lemma_mod_bound(ns as int, e as int);
        assert forall|n: nat| nr <= n < nr + e implies #[trigger] post.slot_holds(n) by {
            assert(pre.slot_holds(n));
            if n < ns {
                lemma_residues_differ(n, ns, e);
            } else if n > ns {
                lemma_residues_differ(ns, n, e);
            }
        }
        assert forall|k: int| 0 <= k < ns - nr implies #[trigger] post@[k] == pre@[k] by {
            assert(pre.slot_holds((nr + k) as nat));
            lemma_residues_differ((nr + k) as nat, ns, e);
        }
        assert(post@ =~= pre@.push(value));
    }

    /// Emptying the slot of the oldest value, with the sending end's stamp one
    /// round later, and moving the head on removes that value from the queue.
    proof fn lemma_after_pop(pre: Self, post: Self)
        requires
            pre.wf(),
            pre.received@ < pre.sent@,
            post.cap == pre.cap,
            post.sent == pre.sent,
            post.received@ == pre.received@ + 1,
            post.buffer.wf(),
            post.buffer.capacity() == pre.buffer.capacity(),
            post.buffer@ == pre.buffer@.update(
                (pre.received@ % pre.capacity()) as int,
                (
                    wrap(
                        stamp(
                            pre.received@ + pre.capacity(),
                            pre.capacity(),
                            pre.buffer.capacity() as nat,
                        ),
                    ) as usize,
                    None::<T>,
                ),
            ),
            padded_value(post.tail) == padded_value(pre.tail),
            padded_value(post.head) == wrap(
                stamp(pre.received@ + 1, pre.capacity(), pre.buffer.capacity() as nat)
                    + pre.buffer.capacity(),
            ),
        ensures
            post.wf(),
            post@ == pre@.drop_first(),
    {
        let e = pre.capacity();
        let nr = pre.received@;
        let ns = pre.sent@;
        pre.buffer.lemma_wf();
        post.buffer.lemma_wf();
        reveal(Queue::unused_slots_empty);
        lemma_wrap_add(stamp(nr + e, e, pre.buffer.capacity() as nat), 0);
        lemma_mod_bound(nr as int, e as int);
        lemma_stamp_next(nr, e, pre.buffer.capacity() as nat);
        assert forall|n: nat| nr + 1 <= n < nr + 1 + e implies #[trigger] post.slot_holds(n) by {
            if n < nr + e {
                assert(pre.slot_holds(n));
                lemma_residues_differ(nr, n, e);
            }
        }
        assert forall|k: int| 0 <= k < ns - nr - 1 implies #[trigger] post@[k] == pre@[k + 1] by {
            assert(pre.slot_holds((nr + 1 + k) as nat));
            lemma_residues_differ(nr, (nr + 1 + k) as nat, e);
        }
        assert(post@ =~= pre@.drop_first());
    }

    /// Attempts to send a value to the queue.
    ///
    /// Returns the value back if the queue is full.
    pub fn send(&mut self, value: T) -> (r: Result<(), T>)
        requires
            old(self).wf(),
        ensures
            final(self).wf(),
            final(self).requested_cap() == old(self).requested_cap(),
            final(self).lap_size() == old(self).lap_size(),
            final(self)@ == send_model(old(self)@, old(self).capacity(), value),
            r is Ok <==> old(self)@.len() < old(self).capacity(),
            r matches Err(v) ==> v == value,
    {
        let ghost e = self.capacity();
        let ghost nr = self.received@;
        let ghost ns = self.sent@;
        let lap = self.lap();
        let ghost l = lap as nat;
        proof {
            self.buffer.lemma_wf();
            lemma_stamp_offset(ns, e, l);
            lemma_stamp_next(ns, e, l);
            lemma_stamp_gap(nr, ns, e, l);
        }

        // Loads the tail and deconstructs it.
        let tail = load(&self.tail);
        let offset = tail & (lap - 1);
        let lap_bits = tail & !(lap - 1);
        proof {
            lemma_mask_is_mod(tail, lap);
            lemma_mask_split(tail, (lap - 1) as usize);
            lemma_small_mod(offset as nat, l);
            lemma_wrap_add(stamp(ns, e, l), l as int);
        }

        // Inspects the corresponding slot.
        let index = self.buffer.read_index(offset);

        // If the tail and the stamp match, we may push.
        if tail == index {
            proof {
                if ns == nr + e {
                    assert(self.slot_holds(nr));
                    lemma_wrap_shift_differs(stamp(nr, e, l) + l, l as int);
                }
            }
            let new_tail = if offset + 1 < self.cap() {
                // Same lap, incremented index.
                // Set to `{ lap: lap, offset: offset + 1 }`.
                proof {
                    lemma_wrap_add(stamp(ns, e, l), 1);
                    lemma_stamp_offset(ns + 1, e, l);
                    if tail + 1 == word_range() {
                        lemma_small_mod(0, l);
                    }
                    lemma_small_mod((tail + 1) as nat, word_range() as nat);
                }
                tail + 1
            } else {
                // Two laps forward, index wraps around to zero.
                // Set to `{ lap: lap.wrapping_add(2), offset: 0 }`.
                proof {
                    lemma_wrapping_mul(lap, 2);
                    lemma_small_mod((lap * 2) as nat, word_range() as nat);
                    lemma_wrapping_add(lap_bits, (lap * 2) as usize);
                    lemma_wrap_add(stamp(ns, e, l), 2 * l - ns % e);
                }
                lap_bits.wrapping_add(lap.wrapping_mul(2))
            };

            // Moves the tail.
            store(&mut self.tail, new_tail);

            // Writes the value into the slot and updates the stamp.
            let stamped = index.wrapping_add(lap);
            proof {
                lemma_wrapping_add(index, lap);
            }
            self.buffer.write(stamped, value);
            proof {
                self.sent@ = ns + 1;
                Self::lemma_after_push(*old(self), *self, value);
            }
            Ok(())
        } else if index.wrapping_add(lap) == tail {
            // The slot lags one lap behind the tail...
            let head = load(&self.head);
            // ...and if the head lags one lap behind the tail as well, the queue is full.
            proof {
                lemma_wrapping_add(index, lap);
                lemma_wrapping_add(head, lap);
                lemma_wrap_add(stamp(nr, e, l), l as int);
                if ns < nr + e {
                    assert(self.slot_holds(ns));
                }
                assert(self.slot_holds(nr));
                lemma_wrap_add(stamp(nr, e, l) + l, l as int);
            }
            if head.wrapping_add(lap) == tail {
                Err(value)
            } else {
                // Only a concurrent receive could have moved the head here.
                proof {
                    assert(false);
                }
                Err(value)
            }
        } else {
            // Only a concurrent send could have moved the tail past this slot.
            proof {
                if ns < nr + e {
                    assert(self.slot_holds(ns));
                }
                assert(self.slot_holds(nr));
                lemma_wrapping_add(index, lap);
                lemma_wrap_add(stamp(nr, e, l) + l, l as int);
                assert(false);
            }
            Err(value)
        }
    }

    /// Attempts to pop a value from the queue.
    ///
    /// Returns `None` if the queue is empty.
    pub fn recv(&mut self) -> (r: Option<T>)
        requires
            old(self).wf(),
        ensures
            final(self).wf(),
            final(self).requested_cap() == old(self).requested_cap(),
            final(self).lap_size() == old(self).lap_size(),
            r == recv_model(old(self)@),
            final(self)@ == recv_rest(old(self)@),
    {
        let ghost e = self.capacity();
        let ghost nr = self.received@;
        let ghost ns = self.sent@;
        let lap = self.lap();
        let ghost l = lap as nat;
        proof {
            self.buffer.lemma_wf();
            lemma_stamp_offset(nr, e, l);
            lemma_stamp_next(nr, e, l);
            lemma_stamp_offset(nr + e, e, l);
            lemma_stamp_gap(nr, ns, e, l);
            assert(self.slot_holds(nr));
        }

        // Loads the head and deconstructs it.
        let head = load(&self.head);
        let offset = head & (lap - 1);
        let lap_bits = head & !(lap - 1);
        proof {
            lemma_mask_is_mod(head, lap);
            lemma_mask_split(head, (lap - 1) as usize);
            lemma_small_mod(offset as nat, l);
            lemma_wrap_add(stamp(nr, e, l) + l, l as int);
        }

        // Inspects the corresponding slot.
        let index = self.buffer.read_index(offset);

        // If the head and the stamp match, we may pop.
        if head == index {
            proof {
                if nr == ns {
                    lemma_wrap_shift_differs(stamp(nr, e, l), l as int);
                }
            }
            let new_head = if offset + 1 < self.cap() {
                // Same lap, incremented index.
                // Set to `{ lap: lap, offset: offset + 1 }`.
                proof {
                    lemma_wrap_add(stamp(nr, e, l) + l, 1);
                    lemma_stamp_offset(nr + 1, e, l);
                    if head + 1 == word_range() {
                        lemma_small_mod(0, l);
                    }
                    lemma_small_mod((head + 1) as nat, word_range() as nat);
                }
                head + 1
            } else {
                // Two laps forward, index wraps around to zero.
                // Set to `{ lap: lap.wrapping_add(2), offset: 0 }`.
                proof {
                    lemma_wrapping_mul(lap, 2);
                    lemma_small_mod((lap * 2) as nat, word_range() as nat);
                    lemma_wrapping_add(lap_bits, (lap * 2) as usize);
                    lemma_wrap_add(stamp(nr, e, l) + l, 2 * l - nr % e);
                }
                lap_bits.wrapping_add(lap.wrapping_mul(2))
            };

            // Moves the head.
            store(&mut self.head, new_head);

            // Reads the value from the slot and updates the stamp.
            let value = self.buffer.take_value(index);
            let stamped = index.wrapping_add(lap);
            proof {
                lemma_wrapping_add(index, lap);
            }
            self.buffer.write_index(stamped);
            proof {
                self.received@ = nr + 1;
                assert(self.buffer@ =~= old(self).buffer@.update(
                    (nr % e) as int,
                    (wrap(stamp(nr + e, e, l)) as usize, None::<T>),
                ));
                Self::lemma_after_pop(*old(self), *self);
            }
            value
        } else if index.wrapping_add(lap) == head {
            // The slot lags one lap behind the head...
            let tail = load(&self.tail);
            // ...and if the tail lags one lap behind the head as well, the queue is empty.
            proof {
                lemma_wrapping_add(index, lap);
                lemma_wrapping_add(tail, lap);
                lemma_wrap_add(stamp(ns, e, l), l as int);
                lemma_wrap_add(stamp(nr, e, l), l as int);
            }
            if tail.wrapping_add(lap) == head {
                None
            } else {
                // Only a concurrent send could have moved the tail here.
                proof {
                    assert(false);
                }
                None
            }
        } else {
            // Only a concurrent receive could have moved the head past this slot.
            proof {
                lemma_wrapping_add(index, lap);
                lemma_wrap_add(stamp(nr, e, l), l as int);
                assert(false);
            }
            None
        }
    }

    /// Returns `true` if the queue is empty.
    pub fn is_empty(&self) -> (r: bool)
        requires
            self.wf(),
        ensures
            r == (self@.len() == 0),
    {
        let ghost e = self.capacity();
        let ghost nr = self.received@;
        let ghost ns = self.sent@;
        let lap = self.lap();
        let ghost l = lap as nat;
        let head = load(&self.head);
        let tail = load(&self.tail);
        proof {
            self.buffer.lemma_wf();
            lemma_stamp_gap(nr, ns, e, l);
            lemma_stamp_offset(ns, e, l);
            lemma_stamp_offset(nr, e, l);
            lemma_wrapping_add(tail, lap);
            lemma_wrap_add(stamp(ns, e, l), l as int);
            if ns != nr {
                lemma_wrap_shift_differs(
                    stamp(nr, e, l) + l,
                    stamp(ns, e, l) - stamp(nr, e, l),
                );
            }
        }
        // Is the tail lagging one lap behind head?
        tail.wrapping_add(lap) == head
    }

    /// Returns `true` if the queue is full.
    pub fn is_full(&self) -> (r: bool)
        requires
            self.wf(),
        ensures
            r == (self@.len() == self.capacity()),
    {
        let ghost e = self.capacity();
        let ghost nr = self.received@;
        let ghost ns = self.sent@;
        let lap = self.lap();
        let ghost l = lap as nat;
        let tail = load(&self.tail);
        let head = load(&self.head);
        proof {
            self.buffer.lemma_wf();
            lemma_stamp_gap(nr, ns, e, l);
            lemma_stamp_offset(ns, e, l);
            lemma_stamp_offset(nr, e, l);
            lemma_wrapping_add(head, lap);
            lemma_wrap_add(stamp(nr, e, l) + l, l as int);
            if ns != nr + e {
                lemma_wrap_shift_differs(
                    stamp(ns, e, l),
                    stamp(nr, e, l) + 2 * l - stamp(ns, e, l),
                );
            }
        }
        // Is the head lagging one lap behind tail?
        head.wrapping_add(lap) == tail
    }

    /// Returns the current number of elements inside the queue.
    pub fn len(&self) -> (r: usize)
        requires
            self.wf(),
        ensures
            r == self@.len(),
    {
        let ghost e = self.capacity();
        let ghost nr = self.received@;
        let ghost ns = self.sent@;
        let lap = self.lap();
        let ghost l = lap as nat;
        let tail = load(&self.tail);
        let head = load(&self.head);
        let hix = head & (lap - 1);
        let tix = tail & (lap - 1);
        proof {
            self.buffer.lemma_wf();
            lemma_stamp_gap(nr, ns, e, l);
            lemma_stamp_offset(ns, e, l);
            lemma_stamp_offset(nr, e, l);
            lemma_mask_is_mod(head, lap);
            lemma_mask_is_mod(tail, lap);
            lemma_wrapping_add(tail, lap);
            lemma_wrap_add(stamp(ns, e, l), l as int);
            if ns != nr {
                lemma_wrap_shift_differs(
                    stamp(nr, e, l) + l,
                    stamp(ns, e, l) - stamp(nr, e, l),
                );
            }
            if e == 1 {
                lemma_small_mod(0, 1);
                assert(nr % 1 == 0 && ns % 1 == 0) by {
                    vstd::arithmetic::div_mod::lemma_mod_bound(nr as int, 1);
                    vstd::arithmetic::div_mod::lemma_mod_bound(ns as int, 1);
                }
            }
        }
        if hix < tix {
            tix - hix
        } else if hix > tix {
            self.cap() - hix + tix
        } else if tail.wrapping_add(lap) == head {
            0
        } else if self.cap() == 0 {
            // A queue of capacity zero still has one usable slot, and it is full.
            1
        } else {
            self.cap()
        }
    }

    /// Returns the size of one lap.
    pub fn lap(&self) -> (r: usize)
        ensures
            r == self.lap_size(),
    {
        self.buffer.cap()
    }

    /// Returns the capacity of the queue.
    pub fn cap(&self) -> (r: usize)
        ensures
            r == self.requested_cap(),
    {
        self.cap
    }
}

} // verus!
