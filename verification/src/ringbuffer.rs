use vstd::prelude::*;

verus! {

/// A fixed-capacity first-in first-out queue over a circular buffer.
///
/// The abstract value (the view) is the sequence of queued elements, oldest
/// first. Pushing onto a full buffer is excluded by precondition, mirroring
/// the fact that the buffer never resizes.
pub struct RingBuffer<T: Copy> {
    buffer: Vec<Option<T>>,
    start: usize,
    length: usize,
    capacity: usize,
}

impl<T: Copy> View for RingBuffer<T> {
    type V = Seq<T>;

    closed spec fn view(&self) -> Seq<T> {
        Seq::new(
            self.length as nat,
            |i: int| self.buffer@[(self.start + i) % (self.capacity as int)].unwrap(),
        )
    }
}

impl<T: Copy> RingBuffer<T> {
    /// The buffer holds a slot per unit of capacity, the read position
    /// stays inside the buffer, and every queued slot is occupied.
    pub closed spec fn wf(self) -> bool {
        &&& self.buffer@.len() == self.capacity
        &&& self.length <= self.capacity
        &&& if self.capacity == 0 {
            self.start == 0
        } else {
            self.start < self.capacity
        }
        &&& forall|i: int|
            0 <= i < self.length ==> (#[trigger] self.buffer@[
                (self.start + i) % (self.capacity as int)
            ]) is Some
    }

    /// The capacity the buffer was created with.
    pub closed spec fn cap(self) -> nat {
        self.capacity as nat
    }

    pub fn new(capacity: usize) -> (r: RingBuffer<T>)
        ensures
            r.wf(),
            r@ == Seq::<T>::empty(),
            r.cap() == capacity,
    {
        let mut vec: Vec<Option<T>> = Vec::<Option<T>>::with_capacity(capacity);
        let mut i: usize = 0;
        while i < capacity
            invariant
                i <= capacity,
                vec@.len() == i,
                forall|j: int| 0 <= j < i ==> vec@[j] is None,
            decreases capacity - i,
        {
            vec.push(None);
            i += 1;
        }
        let r = RingBuffer { buffer: vec, start: 0, length: 0, capacity };
        assert(r@ =~= Seq::<T>::empty());
        r
    }

    /// Appends `value` at the back. The queue must not be full.
    pub fn push_back(&mut self, value: T)
        requires
            old(self).wf(),
            old(self)@.len() < old(self).cap(),
        ensures
            final(self).wf(),
            final(self)@ == old(self)@.push(value),
            final(self).cap() == old(self).cap(),
    {
        // The write slot is (start + length) % capacity, computed without
        // letting the sum overflow.
        let wrap = self.capacity - self.start;
        let slot = if self.length >= wrap {
            self.length - wrap
        } else {
            self.start + self.length
        };
        proof {
            if self.length >= wrap {
                vstd::arithmetic::div_mod::lemma_mod_add_multiples_vanish(
                    self.start + self.length - self.capacity,
                    self.capacity as int,
                );
                vstd::arithmetic::div_mod::lemma_small_mod(
                    (self.start + self.length - self.capacity) as nat,
                    self.capacity as nat,
                );
            } else {
                vstd::arithmetic::div_mod::lemma_small_mod(
                    (self.start + self.length) as nat,
                    self.capacity as nat,
                );
            }
            assert(slot == (self.start + self.length as int) % (self.capacity as int));
        }
        self.buffer.set(slot, Some(value));
        self.length += 1;
        assert forall|i: int| 0 <= i < self.length implies (#[trigger] self.buffer@[
            (self.start + i) % (self.capacity as int)
        ]) is Some by {
            if i < self.length - 1 {
                lemma_distinct_slots(
                    self.start as int,
                    self.capacity as int,
                    i,
                    self.length - 1,
                );
            }
        }
        assert(self@ =~= old(self)@.push(value)) by {
            assert forall|i: int| 0 <= i < self.length - 1 implies self@[i] == old(
                self,
            )@[i] by {
                lemma_distinct_slots(
                    self.start as int,
                    self.capacity as int,
                    i,
                    self.length - 1,
                );
            }
        }
    }

    /// Removes and returns the oldest element; reports absence on an
    /// empty queue and leaves it unchanged.
    pub fn pop_front(&mut self) -> (r: Option<T>)
        requires
            old(self).wf(),
        ensures
            final(self).wf(),
            final(self).cap() == old(self).cap(),
            old(self)@.len() == 0 ==> r is None && final(self)@ == old(self)@,
            old(self)@.len() > 0 ==> r == Some(old(self)@[0]) && final(self)@ == old(
                self,
            )@.drop_first(),
    {
        if self.length == 0 {
            return None;
        }
        proof {
            vstd::arithmetic::div_mod::lemma_small_mod(
                self.start as nat,
                self.capacity as nat,
            );
        }
        let r = self.buffer[self.start];
        self.start = (self.start + 1) % self.capacity;
        self.length -= 1;
        assert forall|i: int| 0 <= i < self.length implies (#[trigger] self.buffer@[
            (self.start + i) % (self.capacity as int)
        ]) is Some && self@[i] == old(self)@[i + 1] by {
            vstd::arithmetic::div_mod::lemma_add_mod_noop(
                old(self).start + 1,
                i,
                self.capacity as int,
            );
            vstd::arithmetic::div_mod::lemma_small_mod(i as nat, self.capacity as nat);
            assert((self.start + i) % (self.capacity as int) == (old(self).start + (i
                + 1)) % (self.capacity as int));
        }
        assert(self@ =~= old(self)@.drop_first());
        r
    }
}

/// Two in-range offsets from the same read position land in distinct
/// buffer slots: the circular addressing never aliases within `cap` items.
proof fn lemma_distinct_slots(start: int, cap: int, i: int, j: int)
    requires
        0 < cap,
        0 <= start < cap,
        0 <= i < cap,
        0 <= j < cap,
        i != j,
    ensures
        (start + i) % cap != (start + j) % cap,
{
    lemma_slot_value(start, cap, i);
    lemma_slot_value(start, cap, j);
}

/// Spells out the circular slot address: the offset either fits before the
/// end of the buffer or wraps around exactly once.
proof fn lemma_slot_value(start: int, cap: int, i: int)
    requires
        0 < cap,
        0 <= start < cap,
        0 <= i < cap,
    ensures
        start + i < cap ==> (start + i) % cap == start + i,
        start + i >= cap ==> (start + i) % cap == start + i - cap,
{
    if start + i < cap {
        vstd::arithmetic::div_mod::lemma_small_mod((start + i) as nat, cap as nat);
    } else {
        vstd::arithmetic::div_mod::lemma_mod_add_multiples_vanish(start + i - cap, cap);
        vstd::arithmetic::div_mod::lemma_small_mod((start + i - cap) as nat, cap as nat);
    }
}

} // verus!
