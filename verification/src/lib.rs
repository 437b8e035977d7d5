//! A fixed-capacity circular buffer.
//!
//! `Ring<T>` stores a bounded FIFO sequence of values in storage that is
//! allocated once, at construction, and never grows. Two monotonically
//! increasing counters (a write position and a read position) address the
//! storage through `counter % capacity`; the counters themselves wrap around
//! the maximum `usize` value with ordinary modular arithmetic, never as an
//! error.
//!
//! Capacity policy: a capacity is accepted exactly when it is positive and
//! divides the number of distinct counter values (`usize::MAX + 1`), that is,
//! when it is a power of two that fits in `usize`. This is the one family of
//! capacities for which `counter % capacity` stays consistent when a counter
//! wraps around, so it is enforced at construction rather than left as a
//! caller obligation.
//!
//! Overwrite policy: the buffer's invariant keeps each slot's occupancy
//! consistent with the counters, so the slot targeted by a successful `push`
//! is always empty; `push` stores into it unconditionally and never skips or
//! discards a live value.
//!
//! The buffer is single-threaded by design: no operation blocks, and any
//! concurrent use must be synchronized by the embedding system.

use vstd::prelude::*;
use vstd::arithmetic::div_mod::{
    lemma_add_mod_noop, lemma_add_mod_noop_right, lemma_fundamental_div_mod, lemma_mod_mod,
    lemma_mod_multiples_vanish, lemma_mod_self_0, lemma_small_mod, lemma_sub_mod_noop,
};

pub mod laws;

verus! {

/// The number of distinct values of the counter type: counter arithmetic is
/// carried out modulo this quantity.
pub open spec fn counter_modulus() -> int {
    usize::MAX as int + 1
}

/// A capacity is accepted when it is positive and divides the counter
/// modulus, i.e. when it is a power of two representable in `usize`.
pub open spec fn valid_capacity(len: int) -> bool {
    0 < len && counter_modulus() % len == 0
}

/// What a push does to the stored contents: append when there is room,
/// otherwise leave the contents unchanged.
pub open spec fn spec_push<T>(s: Seq<T>, cap: int, item: T) -> Seq<T> {
    if s.len() < cap {
        s.push(item)
    } else {
        s
    }
}

/// What a push returns: `None` on success, the rejected item when full.
pub open spec fn spec_push_result<T>(s: Seq<T>, cap: int, item: T) -> Option<T> {
    if s.len() < cap {
        None
    } else {
        Some(item)
    }
}

/// What a read does to the stored contents: drop the oldest item, or leave
/// an empty buffer unchanged.
pub open spec fn spec_read<T>(s: Seq<T>) -> Seq<T> {
    if s.len() == 0 {
        s
    } else {
        s.drop_first()
    }
}

/// What a read returns: the oldest item, or `None` when empty.
pub open spec fn spec_read_result<T>(s: Seq<T>) -> Option<T> {
    if s.len() == 0 {
        None
    } else {
        Some(s.first())
    }
}

/// A fixed-capacity FIFO buffer addressed by wrapping counters.
///
/// Its abstract value (`self@`) is the sequence of stored items, oldest
/// first; `self@.len()` never exceeds `self.capacity()`.
#[derive(Debug)]
pub struct Ring<T> {
    buffer: Vec<Option<T>>,
    write: usize,
    read: usize,
}

impl<T> View for Ring<T> {
    type V = Seq<T>;

    /// The stored items, oldest first.
    closed spec fn view(&self) -> Seq<T> {
        Seq::new(self.count() as nat, |j: int| self.buffer@[self.slot_index(j)]->Some_0)
    }
}

impl<T> Ring<T> {
    /// The fixed number of slots, set at construction.
    pub closed spec fn capacity(self) -> int {
        self.buffer@.len() as int
    }

    /// The current write counter: the total number of successful pushes,
    /// modulo the counter modulus.
    pub closed spec fn write_counter(self) -> int {
        self.write as int
    }

    /// The current read counter: the total number of successful reads,
    /// modulo the counter modulus.
    pub closed spec fn read_counter(self) -> int {
        self.read as int
    }

    /// The number of occupied slots: the forward distance from the read
    /// counter to the write counter on the counter circle.
    spec fn count(self) -> int {
        wrap_diff(self.write as int, self.read as int)
    }

    /// The slot that holds the `j`-th oldest item.
    spec fn slot_index(self, j: int) -> int {
        (self.read + j) % self.capacity()
    }

    /// Slot `i` currently holds one of the live items.
    spec fn occupied(self, i: int) -> bool {
        exists|j: int| 0 <= j < self.count() && #[trigger] self.slot_index(j) == i
    }

    /// Well-formedness: the capacity is one the constructors accept, the
    /// counters are at most a full buffer apart, and each slot holds a value
    /// exactly when the counters say it is live.
    pub closed spec fn wf(self) -> bool {
        &&& valid_capacity(self.capacity())
        &&& self.count() <= self.capacity()
        &&& forall|i: int|
            0 <= i < self.capacity() ==> ((#[trigger] self.buffer@[i]) is Some <==> self.occupied(
                i,
            ))
    }

    /// Constructs an empty buffer of `len` slots with both counters starting
    /// at `counter`. Construction fails exactly on the capacities that
    /// `valid_capacity` rejects.
    ///
    /// Starting the counters elsewhere than zero changes nothing observable;
    /// it exists so that the counter wraparound can be exercised directly.
    pub fn with_counters(len: usize, counter: usize) -> (result: Option<Ring<T>>)
        ensures
            result is Some <==> valid_capacity(len as int),
            match result {
                Some(ring) => {
                    &&& ring.wf()
                    &&& ring@ == Seq::<T>::empty()
                    &&& ring.capacity() == len
                    &&& ring.write_counter() == counter
                    &&& ring.read_counter() == counter
                },
                None => true,
            },
    {
        if len == 0 {
            return None;
        }
        proof {
            lemma_divisor_of_modulus_characterized(len as int);
        }
        if usize::MAX % len != len - 1 {
            return None;
        }
        let mut buffer: Vec<Option<T>> = Vec::with_capacity(len);
        let mut i: usize = 0;
        while i < len
            invariant
                i <= len,
                buffer@.len() == i,
                forall|k: int| 0 <= k < i ==> (#[trigger] buffer@[k]) is None,
            decreases len - i,
        {
            buffer.push(None);
            i = i + 1;
        }
        let ring = Ring { buffer, write: counter, read: counter };
        proof {
            lemma_small_mod(0, counter_modulus() as nat);
            assert(ring.count() == 0);
            assert(forall|i: int| 0 <= i < ring.capacity() ==> !ring.occupied(i));
            assert(ring@ =~= Seq::<T>::empty());
        }
        Some(ring)
    }

    /// Constructs an empty buffer of `len` slots with both counters at zero.
    /// Construction fails exactly on the capacities that `valid_capacity`
    /// rejects; the backing storage is allocated here, once, and never
    /// reallocated.
    pub fn with_size(len: usize) -> (result: Option<Ring<T>>)
        ensures
            result is Some <==> valid_capacity(len as int),
            match result {
                Some(ring) => {
                    &&& ring.wf()
                    &&& ring@ == Seq::<T>::empty()
                    &&& ring.capacity() == len
                    &&& ring.write_counter() == 0
                    &&& ring.read_counter() == 0
                },
                None => true,
            },
    {
        Self::with_counters(len, 0)
    }

    /// The number of items currently stored, computed from the two counters
    /// with wraparound-safe subtraction: the forward distance from the read
    /// counter to the write counter on the counter circle.
    pub fn len(&self) -> (n: usize)
        requires
            self.wf(),
        ensures
            n == self@.len(),
    {
        proof {
            let m: int = counter_modulus();
            if self.write < self.read {
                lemma_mod_multiples_vanish(1, self.write - self.read, m);
                lemma_small_mod((m + self.write - self.read) as nat, m as nat);
            } else {
                lemma_small_mod((self.write - self.read) as nat, m as nat);
            }
        }
        if self.write < self.read {
            (usize::MAX - (self.read - 1)) + self.write
        } else {
            self.write - self.read
        }
    }

    /// Whether the buffer currently stores nothing.
    pub fn is_empty(&self) -> (empty: bool)
        requires
            self.wf(),
        ensures
            empty == (self@.len() == 0),
    {
        self.len() == 0
    }

    /// Attempts to enqueue `item` at the write position. When the buffer is
    /// not full, stores the item, advances the write counter by one
    /// (wrapping), and returns `None`; when it is full, stores nothing and
    /// returns the rejected item back to the caller.
    pub fn push(&mut self, item: T) -> (rejected: Option<T>)
        requires
            old(self).wf(),
        ensures
            final(self).wf(),
            final(self)@ == spec_push(old(self)@, old(self).capacity(), item),
            rejected == spec_push_result(old(self)@, old(self).capacity(), item),
            final(self).capacity() == old(self).capacity(),
            final(self).read_counter() == old(self).read_counter(),
            final(self).write_counter() == if old(self)@.len() < old(self).capacity() {
                (old(self).write_counter() + 1) % counter_modulus()
            } else {
                old(self).write_counter()
            },
    {
        let buffer_len: usize = self.buffer.len();
        if self.len() < buffer_len {
            let ghost prev = *self;
            let ghost cap: int = prev.capacity();
            let ghost cnt: int = prev.count();
            let idx: usize = self.write % buffer_len;
            proof {
                lemma_slot_of_write(prev.write as int, prev.read as int, cap);
                assert(idx == prev.slot_index(cnt));
                assert forall|j: int| 0 <= j < cnt implies prev.slot_index(j) != idx by {
                    lemma_slot_distinct(prev.read as int, j, cnt, cap);
                }
            }
            self.buffer.set(idx, Some(item));
            self.write = self.write.wrapping_add(1);
            proof {
                lemma_wrapping_inc(prev.write);
                lemma_wrap_diff_inc(prev.write as int, prev.read as int);
                assert(self.count() == cnt + 1);
                assert forall|j: int| 0 <= j <= cnt implies self.slot_index(j) == prev.slot_index(
                    j,
                ) by {}
                assert forall|i: int|
                    0 <= i < cap implies ((self.buffer@[i] is Some) <==> self.occupied(i)) by {
                    if i == idx {
                        assert(self.slot_index(cnt) == i);
                    } else {
                        if self.occupied(i) {
                            let j = choose|j: int|
                                0 <= j < cnt + 1 && #[trigger] self.slot_index(j) == i;
                            assert(j < cnt);
                            assert(prev.slot_index(j) == i);
                        }
                        if prev.occupied(i) {
                            let j = choose|j: int|
                                0 <= j < cnt && #[trigger] prev.slot_index(j) == i;
                            assert(self.slot_index(j) == i);
                        }
                    }
                }
                assert(self@ =~= prev@.push(item));
            }
            None
        } else {
            Some(item)
        }
    }

    /// Attempts to dequeue the oldest item. When the buffer is not empty,
    /// takes the value out of the slot at the read position (leaving the
    /// slot empty), advances the read counter by one (wrapping), and returns
    /// the value; when it is empty, changes nothing and returns `None`.
    pub fn read(&mut self) -> (item: Option<T>)
        requires
            old(self).wf(),
        ensures
            final(self).wf(),
            final(self)@ == spec_read(old(self)@),
            item == spec_read_result(old(self)@),
            final(self).capacity() == old(self).capacity(),
            final(self).write_counter() == old(self).write_counter(),
            final(self).read_counter() == if old(self)@.len() == 0 {
                old(self).read_counter()
            } else {
                (old(self).read_counter() + 1) % counter_modulus()
            },
    {
        if self.is_empty() {
            return None;
        }
        let ghost prev = *self;
        let ghost cap: int = prev.capacity();
        let ghost cnt: int = prev.count();
        let buffer_len: usize = self.buffer.len();
        let idx: usize = self.read % buffer_len;
        proof {
            assert(idx == prev.slot_index(0));
            assert(prev.occupied(idx as int));
            assert(prev.buffer@[idx as int] is Some);
            assert(prev@[0] == prev.buffer@[idx as int]->Some_0);
            assert forall|j: int| 1 <= j < cnt implies prev.slot_index(j) != idx by {
                lemma_slot_distinct(prev.read as int, 0, j, cap);
            }
        }
        let mut taken: Option<T> = None;
        self.buffer.set_and_swap(idx, &mut taken);
        self.read = self.read.wrapping_add(1);
        proof {
            lemma_wrapping_inc(prev.read);
            lemma_wrap_diff_dec(prev.write as int, prev.read as int);
            assert(self.count() == cnt - 1);
            assert forall|j: int| 0 <= j < cap implies self.slot_index(j) == prev.slot_index(
                j + 1,
            ) by {
                lemma_slot_shift(prev.read as int, j, cap);
            }
            assert forall|i: int|
                0 <= i < cap implies ((self.buffer@[i] is Some) <==> self.occupied(i)) by {
                if i == idx {
                    if self.occupied(i) {
                        let j = choose|j: int|
                            0 <= j < cnt - 1 && #[trigger] self.slot_index(j) == i;
                        assert(prev.slot_index(j + 1) == i);
                    }
                } else {
                    if self.occupied(i) {
                        let j = choose|j: int|
                            0 <= j < cnt - 1 && #[trigger] self.slot_index(j) == i;
                        assert(prev.slot_index(j + 1) == i);
                        assert(prev.occupied(i));
                    }
                    if prev.occupied(i) {
                        let j = choose|j: int| 0 <= j < cnt && #[trigger] prev.slot_index(j) == i;
                        assert(j != 0);
                        assert(self.slot_index(j - 1) == i);
                    }
                }
            }
            assert(self@ =~= prev@.drop_first());
        }
        taken
    }
}

/// The forward distance from `r` to `w` on the counter circle.
spec fn wrap_diff(w: int, r: int) -> int {
    (w - r) % counter_modulus()
}

/// Counter increment: `wrapping_add(x, 1)` is addition modulo the counter
/// modulus.
proof fn lemma_wrapping_inc(x: usize)
    ensures
        vstd::wrapping::usize_specs::wrapping_add(x, 1) as int == (x as int + 1)
            % counter_modulus(),
{
    let m: int = counter_modulus();
    if x == usize::MAX {
        lemma_mod_self_0(m);
    } else {
        lemma_small_mod((x + 1) as nat, m as nat);
    }
}

/// A value already reduced modulo the counter modulus keeps its remainder by
/// any divisor of the modulus.
proof fn lemma_mod_mod_divides(x: int, cap: int)
    requires
        0 < cap,
        counter_modulus() % cap == 0,
    ensures
        (x % counter_modulus()) % cap == x % cap,
{
    let m: int = counter_modulus();
    lemma_fundamental_div_mod(m, cap);
    let q: int = m / cap;
    assert(m == cap * q);
    assert(q >= 1) by (nonlinear_arith)
        requires
            m == cap * q,
            m > 0,
            cap > 0,
    ;
    lemma_mod_mod(x, cap, q);
    assert(x % (cap * q) == x % m);
}

/// Advancing the write counter by one increases the counter distance by one,
/// as long as the distance stays below the modulus.
proof fn lemma_wrap_diff_inc(w: int, r: int)
    requires
        0 <= w < counter_modulus(),
        0 <= r < counter_modulus(),
        wrap_diff(w, r) < counter_modulus() - 1,
    ensures
        wrap_diff((w + 1) % counter_modulus(), r) == wrap_diff(w, r) + 1,
{
    let m: int = counter_modulus();
    lemma_small_mod(r as nat, m as nat);
    lemma_sub_mod_noop(w + 1, r, m);
    lemma_small_mod(1, m as nat);
    lemma_add_mod_noop(w - r, 1, m);
    lemma_small_mod((wrap_diff(w, r) + 1) as nat, m as nat);
}

/// Advancing the read counter by one decreases the counter distance by one,
/// as long as the distance is positive.
proof fn lemma_wrap_diff_dec(w: int, r: int)
    requires
        0 <= w < counter_modulus(),
        0 <= r < counter_modulus(),
        wrap_diff(w, r) >= 1,
    ensures
        wrap_diff(w, (r + 1) % counter_modulus()) == wrap_diff(w, r) - 1,
{
    let m: int = counter_modulus();
    lemma_small_mod(w as nat, m as nat);
    lemma_sub_mod_noop(w, r + 1, m);
    lemma_small_mod(1, m as nat);
    lemma_sub_mod_noop(w - r, 1, m);
    lemma_small_mod((wrap_diff(w, r) - 1) as nat, m as nat);
}

/// Distinct offsets below the capacity land in distinct slots.
proof fn lemma_slot_distinct(r: int, j1: int, j2: int, cap: int)
    requires
        0 < cap,
        0 <= r,
        0 <= j1 < j2 < cap,
    ensures
        (r + j1) % cap != (r + j2) % cap,
{
    if (r + j1) % cap == (r + j2) % cap {
        lemma_sub_mod_noop(r + j2, r + j1, cap);
        lemma_small_mod(0, cap as nat);
        lemma_small_mod((j2 - j1) as nat, cap as nat);
        assert(false);
    }
}

/// The write counter's slot is the slot just past the live window.
proof fn lemma_slot_of_write(w: int, r: int, cap: int)
    requires
        0 <= w < counter_modulus(),
        0 <= r < counter_modulus(),
        0 < cap,
        counter_modulus() % cap == 0,
    ensures
        w % cap == (r + wrap_diff(w, r)) % cap,
{
    let m: int = counter_modulus();
    lemma_add_mod_noop_right(r, w - r, m);
    lemma_small_mod(w as nat, m as nat);
    assert((r + wrap_diff(w, r)) % m == w);
    lemma_mod_mod_divides(r + wrap_diff(w, r), cap);
}

/// Advancing the read counter shifts every slot offset down by one.
proof fn lemma_slot_shift(r: int, j: int, cap: int)
    requires
        0 <= r < counter_modulus(),
        0 <= j,
        0 < cap,
        counter_modulus() % cap == 0,
    ensures
        ((r + 1) % counter_modulus() + j) % cap == (r + j + 1) % cap,
{
    let m: int = counter_modulus();
    lemma_mod_mod_divides(r + 1, cap);
    lemma_add_mod_noop((r + 1) % m, j, cap);
    lemma_add_mod_noop(r + 1, j, cap);
}

/// A positive divisor of the counter modulus is characterized, in `usize`
/// arithmetic, by `usize::MAX % len == len - 1`.
proof fn lemma_divisor_of_modulus_characterized(len: int)
    requires
        0 < len <= usize::MAX as int,
    ensures
        counter_modulus() % len == 0 <==> usize::MAX as int % len == len - 1,
{
    let m: int = counter_modulus();
    let max: int = usize::MAX as int;
    if m % len == 0 {
        lemma_fundamental_div_mod(m, len);
        let q: int = m / len;
        assert(m == len * q);
        assert(len * q - 1 == len * (q - 1) + (len - 1)) by (nonlinear_arith);
        lemma_mod_multiples_vanish(q - 1, len - 1, len);
        lemma_small_mod((len - 1) as nat, len as nat);
        assert(max % len == len - 1);
    }
    if max % len == len - 1 {
        lemma_add_mod_noop(max, 1, len);
        if len == 1 {
            lemma_mod_self_0(1);
            lemma_small_mod(0, 1);
            assert(m % len == 0);
        } else {
            lemma_small_mod(1, len as nat);
            lemma_mod_self_0(len);
            assert(((max % len) + (1int % len)) % len == (max + 1) % len);
            assert(m % len == 0);
        }
    }
}

} // verus!
