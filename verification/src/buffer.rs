use vstd::prelude::*;

verus! {

/// Outcome of [`OrderedBuffer::insert`].
#[derive(Debug, PartialEq, Eq)]
pub enum InsertResult {
    /// The item was accepted and stored; draining may now release a
    /// contiguous run of items.
    Inserted,
    /// The slot this sequence number maps to holds an item with a strictly
    /// greater sequence number, so the arrival is stale.
    Expired,
    /// An item with this sequence number has already been stored, or has
    /// already been delivered by an earlier drain.
    Duplicate,
    /// The sequence number lies so far beyond the current window that
    /// storing it would claim the slot of an older, undelivered item.
    FullBuffer,
}

/// A buffer which accepts items tagged with sequence numbers in any order
/// and releases them in sequence-number order as soon as possible, with no
/// duplicates and a fixed maximum number of buffered items.
///
/// An item with sequence number `s` is stored in slot `s % capacity`; a slot
/// may only be occupied by a sequence number inside the current window
/// `[next_sequence, next_sequence + capacity)`.
pub struct OrderedBuffer<T> {
    items: Vec<Option<(u64, T)>>,
    read_pos: usize,
    next_sequence_number: u64,
}

impl<T> OrderedBuffer<T> {
    /// The number of slots, fixed at construction.
    pub closed spec fn capacity(self) -> int {
        self.items@.len() as int
    }

    /// The lowest sequence number not yet delivered.
    pub closed spec fn next_sequence(self) -> u64 {
        self.next_sequence_number
    }

    /// The slot storage: entry `i` holds the buffered pair whose sequence
    /// number is congruent to `i` modulo the capacity, if any.
    pub closed spec fn slots(self) -> Seq<Option<(u64, T)>> {
        self.items@
    }

    /// The slot index that sequence number `s` maps to.
    pub open spec fn slot_of(self, s: int) -> int {
        s % self.capacity()
    }

    /// The sequence number stored in slot `i`.
    pub open spec fn seq_in_slot(self, i: int) -> u64
        recommends
            self.slots()[i] is Some,
    {
        (self.slots()[i]->0).0
    }

    /// The discipline a single occupied slot obeys: its sequence number maps
    /// to this very slot and lies in the current window; it also leaves room
    /// for the counter of the delivery that will follow it.
    pub open spec fn slot_ok(self, i: int) -> bool {
        self.slots()[i] is Some ==> {
            &&& self.seq_in_slot(i) as int % self.capacity() == i
            &&& self.next_sequence() <= self.seq_in_slot(i)
            &&& (self.seq_in_slot(i) as int) < self.next_sequence() as int + self.capacity()
            &&& self.seq_in_slot(i) < u64::MAX
        }
    }

    /// The window invariant: the buffer has at least one slot and every
    /// occupied slot obeys the slot discipline.
    pub open spec fn window_ok(self) -> bool {
        &&& self.capacity() > 0
        &&& self.slots().len() == self.capacity()
        &&& forall|i: int| 0 <= i < self.capacity() ==> #[trigger] self.slot_ok(i)
    }

    /// Internal representation coupling: the read position is the slot the
    /// next undelivered sequence number maps to.
    pub closed spec fn rep_ok(self) -> bool {
        self.read_pos == self.next_sequence_number as int % self.capacity()
    }

    /// Well-formedness: holds after construction and is preserved by every
    /// operation.
    pub open spec fn wf(self) -> bool {
        &&& self.window_ok()
        &&& self.rep_ok()
    }

    /// The classification `insert` gives to an arrival with sequence number
    /// `s`, as a function of the buffer's current state: an occupied slot
    /// decides by comparing sequence numbers, an empty slot decides by the
    /// current window.
    pub open spec fn spec_insert_result(self, s: u64) -> InsertResult {
        if self.slots()[self.slot_of(s as int)] is Some {
            if s < self.seq_in_slot(self.slot_of(s as int)) {
                InsertResult::Expired
            } else if s == self.seq_in_slot(self.slot_of(s as int)) {
                InsertResult::Duplicate
            } else {
                InsertResult::FullBuffer
            }
        } else {
            if s as int >= self.next_sequence() as int + self.capacity() {
                InsertResult::FullBuffer
            } else if s < self.next_sequence() {
                InsertResult::Duplicate
            } else {
                InsertResult::Inserted
            }
        }
    }

    /// Whether the item with sequence number `next_sequence + j` is
    /// currently buffered.
    pub open spec fn has_buffered(self, j: int) -> bool {
        &&& 0 <= j < self.capacity()
        &&& self.slots()[self.slot_of(self.next_sequence() as int + j)] is Some
    }

    /// Helper for [`Self::run_len`]: the first gap at or after offset `j`.
    pub open spec fn run_len_from(self, j: int) -> int
        decreases self.capacity() - j,
    {
        if !self.has_buffered(j) {
            j
        } else {
            self.run_len_from(j + 1)
        }
    }

    /// The length of the contiguous run of buffered items starting at the
    /// next sequence number: exactly the number of items one drain pass
    /// delivers.
    pub open spec fn run_len(self) -> int {
        self.run_len_from(0)
    }

    /// The characteristic properties of [`Self::run_len`]: every offset
    /// below it is buffered, and it is itself the first gap.
    pub proof fn lemma_run_len_from_props(self, j: int)
        requires
            0 <= j <= self.capacity(),
        ensures
            j <= self.run_len_from(j) <= self.capacity(),
            forall|k: int| j <= k < self.run_len_from(j) ==> self.has_buffered(k),
            !self.has_buffered(self.run_len_from(j)),
        decreases self.capacity() - j,
    {
        if self.has_buffered(j) {
            self.lemma_run_len_from_props(j + 1);
        }
    }

    /// Creates an empty buffer with the given number of slots. A buffer
    /// without slots is useless, so a positive capacity is demanded of the
    /// caller.
    pub fn new(capacity: usize) -> (buffer: Self)
        requires
            capacity > 0,
        ensures
            buffer.wf(),
            buffer.capacity() == capacity,
            buffer.next_sequence() == 0,
            forall|i: int| 0 <= i < capacity ==> buffer.slots()[i] is None,
    {
        let buffer = OrderedBuffer { items: empty_slots(capacity), read_pos: 0, next_sequence_number: 0 };
        proof {
            vstd::arithmetic::div_mod::lemma_small_mod(0, capacity as nat);
        }
        buffer
    }

    /// Inserts an item with a given sequence number.
    ///
    /// On every rejection (`Expired`, `Duplicate`, `FullBuffer`) the buffer
    /// is left unchanged and the caller keeps responsibility for the item.
    /// The sequence number must leave room for the delivery counter that
    /// follows it, so `u64::MAX` itself is not accepted.
    pub fn insert(&mut self, new_sequence_number: u64, item: T) -> (result: InsertResult)
        requires
            old(self).wf(),
            new_sequence_number < u64::MAX,
        ensures
            final(self).wf(),
            final(self).capacity() == old(self).capacity(),
            final(self).next_sequence() == old(self).next_sequence(),
            result == old(self).spec_insert_result(new_sequence_number),
            result is Inserted ==> final(self).slots() == old(self).slots().update(
                old(self).slot_of(new_sequence_number as int),
                Some((new_sequence_number, item)),
            ),
            !(result is Inserted) ==> final(self).slots() == old(self).slots(),
    {
        let capacity: u64 = self.items.len() as u64;
        let slot: usize = (new_sequence_number % capacity) as usize;
        proof {
            vstd::arithmetic::div_mod::lemma_mod_bound(new_sequence_number as int, capacity as int);
        }
        match &self.items[slot] {
            Some(entry) => {
                let existing_sequence_number: u64 = entry.0;
                if new_sequence_number < existing_sequence_number {
                    InsertResult::Expired
                } else if new_sequence_number == existing_sequence_number {
                    InsertResult::Duplicate
                } else {
                    InsertResult::FullBuffer
                }
            },
            None => {
                if new_sequence_number >= self.next_sequence_number
                    && new_sequence_number - self.next_sequence_number >= capacity {
                    // A free slot, but the sequence number is too far beyond
                    // the number of items the buffer can hold.
                    return InsertResult::FullBuffer;
                }
                if new_sequence_number < self.next_sequence_number {
                    // The next sequence number only advances when items are
                    // delivered; anything below it has been delivered already.
                    return InsertResult::Duplicate;
                }
                self.items[slot] = Some((new_sequence_number, item));
                proof {
                    assert forall|i: int| 0 <= i < self.capacity() implies #[trigger] self.slot_ok(i) by {
                        assert(old(self).slot_ok(i));
                    }
                }
                InsertResult::Inserted
            },
        }
    }

    /// One drain step: removes and returns the item with the next sequence
    /// number, if it is buffered. Returns `None`, leaving the buffer
    /// unchanged, the moment the next sequence number has not arrived yet.
    pub fn pop_next(&mut self) -> (result: Option<T>)
        requires
            old(self).wf(),
        ensures
            final(self).wf(),
            final(self).capacity() == old(self).capacity(),
            result matches Some(item) ==> {
                &&& old(self).slots()[old(self).slot_of(old(self).next_sequence() as int)]
                    == Some((old(self).next_sequence(), item))
                &&& final(self).next_sequence() as int == old(self).next_sequence() as int + 1
                &&& final(self).slots() == old(self).slots().update(
                    old(self).slot_of(old(self).next_sequence() as int),
                    None::<(u64, T)>,
                )
            },
            result is None ==> {
                &&& old(self).slots()[old(self).slot_of(old(self).next_sequence() as int)] is None
                &&& final(self).slots() == old(self).slots()
                &&& final(self).next_sequence() == old(self).next_sequence()
            },
    {
        proof {
            vstd::arithmetic::div_mod::lemma_mod_bound(
                self.next_sequence_number as int,
                self.capacity(),
            );
        }
        let read_pos: usize = self.read_pos;
        let len: usize = self.items.len();
        if self.items[read_pos].is_none() {
            return None;
        }
        let pair = self.items[read_pos].take().unwrap();
        proof {
            assert(old(self).slot_ok(read_pos as int));
            lemma_same_slot_in_window_unique(
                old(self).seq_in_slot(read_pos as int) as int,
                old(self).next_sequence() as int,
                old(self).capacity(),
            );
        }
        let (sequence_number, item) = pair;
        self.read_pos = if read_pos + 1 == len {
            0
        } else {
            read_pos + 1
        };
        self.next_sequence_number = sequence_number + 1;
        proof {
            let cap = self.capacity();
            lemma_mod_succ(sequence_number as int, cap);
            if read_pos + 1 == len {
                vstd::arithmetic::div_mod::lemma_mod_self_0(cap);
            } else {
                vstd::arithmetic::div_mod::lemma_small_mod((read_pos + 1) as nat, cap as nat);
            }
            assert forall|i: int| 0 <= i < cap implies #[trigger] self.slot_ok(i) by {
                assert(old(self).slot_ok(i));
            }
        }
        Some(item)
    }

    /// Whether the item with the next sequence number is buffered, that is,
    /// whether a drain step would deliver something.
    fn has_next(&self) -> (ready: bool)
        requires
            self.wf(),
        ensures
            ready == self.has_buffered(0),
    {
        proof {
            vstd::arithmetic::div_mod::lemma_mod_bound(
                self.next_sequence_number as int,
                self.capacity(),
            );
        }
        self.items[self.read_pos].is_some()
    }

    /// Removes and returns the longest contiguous run of buffered items
    /// starting at the next sequence number, in ascending sequence-number
    /// order. It stops at the first gap: a sequence number that has not
    /// arrived yet. Draining again later, once inserts have filled the gap,
    /// resumes exactly where this call stopped.
    pub fn drain(&mut self) -> (drained: Vec<T>)
        requires
            old(self).wf(),
        ensures
            final(self).wf(),
            final(self).capacity() == old(self).capacity(),
            drained@.len() == old(self).run_len(),
            final(self).next_sequence() as int == old(self).next_sequence() as int
                + old(self).run_len(),
            forall|j: int| 0 <= j < drained@.len()
                ==> old(self).slots()[old(self).slot_of(old(self).next_sequence() as int + j)]
                    == Some(((old(self).next_sequence() as int + j) as u64, #[trigger] drained@[j])),
            forall|i: int| 0 <= i < old(self).capacity() ==> #[trigger] final(self).slots()[i] == (
                if old(self).slots()[i] is Some
                    && (old(self).seq_in_slot(i) as int) < final(self).next_sequence() as int {
                    None::<(u64, T)>
                } else {
                    old(self).slots()[i]
                }),
    {
        let ghost b0 = *self;
        let mut drained: Vec<T> = Vec::new();
        proof {
            assert forall|i: int| 0 <= i < b0.capacity() implies #[trigger] self.slots()[i] == (
                if b0.slots()[i] is Some
                    && (b0.seq_in_slot(i) as int) < self.next_sequence() as int {
                    None::<(u64, T)>
                } else {
                    b0.slots()[i]
                }) by {
                assert(b0.slot_ok(i));
            }
        }
        while self.has_next()
            invariant
                self.wf(),
                self.capacity() == b0.capacity(),
                b0.wf(),
                drained@.len() <= b0.capacity(),
                self.next_sequence() as int == b0.next_sequence() as int + drained@.len(),
                forall|k: int| 0 <= k < drained@.len()
                    ==> b0.slots()[b0.slot_of(b0.next_sequence() as int + k)]
                        == Some(((b0.next_sequence() as int + k) as u64, #[trigger] drained@[k])),
                forall|i: int| 0 <= i < b0.capacity() ==> #[trigger] self.slots()[i] == (
                    if b0.slots()[i] is Some
                        && (b0.seq_in_slot(i) as int) < self.next_sequence() as int {
                        None::<(u64, T)>
                    } else {
                        b0.slots()[i]
                    }),
            decreases b0.capacity() - drained@.len(),
        {
            let ghost pre = *self;
            let ghost k = drained@.len() as int;
            let ghost cap = b0.capacity();
            let popped = self.pop_next();
            proof {
                if k == cap {
                    // A full run would have emptied the slot of the very
                    // first delivery by now, so the run is shorter.
                    let i0 = b0.slot_of(b0.next_sequence() as int);
                    vstd::arithmetic::div_mod::lemma_mod_add_multiples_vanish(
                        b0.next_sequence() as int,
                        cap,
                    );
                    vstd::arithmetic::div_mod::lemma_mod_bound(b0.next_sequence() as int, cap);
                    assert(b0.slot_ok(i0));
                    assert(false);
                }
                vstd::arithmetic::div_mod::lemma_mod_bound(b0.next_sequence() as int + k, cap);
            }
            let item = popped.unwrap();
            proof {
                let t = b0.next_sequence() as int + k;
                let i_k = b0.slot_of(t);
                assert(b0.slots()[i_k] == Some((t as u64, item)));
                assert forall|i: int| 0 <= i < cap implies #[trigger] self.slots()[i] == (
                    if b0.slots()[i] is Some
                        && (b0.seq_in_slot(i) as int) < self.next_sequence() as int {
                        None::<(u64, T)>
                    } else {
                        b0.slots()[i]
                    }) by {
                    assert(b0.slot_ok(i));
                    assert(pre.slots()[i] == (
                        if b0.slots()[i] is Some
                            && (b0.seq_in_slot(i) as int) < pre.next_sequence() as int {
                            None::<(u64, T)>
                        } else {
                            b0.slots()[i]
                        }));
                }
            }
            drained.push(item);
        }
        proof {
            let k = drained@.len() as int;
            let cap = b0.capacity();
            if k < cap && b0.has_buffered(k) {
                let t = b0.next_sequence() as int + k;
                let i_k = b0.slot_of(t);
                vstd::arithmetic::div_mod::lemma_mod_bound(t, cap);
                assert(b0.slot_ok(i_k));
                let s = b0.seq_in_slot(i_k) as int;
                if s >= t {
                    lemma_same_slot_in_window_unique(s, t, cap);
                } else {
                    lemma_same_slot_in_window_unique(t, s, cap);
                }
                assert(false);
            }
            b0.lemma_run_len_from_props(0);
            if b0.run_len() < k {
                let r = b0.run_len();
                assert(b0.slots()[b0.slot_of(b0.next_sequence() as int + r)]
                    == Some(((b0.next_sequence() as int + r) as u64, drained@[r])));
            }
        }
        drained
    }

    /// Clears every slot and returns both counters to zero, as if the
    /// buffer had just been constructed. Unconditional: there is no
    /// failure mode.
    pub fn reset(&mut self)
        requires
            old(self).wf(),
        ensures
            final(self).wf(),
            final(self).capacity() == old(self).capacity(),
            final(self).next_sequence() == 0,
            forall|i: int| 0 <= i < final(self).capacity() ==> final(self).slots()[i] is None,
    {
        let capacity: usize = self.items.len();
        self.items = empty_slots(capacity);
        self.read_pos = 0;
        self.next_sequence_number = 0;
        proof {
            vstd::arithmetic::div_mod::lemma_small_mod(0, capacity as nat);
        }
    }
}

/// Two numbers that map to the same slot and both lie in one window of
/// length `m` are equal.
pub(crate) proof fn lemma_same_slot_in_window_unique(a: int, b: int, m: int)
    requires
        0 < m,
        a % m == b % m,
        b <= a < b + m,
    ensures
        a == b,
{
    vstd::arithmetic::div_mod::lemma_mod_equivalence(a, b, m);
    vstd::arithmetic::div_mod::lemma_small_mod((a - b) as nat, m as nat);
}

/// Stepping a residue forward by one inside the modulus is the same as
/// stepping the number itself.
pub(crate) proof fn lemma_mod_succ(a: int, m: int)
    requires
        0 < m,
    ensures
        (a % m + 1) % m == (a + 1) % m,
{
    vstd::arithmetic::div_mod::lemma_add_mod_noop(a, 1, m);
    if m == 1 {
        vstd::arithmetic::div_mod::lemma_mod_bound(a % m + 1, m);
        vstd::arithmetic::div_mod::lemma_mod_bound(a + 1, m);
    } else {
        vstd::arithmetic::div_mod::lemma_small_mod(1, m as nat);
    }
}

/// A vector of `capacity` empty slots.
fn empty_slots<T>(capacity: usize) -> (slots: Vec<Option<(u64, T)>>)
    ensures
        slots@.len() == capacity,
        forall|i: int| 0 <= i < capacity ==> slots@[i] is None,
{
    let mut slots: Vec<Option<(u64, T)>> = Vec::new();
    while slots.len() < capacity
        invariant
            slots@.len() <= capacity,
            forall|i: int| 0 <= i < slots@.len() ==> slots@[i] is None,
        decreases capacity - slots@.len(),
    {
        slots.push(None);
    }
    slots
}

} // verus!
