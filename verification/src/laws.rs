use vstd::prelude::*;

use crate::buffer::lemma_same_slot_in_window_unique;
use crate::buffer::InsertResult;
use crate::buffer::OrderedBuffer;

verus! {

/// Invariant law: in a well-formed buffer, every occupied slot holds a pair
/// whose sequence number is congruent to the slot index modulo the capacity
/// and lies in the current window
/// `[next_sequence, next_sequence + capacity)`.
pub proof fn lemma_occupied_slots_in_window<T>(buffer: OrderedBuffer<T>)
    requires
        buffer.wf(),
    ensures
        buffer.window_ok(),
{
}

/// Order law: one drain pass delivers the items carrying exactly the
/// consecutive sequence numbers `next_sequence, next_sequence + 1, ...`,
/// one for each offset below `run_len`, and stops at the first sequence
/// number that has not arrived. `drain` advances `next_sequence` by
/// `run_len` and `insert` never moves it, so the sequence numbers
/// delivered over a buffer's whole lifetime — across any interleaving of
/// inserts and drains, absent a reset — form a strictly increasing,
/// gap-free run.
pub proof fn lemma_drain_run_is_consecutive<T>(buffer: OrderedBuffer<T>)
    requires
        buffer.wf(),
    ensures
        0 <= buffer.run_len() <= buffer.capacity(),
        forall|j: int| 0 <= j < buffer.run_len() ==> #[trigger] buffer.has_buffered(j)
            && buffer.seq_in_slot(buffer.slot_of(buffer.next_sequence() as int + j))
                == buffer.next_sequence() as int + j,
        !buffer.has_buffered(buffer.run_len()),
{
    buffer.lemma_run_len_from_props(0);
    let cap = buffer.capacity();
    assert forall|j: int| 0 <= j < buffer.run_len() implies #[trigger] buffer.has_buffered(j)
        && buffer.seq_in_slot(buffer.slot_of(buffer.next_sequence() as int + j))
            == buffer.next_sequence() as int + j by {
        assert(buffer.has_buffered(j));
        let t = buffer.next_sequence() as int + j;
        let i = buffer.slot_of(t);
        vstd::arithmetic::div_mod::lemma_mod_bound(t, cap);
        assert(buffer.slot_ok(i));
        let s = buffer.seq_in_slot(i) as int;
        if s >= t {
            lemma_same_slot_in_window_unique(s, t, cap);
        } else {
            lemma_same_slot_in_window_unique(t, s, cap);
        }
    }
}

/// Idempotence of rejection: once an insert with sequence number `s` has
/// been accepted, inserting `s` again is classified `Duplicate` — and by
/// the contract of `insert`, a rejected insert leaves the buffer
/// unchanged. `before` is the state that accepted `s`; `after` is the
/// state `insert`'s contract prescribes for the accepting call.
pub proof fn lemma_duplicate_insert_rejected<T>(
    before: OrderedBuffer<T>,
    after: OrderedBuffer<T>,
    s: u64,
    item: T,
)
    requires
        before.wf(),
        before.spec_insert_result(s) is Inserted,
        after.capacity() == before.capacity(),
        after.next_sequence() == before.next_sequence(),
        after.slots() == before.slots().update(before.slot_of(s as int), Some((s, item))),
    ensures
        after.spec_insert_result(s) is Duplicate,
{
    vstd::arithmetic::div_mod::lemma_mod_bound(s as int, before.capacity());
}

/// Capacity law, upper end: a sequence number at or beyond the end of the
/// window `[next_sequence, next_sequence + capacity)` is always rejected
/// with `FullBuffer` — in particular `next_sequence + capacity` itself,
/// whatever the slots hold.
pub proof fn lemma_insert_beyond_window_rejected<T>(buffer: OrderedBuffer<T>, s: u64)
    requires
        buffer.wf(),
        s as int >= buffer.next_sequence() as int + buffer.capacity(),
    ensures
        buffer.spec_insert_result(s) is FullBuffer,
{
    vstd::arithmetic::div_mod::lemma_mod_bound(s as int, buffer.capacity());
    assert(buffer.slot_ok(buffer.slot_of(s as int)));
}

/// Capacity law, lower end: a sequence number below `next_sequence` was
/// already delivered, and as long as the slot it maps to is free the
/// arrival is rejected with `Duplicate`. (When that slot has been taken
/// again, by the in-window sequence number one whole capacity ahead, the
/// same arrival is classified `Expired` instead.)
pub proof fn lemma_insert_already_delivered_rejected<T>(buffer: OrderedBuffer<T>, s: u64)
    requires
        buffer.wf(),
        s < buffer.next_sequence(),
        buffer.slots()[buffer.slot_of(s as int)] is None,
    ensures
        buffer.spec_insert_result(s) is Duplicate,
{
}

} // verus!

