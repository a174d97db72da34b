//! A fixed-capacity reorder buffer.
//!
//! Items tagged with monotonically increasing 64-bit sequence numbers arrive
//! in arbitrary order, possibly duplicated, and are released strictly in
//! sequence-number order as soon as a contiguous run becomes available. The
//! buffer holds at most `capacity` undelivered items; arrivals that fall
//! outside the current window of acceptable sequence numbers are rejected
//! without changing any state.

mod buffer;
mod laws;

pub use buffer::InsertResult;
pub use buffer::OrderedBuffer;
pub use laws::lemma_drain_run_is_consecutive;
pub use laws::lemma_duplicate_insert_rejected;
pub use laws::lemma_insert_already_delivered_rejected;
pub use laws::lemma_insert_beyond_window_rejected;
pub use laws::lemma_occupied_slots_in_window;
