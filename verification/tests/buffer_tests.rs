use ordered_buffer::InsertResult;
use ordered_buffer::OrderedBuffer;

/// Inserts an item that is expected to be accepted, then drains whatever
/// contiguous run is now available.
fn insert_and_drain<T>(buffer: &mut OrderedBuffer<T>, seq: u64, item: T) -> Vec<T> {
    let result = buffer.insert(seq, item);
    assert_eq!(result, InsertResult::Inserted);
    buffer.drain()
}

#[test]
fn it_works() {
    let mut buffer: OrderedBuffer<&str> = OrderedBuffer::new(5);

    assert_eq!(insert_and_drain(&mut buffer, 0, "0"), vec!["0"]);
    assert_eq!(insert_and_drain(&mut buffer, 1, "1"), vec!["1"]);
    assert!(insert_and_drain(&mut buffer, 3, "3").is_empty());
    assert_eq!(insert_and_drain(&mut buffer, 2, "2"), vec!["2", "3"]);
    assert!(insert_and_drain(&mut buffer, 6, "6").is_empty());
    assert!(insert_and_drain(&mut buffer, 5, "5").is_empty());
    assert_eq!(insert_and_drain(&mut buffer, 4, "4"), vec!["4", "5", "6"]);
    assert!(insert_and_drain(&mut buffer, 11, "11").is_empty());
    assert!(insert_and_drain(&mut buffer, 10, "10").is_empty());
    assert!(insert_and_drain(&mut buffer, 9, "9").is_empty());
    assert!(insert_and_drain(&mut buffer, 8, "8").is_empty());
    assert_eq!(
        insert_and_drain(&mut buffer, 7, "7"),
        vec!["7", "8", "9", "10", "11"],
    );
    assert_eq!(buffer.insert(7, "7"), InsertResult::Duplicate);
    assert_eq!(buffer.insert(17, "17"), InsertResult::FullBuffer);
    assert!(insert_and_drain(&mut buffer, 16, "16").is_empty());
    assert_eq!(insert_and_drain(&mut buffer, 12, "12"), vec!["12"]);
    assert!(insert_and_drain(&mut buffer, 15, "15").is_empty());
    assert!(insert_and_drain(&mut buffer, 14, "14").is_empty());
    assert_eq!(
        insert_and_drain(&mut buffer, 13, "13"),
        vec!["13", "14", "15", "16"],
    );
    assert_eq!(buffer.insert(2, "2"), InsertResult::Duplicate);
}

#[test]
fn fills_gaps_in_order() {
    let mut buffer: OrderedBuffer<u64> = OrderedBuffer::new(5);

    assert_eq!(insert_and_drain(&mut buffer, 0, 0), vec![0]);
    assert_eq!(insert_and_drain(&mut buffer, 1, 1), vec![1]);
    assert!(insert_and_drain(&mut buffer, 3, 3).is_empty());
    assert_eq!(insert_and_drain(&mut buffer, 2, 2), vec![2, 3]);
    assert!(insert_and_drain(&mut buffer, 6, 6).is_empty());
    assert!(insert_and_drain(&mut buffer, 5, 5).is_empty());
    assert_eq!(insert_and_drain(&mut buffer, 4, 4), vec![4, 5, 6]);
}

#[test]
fn late_and_far_ahead_rejected() {
    let mut buffer: OrderedBuffer<u64> = OrderedBuffer::new(5);

    // Deliver everything through sequence number 11; the window is then
    // [12, 17).
    for seq in 0..12 {
        let drained = insert_and_drain(&mut buffer, seq, seq);
        assert_eq!(drained, vec![seq]);
    }
    assert_eq!(buffer.insert(7, 7), InsertResult::Duplicate);
    assert_eq!(buffer.insert(17, 17), InsertResult::FullBuffer);
}

#[test]
fn reverse_order_single_pass() {
    let mut buffer: OrderedBuffer<u64> = OrderedBuffer::new(5);

    for seq in [4u64, 3, 2, 1] {
        let result = buffer.insert(seq, seq);
        assert_eq!(result, InsertResult::Inserted);
        assert!(buffer.drain().is_empty());
    }
    assert_eq!(insert_and_drain(&mut buffer, 0, 0), vec![0, 1, 2, 3, 4]);
}

#[test]
fn duplicate_insert_changes_nothing() {
    let mut buffer: OrderedBuffer<&str> = OrderedBuffer::new(4);

    assert_eq!(buffer.insert(1, "first"), InsertResult::Inserted);
    assert_eq!(buffer.insert(1, "again"), InsertResult::Duplicate);
    // The buffer still holds exactly the first copy, and the gap at 0 is
    // still open.
    assert!(buffer.drain().is_empty());
    assert_eq!(buffer.insert(0, "zero"), InsertResult::Inserted);
    assert_eq!(buffer.drain(), vec!["zero", "first"]);
}

#[test]
fn window_edges() {
    let mut buffer: OrderedBuffer<u64> = OrderedBuffer::new(5);

    // Deliver 0..3, so next_sequence_number is 3 and the window is [3, 8).
    for seq in 0..3 {
        assert_eq!(insert_and_drain(&mut buffer, seq, seq), vec![seq]);
    }
    // One past the window end is always FullBuffer, the last delivered
    // number is always a Duplicate while its slot is free.
    assert_eq!(buffer.insert(8, 8), InsertResult::FullBuffer);
    assert_eq!(buffer.insert(2, 2), InsertResult::Duplicate);
    // The window itself is still fully usable.
    assert_eq!(buffer.insert(7, 7), InsertResult::Inserted);
    assert!(buffer.drain().is_empty());
}

#[test]
fn full_buffer_on_occupied_slot() {
    let mut buffer: OrderedBuffer<&str> = OrderedBuffer::new(5);

    // Sequence number 1 is buffered and undelivered; 6 maps to the same
    // slot, so accepting it would evict undelivered data.
    assert_eq!(buffer.insert(1, "one"), InsertResult::Inserted);
    assert_eq!(buffer.insert(6, "six"), InsertResult::FullBuffer);
}

#[test]
fn stale_arrival_expired() {
    let mut buffer: OrderedBuffer<&str> = OrderedBuffer::new(5);

    // Deliver 0, then buffer 5: slot 0 is occupied by sequence number 5
    // while the window is [1, 6).
    assert_eq!(insert_and_drain(&mut buffer, 0, "zero"), vec!["zero"]);
    assert_eq!(buffer.insert(5, "five"), InsertResult::Inserted);
    // A second copy of 0 now finds its slot occupied by a strictly newer
    // sequence number.
    assert_eq!(buffer.insert(0, "zero"), InsertResult::Expired);
}

#[test]
fn pop_next_single_steps() {
    let mut buffer: OrderedBuffer<&str> = OrderedBuffer::new(3);

    assert_eq!(buffer.pop_next(), None);
    assert_eq!(buffer.insert(1, "b"), InsertResult::Inserted);
    assert_eq!(buffer.pop_next(), None);
    assert_eq!(buffer.insert(0, "a"), InsertResult::Inserted);
    assert_eq!(buffer.pop_next(), Some("a"));
    assert_eq!(buffer.pop_next(), Some("b"));
    assert_eq!(buffer.pop_next(), None);
}

#[test]
fn reset_clears_state() {
    let mut buffer: OrderedBuffer<u64> = OrderedBuffer::new(4);

    assert_eq!(insert_and_drain(&mut buffer, 0, 0), vec![0]);
    assert_eq!(buffer.insert(2, 2), InsertResult::Inserted);
    buffer.reset();
    // Counters are back at zero and every slot is free again.
    assert!(buffer.drain().is_empty());
    assert_eq!(buffer.insert(0, 10), InsertResult::Inserted);
    assert_eq!(buffer.insert(2, 12), InsertResult::Inserted);
    assert_eq!(buffer.drain(), vec![10]);
    assert_eq!(buffer.insert(5, 15), InsertResult::FullBuffer);
}

#[test]
fn capacity_one() {
    let mut buffer: OrderedBuffer<&str> = OrderedBuffer::new(1);

    assert_eq!(buffer.insert(1, "one"), InsertResult::FullBuffer);
    assert_eq!(insert_and_drain(&mut buffer, 0, "zero"), vec!["zero"]);
    assert_eq!(insert_and_drain(&mut buffer, 1, "one"), vec!["one"]);
    assert_eq!(buffer.insert(0, "zero"), InsertResult::Duplicate);
}

#[test]
fn a_full_window_drains_in_one_pass() {
    let mut buffer: OrderedBuffer<u64> = OrderedBuffer::new(4);

    for seq in [1u64, 3, 2] {
        assert_eq!(buffer.insert(seq, seq), InsertResult::Inserted);
    }
    assert_eq!(buffer.insert(0, 0), InsertResult::Inserted);
    assert_eq!(buffer.drain(), vec![0, 1, 2, 3]);
    // The window moved to [4, 8).
    assert_eq!(buffer.insert(4, 4), InsertResult::Inserted);
    assert_eq!(buffer.drain(), vec![4]);
}
