use frame_relay::buffer::FrameBuffer;

#[test]
fn out_of_range_fragment_leaves_the_buffer_untouched() {
    let mut b = FrameBuffer::new(2, 5);
    // chunk index beyond the announced count: no slot write, and the
    // last-update timestamp must not move, or eviction would be deferred
    assert!(!b.push(2, b"XX", 100));
    assert_eq!(b.last_touched(), 5);
    assert_eq!(b.total_count(), 2);
    // the buffer still completes normally afterwards
    assert!(!b.push(0, b"AA", 101));
    assert!(b.push(1, b"BB", 102));
    assert_eq!(b.build(), b"AABB".to_vec());
}

#[test]
fn in_range_fragment_refreshes_the_timestamp() {
    let mut b = FrameBuffer::new(3, 0);
    assert!(!b.push(1, b"mid", 42));
    assert_eq!(b.last_touched(), 42);
    // a duplicate write is ignored but still counts as activity
    assert!(!b.push(1, b"dup", 43));
    assert_eq!(b.last_touched(), 43);
}

#[test]
fn build_concatenates_slots_in_index_order() {
    let mut b = FrameBuffer::new(3, 0);
    b.push(2, b"!", 1);
    b.push(0, b"hello ", 2);
    b.push(1, b"world", 3);
    assert_eq!(b.build(), b"hello world!".to_vec());
}
