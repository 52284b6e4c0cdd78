use frame_relay::fanout::FanoutBus;

#[test]
fn slow_consumer_observes_the_most_recent_suffix() {
    // capacity 2, five frames published: the consumer sees exactly the last
    // two, in order, and the publisher is never blocked.
    let mut bus = FanoutBus::new(2);
    let h = bus.subscribe();
    for i in 1u8..=5 {
        bus.publish(&[i]);
    }
    assert_eq!(bus.queue_len(h), 2);
    assert_eq!(bus.recv(h), Some(vec![4u8]));
    assert_eq!(bus.recv(h), Some(vec![5u8]));
    assert_eq!(bus.recv(h), None);
}

#[test]
fn delivery_order_matches_publish_order() {
    let mut bus = FanoutBus::new(8);
    let h = bus.subscribe();
    bus.publish(b"first");
    bus.publish(b"second");
    bus.publish(b"third");
    assert_eq!(bus.recv(h), Some(b"first".to_vec()));
    assert_eq!(bus.recv(h), Some(b"second".to_vec()));
    assert_eq!(bus.recv(h), Some(b"third".to_vec()));
    assert_eq!(bus.recv(h), None);
}

#[test]
fn each_consumer_has_its_own_queue() {
    let mut bus = FanoutBus::new(2);
    let fast = bus.subscribe();
    let slow = bus.subscribe();
    bus.publish(b"a");
    assert_eq!(bus.recv(fast), Some(b"a".to_vec()));
    bus.publish(b"b");
    bus.publish(b"c");
    bus.publish(b"d");
    // the fast consumer drained early and lost nothing it had not consumed
    assert_eq!(bus.recv(fast), Some(b"c".to_vec()));
    assert_eq!(bus.recv(fast), Some(b"d".to_vec()));
    // the slow consumer lagged: oldest frames were dropped, newest kept
    assert_eq!(bus.recv(slow), Some(b"c".to_vec()));
    assert_eq!(bus.recv(slow), Some(b"d".to_vec()));
    assert_eq!(bus.recv(slow), None);
}

#[test]
fn subscription_starts_empty_and_does_not_replay() {
    let mut bus = FanoutBus::new(4);
    bus.publish(b"before");
    let h = bus.subscribe();
    assert_eq!(bus.queue_len(h), 0);
    assert_eq!(bus.recv(h), None);
    bus.publish(b"after");
    assert_eq!(bus.recv(h), Some(b"after".to_vec()));
}

#[test]
fn unsubscribe_drops_the_consumer() {
    let mut bus = FanoutBus::new(4);
    let h1 = bus.subscribe();
    let h2 = bus.subscribe();
    assert_ne!(h1, h2);
    bus.publish(b"x");
    bus.unsubscribe(h1);
    assert_eq!(bus.recv(h1), None);
    assert_eq!(bus.queue_len(h1), 0);
    // the other consumer is unaffected
    assert_eq!(bus.recv(h2), Some(b"x".to_vec()));
}

#[test]
fn recv_on_unknown_handle_is_none() {
    let mut bus = FanoutBus::new(4);
    assert_eq!(bus.recv(12345), None);
}
