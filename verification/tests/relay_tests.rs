use frame_relay::codec::encode_fragment;
use frame_relay::fanout::FanoutBus;
use frame_relay::producer::fragment_frame;
use frame_relay::relay::handle_datagram;
use frame_relay::relay::run_maintenance;
use frame_relay::table::AssemblyTable;

#[test]
fn datagrams_flow_through_to_a_completed_frame() {
    let encoded: Vec<u8> = (0u8..30).collect();
    let packets = fragment_frame(8, &encoded, 16);
    assert_eq!(packets.len(), 2);

    let mut t = AssemblyTable::new();
    assert_eq!(handle_datagram(&mut t, &packets[1], 10), None);
    let out = handle_datagram(&mut t, &packets[0], 11).expect("second datagram completes");
    assert_eq!(out, encoded);
    assert_eq!(t.len(), 0);
}

#[test]
fn short_datagram_is_dropped_without_touching_the_table() {
    let mut t = AssemblyTable::new();
    assert_eq!(handle_datagram(&mut t, &[1, 2, 3], 0), None);
    assert_eq!(t.len(), 0);
}

#[test]
fn malformed_fragment_datagram_is_dropped() {
    let mut t = AssemblyTable::new();
    // chunk_count 0 and chunk_index out of range are both discarded
    let zero_count = encode_fragment(1, 0, 0, b"junk");
    assert_eq!(handle_datagram(&mut t, &zero_count, 0), None);
    let bad_index = encode_fragment(1, 2, 2, b"junk");
    assert_eq!(handle_datagram(&mut t, &bad_index, 0), None);
    assert_eq!(t.len(), 0);
}

#[test]
fn maintenance_sweeps_then_enforces_the_cap() {
    let mut t = AssemblyTable::new();
    // one stale incomplete frame, three fresh ones
    assert_eq!(handle_datagram(&mut t, &encode_fragment(1, 2, 0, b"old"), 0), None);
    assert_eq!(handle_datagram(&mut t, &encode_fragment(2, 2, 0, b"new"), 300), None);
    assert_eq!(handle_datagram(&mut t, &encode_fragment(3, 2, 0, b"new"), 300), None);
    assert_eq!(handle_datagram(&mut t, &encode_fragment(4, 2, 0, b"new"), 300), None);

    // sweep alone: the stale frame goes, the table stays under the cap
    let evicted = run_maintenance(&mut t, 300, 250, 128);
    assert_eq!(evicted, 1);
    assert_eq!(t.len(), 3);

    // a tiny cap: everything still in flight is sacrificed
    let evicted2 = run_maintenance(&mut t, 301, 250, 2);
    assert_eq!(evicted2, 0);
    assert_eq!(t.len(), 0);
}

#[test]
fn completed_frames_fan_out_to_all_subscribers() {
    let encoded: Vec<u8> = (10u8..20).collect();
    let packets = fragment_frame(5, &encoded, 6);

    let mut t = AssemblyTable::new();
    let mut bus = FanoutBus::new(16);
    let h1 = bus.subscribe();
    let h2 = bus.subscribe();

    for p in &packets {
        if let Some(frame) = handle_datagram(&mut t, p, 0) {
            bus.publish(&frame);
        }
    }
    assert_eq!(bus.recv(h1), Some(encoded.clone()));
    assert_eq!(bus.recv(h2), Some(encoded.clone()));
    assert_eq!(bus.recv(h1), None);
}
