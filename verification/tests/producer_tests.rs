use frame_relay::codec::decode_fragment;
use frame_relay::codec::decode_frame_header;
use frame_relay::producer::PixelFormat;
use frame_relay::producer::fragment_frame;
use frame_relay::producer::frame_encode;
use frame_relay::producer::frame_format_to_code;
use frame_relay::table::AssemblyTable;
use frame_relay::table::IngestResult;

#[test]
fn format_codes_match_the_wire_table() {
    assert_eq!(frame_format_to_code(PixelFormat::Mjpeg), 0);
    assert_eq!(frame_format_to_code(PixelFormat::Yuyv), 1);
    assert_eq!(frame_format_to_code(PixelFormat::Nv12), 2);
    assert_eq!(frame_format_to_code(PixelFormat::Gray), 3);
    assert_eq!(frame_format_to_code(PixelFormat::RawRgb), 4);
    assert_eq!(frame_format_to_code(PixelFormat::RawBgr), 5);
}

#[test]
fn frame_encode_prepends_the_exact_header() {
    let raw = [7u8, 8, 9];
    let out = frame_encode(2, 3, PixelFormat::RawRgb, &raw);
    assert_eq!(out, vec![0u8, 0, 0, 2, 0, 0, 0, 3, 0, 0, 0, 4, 7, 8, 9]);
}

#[test]
fn frame_encode_round_trips_through_the_header_decoder() {
    let raw: Vec<u8> = (0u8..50).collect();
    let out = frame_encode(640, 480, PixelFormat::RawBgr, &raw);
    let (h, img) = decode_frame_header(&out).unwrap();
    assert_eq!(h.width, 640);
    assert_eq!(h.height, 480);
    assert_eq!(h.pixel_format_code, 5);
    assert_eq!(img, raw);
}

#[test]
fn fragment_frame_covers_the_bytes_exactly_in_order() {
    let encoded: Vec<u8> = (0u8..10).collect();
    let packets = fragment_frame(42, &encoded, 4);
    assert_eq!(packets.len(), 3);
    let mut rebuilt: Vec<u8> = Vec::new();
    for (i, p) in packets.iter().enumerate() {
        let (h, payload) = decode_fragment(p).unwrap();
        assert_eq!(h.frame_id, 42);
        assert_eq!(h.chunk_count, 3);
        assert_eq!(h.chunk_index, i as u32);
        rebuilt.extend_from_slice(&payload);
    }
    assert_eq!(rebuilt, encoded);
    // sizes: two full chunks, then the remainder
    assert_eq!(packets[0].len(), 12 + 4);
    assert_eq!(packets[1].len(), 12 + 4);
    assert_eq!(packets[2].len(), 12 + 2);
}

#[test]
fn fragment_frame_of_nothing_sends_nothing() {
    let encoded: [u8; 0] = [];
    let packets = fragment_frame(1, &encoded, 1388);
    assert!(packets.is_empty());
}

#[test]
fn fragments_reassemble_to_the_original_frame_in_any_order() {
    let raw: Vec<u8> = (0u8..=255).collect();
    let encoded = frame_encode(16, 16, PixelFormat::Gray, &raw);
    let packets = fragment_frame(77, &encoded, 100);
    assert_eq!(packets.len(), 3);

    // deliver out of order: 2, 0, 1
    let mut t = AssemblyTable::new();
    for &i in &[2usize, 0, 1] {
        let (h, payload) = decode_fragment(&packets[i]).unwrap();
        let r = t.ingest(h.frame_id, h.chunk_count, h.chunk_index, &payload, 0);
        if i == 1 {
            match r {
                IngestResult::Completed(out) => assert_eq!(out, encoded),
                IngestResult::Pending => panic!("frame should have completed"),
                IngestResult::Rejected => panic!("valid fragment rejected"),
            }
        } else {
            assert!(matches!(r, IngestResult::Pending));
        }
    }
}
