use frame_relay::codec::CodecError;
use frame_relay::codec::FragmentHeader;
use frame_relay::codec::HEADER_LEN;
use frame_relay::codec::decode_fragment;
use frame_relay::codec::decode_frame_header;
use frame_relay::codec::encode_fragment;
use frame_relay::codec::put_u32_be;
use frame_relay::codec::read_u32_be;

#[test]
fn read_u32_be_reads_big_endian() {
    let bytes = [0xDEu8, 0xAD, 0xBE, 0xEF, 0x00, 0x00, 0x00, 0x2A];
    assert_eq!(read_u32_be(&bytes, 0), 0xDEADBEEF);
    assert_eq!(read_u32_be(&bytes, 4), 42);
}

#[test]
fn put_u32_be_writes_big_endian() {
    let mut out: Vec<u8> = Vec::new();
    put_u32_be(&mut out, 0x01020304);
    assert_eq!(out, vec![1u8, 2, 3, 4]);
    put_u32_be(&mut out, 0xFFFFFFFF);
    assert_eq!(out, vec![1u8, 2, 3, 4, 0xFF, 0xFF, 0xFF, 0xFF]);
}

#[test]
fn decode_fragment_rejects_short_datagrams() {
    let short = [0u8; 11];
    assert_eq!(decode_fragment(&short), Err(CodecError::InvalidPacket));
    let empty: [u8; 0] = [];
    assert_eq!(decode_fragment(&empty), Err(CodecError::InvalidPacket));
}

#[test]
fn decode_fragment_accepts_header_only_datagram() {
    let bytes = [0u8; 12];
    assert_eq!(bytes.len(), HEADER_LEN);
    let (h, payload) = decode_fragment(&bytes).unwrap();
    assert_eq!(h, FragmentHeader { frame_id: 0, chunk_count: 0, chunk_index: 0 });
    assert!(payload.is_empty());
}

#[test]
fn fragment_round_trip() {
    let packet = encode_fragment(0x01020304, 7, 3, b"hi there");
    assert_eq!(packet.len(), 12 + 8);
    assert_eq!(&packet[0..12], &[1u8, 2, 3, 4, 0, 0, 0, 7, 0, 0, 0, 3]);
    let (h, payload) = decode_fragment(&packet).unwrap();
    assert_eq!(h.frame_id, 0x01020304);
    assert_eq!(h.chunk_count, 7);
    assert_eq!(h.chunk_index, 3);
    assert_eq!(payload, b"hi there".to_vec());
}

#[test]
fn frame_header_decode_rejects_short_input() {
    let short = [9u8; 4];
    assert_eq!(decode_frame_header(&short), Err(CodecError::InvalidPacket));
}

#[test]
fn frame_header_decode_splits_fields() {
    let mut bytes: Vec<u8> = Vec::new();
    put_u32_be(&mut bytes, 640);
    put_u32_be(&mut bytes, 480);
    put_u32_be(&mut bytes, 5);
    bytes.extend_from_slice(&[10, 20, 30]);
    let (h, img) = decode_frame_header(&bytes).unwrap();
    assert_eq!(h.width, 640);
    assert_eq!(h.height, 480);
    assert_eq!(h.pixel_format_code, 5);
    assert_eq!(img, vec![10u8, 20, 30]);
}
