//! Packet codec: the two fixed 12-byte binary headers of the relay's wire
//! formats, with all multi-byte integers big-endian.
//!
//! A fragment datagram is `frame_id (4) | chunk_count (4) | chunk_index (4)`
//! followed by the payload bytes.  A reassembled frame starts with
//! `width (4) | height (4) | pixel_format_code (4)` followed by raw image
//! bytes; that header is opaque to reassembly and only decoded by consumers.

use vstd::prelude::*;

verus! {

/// Value of four bytes read as a big-endian unsigned 32-bit integer.
pub open spec fn u32_be(b: Seq<u8>) -> int
    recommends
        b.len() == 4,
{
    b[0] * 0x100_0000 + b[1] * 0x1_0000 + b[2] * 0x100 + b[3]
}

/// The four big-endian bytes of a 32-bit value.
pub open spec fn u32_be_bytes(v: int) -> Seq<u8>
    recommends
        0 <= v < 0x1_0000_0000,
{
    seq![
        (v / 0x100_0000 % 0x100) as u8,
        (v / 0x1_0000 % 0x100) as u8,
        (v / 0x100 % 0x100) as u8,
        (v % 0x100) as u8,
    ]
}

/// Reading back the four big-endian bytes of a value yields the value.
pub proof fn lemma_u32_be_inverse(v: u32)
    ensures
        u32_be(u32_be_bytes(v as int)) == v,
{
    assert(u32_be(u32_be_bytes(v as int)) == v) by (nonlinear_arith);
}

/// Reads the big-endian `u32` stored at `off`.
pub fn read_u32_be(bytes: &[u8], off: usize) -> (v: u32)
    requires
        off + 4 <= bytes@.len(),
    ensures
        v == u32_be(bytes@.subrange(off as int, off as int + 4)),
{
    let b0 = bytes[off] as u32;
    let b1 = bytes[off + 1] as u32;
    let b2 = bytes[off + 2] as u32;
    let b3 = bytes[off + 3] as u32;
    b0 * 0x100_0000 + b1 * 0x1_0000 + b2 * 0x100 + b3
}

/// Appends the four big-endian bytes of `v` to `out`.
pub fn put_u32_be(out: &mut Vec<u8>, v: u32)
    requires
        old(out)@.len() + 4 <= usize::MAX,
    ensures
        final(out)@ == old(out)@ + u32_be_bytes(v as int),
{
    out.push((v / 0x100_0000 % 0x100) as u8);
    out.push((v / 0x1_0000 % 0x100) as u8);
    out.push((v / 0x100 % 0x100) as u8);
    out.push((v % 0x100) as u8);
    assert(out@ =~= old(out)@ + u32_be_bytes(v as int));
}

/// Fixed 12-byte header of one UDP fragment datagram.
#[derive(Clone, Copy, Debug, PartialEq, Eq, Structural)]
pub struct FragmentHeader {
    pub frame_id: u32,
    pub chunk_count: u32,
    pub chunk_index: u32,
}

/// Fixed 12-byte header at the front of a reassembled frame's bytes.
#[derive(Clone, Copy, Debug, PartialEq, Eq, Structural)]
pub struct FrameHeader {
    pub width: u32,
    pub height: u32,
    pub pixel_format_code: u32,
}

/// A packet too short (or otherwise unusable) for its header; such packets
/// are dropped, never fatal.
#[derive(Clone, Copy, Debug, PartialEq, Eq, Structural)]
pub enum CodecError {
    InvalidPacket,
}

/// Length of both fixed headers.
pub const HEADER_LEN: usize = 12;

pub open spec fn spec_frame_id(b: Seq<u8>) -> int {
    u32_be(b.subrange(0, 4))
}

pub open spec fn spec_chunk_count(b: Seq<u8>) -> int {
    u32_be(b.subrange(4, 8))
}

pub open spec fn spec_chunk_index(b: Seq<u8>) -> int {
    u32_be(b.subrange(8, 12))
}

/// The payload bytes that follow a fragment header.
pub open spec fn spec_payload(b: Seq<u8>) -> Seq<u8> {
    b.skip(12)
}

pub open spec fn spec_width(b: Seq<u8>) -> int {
    u32_be(b.subrange(0, 4))
}

pub open spec fn spec_height(b: Seq<u8>) -> int {
    u32_be(b.subrange(4, 8))
}

pub open spec fn spec_pixel_format_code(b: Seq<u8>) -> int {
    u32_be(b.subrange(8, 12))
}

/// The raw image bytes that follow a frame header.
pub open spec fn spec_image_bytes(b: Seq<u8>) -> Seq<u8> {
    b.skip(12)
}

/// A fragment header is well formed when its index lies below its count.
pub open spec fn fragment_valid(chunk_count: u32, chunk_index: u32) -> bool {
    chunk_count > 0 && chunk_index < chunk_count
}

/// Splits a datagram into its fragment header and payload; fails exactly on
/// datagrams shorter than the 12-byte header.
pub fn decode_fragment(bytes: &[u8]) -> (r: Result<(FragmentHeader, Vec<u8>), CodecError>)
    ensures
        bytes@.len() < 12 <==> r is Err,
        r is Err ==> r == Err::<(FragmentHeader, Vec<u8>), CodecError>(CodecError::InvalidPacket),
        r matches Ok((h, p)) ==> {
            &&& h.frame_id == spec_frame_id(bytes@)
            &&& h.chunk_count == spec_chunk_count(bytes@)
            &&& h.chunk_index == spec_chunk_index(bytes@)
            &&& p@ == spec_payload(bytes@)
        },
{
    if bytes.len() < HEADER_LEN {
        return Err(CodecError::InvalidPacket);
    }
    let header = FragmentHeader {
        frame_id: read_u32_be(bytes, 0),
        chunk_count: read_u32_be(bytes, 4),
        chunk_index: read_u32_be(bytes, 8),
    };
    let mut payload: Vec<u8> = Vec::new();
    payload.extend_from_slice(&bytes[HEADER_LEN..bytes.len()]);
    assert(payload@ =~= spec_payload(bytes@));
    Ok((header, payload))
}

/// Builds one fragment datagram: 12-byte header followed by the payload.
pub fn encode_fragment(frame_id: u32, chunk_count: u32, chunk_index: u32, payload: &[u8]) -> (r:
    Vec<u8>)
    requires
        payload@.len() + 12 <= usize::MAX,
    ensures
        r@.len() == 12 + payload@.len(),
        spec_frame_id(r@) == frame_id,
        spec_chunk_count(r@) == chunk_count,
        spec_chunk_index(r@) == chunk_index,
        spec_payload(r@) == payload@,
{
    let mut out: Vec<u8> = Vec::new();
    put_u32_be(&mut out, frame_id);
    put_u32_be(&mut out, chunk_count);
    put_u32_be(&mut out, chunk_index);
    out.extend_from_slice(payload);
    proof {
        lemma_u32_be_inverse(frame_id);
        lemma_u32_be_inverse(chunk_count);
        lemma_u32_be_inverse(chunk_index);
        assert(out@.subrange(0, 4) =~= u32_be_bytes(frame_id as int));
        assert(out@.subrange(4, 8) =~= u32_be_bytes(chunk_count as int));
        assert(out@.subrange(8, 12) =~= u32_be_bytes(chunk_index as int));
        assert(out@.skip(12) =~= payload@);
    }
    out
}

/// Splits a completed frame's bytes into the frame header and the image
/// bytes; fails exactly on inputs shorter than the 12-byte header.  Used by
/// consumers, never by reassembly.
pub fn decode_frame_header(bytes: &[u8]) -> (r: Result<(FrameHeader, Vec<u8>), CodecError>)
    ensures
        bytes@.len() < 12 <==> r is Err,
        r is Err ==> r == Err::<(FrameHeader, Vec<u8>), CodecError>(CodecError::InvalidPacket),
        r matches Ok((h, img)) ==> {
            &&& h.width == spec_width(bytes@)
            &&& h.height == spec_height(bytes@)
            &&& h.pixel_format_code == spec_pixel_format_code(bytes@)
            &&& img@ == spec_image_bytes(bytes@)
        },
{
    if bytes.len() < HEADER_LEN {
        return Err(CodecError::InvalidPacket);
    }
    let header = FrameHeader {
        width: read_u32_be(bytes, 0),
        height: read_u32_be(bytes, 4),
        pixel_format_code: read_u32_be(bytes, 8),
    };
    let mut img: Vec<u8> = Vec::new();
    img.extend_from_slice(&bytes[HEADER_LEN..bytes.len()]);
    assert(img@ =~= spec_image_bytes(bytes@));
    Ok((header, img))
}

} // verus!
