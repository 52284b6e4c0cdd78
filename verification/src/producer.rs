//! Producer-side frame handling: the numeric code of a pixel format, the
//! serialization of a captured frame behind its 12-byte header, and the
//! split of the serialized bytes into MTU-sized fragment datagrams that
//! cover them exactly, in order.

use crate::codec::encode_fragment;
use crate::codec::lemma_u32_be_inverse;
use crate::codec::put_u32_be;
use crate::codec::spec_chunk_count;
use crate::codec::spec_chunk_index;
use crate::codec::spec_frame_id;
use crate::codec::spec_height;
use crate::codec::spec_image_bytes;
use crate::codec::spec_payload;
use crate::codec::spec_pixel_format_code;
use crate::codec::spec_width;
use crate::codec::u32_be_bytes;
use vstd::arithmetic::div_mod::lemma_fundamental_div_mod;
use vstd::prelude::*;

verus! {

/// Source pixel format of a captured frame, as carried in the frame header.
#[derive(Clone, Copy, Debug, PartialEq, Eq, Structural)]
pub enum PixelFormat {
    Mjpeg,
    Yuyv,
    Nv12,
    Gray,
    RawRgb,
    RawBgr,
}

/// The wire code of each pixel format.
pub open spec fn spec_format_code(f: PixelFormat) -> int {
    match f {
        PixelFormat::Mjpeg => 0,
        PixelFormat::Yuyv => 1,
        PixelFormat::Nv12 => 2,
        PixelFormat::Gray => 3,
        PixelFormat::RawRgb => 4,
        PixelFormat::RawBgr => 5,
    }
}

/// Numeric wire code of a pixel format.
pub fn frame_format_to_code(fmt: PixelFormat) -> (code: u32)
    ensures
        code == spec_format_code(fmt),
{
    match fmt {
        PixelFormat::Mjpeg => 0,
        PixelFormat::Yuyv => 1,
        PixelFormat::Nv12 => 2,
        PixelFormat::Gray => 3,
        PixelFormat::RawRgb => 4,
        PixelFormat::RawBgr => 5,
    }
}

/// Serializes a captured frame: 12-byte frame header (width, height, format
/// code, big-endian) followed by the raw image bytes, unmodified.
pub fn frame_encode(width: u32, height: u32, format: PixelFormat, raw: &[u8]) -> (out: Vec<u8>)
    requires
        raw@.len() + 12 <= usize::MAX,
    ensures
        out@.len() == 12 + raw@.len(),
        spec_width(out@) == width,
        spec_height(out@) == height,
        spec_pixel_format_code(out@) == spec_format_code(format),
        spec_image_bytes(out@) == raw@,
{
    let code = frame_format_to_code(format);
    let mut out: Vec<u8> = Vec::new();
    put_u32_be(&mut out, width);
    put_u32_be(&mut out, height);
    put_u32_be(&mut out, code);
    out.extend_from_slice(raw);
    proof {
        lemma_u32_be_inverse(width);
        lemma_u32_be_inverse(height);
        lemma_u32_be_inverse(code);
        assert(out@.subrange(0, 4) =~= u32_be_bytes(width as int));
        assert(out@.subrange(4, 8) =~= u32_be_bytes(height as int));
        assert(out@.subrange(8, 12) =~= u32_be_bytes(code as int));
        assert(out@.skip(12) =~= raw@);
    }
    out
}

/// How many chunks of size `chunk_size` cover `len` bytes.
pub open spec fn chunks_needed(len: int, chunk_size: int) -> int
    recommends
        chunk_size >= 1,
{
    (len + chunk_size - 1) / chunk_size
}

/// The bytes of chunk `i`: the `i`-th contiguous `chunk_size`-sized slice,
/// the last chunk carrying whatever remains.
pub open spec fn chunk_slice(encoded: Seq<u8>, chunk_size: int, i: int) -> Seq<u8> {
    let start = i * chunk_size;
    let end = if start + chunk_size <= encoded.len() {
        start + chunk_size
    } else {
        encoded.len() as int
    };
    encoded.subrange(start, end)
}

/// Splits a serialized frame into fragment datagrams: one packet per chunk,
/// each carrying this frame's identifier, the common chunk count, its own
/// index, and its contiguous, non-overlapping payload slice; together the
/// slices cover the frame's bytes exactly, in order.
pub fn fragment_frame(frame_id: u32, encoded: &[u8], chunk_size: usize) -> (packets: Vec<Vec<u8>>)
    requires
        chunk_size >= 1,
        encoded@.len() + chunk_size + 12 <= usize::MAX,
        chunks_needed(encoded@.len() as int, chunk_size as int) <= u32::MAX,
    ensures
        packets@.len() == chunks_needed(encoded@.len() as int, chunk_size as int),
        forall|i: int|
            0 <= i < packets@.len() ==> {
                let p = #[trigger] packets.deep_view()[i];
                &&& spec_frame_id(p) == frame_id
                &&& spec_chunk_count(p) == packets@.len()
                &&& spec_chunk_index(p) == i
                &&& spec_payload(p) == chunk_slice(encoded@, chunk_size as int, i)
            },
{
    let ghost len = encoded@.len() as int;
    let ghost cs = chunk_size as int;
    let total: usize = (encoded.len() + chunk_size - 1) / chunk_size;
    proof {
        assert(total as int == chunks_needed(len, cs));
        lemma_fundamental_div_mod(len + cs - 1, cs);
        assert(0 <= (len + cs - 1) % cs < cs);
        assert(cs * (total as int) <= len + cs - 1);
        assert(cs * (total as int) >= len);
    }
    let mut packets: Vec<Vec<u8>> = Vec::new();
    let mut i: usize = 0;
    while i < total
        invariant
            chunk_size >= 1,
            cs == chunk_size as int,
            len == encoded@.len() as int,
            encoded@.len() + chunk_size + 12 <= usize::MAX,
            total as int == chunks_needed(len, cs),
            total <= u32::MAX,
            cs * (total as int) <= len + cs - 1,
            i <= total,
            packets@.len() == i,
            forall|k: int|
                0 <= k < i ==> {
                    let p = #[trigger] packets.deep_view()[k];
                    &&& spec_frame_id(p) == frame_id
                    &&& spec_chunk_count(p) == total
                    &&& spec_chunk_index(p) == k
                    &&& spec_payload(p) == chunk_slice(encoded@, cs, k)
                },
        decreases total - i,
    {
        proof {
            assert((i as int) * cs <= (total as int - 1) * cs) by (nonlinear_arith)
                requires
                    i as int <= total as int - 1,
                    cs >= 1,
            ;
            assert((total as int - 1) * cs == cs * (total as int) - cs) by (nonlinear_arith);
            assert((i as int) * cs <= len - 1);
        }
        let start = i * chunk_size;
        let end = if start + chunk_size <= encoded.len() {
            start + chunk_size
        } else {
            encoded.len()
        };
        let packet = encode_fragment(frame_id, total as u32, i as u32, &encoded[start..end]);
        let ghost pre = packets.deep_view();
        packets.push(packet);
        proof {
            assert(packet.deep_view() =~= packet@);
            assert(packets.deep_view() =~= pre.push(packet@));
            assert(encoded@.subrange(start as int, end as int) =~= chunk_slice(encoded@, cs, i as int));
        }
        i = i + 1;
    }
    packets
}

} // verus!
