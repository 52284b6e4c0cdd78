//! Relay core decisions, one datagram at a time: decode the fragment
//! header, route the fragment into the assembly table, hand back the
//! assembled frame when this datagram completed one.  The surrounding
//! receive loop performs the transport reads and publishes completions; the
//! decisions here are pure functions of the bytes, the table and the clock.

use crate::buffer::FrameBufferView;
use crate::buffer::buffer_after_push;
use crate::buffer::buffer_complete;
use crate::buffer::concat_chunks;
use crate::buffer::fresh_buffer;
use crate::buffer::lemma_concat_all_some;
use crate::buffer::lemma_num_filled_full;
use crate::buffer::num_filled;
use crate::codec::CodecError;
use crate::codec::decode_fragment;
use crate::codec::fragment_valid;
use crate::codec::spec_chunk_count;
use crate::codec::spec_chunk_index;
use crate::codec::spec_frame_id;
use crate::codec::spec_payload;
use crate::table::AssemblyTable;
use crate::table::IngestResult;
use crate::table::ingest_base;
use crate::table::swept;
use vstd::prelude::*;

verus! {

/// What one received datagram does to the table, and what it emits: short
/// or malformed datagrams are dropped without touching the table; a valid
/// fragment lands in its buffer; the fragment that fills the last slot
/// removes the entry and emits the assembled bytes.
pub open spec fn relay_step(m: Map<u32, FrameBufferView>, dg: Seq<u8>, now: u64) -> (
    Map<u32, FrameBufferView>,
    Option<Seq<u8>>,
) {
    if dg.len() < 12 {
        (m, None)
    } else {
        let fid = spec_frame_id(dg) as u32;
        let cnt = spec_chunk_count(dg) as u32;
        let idx = spec_chunk_index(dg) as u32;
        if !fragment_valid(cnt, idx) {
            (m, None)
        } else {
            let updated = buffer_after_push(
                ingest_base(m, fid, cnt, now),
                idx as int,
                spec_payload(dg),
                now,
            );
            if buffer_complete(updated) {
                (m.remove(fid), Some(concat_chunks(updated.chunks)))
            } else {
                (m.insert(fid, updated), None)
            }
        }
    }
}

/// The relay's cumulative behaviour over a whole datagram sequence, the
/// `j`-th received at `times[j]`: the table after all of them, and the
/// emitted frames in emission order.
pub open spec fn relay_run(
    m: Map<u32, FrameBufferView>,
    dgs: Seq<Seq<u8>>,
    times: Seq<u64>,
) -> (Map<u32, FrameBufferView>, Seq<Seq<u8>>)
    recommends
        times.len() == dgs.len(),
    decreases dgs.len(),
{
    if dgs.len() == 0 {
        (m, Seq::empty())
    } else {
        let stepped = relay_step(m, dgs[0], times[0]);
        let rest = relay_run(stepped.0, dgs.drop_first(), times.drop_first());
        match stepped.1 {
            Some(f) => (rest.0, seq![f] + rest.1),
            None => rest,
        }
    }
}

/// `dg` is a well-formed fragment datagram of the frame with identifier
/// `fid` whose chunk payloads are `payloads`, carrying the slice its own
/// chunk index names.
pub open spec fn fragment_of(dg: Seq<u8>, fid: u32, payloads: Seq<Seq<u8>>) -> bool {
    &&& dg.len() >= 12
    &&& spec_frame_id(dg) == fid
    &&& spec_chunk_count(dg) == payloads.len()
    &&& 0 <= spec_chunk_index(dg) < payloads.len()
    &&& spec_payload(dg) == payloads[spec_chunk_index(dg)]
}

/// Some datagram of `dgs` carries chunk index `k`.
pub open spec fn delivers_index(dgs: Seq<Seq<u8>>, k: int) -> bool {
    exists|j: int| 0 <= j < dgs.len() && spec_chunk_index(#[trigger] dgs[j]) == k
}

proof fn lemma_relay_run_completes(
    m0: Map<u32, FrameBufferView>,
    fid: u32,
    payloads: Seq<Seq<u8>>,
    b: FrameBufferView,
    dgs: Seq<Seq<u8>>,
    times: Seq<u64>,
)
    requires
        !m0.dom().contains(fid),
        1 <= payloads.len() <= u32::MAX,
        dgs.len() >= 1,
        times.len() == dgs.len(),
        b.total == payloads.len(),
        b.chunks.len() == payloads.len(),
        forall|i: int|
            0 <= i < b.chunks.len() ==> #[trigger] b.chunks[i] is None || b.chunks[i] == Some(
                payloads[i],
            ),
        forall|j: int| 0 <= j < dgs.len() ==> fragment_of(#[trigger] dgs[j], fid, payloads),
        forall|j: int|
            0 <= j < dgs.len() ==> b.chunks[spec_chunk_index(#[trigger] dgs[j])] is None,
        forall|j1: int, j2: int|
            #![trigger dgs[j1], dgs[j2]]
            0 <= j1 < j2 < dgs.len() ==> spec_chunk_index(dgs[j1]) != spec_chunk_index(dgs[j2]),
        forall|k: int|
            0 <= k < b.chunks.len() && #[trigger] b.chunks[k] is None ==> delivers_index(dgs, k),
    ensures
        relay_run(m0.insert(fid, b), dgs, times).0 == m0,
        relay_run(m0.insert(fid, b), dgs, times).1 == seq![payloads.flatten()],
    decreases dgs.len(),
{
    let m = m0.insert(fid, b);
    let n = payloads.len() as int;
    let dg0 = dgs[0];
    let t0 = times[0];
    assert(fragment_of(dg0, fid, payloads));
    let cnt = spec_chunk_count(dg0) as u32;
    let idx = spec_chunk_index(dg0) as u32;
    assert(cnt == n && idx < n);
    assert(fragment_valid(cnt, idx));
    assert(spec_frame_id(dg0) as u32 == fid);
    assert(ingest_base(m, fid, cnt, t0) == b);
    let updated = buffer_after_push(b, idx as int, spec_payload(dg0), t0);
    assert(updated.chunks == b.chunks.update(idx as int, Some(payloads[idx as int])));
    assert(forall|i: int|
        0 <= i < updated.chunks.len() ==> #[trigger] updated.chunks[i] is None
            || updated.chunks[i] == Some(payloads[i]));
    if dgs.len() == 1 {
        assert forall|k: int| 0 <= k < updated.chunks.len() implies #[trigger] updated.chunks[k] is Some by {
            if updated.chunks[k] is None {
                assert(b.chunks[k] is None);
                assert(delivers_index(dgs, k));
                let j = choose|j: int| 0 <= j < dgs.len() && spec_chunk_index(#[trigger] dgs[j]) == k;
                assert(j == 0);
                assert(k == idx as int);
            }
        }
        lemma_num_filled_full(updated.chunks);
        assert(buffer_complete(updated));
        assert forall|i: int| 0 <= i < updated.chunks.len() implies #[trigger] updated.chunks[i]
            == Some(payloads[i]) by {}
        lemma_concat_all_some(updated.chunks, payloads);
        let stepped = relay_step(m, dg0, t0);
        assert(stepped.0 == m.remove(fid));
        assert(stepped.1 == Some(concat_chunks(updated.chunks)));
        assert(m.remove(fid) =~= m0);
        assert(dgs.drop_first().len() == 0);
        assert(relay_run(stepped.0, dgs.drop_first(), times.drop_first()) == (
            stepped.0,
            Seq::<Seq<u8>>::empty(),
        ));
        assert(relay_run(m, dgs, times).0 == stepped.0);
        assert(relay_run(m, dgs, times).1 == seq![concat_chunks(updated.chunks)]
            + Seq::<Seq<u8>>::empty());
        assert(relay_run(m, dgs, times).1 =~= seq![payloads.flatten()]);
    } else {
        let k1 = spec_chunk_index(dgs[1]);
        assert(k1 != idx as int);
        assert(b.chunks[k1] is None);
        assert(updated.chunks[k1] is None);
        assert(!buffer_complete(updated)) by {
            lemma_num_filled_full(updated.chunks);
            if num_filled(updated.chunks) == updated.chunks.len() {
                assert(updated.chunks[k1] is Some);
            }
        }
        let m1 = relay_step(m, dg0, t0).0;
        assert(m1 == m.insert(fid, updated));
        assert(m.insert(fid, updated) =~= m0.insert(fid, updated));
        let rest = dgs.drop_first();
        let trest = times.drop_first();
        assert forall|j: int| 0 <= j < rest.len() implies fragment_of(
            #[trigger] rest[j],
            fid,
            payloads,
        ) by {
            assert(rest[j] == dgs[j + 1]);
        }
        assert forall|j: int|
            0 <= j < rest.len() implies updated.chunks[spec_chunk_index(#[trigger] rest[j])] is None by {
            assert(rest[j] == dgs[j + 1]);
            assert(spec_chunk_index(dgs[0]) != spec_chunk_index(dgs[j + 1]));
            assert(b.chunks[spec_chunk_index(dgs[j + 1])] is None);
        }
        assert forall|j1: int, j2: int|
            #![trigger rest[j1], rest[j2]]
            0 <= j1 < j2 < rest.len() implies spec_chunk_index(rest[j1]) != spec_chunk_index(
            rest[j2],
        ) by {
            assert(rest[j1] == dgs[j1 + 1] && rest[j2] == dgs[j2 + 1]);
        }
        assert forall|k: int|
            0 <= k < updated.chunks.len() && #[trigger] updated.chunks[k] is None implies delivers_index(
            rest,
            k,
        ) by {
            assert(b.chunks[k] is None);
            assert(delivers_index(dgs, k));
            let j = choose|j: int| 0 <= j < dgs.len() && spec_chunk_index(#[trigger] dgs[j]) == k;
            assert(k != idx as int);
            assert(j != 0);
            assert(rest[j - 1] == dgs[j]);
            assert(spec_chunk_index(rest[j - 1]) == k);
        }
        lemma_relay_run_completes(m0, fid, payloads, updated, rest, trest);
        let stepped = relay_step(m, dg0, t0);
        assert(stepped.1 is None);
        assert(stepped.0 == m.insert(fid, updated));
        assert(stepped.0 == m0.insert(fid, updated));
        assert(relay_run(m, dgs, times) == relay_run(stepped.0, rest, trest));
        assert(relay_run(m, dgs, times).0 == relay_run(m0.insert(fid, updated), rest, trest).0);
        assert(relay_run(m, dgs, times).1 == relay_run(m0.insert(fid, updated), rest, trest).1);
    }
}

/// A datagram sequence that delivers, for a frame identifier not in flight,
/// each chunk index of one frame exactly once — in any arrival order —
/// makes the relay emit exactly one frame, the byte-for-byte concatenation
/// of the payload slices in index order, and leaves the table exactly as it
/// was.  The relay never inspects or alters the payload bytes themselves.
pub proof fn lemma_relay_assembles_one_frame(
    m0: Map<u32, FrameBufferView>,
    fid: u32,
    payloads: Seq<Seq<u8>>,
    dgs: Seq<Seq<u8>>,
    times: Seq<u64>,
)
    requires
        !m0.dom().contains(fid),
        1 <= payloads.len() <= u32::MAX,
        dgs.len() == payloads.len(),
        times.len() == dgs.len(),
        forall|j: int| 0 <= j < dgs.len() ==> fragment_of(#[trigger] dgs[j], fid, payloads),
        forall|j1: int, j2: int|
            #![trigger dgs[j1], dgs[j2]]
            0 <= j1 < j2 < dgs.len() ==> spec_chunk_index(dgs[j1]) != spec_chunk_index(dgs[j2]),
        forall|k: int| 0 <= k < payloads.len() ==> #[trigger] delivers_index(dgs, k),
    ensures
        relay_run(m0, dgs, times).0 == m0,
        relay_run(m0, dgs, times).1 == seq![payloads.flatten()],
{
    let dg0 = dgs[0];
    let t0 = times[0];
    assert(fragment_of(dg0, fid, payloads));
    let b0 = fresh_buffer(payloads.len() as u32, t0);
    assert(b0.chunks.len() == payloads.len());
    assert(forall|i: int| 0 <= i < b0.chunks.len() ==> #[trigger] b0.chunks[i] is None);
    assert forall|j: int|
        0 <= j < dgs.len() implies b0.chunks[spec_chunk_index(#[trigger] dgs[j])] is None by {
        assert(fragment_of(dgs[j], fid, payloads));
    }
    assert forall|k: int|
        0 <= k < b0.chunks.len() && #[trigger] b0.chunks[k] is None implies delivers_index(
        dgs,
        k,
    ) by {
        assert(delivers_index(dgs, k));
    }
    lemma_relay_run_completes(m0, fid, payloads, b0, dgs, times);
    let m = m0.insert(fid, b0);
    let cnt = spec_chunk_count(dg0) as u32;
    let idx = spec_chunk_index(dg0) as u32;
    assert(fragment_valid(cnt, idx));
    assert(spec_frame_id(dg0) as u32 == fid);
    assert(ingest_base(m0, fid, cnt, t0) == fresh_buffer(cnt, t0));
    assert(ingest_base(m, fid, cnt, t0) == b0);
    assert(fresh_buffer(cnt, t0) == b0);
    let updated = buffer_after_push(b0, idx as int, spec_payload(dg0), t0);
    if buffer_complete(updated) {
        assert(m0.remove(fid) =~= m.remove(fid));
        assert(relay_step(m0, dg0, t0).0 == relay_step(m, dg0, t0).0);
    } else {
        assert(m0.insert(fid, updated) =~= m.insert(fid, updated));
        assert(relay_step(m0, dg0, t0).0 == relay_step(m, dg0, t0).0);
    }
    assert(relay_step(m0, dg0, t0).1 == relay_step(m, dg0, t0).1);
    assert(relay_run(m0, dgs, times).0 == relay_run(m, dgs, times).0);
    assert(relay_run(m0, dgs, times).1 == relay_run(m, dgs, times).1);
}

/// Processes one datagram received at `now`: exactly the `relay_step`
/// transition on the table, returning the completed frame's bytes when this
/// datagram finished one.
pub fn handle_datagram(table: &mut AssemblyTable, datagram: &[u8], now: u64) -> (out: Option<
    Vec<u8>,
>)
    requires
        old(table).wf(),
    ensures
        final(table).wf(),
        final(table)@ == relay_step(old(table)@, datagram@, now).0,
        out.deep_view() == relay_step(old(table)@, datagram@, now).1,
{
    match decode_fragment(datagram) {
        Err(CodecError::InvalidPacket) => None,
        Ok((h, payload)) => {
            match table.ingest(h.frame_id, h.chunk_count, h.chunk_index, payload.as_slice(), now) {
                IngestResult::Completed(frame) => {
                    proof {
                        assert(frame.deep_view() =~= frame@);
                    }
                    Some(frame)
                },
                IngestResult::Pending => None,
                IngestResult::Rejected => None,
            }
        },
    }
}

/// The periodic maintenance tick, decoupled from packet arrival: evicts
/// stale buffers, then clears the whole table when more frames remain in
/// flight than `max_entries` allows.  Returns how many entries the sweep
/// evicted.
pub fn run_maintenance(table: &mut AssemblyTable, now: u64, ttl: u64, max_entries: usize) -> (evicted: usize)
    requires
        old(table).wf(),
    ensures
        final(table).wf(),
        ({
            let s = swept(old(table)@, now, ttl);
            &&& evicted as int == old(table)@.dom().len() - s.dom().len()
            &&& (s.dom().len() > max_entries ==> final(table)@ == Map::<
                u32,
                FrameBufferView,
            >::empty())
            &&& (s.dom().len() <= max_entries ==> final(table)@ == s)
        }),
{
    let evicted = table.sweep(now, ttl);
    table.cap_enforce(max_entries);
    evicted
}

} // verus!
