//! Frame assembly table: per-frame-identifier reassembly buffers, owned
//! exclusively by the table until a frame completes or is evicted.
//!
//! The table is a mapping from `frame_id` to buffer with unique keys and no
//! ordering semantics; its contract speaks of that `Map`.

use crate::buffer::FrameBuffer;
use crate::buffer::FrameBufferView;
use crate::buffer::buffer_after_push;
use crate::buffer::buffer_complete;
use crate::buffer::concat_chunks;
use crate::buffer::fresh_buffer;
use crate::codec::fragment_valid;
use crate::kvmap::has_key;
use crate::kvmap::index_of;
use crate::kvmap::keys_unique;
use crate::kvmap::lemma_index_of;
use crate::kvmap::lemma_map_of_dom_len;
use crate::kvmap::lemma_map_of_empty;
use crate::kvmap::lemma_map_of_index;
use crate::kvmap::lemma_map_of_push;
use crate::kvmap::lemma_map_of_remove;
use crate::kvmap::map_of;
use vstd::prelude::*;

verus! {

/// Outcome of routing one fragment into the table.
#[derive(Debug)]
pub enum IngestResult {
    /// This fragment filled the last open slot; the assembled frame bytes
    /// are handed out and the entry is gone from the table.
    Completed(Vec<u8>),
    /// The fragment was stored (or ignored as a duplicate); the frame is
    /// still missing chunks.
    Pending,
    /// Malformed fragment (`chunk_count == 0` or `chunk_index` out of
    /// range); the table is untouched.
    Rejected,
}

/// The pair sequence of a concrete entry vector, at the spec level.
pub open spec fn pairs_view(s: Seq<(u32, FrameBuffer)>) -> Seq<(u32, FrameBufferView)> {
    s.map_values(|e: (u32, FrameBuffer)| (e.0, e.1@))
}

/// The buffer that absorbs a fragment for `fid` announcing `cnt` chunks:
/// the existing buffer when its chunk count matches, otherwise a fresh one
/// (first sight of the identifier, or a generation replacement on
/// mismatch).
pub open spec fn ingest_base(m: Map<u32, FrameBufferView>, fid: u32, cnt: u32, now: u64) -> FrameBufferView {
    if m.dom().contains(fid) && m[fid].total == cnt {
        m[fid]
    } else {
        fresh_buffer(cnt, now)
    }
}

/// The table with every buffer last updated before `now - ttl` evicted.
pub open spec fn swept(m: Map<u32, FrameBufferView>, now: u64, ttl: u64) -> Map<
    u32,
    FrameBufferView,
> {
    Map::new(|fid: u32| m.dom().contains(fid) && m[fid].last_seen + ttl >= now, |fid: u32| m[fid])
}

/// A frame identifier reused with a different chunk count discards every
/// previously buffered chunk for that identifier: the buffer that absorbs
/// the fragment starts from empty slots, so at most the new fragment's own
/// slot is filled.
pub proof fn lemma_generation_reset(
    m: Map<u32, FrameBufferView>,
    fid: u32,
    cnt: u32,
    idx: u32,
    data: Seq<u8>,
    now: u64,
)
    requires
        m.dom().contains(fid),
        m[fid].total != cnt,
    ensures
        ({
            let updated = buffer_after_push(ingest_base(m, fid, cnt, now), idx as int, data, now);
            forall|k: int| 0 <= k < updated.chunks.len() && k != idx ==> updated.chunks[k] is None
        }),
{
    let base = ingest_base(m, fid, cnt, now);
    assert(base == fresh_buffer(cnt, now));
    assert(forall|k: int|
        0 <= k < base.chunks.len() ==> base.chunks[k] is None);
}

/// Mapping from in-flight `frame_id` to its reassembly buffer.
pub struct AssemblyTable {
    entries: Vec<(u32, FrameBuffer)>,
}

impl View for AssemblyTable {
    type V = Map<u32, FrameBufferView>;

    closed spec fn view(&self) -> Map<u32, FrameBufferView> {
        map_of(pairs_view(self.entries@))
    }
}

impl AssemblyTable {
    pub closed spec fn entries_view(&self) -> Seq<(u32, FrameBufferView)> {
        pairs_view(self.entries@)
    }

    /// Keys are unique and every buffer's internal counters are accurate.
    pub closed spec fn wf(&self) -> bool {
        &&& keys_unique(self.entries_view())
        &&& forall|i: int| 0 <= i < self.entries@.len() ==> (#[trigger] self.entries@[i]).1.wf()
    }

    /// An empty table.
    pub fn new() -> (t: Self)
        ensures
            t.wf(),
            t@ == Map::<u32, FrameBufferView>::empty(),
    {
        let t = AssemblyTable { entries: Vec::new() };
        proof {
            assert(t.entries_view() =~= Seq::<(u32, FrameBufferView)>::empty());
            lemma_map_of_empty::<u32, FrameBufferView>();
        }
        t
    }

    /// Number of in-flight frames.
    pub fn len(&self) -> (n: usize)
        requires
            self.wf(),
        ensures
            n == self@.dom().len(),
    {
        proof {
            lemma_map_of_dom_len(self.entries_view());
        }
        self.entries.len()
    }

    /// Whether a buffer for `fid` is currently in flight.
    pub fn contains(&self, fid: u32) -> (r: bool)
        requires
            self.wf(),
        ensures
            r == self@.dom().contains(fid),
    {
        match self.find(fid) {
            Some(i) => {
                proof {
                    assert(self.entries_view()[i as int].0 == fid);
                    assert(has_key(self.entries_view(), fid));
                }
                true
            },
            None => false,
        }
    }

    /// Position of the entry for `fid`, when one exists.
    fn find(&self, fid: u32) -> (r: Option<usize>)
        ensures
            match r {
                Some(i) => i < self.entries@.len() && self.entries@[i as int].0 == fid,
                None => !has_key(self.entries_view(), fid),
            },
    {
        let mut i: usize = 0;
        while i < self.entries.len()
            invariant
                i <= self.entries@.len(),
                forall|j: int| 0 <= j < i ==> (#[trigger] self.entries@[j]).0 != fid,
            decreases self.entries@.len() - i,
        {
            if self.entries[i].0 == fid {
                return Some(i);
            }
            i = i + 1;
        }
        proof {
            if has_key(self.entries_view(), fid) {
                let j = choose|j: int|
                    0 <= j < self.entries_view().len() && (#[trigger] self.entries_view()[j]).0
                        == fid;
                assert(self.entries@[j].0 == fid);
            }
        }
        None
    }

    /// Routes one fragment.  Rejects malformed fragments outright; otherwise
    /// the fragment lands in the buffer `ingest_base` names (existing,
    /// fresh, or generation replacement), first write per slot wins, and the
    /// entry leaves the table at the very call that fills its last slot,
    /// yielding the slots' bytes concatenated in index order.
    pub fn ingest(&mut self, fid: u32, cnt: u32, idx: u32, data: &[u8], now: u64) -> (r:
        IngestResult)
        requires
            old(self).wf(),
        ensures
            final(self).wf(),
            !fragment_valid(cnt, idx) ==> r is Rejected && final(self)@ == old(self)@,
            fragment_valid(cnt, idx) ==> ({
                let updated = buffer_after_push(
                    ingest_base(old(self)@, fid, cnt, now),
                    idx as int,
                    data@,
                    now,
                );
                &&& (buffer_complete(updated) ==> {
                    &&& r matches IngestResult::Completed(out) && out@ == concat_chunks(
                        updated.chunks,
                    )
                    &&& final(self)@ == old(self)@.remove(fid)
                })
                &&& (!buffer_complete(updated) ==> r is Pending && final(self)@ == old(
                    self,
                )@.insert(fid, updated))
            }),
    {
        if cnt == 0 || idx >= cnt {
            return IngestResult::Rejected;
        }
        let ghost v0 = self.entries_view();
        let mut buf: FrameBuffer;
        match self.find(fid) {
            Some(i) => {
                proof {
                    assert(v0[i as int].0 == fid);
                    lemma_map_of_index(v0, i as int);
                    lemma_map_of_remove(v0, i as int);
                }
                let (_found_fid, b) = self.entries.remove(i);
                proof {
                    assert(self.entries_view() =~= v0.remove(i as int));
                    assert forall|j: int|
                        0 <= j < self.entries@.len() implies (#[trigger] self.entries@[j]).1.wf() by {
                        if j < i as int {
                            assert(self.entries@[j] == old(self).entries@[j]);
                        } else {
                            assert(self.entries@[j] == old(self).entries@[j + 1]);
                        }
                    }
                }
                buf = b;
                if buf.total_count() != cnt {
                    buf = FrameBuffer::new(cnt, now);
                }
            },
            None => {
                proof {
                    assert(!old(self)@.dom().contains(fid));
                    assert(old(self)@.remove(fid) =~= old(self)@);
                }
                buf = FrameBuffer::new(cnt, now);
            },
        }
        // In every branch: the table now stands at old(self)@.remove(fid),
        // fid is absent from it, and buf models ingest_base.
        assert(map_of(self.entries_view()) == old(self)@.remove(fid));
        assert(!has_key(self.entries_view(), fid));
        assert(buf@ == ingest_base(old(self)@, fid, cnt, now));
        assert(buf@.total == cnt);
        let done = buf.push(idx, data, now);
        let ghost updated = buf@;
        if done {
            let out = buf.build();
            IngestResult::Completed(out)
        } else {
            proof {
                lemma_map_of_push(self.entries_view(), fid, updated);
            }
            let ghost v1 = self.entries_view();
            self.entries.push((fid, buf));
            proof {
                assert(self.entries_view() =~= v1.push((fid, updated)));
                assert(self@ == map_of(v1).insert(fid, updated));
                assert(old(self)@.remove(fid).insert(fid, updated) =~= old(self)@.insert(
                    fid,
                    updated,
                ));
                assert forall|j: int|
                    0 <= j < self.entries@.len() implies (#[trigger] self.entries@[j]).1.wf() by {}
            }
            IngestResult::Pending
        }
    }

    /// Evicts every buffer whose last update is older than `ttl` relative to
    /// `now`; afterwards no stale buffer remains.  Returns how many entries
    /// were evicted.
    pub fn sweep(&mut self, now: u64, ttl: u64) -> (evicted: usize)
        requires
            old(self).wf(),
        ensures
            final(self).wf(),
            final(self)@ == swept(old(self)@, now, ttl),
            forall|fid: u32| #[trigger]
                final(self)@.dom().contains(fid) ==> final(self)@[fid].last_seen + ttl >= now,
            evicted as int == old(self)@.dom().len() - final(self)@.dom().len(),
    {
        let ghost v0 = self.entries_view();
        let n0: usize = self.entries.len();
        let mut kept: Vec<(u32, FrameBuffer)> = Vec::new();
        while self.entries.len() > 0
            invariant
                keys_unique(v0),
                v0.len() == n0,
                self.entries@.len() <= n0,
                self.entries_view() == v0.skip(n0 - self.entries@.len()),
                forall|j: int| 0 <= j < self.entries@.len() ==> (#[trigger] self.entries@[j]).1.wf(),
                forall|j: int| 0 <= j < kept@.len() ==> (#[trigger] kept@[j]).1.wf(),
                kept@.len() <= n0 - self.entries@.len(),
                keys_unique(pairs_view(kept@)),
                forall|fid: u32| #[trigger]
                    has_key(pairs_view(kept@), fid) <==> exists|j: int|
                        0 <= j < n0 - self.entries@.len() && (#[trigger] v0[j]).0 == fid
                            && v0[j].1.last_seen + ttl >= now,
                forall|fid: u32| #[trigger]
                    has_key(pairs_view(kept@), fid) ==> map_of(pairs_view(kept@))[fid] == map_of(
                        v0,
                    )[fid],
            decreases self.entries@.len(),
        {
            let ghost processed = n0 - self.entries@.len();
            let ghost kv = pairs_view(kept@);
            let ghost pre_entries = self.entries@;
            let (fid, b) = self.entries.remove(0);
            proof {
                assert(pairs_view(pre_entries) == v0.skip(processed));
                assert(self.entries@ =~= pre_entries.remove(0));
                assert(self.entries_view() =~= pairs_view(pre_entries).remove(0));
                assert(self.entries_view() =~= v0.skip(processed + 1));
                assert((fid, b@) == pairs_view(pre_entries)[0]);
                assert(v0.skip(processed)[0] == v0[processed]);
                assert((fid, b@) == v0[processed]);
            }
            let ls = b.last_touched();
            let keep = if now >= ls {
                now - ls <= ttl
            } else {
                true
            };
            if keep {
                proof {
                    if has_key(kv, fid) {
                        let j = choose|j: int|
                            0 <= j < processed && (#[trigger] v0[j]).0 == fid && v0[j].1.last_seen
                                + ttl >= now;
                        assert(v0[j].0 == v0[processed].0);
                        assert(false);
                    }
                    lemma_map_of_push(kv, fid, b@);
                    lemma_map_of_index(v0, processed);
                }
                kept.push((fid, b));
                proof {
                    assert(pairs_view(kept@) =~= kv.push((fid, b@)));
                    let kv1 = pairs_view(kept@);
                    assert(kv1[kv.len() as int] == (fid, b@));
                    assert(v0[processed].1.last_seen + ttl >= now);
                    assert forall|f2: u32| #[trigger]
                        has_key(kv1, f2) <==> exists|j: int|
                            0 <= j < processed + 1 && (#[trigger] v0[j]).0 == f2
                                && v0[j].1.last_seen + ttl >= now by {
                        if has_key(kv1, f2) {
                            let i2 = choose|i2: int|
                                0 <= i2 < kv1.len() && (#[trigger] kv1[i2]).0 == f2;
                            if i2 == kv.len() {
                                assert(f2 == fid);
                                assert(v0[processed].0 == f2);
                            } else {
                                assert(kv[i2] == kv1[i2]);
                                assert(has_key(kv, f2));
                                let j = choose|j: int|
                                    0 <= j < processed && (#[trigger] v0[j]).0 == f2
                                        && v0[j].1.last_seen + ttl >= now;
                                assert(0 <= j < processed + 1 && v0[j].0 == f2
                                    && v0[j].1.last_seen + ttl >= now);
                            }
                        } else {
                            if exists|j: int|
                                0 <= j < processed + 1 && (#[trigger] v0[j]).0 == f2
                                    && v0[j].1.last_seen + ttl >= now {
                                let j = choose|j: int|
                                    0 <= j < processed + 1 && (#[trigger] v0[j]).0 == f2
                                        && v0[j].1.last_seen + ttl >= now;
                                if j == processed {
                                    assert(f2 == fid);
                                    assert(has_key(kv1, f2));
                                } else {
                                    assert(has_key(kv, f2));
                                    let i2 = choose|i2: int|
                                        0 <= i2 < kv.len() && (#[trigger] kv[i2]).0 == f2;
                                    assert(kv1[i2] == kv[i2]);
                                    assert(has_key(kv1, f2));
                                }
                                assert(false);
                            }
                        }
                    }
                    assert forall|f2: u32| #[trigger]
                        has_key(kv1, f2) implies map_of(kv1)[f2] == map_of(v0)[f2] by {
                        if f2 == fid {
                            assert(map_of(kv1)[f2] == b@);
                        } else {
                            let i2 = choose|i2: int|
                                0 <= i2 < kv1.len() && (#[trigger] kv1[i2]).0 == f2;
                            assert(i2 != kv.len());
                            assert(kv[i2] == kv1[i2]);
                            assert(has_key(kv, f2));
                            assert(map_of(kv1)[f2] == map_of(kv)[f2]);
                        }
                    }
                }
            } else {
                proof {
                    assert forall|f2: u32| #[trigger]
                        has_key(kv, f2) <==> exists|j: int|
                            0 <= j < processed + 1 && (#[trigger] v0[j]).0 == f2
                                && v0[j].1.last_seen + ttl >= now by {
                        if !has_key(kv, f2) {
                            if exists|j: int|
                                0 <= j < processed + 1 && (#[trigger] v0[j]).0 == f2
                                    && v0[j].1.last_seen + ttl >= now {
                                let j = choose|j: int|
                                    0 <= j < processed + 1 && (#[trigger] v0[j]).0 == f2
                                        && v0[j].1.last_seen + ttl >= now;
                                assert(j != processed);
                                assert(has_key(kv, f2));
                                assert(false);
                            }
                        }
                    }
                }
            }
        }
        let evicted = n0 - kept.len();
        proof {
            assert(self.entries@.len() == 0);
        }
        self.entries = kept;
        proof {
            let kv = self.entries_view();
            assert forall|fid: u32| #[trigger]
                has_key(kv, fid) <==> (has_key(v0, fid) && map_of(v0)[fid].last_seen + ttl
                    >= now) by {
                if has_key(kv, fid) {
                    let j = choose|j: int|
                        0 <= j < n0 && (#[trigger] v0[j]).0 == fid && v0[j].1.last_seen + ttl
                            >= now;
                    assert(has_key(v0, fid));
                    lemma_map_of_index(v0, j);
                }
                if has_key(v0, fid) && map_of(v0)[fid].last_seen + ttl >= now {
                    let j = index_of(v0, fid);
                    lemma_index_of(v0, fid);
                    lemma_map_of_index(v0, j);
                    assert(v0[j].0 == fid && v0[j].1.last_seen + ttl >= now);
                    assert(has_key(kv, fid));
                }
            }
            assert(self@ =~= swept(map_of(v0), now, ttl));
            lemma_map_of_dom_len(v0);
            lemma_map_of_dom_len(kv);
        }
        evicted
    }

    /// Coarse safety valve: when more than `max_entries` frames are in
    /// flight, the whole table is cleared unconditionally; otherwise nothing
    /// changes.
    pub fn cap_enforce(&mut self, max_entries: usize)
        requires
            old(self).wf(),
        ensures
            final(self).wf(),
            old(self)@.dom().len() > max_entries ==> final(self)@ == Map::<
                u32,
                FrameBufferView,
            >::empty(),
            old(self)@.dom().len() <= max_entries ==> final(self)@ == old(self)@,
    {
        proof {
            lemma_map_of_dom_len(self.entries_view());
        }
        if self.entries.len() > max_entries {
            self.entries.clear();
            proof {
                assert(self.entries_view() =~= Seq::<(u32, FrameBufferView)>::empty());
                lemma_map_of_empty::<u32, FrameBufferView>();
            }
        }
    }
}

} // verus!
