//! Per-frame reassembly buffer: an ordered array of `chunk_count` optional
//! byte slots, a count of filled slots, and the timestamp of the last
//! update.  The first write to a slot wins; duplicates are ignored.

use vstd::prelude::*;

verus! {

/// Mathematical model of a reassembly buffer.
#[verifier::ext_equal]
pub struct FrameBufferView {
    /// Expected number of chunks, fixed by the first fragment seen.
    pub total: u32,
    /// One slot per chunk index; `None` until that chunk arrives.
    pub chunks: Seq<Option<Seq<u8>>>,
    /// Timestamp of the most recent fragment for this buffer.
    pub last_seen: u64,
}

/// Number of filled slots.
pub open spec fn num_filled(s: Seq<Option<Seq<u8>>>) -> int
    decreases s.len(),
{
    if s.len() == 0 {
        0
    } else {
        num_filled(s.drop_last()) + if s.last() is Some {
            1int
        } else {
            0int
        }
    }
}

/// The bytes of one slot; an unfilled slot contributes nothing.
pub open spec fn opt_bytes(c: Option<Seq<u8>>) -> Seq<u8> {
    match c {
        Some(d) => d,
        None => Seq::empty(),
    }
}

/// Concatenation of the slots in index order.
pub open spec fn concat_chunks(s: Seq<Option<Seq<u8>>>) -> Seq<u8>
    decreases s.len(),
{
    if s.len() == 0 {
        Seq::empty()
    } else {
        opt_bytes(s[0]) + concat_chunks(s.drop_first())
    }
}

/// One first-write-wins slot write: fills slot `idx` with `data` when the
/// index is in range and the slot is still empty, otherwise changes nothing.
pub open spec fn write1(chunks: Seq<Option<Seq<u8>>>, idx: int, data: Seq<u8>) -> Seq<
    Option<Seq<u8>>,
> {
    if 0 <= idx < chunks.len() && chunks[idx] is None {
        chunks.update(idx, Some(data))
    } else {
        chunks
    }
}

/// `n` empty slots.
pub open spec fn empty_chunks(n: nat) -> Seq<Option<Seq<u8>>> {
    Seq::new(n, |i: int| None)
}

/// A buffer as allocated on first sight of a frame identifier.
pub open spec fn fresh_buffer(total: u32, now: u64) -> FrameBufferView {
    FrameBufferView { total, chunks: empty_chunks(total as nat), last_seen: now }
}

/// The buffer after one fragment.  An out-of-range index leaves the buffer
/// untouched, its timestamp included: a malformed fragment must not extend
/// the buffer's lifetime.  An in-range fragment takes the slot write of
/// `write1` and moves the last-update timestamp to `now`, whether or not
/// its slot was still open.
pub open spec fn buffer_after_push(b: FrameBufferView, idx: int, data: Seq<u8>, now: u64) -> FrameBufferView {
    if 0 <= idx < b.chunks.len() {
        FrameBufferView { total: b.total, chunks: write1(b.chunks, idx, data), last_seen: now }
    } else {
        b
    }
}

/// All expected chunks have arrived.
pub open spec fn buffer_complete(b: FrameBufferView) -> bool {
    num_filled(b.chunks) == b.total as int
}

pub proof fn lemma_num_filled_bounds(s: Seq<Option<Seq<u8>>>)
    ensures
        0 <= num_filled(s) <= s.len(),
    decreases s.len(),
{
    if s.len() > 0 {
        lemma_num_filled_bounds(s.drop_last());
    }
}

pub proof fn lemma_num_filled_update(s: Seq<Option<Seq<u8>>>, i: int, d: Seq<u8>)
    requires
        0 <= i < s.len(),
        s[i] is None,
    ensures
        num_filled(s.update(i, Some(d))) == num_filled(s) + 1,
    decreases s.len(),
{
    let t = s.update(i, Some(d));
    if i == s.len() - 1 {
        assert(t.drop_last() =~= s.drop_last());
    } else {
        assert(t.drop_last() =~= s.drop_last().update(i, Some(d)));
        lemma_num_filled_update(s.drop_last(), i, d);
    }
}

pub proof fn lemma_num_filled_none(s: Seq<Option<Seq<u8>>>)
    requires
        forall|i: int| 0 <= i < s.len() ==> s[i] is None,
    ensures
        num_filled(s) == 0,
    decreases s.len(),
{
    if s.len() > 0 {
        lemma_num_filled_none(s.drop_last());
    }
}

/// A buffer is complete exactly when every slot is filled.
pub proof fn lemma_num_filled_full(s: Seq<Option<Seq<u8>>>)
    ensures
        num_filled(s) == s.len() <==> (forall|i: int| 0 <= i < s.len() ==> s[i] is Some),
    decreases s.len(),
{
    if s.len() > 0 {
        lemma_num_filled_full(s.drop_last());
        lemma_num_filled_bounds(s.drop_last());
        assert(forall|i: int| 0 <= i < s.len() - 1 ==> s.drop_last()[i] == s[i]);
        if num_filled(s) == s.len() {
            assert(forall|i: int| 0 <= i < s.len() ==> s[i] is Some);
        }
    }
}

pub proof fn lemma_concat_take_snoc(s: Seq<Option<Seq<u8>>>, i: int)
    requires
        0 <= i < s.len(),
    ensures
        concat_chunks(s.take(i + 1)) == concat_chunks(s.take(i)) + opt_bytes(s[i]),
    decreases i,
{
    if i == 0 {
        assert(s.take(1).drop_first() =~= Seq::<Option<Seq<u8>>>::empty());
        assert(s.take(0) =~= Seq::<Option<Seq<u8>>>::empty());
        assert(opt_bytes(s[0]) + Seq::<u8>::empty() =~= opt_bytes(s[0]));
        assert(Seq::<u8>::empty() + opt_bytes(s[0]) =~= opt_bytes(s[0]));
    } else {
        lemma_concat_take_snoc(s.drop_first(), i - 1);
        assert(s.take(i + 1).drop_first() =~= s.drop_first().take(i));
        assert(s.take(i).drop_first() =~= s.drop_first().take(i - 1));
        assert(s.drop_first()[i - 1] == s[i]);
        assert((opt_bytes(s[0]) + concat_chunks(s.drop_first().take(i - 1))) + opt_bytes(s[i]) =~= opt_bytes(s[0]) + (concat_chunks(s.drop_first().take(i - 1)) + opt_bytes(s[i])));
    }
}

/// A reassembly buffer for one in-flight frame identifier.
pub struct FrameBuffer {
    total: u32,
    received: usize,
    chunks: Vec<Option<Vec<u8>>>,
    last_seen: u64,
}

impl View for FrameBuffer {
    type V = FrameBufferView;

    closed spec fn view(&self) -> FrameBufferView {
        FrameBufferView {
            total: self.total,
            chunks: self.chunks.deep_view(),
            last_seen: self.last_seen,
        }
    }
}

impl FrameBuffer {
    /// Slot count matches the announced total and the filled-slot counter is
    /// accurate.
    pub closed spec fn wf(&self) -> bool {
        &&& self.chunks@.len() == self.total as int
        &&& self.received as int == num_filled(self.chunks.deep_view())
    }

    /// Allocates a buffer of `total` empty slots, last updated at `now`.
    pub fn new(total: u32, now: u64) -> (b: Self)
        ensures
            b.wf(),
            b@ == fresh_buffer(total, now),
    {
        let mut chunks: Vec<Option<Vec<u8>>> = Vec::new();
        let mut i: usize = 0;
        while i < total as usize
            invariant
                i <= total as usize,
                chunks@.len() == i,
                forall|j: int| 0 <= j < i ==> chunks@[j] is None,
            decreases total as usize - i,
        {
            chunks.push(None);
            i = i + 1;
        }
        proof {
            assert(forall|j: int|
                0 <= j < chunks@.len() ==> chunks.deep_view()[j] is None);
            lemma_num_filled_none(chunks.deep_view());
            assert(chunks.deep_view() =~= empty_chunks(total as nat));
        }
        FrameBuffer { total, received: 0, chunks, last_seen: now }
    }

    /// Expected chunk count of this buffer.
    pub fn total_count(&self) -> (t: u32)
        ensures
            t == self@.total,
    {
        self.total
    }

    /// Timestamp of the most recent fragment routed to this buffer.
    pub fn last_touched(&self) -> (t: u64)
        ensures
            t == self@.last_seen,
    {
        self.last_seen
    }

    /// Records one fragment: the first write to a slot wins, a duplicate
    /// changes nothing but the timestamp, and an out-of-range index changes
    /// nothing at all.  Returns whether every slot is now filled.
    pub fn push(&mut self, idx: u32, data: &[u8], now: u64) -> (done: bool)
        requires
            old(self).wf(),
        ensures
            final(self).wf(),
            final(self)@ == buffer_after_push(old(self)@, idx as int, data@, now),
            idx >= old(self)@.total ==> final(self)@ == old(self)@,
            done == (idx < old(self)@.total && buffer_complete(final(self)@)),
    {
        let i = idx as usize;
        if i >= self.chunks.len() {
            return false;
        }
        self.last_seen = now;
        proof {
            assert(old(self).chunks.deep_view()[i as int] == old(self).chunks@[i as int].deep_view());
        }
        if self.chunks[i].is_none() {
            let mut owned: Vec<u8> = Vec::new();
            owned.extend_from_slice(data);
            assert(owned@ =~= data@);
            self.chunks.set(i, Some(owned));
            proof {
                assert(owned.deep_view() =~= data@);
                assert(self.chunks.deep_view() =~= old(self).chunks.deep_view().update(
                    i as int,
                    Some(data@),
                ));
                lemma_num_filled_update(old(self).chunks.deep_view(), i as int, data@);
                lemma_num_filled_bounds(self.chunks.deep_view());
            }
            self.received = self.received + 1;
        } else {
            assert(self.chunks.deep_view() =~= write1(
                old(self).chunks.deep_view(),
                idx as int,
                data@,
            ));
        }
        assert(self@ =~= buffer_after_push(old(self)@, idx as int, data@, now));
        self.received == self.chunks.len()
    }

    /// Concatenates the filled slots in index order, consuming the buffer.
    pub fn build(self) -> (out: Vec<u8>)
        ensures
            out@ == concat_chunks(self@.chunks),
    {
        let mut out: Vec<u8> = Vec::new();
        let mut i: usize = 0;
        while i < self.chunks.len()
            invariant
                i <= self.chunks@.len(),
                out@ == concat_chunks(self.chunks.deep_view().take(i as int)),
            decreases self.chunks@.len() - i,
        {
            proof {
                lemma_concat_take_snoc(self.chunks.deep_view(), i as int);
                assert(self.chunks.deep_view()[i as int] == self.chunks@[i as int].deep_view());
            }
            match &self.chunks[i] {
                Some(b) => {
                    out.extend_from_slice(b.as_slice());
                },
                None => {
                    assert(out@ =~= out@ + opt_bytes(self.chunks.deep_view()[i as int]));
                },
            }
            i = i + 1;
        }
        proof {
            assert(self.chunks.deep_view().take(self.chunks@.len() as int) =~= self.chunks.deep_view());
        }
        out
    }
}

/// Iterated first-write-wins slot writes: the fragments arrive in the order
/// of `idxs`, the fragment for index `k` always carrying `payloads[k]`.
pub open spec fn fill_chunks(
    chunks: Seq<Option<Seq<u8>>>,
    idxs: Seq<int>,
    payloads: Seq<Seq<u8>>,
) -> Seq<Option<Seq<u8>>>
    decreases idxs.len(),
{
    if idxs.len() == 0 {
        chunks
    } else {
        fill_chunks(write1(chunks, idxs[0], payloads[idxs[0]]), idxs.drop_first(), payloads)
    }
}

proof fn lemma_fill_chunks_props(
    chunks: Seq<Option<Seq<u8>>>,
    idxs: Seq<int>,
    payloads: Seq<Seq<u8>>,
)
    requires
        chunks.len() == payloads.len(),
        forall|i: int| 0 <= i < chunks.len() ==> chunks[i] is None || chunks[i] == Some(payloads[i]),
        forall|j: int| 0 <= j < idxs.len() ==> 0 <= #[trigger] idxs[j] < payloads.len(),
    ensures
        fill_chunks(chunks, idxs, payloads).len() == chunks.len(),
        forall|i: int|
            0 <= i < chunks.len() ==> #[trigger] fill_chunks(chunks, idxs, payloads)[i] is None
                || fill_chunks(chunks, idxs, payloads)[i] == Some(payloads[i]),
        forall|i: int|
            0 <= i < chunks.len() && chunks[i] is Some ==> #[trigger] fill_chunks(
                chunks,
                idxs,
                payloads,
            )[i] == chunks[i],
        forall|k: int| #[trigger] idxs.contains(k) ==> fill_chunks(chunks, idxs, payloads)[k] is Some,
    decreases idxs.len(),
{
    if idxs.len() > 0 {
        let c1 = write1(chunks, idxs[0], payloads[idxs[0]]);
        let rest = idxs.drop_first();
        assert(forall|i: int|
            0 <= i < c1.len() ==> c1[i] is None || c1[i] == Some(payloads[i]));
        lemma_fill_chunks_props(c1, rest, payloads);
        assert(c1[idxs[0]] is Some);
        assert forall|k: int| #[trigger] idxs.contains(k) implies fill_chunks(
            chunks,
            idxs,
            payloads,
        )[k] is Some by {
            let j = choose|j: int| 0 <= j < idxs.len() && idxs[j] == k;
            if j == 0 {
                assert(fill_chunks(chunks, idxs, payloads)[k] == fill_chunks(c1, rest, payloads)[k]);
            } else {
                assert(rest[j - 1] == k);
                assert(rest.contains(k));
            }
        }
    }
}

/// A completely filled slot array, slot `i` holding `payloads[i]`,
/// concatenates to the payloads flattened in index order.
pub proof fn lemma_concat_all_some(filled: Seq<Option<Seq<u8>>>, payloads: Seq<Seq<u8>>)
    requires
        filled.len() == payloads.len(),
        forall|i: int| 0 <= i < filled.len() ==> filled[i] == Some(payloads[i]),
    ensures
        concat_chunks(filled) == payloads.flatten(),
    decreases filled.len(),
{
    if filled.len() > 0 {
        assert(forall|i: int|
            0 <= i < filled.len() - 1 ==> filled.drop_first()[i] == filled[i + 1]);
        lemma_concat_all_some(filled.drop_first(), payloads.drop_first());
    }
}

/// Fragments delivered in any order that covers every index of
/// `{0 .. payloads.len() - 1}` fill the buffer completely, and the
/// assembled bytes equal the concatenation of the payload slices in index
/// order, regardless of the arrival order.
pub proof fn lemma_assembly_order_independent(idxs: Seq<int>, payloads: Seq<Seq<u8>>)
    requires
        forall|j: int| 0 <= j < idxs.len() ==> 0 <= #[trigger] idxs[j] < payloads.len(),
        forall|k: int| 0 <= k < payloads.len() ==> #[trigger] idxs.contains(k),
    ensures
        ({
            let filled = fill_chunks(empty_chunks(payloads.len()), idxs, payloads);
            &&& num_filled(filled) == payloads.len()
            &&& concat_chunks(filled) == payloads.flatten()
        }),
{
    let chunks0 = empty_chunks(payloads.len());
    let filled = fill_chunks(chunks0, idxs, payloads);
    lemma_fill_chunks_props(chunks0, idxs, payloads);
    assert forall|i: int| 0 <= i < filled.len() implies filled[i] == Some(payloads[i]) by {
        assert(idxs.contains(i));
        assert(filled[i] is Some);
    }
    lemma_num_filled_full(filled);
    lemma_concat_all_some(filled, payloads);
}

/// Duplicate delivery of one chunk index is idempotent: the second write
/// changes neither the slots nor the filled count, whatever bytes it
/// carries.
pub proof fn lemma_duplicate_idempotent(
    b: FrameBufferView,
    idx: int,
    d1: Seq<u8>,
    d2: Seq<u8>,
    t1: u64,
    t2: u64,
)
    ensures
        ({
            let once = buffer_after_push(b, idx, d1, t1);
            let twice = buffer_after_push(once, idx, d2, t2);
            &&& twice.chunks == once.chunks
            &&& twice.total == once.total
            &&& num_filled(twice.chunks) == num_filled(once.chunks)
        }),
{
    let once = buffer_after_push(b, idx, d1, t1);
    if 0 <= idx < b.chunks.len() {
        assert(once.chunks[idx] is Some);
    }
}

} // verus!
