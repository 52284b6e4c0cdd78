//! Fanout bus: delivers each completed frame to every subscribed consumer
//! through a bounded per-consumer queue.  A publish never blocks on a slow
//! consumer: when a queue is at capacity the consumer's oldest undelivered
//! frame is dropped, so the newest frames always supersede stale ones.

use crate::kvmap::has_key;
use crate::kvmap::index_of;
use crate::kvmap::keys_unique;
use crate::kvmap::lemma_index_of;
use crate::kvmap::lemma_map_of_empty;
use crate::kvmap::lemma_map_of_index;
use crate::kvmap::lemma_map_of_push;
use crate::kvmap::lemma_map_of_remove;
use crate::kvmap::lemma_map_of_same_keys;
use crate::kvmap::map_of;
use vstd::prelude::*;

verus! {

/// One delivery into a bounded queue: the frame is appended, and when the
/// queue already holds `cap` frames the oldest queued frames make room.
pub open spec fn push_bounded(q: Seq<Seq<u8>>, f: Seq<u8>, cap: nat) -> Seq<Seq<u8>> {
    if q.len() < cap {
        q.push(f)
    } else {
        q.skip(q.len() - cap + 1).push(f)
    }
}

/// Iterated deliveries: `frames` published in order into one queue.
pub open spec fn publish_all(q: Seq<Seq<u8>>, frames: Seq<Seq<u8>>, cap: nat) -> Seq<Seq<u8>>
    decreases frames.len(),
{
    if frames.len() == 0 {
        q
    } else {
        publish_all(push_bounded(q, frames[0], cap), frames.drop_first(), cap)
    }
}

/// After publishing `frames` into a queue bounded by `cap`, the queue holds
/// the most recent `cap` entries of the queued-then-published stream (or all
/// of them when they fit).
pub proof fn lemma_publish_all_window(q: Seq<Seq<u8>>, frames: Seq<Seq<u8>>, cap: nat)
    requires
        cap >= 1,
        q.len() <= cap,
    ensures
        publish_all(q, frames, cap) == if q.len() + frames.len() <= cap {
            q + frames
        } else {
            (q + frames).skip(q.len() + frames.len() - cap)
        },
    decreases frames.len(),
{
    if frames.len() == 0 {
        assert(q + frames =~= q);
    } else {
        let f0 = frames[0];
        let rest = frames.drop_first();
        let q1 = push_bounded(q, f0, cap);
        assert(q1.len() <= cap);
        lemma_publish_all_window(q1, rest, cap);
        if q.len() < cap {
            assert(q1 + rest =~= q + frames);
        } else {
            assert(q.len() == cap);
            assert(q1 =~= q.skip(1).push(f0));
            assert(q1 + rest =~= (q + frames).skip(1));
            if q1.len() + rest.len() <= cap {
                assert(frames.len() == 1);
                assert(q1 + rest =~= q1);
                assert((q + frames).skip(q.len() + frames.len() - cap) =~= (q + frames).skip(1));
            } else {
                assert(((q + frames).skip(1)).skip(q1.len() + rest.len() - cap) =~= (q
                    + frames).skip(q.len() + frames.len() - cap));
            }
        }
    }
}

/// Publishing `n` frames to a subscribed consumer whose queue capacity is
/// `cap < n` leaves the consumer exactly the suffix of the `cap` most recent
/// frames, never blocking the publisher.
pub proof fn lemma_slow_consumer_keeps_latest(frames: Seq<Seq<u8>>, cap: nat)
    requires
        1 <= cap < frames.len(),
    ensures
        publish_all(Seq::empty(), frames, cap) == frames.skip(frames.len() - cap),
{
    lemma_publish_all_window(Seq::empty(), frames, cap);
    assert(Seq::<Seq<u8>>::empty() + frames =~= frames);
}

/// The pair sequence of a concrete consumer vector, at the spec level.
pub open spec fn queues_view(s: Seq<(u64, Vec<Vec<u8>>)>) -> Seq<(u64, Seq<Seq<u8>>)> {
    s.map_values(|e: (u64, Vec<Vec<u8>>)| (e.0, e.1.deep_view()))
}

/// Bounded multi-consumer broadcast: one writer publishes completed frames,
/// each subscribed consumer drains its own bounded queue.
pub struct FanoutBus {
    capacity: usize,
    next_handle: u64,
    consumers: Vec<(u64, Vec<Vec<u8>>)>,
}

impl View for FanoutBus {
    type V = Map<u64, Seq<Seq<u8>>>;

    closed spec fn view(&self) -> Map<u64, Seq<Seq<u8>>> {
        map_of(queues_view(self.consumers@))
    }
}

impl FanoutBus {
    pub closed spec fn entries_view(&self) -> Seq<(u64, Seq<Seq<u8>>)> {
        queues_view(self.consumers@)
    }

    /// Per-consumer queue bound.
    pub closed spec fn cap(&self) -> nat {
        self.capacity as nat
    }

    /// How many handles have ever been issued.
    pub closed spec fn handles_used(&self) -> nat {
        self.next_handle as nat
    }

    /// Handles are unique, queues never exceed the bound, and every issued
    /// handle is below the next one.
    pub closed spec fn wf(&self) -> bool {
        &&& keys_unique(self.entries_view())
        &&& self.capacity >= 1
        &&& forall|i: int|
            0 <= i < self.consumers@.len() ==> (#[trigger] self.consumers@[i]).1@.len()
                <= self.capacity
        &&& forall|i: int|
            0 <= i < self.consumers@.len() ==> (#[trigger] self.consumers@[i]).0
                < self.next_handle
    }

    /// A bus with no consumers whose queues will be bounded by `capacity`.
    pub fn new(capacity: usize) -> (bus: Self)
        requires
            capacity >= 1,
        ensures
            bus.wf(),
            bus@ == Map::<u64, Seq<Seq<u8>>>::empty(),
            bus.cap() == capacity,
            bus.handles_used() == 0,
    {
        let bus = FanoutBus { capacity, next_handle: 0, consumers: Vec::new() };
        proof {
            assert(bus.entries_view() =~= Seq::<(u64, Seq<Seq<u8>>)>::empty());
            lemma_map_of_empty::<u64, Seq<Seq<u8>>>();
        }
        bus
    }

    /// Position of the consumer holding `h`, when subscribed.
    fn find(&self, h: u64) -> (r: Option<usize>)
        ensures
            match r {
                Some(i) => i < self.consumers@.len() && self.consumers@[i as int].0 == h,
                None => !has_key(self.entries_view(), h),
            },
    {
        let mut i: usize = 0;
        while i < self.consumers.len()
            invariant
                i <= self.consumers@.len(),
                forall|j: int| 0 <= j < i ==> (#[trigger] self.consumers@[j]).0 != h,
            decreases self.consumers@.len() - i,
        {
            if self.consumers[i].0 == h {
                return Some(i);
            }
            i = i + 1;
        }
        proof {
            if has_key(self.entries_view(), h) {
                let j = choose|j: int|
                    0 <= j < self.entries_view().len() && (#[trigger] self.entries_view()[j]).0
                        == h;
                assert(self.consumers@[j].0 == h);
            }
        }
        None
    }

    /// Registers a new consumer with an empty queue and returns its handle.
    pub fn subscribe(&mut self) -> (h: u64)
        requires
            old(self).wf(),
            old(self).handles_used() < u64::MAX,
        ensures
            final(self).wf(),
            final(self).cap() == old(self).cap(),
            final(self).handles_used() == old(self).handles_used() + 1,
            !old(self)@.dom().contains(h),
            final(self)@ == old(self)@.insert(h, Seq::<Seq<u8>>::empty()),
    {
        let h = self.next_handle;
        self.next_handle = self.next_handle + 1;
        proof {
            if has_key(self.entries_view(), h) {
                let j = choose|j: int|
                    0 <= j < self.entries_view().len() && (#[trigger] self.entries_view()[j]).0
                        == h;
                assert(self.consumers@[j].0 == h);
            }
            lemma_map_of_push(self.entries_view(), h, Seq::<Seq<u8>>::empty());
        }
        let ghost v1 = self.entries_view();
        let q: Vec<Vec<u8>> = Vec::new();
        assert(q.deep_view() =~= Seq::<Seq<u8>>::empty());
        self.consumers.push((h, q));
        proof {
            assert(self.entries_view() =~= v1.push((h, Seq::<Seq<u8>>::empty())));
            assert forall|i: int|
                0 <= i < self.consumers@.len() implies (#[trigger] self.consumers@[i]).0
                < self.next_handle by {
                if i < self.consumers@.len() - 1 {
                    assert(self.consumers@[i] == old(self).consumers@[i]);
                }
            }
        }
        h
    }

    /// Drops a consumer; its queued frames are gone with it.
    pub fn unsubscribe(&mut self, h: u64)
        requires
            old(self).wf(),
        ensures
            final(self).wf(),
            final(self).cap() == old(self).cap(),
            final(self).handles_used() == old(self).handles_used(),
            final(self)@ == old(self)@.remove(h),
    {
        let ghost v0 = self.entries_view();
        match self.find(h) {
            Some(i) => {
                proof {
                    assert(v0[i as int].0 == h);
                    lemma_map_of_remove(v0, i as int);
                }
                self.consumers.remove(i);
                proof {
                    assert(self.entries_view() =~= v0.remove(i as int));
                    assert forall|j: int|
                        0 <= j < self.consumers@.len() implies (#[trigger] self.consumers@[j]).1@.len()
                        <= self.capacity && self.consumers@[j].0 < self.next_handle by {
                        if j < i as int {
                            assert(self.consumers@[j] == old(self).consumers@[j]);
                        } else {
                            assert(self.consumers@[j] == old(self).consumers@[j + 1]);
                        }
                    }
                }
            },
            None => {
                proof {
                    assert(old(self)@.remove(h) =~= old(self)@);
                }
            },
        }
    }

    /// Delivers one completed frame to every subscribed consumer: each queue
    /// takes one `push_bounded` step, dropping that consumer's oldest frame
    /// when it is full, never the publisher's.
    pub fn publish(&mut self, frame: &[u8])
        requires
            old(self).wf(),
        ensures
            final(self).wf(),
            final(self).cap() == old(self).cap(),
            final(self).handles_used() == old(self).handles_used(),
            final(self)@.dom() == old(self)@.dom(),
            forall|h: u64| #[trigger]
                old(self)@.dom().contains(h) ==> final(self)@[h] == push_bounded(
                    old(self)@[h],
                    frame@,
                    old(self).cap(),
                ),
    {
        let ghost v0 = self.entries_view();
        let n0: usize = self.consumers.len();
        let cap = self.capacity;
        let mut updated: Vec<(u64, Vec<Vec<u8>>)> = Vec::new();
        while self.consumers.len() > 0
            invariant
                keys_unique(v0),
                v0.len() == n0,
                cap >= 1,
                self.capacity == cap,
                self.next_handle == old(self).next_handle,
                self.consumers@.len() <= n0,
                self.entries_view() == v0.skip(n0 - self.consumers@.len()),
                forall|j: int|
                    0 <= j < self.consumers@.len() ==> (#[trigger] self.consumers@[j]).0
                        < self.next_handle,
                forall|j: int|
                    0 <= j < updated@.len() ==> (#[trigger] updated@[j]).0 < self.next_handle,
                forall|i: int|
                    0 <= i < self.consumers@.len() ==> (#[trigger] self.consumers@[i]).1@.len()
                        <= cap,
                forall|j: int| 0 <= j < v0.len() ==> (#[trigger] v0[j]).1.len() <= cap,
                updated@.len() == n0 - self.consumers@.len(),
                forall|j: int|
                    0 <= j < updated@.len() ==> (#[trigger] queues_view(updated@)[j]) == (
                        v0[j].0,
                        push_bounded(v0[j].1, frame@, cap as nat),
                    ),
                forall|j: int| 0 <= j < updated@.len() ==> (#[trigger] updated@[j]).1@.len() <= cap,
            decreases self.consumers@.len(),
        {
            let ghost processed = n0 - self.consumers@.len();
            let ghost pre = self.consumers@;
            let (h, mut q) = self.consumers.remove(0);
            proof {
                assert(queues_view(pre) == v0.skip(processed));
                assert(self.consumers@ =~= pre.remove(0));
                assert(self.entries_view() =~= queues_view(pre).remove(0));
                assert(self.entries_view() =~= v0.skip(processed + 1));
                assert((h, q.deep_view()) == queues_view(pre)[0]);
                assert(v0.skip(processed)[0] == v0[processed]);
                assert((h, q.deep_view()) == v0[processed]);
                assert(h == pre[0].0);
                assert forall|j: int|
                    0 <= j < self.consumers@.len() implies (#[trigger] self.consumers@[j]).0
                    < self.next_handle by {
                    assert(self.consumers@[j] == pre[j + 1]);
                }
                assert forall|j: int|
                    0 <= j < self.consumers@.len() implies (#[trigger] self.consumers@[j]).1@.len()
                    <= cap by {
                    assert(self.consumers@[j] == pre[j + 1]);
                }
            }
            let ghost q0 = q.deep_view();
            if q.len() >= cap {
                let ghost qpre = q@;
                q.remove(0);
                proof {
                    assert(q@ =~= qpre.remove(0));
                    assert(q.deep_view() =~= q0.skip(1));
                }
            }
            let mut owned: Vec<u8> = Vec::new();
            owned.extend_from_slice(frame);
            assert(owned@ =~= frame@);
            let ghost q1 = q.deep_view();
            q.push(owned);
            proof {
                assert(owned.deep_view() =~= frame@);
                assert(q.deep_view() =~= q1.push(frame@));
                if q0.len() < cap {
                    assert(q.deep_view() =~= push_bounded(q0, frame@, cap as nat));
                } else {
                    assert(q0.len() == cap);
                    assert(q0.skip(q0.len() - cap as nat + 1) =~= q0.skip(1));
                    assert(q.deep_view() =~= push_bounded(q0, frame@, cap as nat));
                }
            }
            let ghost u_pre = updated@;
            updated.push((h, q));
            proof {
                assert forall|j: int|
                    0 <= j < updated@.len() implies (#[trigger] queues_view(updated@)[j]) == (
                    v0[j].0,
                    push_bounded(v0[j].1, frame@, cap as nat),
                ) by {
                    if j < u_pre.len() {
                        assert(updated@[j] == u_pre[j]);
                        assert(queues_view(updated@)[j] == queues_view(u_pre)[j]);
                    } else {
                        assert(updated@[j] == (h, q));
                    }
                }
            }
        }
        self.consumers = updated;
        proof {
            let t = self.entries_view();
            assert(t.len() == n0);
            assert forall|j: int| 0 <= j < n0 implies (#[trigger] t[j]).0 == v0[j].0 by {
                assert(t[j] == (v0[j].0, push_bounded(v0[j].1, frame@, cap as nat)));
            }
            lemma_map_of_same_keys(v0, t);
            assert(self@.dom() =~= old(self)@.dom());
            assert forall|h: u64| #[trigger]
                old(self)@.dom().contains(h) implies self@[h] == push_bounded(
                old(self)@[h],
                frame@,
                old(self).cap(),
            ) by {
                let i = index_of(v0, h);
                lemma_index_of(v0, h);
                assert(index_of(t, h) == i);
                assert(t[i] == (v0[i].0, push_bounded(v0[i].1, frame@, cap as nat)));
                lemma_map_of_index(v0, i);
            }
        }
    }

    /// Takes the oldest queued frame for consumer `h`, if any.
    pub fn recv(&mut self, h: u64) -> (r: Option<Vec<u8>>)
        requires
            old(self).wf(),
        ensures
            final(self).wf(),
            final(self).cap() == old(self).cap(),
            final(self).handles_used() == old(self).handles_used(),
            !old(self)@.dom().contains(h) ==> r is None && final(self)@ == old(self)@,
            old(self)@.dom().contains(h) && old(self)@[h].len() == 0 ==> r is None && final(self)@
                == old(self)@,
            old(self)@.dom().contains(h) && old(self)@[h].len() > 0 ==> {
                &&& r matches Some(f) && f@ == old(self)@[h][0]
                &&& final(self)@ == old(self)@.insert(h, old(self)@[h].drop_first())
            },
    {
        let ghost v0 = self.entries_view();
        match self.find(h) {
            None => None,
            Some(i) => {
                proof {
                    assert(v0[i as int].0 == h);
                    lemma_map_of_index(v0, i as int);
                }
                if self.consumers[i].1.len() == 0 {
                    proof {
                        assert(old(self)@[h].len() == 0);
                    }
                    None
                } else {
                    proof {
                        lemma_map_of_remove(v0, i as int);
                    }
                    let (hh, mut q) = self.consumers.remove(i);
                    proof {
                        assert(self.entries_view() =~= v0.remove(i as int));
                        assert((hh, q.deep_view()) == v0[i as int]);
                    }
                    let ghost q0 = q.deep_view();
                    let ghost qpre = q@;
                    let f = q.remove(0);
                    proof {
                        assert(f == qpre[0]);
                        assert(f.deep_view() == q0[0]);
                        assert(q@ =~= qpre.remove(0));
                        assert(q.deep_view() =~= q0.drop_first());
                        lemma_map_of_push(self.entries_view(), h, q.deep_view());
                    }
                    let ghost v1 = self.entries_view();
                    self.consumers.push((hh, q));
                    proof {
                        assert(self.entries_view() =~= v1.push((h, q0.drop_first())));
                        assert(old(self)@.remove(h).insert(h, q0.drop_first()) =~= old(
                            self,
                        )@.insert(h, q0.drop_first()));
                        assert forall|j: int|
                            0 <= j < self.consumers@.len() implies (#[trigger] self.consumers@[j]).1@.len()
                            <= self.capacity && self.consumers@[j].0 < self.next_handle by {
                            if j < self.consumers@.len() - 1 {
                                let j2 = if j < i as int {
                                    j
                                } else {
                                    j + 1
                                };
                                assert(self.consumers@[j] == old(self).consumers@[j2]);
                            } else {
                                assert(qpre.len() <= self.capacity);
                            }
                        }
                        assert(f.deep_view() == f@);
                    }
                    Some(f)
                }
            },
        }
    }

    /// How many frames are queued for consumer `h`; zero when `h` is not
    /// subscribed.
    pub fn queue_len(&self, h: u64) -> (n: usize)
        requires
            self.wf(),
        ensures
            self@.dom().contains(h) ==> n == self@[h].len(),
            !self@.dom().contains(h) ==> n == 0,
    {
        match self.find(h) {
            Some(i) => {
                proof {
                    lemma_map_of_index(self.entries_view(), i as int);
                }
                self.consumers[i].1.len()
            },
            None => 0,
        }
    }
}

} // verus!
