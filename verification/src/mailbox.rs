//! The producer-facing mailbox: priority-ordered, soft-capacity-bounded,
//! chunk-aware payload submission. A payload larger than the chunk size is
//! fragmented first and its chunks enqueued one at a time.
//!
//! One mailbox embodies the sender side, the shared queue and the consumer
//! side of the channel; the embedding shares it behind one exclusive lock
//! among all producers and the single consumer, and suspends a blocking
//! sender between enqueues while the queue is at capacity.

use vstd::prelude::*;

use crate::chunk::fragment;
use crate::chunk::spec_chunk_count;
use crate::chunk::spec_fragment;
use crate::chunk::views_of;
use crate::message::IdGen;
use crate::message::Message;
use crate::message::MessageView;
use crate::message::Priority;
use crate::message::PRIORITY_MAX;
use crate::message::PRIORITY_MIN;
use crate::queue::lemma_enqueue_all_sorted;
use crate::queue::lemma_enqueue_all_step;
use crate::queue::sorted_by_priority;
use crate::queue::spec_enqueue_all;
use crate::queue::EntryView;
use crate::queue::PriorityQueue;

verus! {

/// Why a send failed. `Full` returns the caller's unsent bytes for a
/// retry-or-drop decision; `Disconnected` means the consumer side is gone,
/// which no retry on this mailbox can mend.
#[derive(Debug, Clone, PartialEq, Eq)]
pub enum SendError {
    /// Capacity exhausted; carries the bytes that were not enqueued.
    Full(Vec<u8>),
    /// The consumer side is gone; carries the failing bytes when known.
    Disconnected(Option<Vec<u8>>),
}

impl SendError {
    /// Whether this is the capacity failure.
    pub fn is_full(&self) -> (b: bool)
        ensures
            b == (self matches SendError::Full(_)),
    {
        match self {
            SendError::Full(_) => true,
            SendError::Disconnected(_) => false,
        }
    }

    /// Whether the consumer side is gone.
    pub fn is_disconnected(&self) -> (b: bool)
        ensures
            b == (self matches SendError::Disconnected(_)),
    {
        match self {
            SendError::Full(_) => false,
            SendError::Disconnected(_) => true,
        }
    }

    /// The unsent bytes this failure carries, if any.
    pub fn into_inner(self) -> (d: Option<Vec<u8>>)
        ensures
            match self {
                SendError::Full(b) => d == Some(b),
                SendError::Disconnected(b) => d == b,
            },
    {
        match self {
            SendError::Full(b) => Some(b),
            SendError::Disconnected(b) => b,
        }
    }
}

/// How many envelopes a payload of `len` bytes submits at chunk size `c`:
/// one when it rides whole, its chunk count otherwise.
pub open spec fn spec_envelope_count(len: nat, c: nat) -> nat {
    if len <= c {
        1
    } else {
        spec_chunk_count(len, c)
    }
}

/// The producer-facing handle: the priority queue, the consumer-liveness
/// flag, the soft capacity, the configured chunk size, and the id source for
/// fragmentation.
pub struct Mailbox {
    queue: PriorityQueue,
    closed: bool,
    queue_cap: usize,
    chunk_size: usize,
    ids: IdGen,
}

impl Mailbox {
    /// The queued entries, front first.
    pub closed spec fn queue_view(&self) -> Seq<EntryView> {
        self.queue@
    }

    /// Whether the consumer side is gone.
    pub closed spec fn spec_closed(&self) -> bool {
        self.closed
    }

    /// The soft capacity.
    pub closed spec fn spec_cap(&self) -> nat {
        self.queue_cap as nat
    }

    /// The configured chunk size.
    pub closed spec fn spec_chunk_size(&self) -> nat {
        self.chunk_size as nat
    }

    /// The next id the mailbox's id source hands out.
    pub closed spec fn spec_ids(&self) -> u64 {
        self.ids@
    }

    /// Mailbox invariant: the queue is well formed and the chunk size is
    /// positive.
    pub open spec fn wf(&self) -> bool {
        &&& sorted_by_priority(self.queue_view())
        &&& self.spec_chunk_size() >= 1
    }

    /// The configuration that a send leaves untouched.
    pub open spec fn same_config(pre: &Mailbox, post: &Mailbox) -> bool {
        &&& post.spec_cap() == pre.spec_cap()
        &&& post.spec_chunk_size() == pre.spec_chunk_size()
        &&& post.spec_closed() == pre.spec_closed()
    }

    /// A fresh mailbox over an empty queue of the given soft capacity.
    pub fn new(queue_cap: usize, chunk_size: usize) -> (mb: Mailbox)
        requires
            chunk_size >= 1,
        ensures
            mb.wf(),
            mb.queue_view() == Seq::<EntryView>::empty(),
            !mb.spec_closed(),
            mb.spec_cap() == queue_cap,
            mb.spec_chunk_size() == chunk_size,
            mb.spec_ids() == 1,
    {
        Mailbox {
            queue: PriorityQueue::new(),
            closed: false,
            queue_cap,
            chunk_size,
            ids: IdGen::new(),
        }
    }

    /// Current depth of the shared queue — advisory under concurrency, read
    /// for diagnostics and the soft-capacity check.
    pub fn queue_len(&self) -> (n: usize)
        ensures
            n == self.queue_view().len(),
    {
        self.queue.len()
    }

    /// Whether the consumer side is gone.
    pub fn is_closed(&self) -> (b: bool)
        ensures
            b == self.spec_closed(),
    {
        self.closed
    }

    /// Marks the consumer side gone: every later send fails `Disconnected`.
    pub fn close(&mut self)
        ensures
            final(self).spec_closed(),
            final(self).queue_view() == old(self).queue_view(),
            final(self).spec_cap() == old(self).spec_cap(),
            final(self).spec_chunk_size() == old(self).spec_chunk_size(),
            final(self).spec_ids() == old(self).spec_ids(),
            old(self).wf() ==> final(self).wf(),
    {
        self.closed = true;
    }

    /// The consumer side: removes the oldest entry of maximal priority and
    /// hands out its envelope, the priority stripped. Returns nothing exactly
    /// when the queue is drained.
    pub fn recv(&mut self) -> (r: Option<Message>)
        requires
            old(self).wf(),
        ensures
            final(self).wf(),
            Mailbox::same_config(old(self), final(self)),
            final(self).spec_ids() == old(self).spec_ids(),
            match r {
                Some(m) => {
                    &&& old(self).queue_view().len() > 0
                    &&& m@ == old(self).queue_view()[0].1
                    &&& final(self).queue_view() == old(self).queue_view().drop_first()
                },
                None => {
                    &&& old(self).queue_view().len() == 0
                    &&& final(self).queue_view() == old(self).queue_view()
                },
            },
    {
        match self.queue.dequeue() {
            Some((_, m)) => Some(m),
            None => None,
        }
    }

    /// What a completed send leaves behind and returns. `pre` and `post` are
    /// the mailbox around the call, `data` the payload, `p` its priority,
    /// `blocking` whether the call was the suspending one (which ignores the
    /// soft capacity; the embedding suspends it between enqueues instead),
    /// and `r` what the call returned.
    pub open spec fn send_outcome(
        pre: Mailbox,
        post: Mailbox,
        data: Seq<u8>,
        p: Priority,
        blocking: bool,
        r: Result<(), SendError>,
    ) -> bool {
        let frag = spec_fragment(data, p, pre.spec_chunk_size(), pre.spec_ids());
        let n = frag.len() as int;
        let room = pre.spec_cap() - pre.queue_view().len();
        let rejected = !blocking && pre.queue_view().len() >= pre.spec_cap();
        &&& Mailbox::same_config(&pre, &post)
        &&& r is Ok <==> (!rejected && !pre.spec_closed() && (blocking || n <= room))
        &&& (rejected ==> {
            &&& r matches Err(SendError::Full(d)) && d@ == data
            &&& post.queue_view() == pre.queue_view()
            &&& post.spec_ids() == pre.spec_ids()
        })
        &&& (!rejected ==> post.spec_ids() == pre.spec_ids() + 1)
        &&& (!rejected && pre.spec_closed() ==> {
            &&& r matches Err(SendError::Disconnected(d)) && d matches Some(b) && b@
                == frag[0].payload()
            &&& post.queue_view() == pre.queue_view()
        })
        &&& (!rejected && !pre.spec_closed() && (blocking || n <= room) ==> post.queue_view()
            == spec_enqueue_all(pre.queue_view(), p, frag))
        &&& (!rejected && !pre.spec_closed() && !blocking && n > room ==> {
            &&& r matches Err(SendError::Full(d)) && d@ == frag[room].payload()
            &&& post.queue_view() == spec_enqueue_all(pre.queue_view(), p, frag.take(room))
        })
    }

    /// The non-blocking send: fails `Full` at once, returning the whole
    /// payload, when the observed queue depth has reached the soft capacity;
    /// otherwise fragments the payload and enqueues the pieces one at a time.
    /// When the queue fills partway through, the error carries only the
    /// currently failing chunk's bytes — earlier chunks stay enqueued.
    pub fn try_send_priority(&mut self, data: Vec<u8>, p: Priority) -> (r: Result<(), SendError>)
        requires
            old(self).wf(),
            old(self).spec_ids() < u64::MAX,
            spec_chunk_count(data@.len(), old(self).spec_chunk_size()) <= u32::MAX,
        ensures
            final(self).wf(),
            Mailbox::send_outcome(*old(self), *final(self), data@, p, false, r),
    {
        if self.queue.len() >= self.queue_cap {
            return Err(SendError::Full(data));
        }
        self.send_pieces(data, p, false)
    }

    /// The non-blocking send at minimal priority.
    pub fn try_send(&mut self, data: Vec<u8>) -> (r: Result<(), SendError>)
        requires
            old(self).wf(),
            old(self).spec_ids() < u64::MAX,
            spec_chunk_count(data@.len(), old(self).spec_chunk_size()) <= u32::MAX,
        ensures
            final(self).wf(),
            Mailbox::send_outcome(*old(self), *final(self), data@, PRIORITY_MIN, false, r),
    {
        self.try_send_priority(data, PRIORITY_MIN)
    }

    /// The non-blocking send at maximal priority: what it enqueues overtakes
    /// any backlog of lower priority.
    pub fn quick_try_send(&mut self, data: Vec<u8>) -> (r: Result<(), SendError>)
        requires
            old(self).wf(),
            old(self).spec_ids() < u64::MAX,
            spec_chunk_count(data@.len(), old(self).spec_chunk_size()) <= u32::MAX,
        ensures
            final(self).wf(),
            Mailbox::send_outcome(*old(self), *final(self), data@, PRIORITY_MAX, false, r),
    {
        self.try_send_priority(data, PRIORITY_MAX)
    }

    /// The blocking send: fragments the payload and enqueues every piece,
    /// whatever the queue's depth. In the concurrent embedding the caller is
    /// suspended before each enqueue while the queue is at capacity, so the
    /// soft bound is kept by suspension, not by failure; this contract
    /// describes the completed call. It fails only when the consumer side is
    /// gone.
    pub fn send_priority(&mut self, data: Vec<u8>, p: Priority) -> (r: Result<(), SendError>)
        requires
            old(self).wf(),
            old(self).spec_ids() < u64::MAX,
            spec_chunk_count(data@.len(), old(self).spec_chunk_size()) <= u32::MAX,
            old(self).queue_view().len() + spec_envelope_count(
                data@.len(),
                old(self).spec_chunk_size(),
            ) <= usize::MAX,
        ensures
            final(self).wf(),
            Mailbox::send_outcome(*old(self), *final(self), data@, p, true, r),
    {
        self.send_pieces(data, p, true)
    }

    /// The blocking send at minimal priority.
    pub fn send(&mut self, data: Vec<u8>) -> (r: Result<(), SendError>)
        requires
            old(self).wf(),
            old(self).spec_ids() < u64::MAX,
            spec_chunk_count(data@.len(), old(self).spec_chunk_size()) <= u32::MAX,
            old(self).queue_view().len() + spec_envelope_count(
                data@.len(),
                old(self).spec_chunk_size(),
            ) <= usize::MAX,
        ensures
            final(self).wf(),
            Mailbox::send_outcome(*old(self), *final(self), data@, PRIORITY_MIN, true, r),
    {
        self.send_priority(data, PRIORITY_MIN)
    }

    /// The blocking send at maximal priority.
    pub fn quick_send(&mut self, data: Vec<u8>) -> (r: Result<(), SendError>)
        requires
            old(self).wf(),
            old(self).spec_ids() < u64::MAX,
            spec_chunk_count(data@.len(), old(self).spec_chunk_size()) <= u32::MAX,
            old(self).queue_view().len() + spec_envelope_count(
                data@.len(),
                old(self).spec_chunk_size(),
            ) <= usize::MAX,
        ensures
            final(self).wf(),
            Mailbox::send_outcome(*old(self), *final(self), data@, PRIORITY_MAX, true, r),
    {
        self.send_priority(data, PRIORITY_MAX)
    }

    /// Preemption: a payload sent at maximal priority while everything
    /// queued sits below it — as a quick send over a default-priority
    /// backlog — lands at the queue's front and is the next the consumer
    /// takes, however long the backlog.
    pub proof fn lemma_quick_send_preempts(
        pre: Mailbox,
        post: Mailbox,
        data: Seq<u8>,
        blocking: bool,
        r: Result<(), SendError>,
    )
        requires
            pre.wf(),
            !pre.spec_closed(),
            data.len() <= pre.spec_chunk_size(),
            blocking || pre.queue_view().len() + 1 <= pre.spec_cap(),
            forall|j: int|
                0 <= j < pre.queue_view().len() ==> (#[trigger] pre.queue_view()[j]).0
                    < PRIORITY_MAX,
            Mailbox::send_outcome(pre, post, data, PRIORITY_MAX, blocking, r),
        ensures
            r is Ok,
            post.queue_view().len() == pre.queue_view().len() + 1,
            post.queue_view()[0].0 == PRIORITY_MAX,
            post.queue_view()[0].1.payload() == data,
            forall|j: int|
                0 <= j < pre.queue_view().len() ==> post.queue_view()[j + 1]
                    == #[trigger] pre.queue_view()[j],
    {
        let frag = spec_fragment(data, PRIORITY_MAX, pre.spec_chunk_size(), pre.spec_ids());
        let m = frag[0];
        let q = pre.queue_view();
        assert(frag.drop_first() =~= Seq::<MessageView>::empty());
        assert(spec_enqueue_all(q, PRIORITY_MAX, frag) == spec_enqueue_all(
            crate::queue::spec_enqueue(q, PRIORITY_MAX, m),
            PRIORITY_MAX,
            Seq::<MessageView>::empty(),
        ));
        crate::queue::lemma_preemption(q, PRIORITY_MAX, m);
        crate::queue::lemma_insert_pos_bounds(q, PRIORITY_MAX);
        assert forall|j: int| 0 <= j < q.len() implies post.queue_view()[j + 1] == #[trigger] q[j]
        by {
            assert(q.insert(0, (PRIORITY_MAX, m))[j + 1] == q[j]);
        }
    }

    /// Fragments the payload and enqueues the pieces in index order. The
    /// non-blocking flavour gives up with `Full` on the piece that finds the
    /// queue at capacity; the blocking flavour enqueues them all.
    fn send_pieces(&mut self, data: Vec<u8>, p: Priority, blocking: bool) -> (r: Result<
        (),
        SendError,
    >)
        requires
            old(self).wf(),
            old(self).spec_ids() < u64::MAX,
            spec_chunk_count(data@.len(), old(self).spec_chunk_size()) <= u32::MAX,
            !blocking ==> old(self).queue_view().len() < old(self).spec_cap(),
            blocking ==> old(self).queue_view().len() + spec_envelope_count(
                data@.len(),
                old(self).spec_chunk_size(),
            ) <= usize::MAX,
        ensures
            final(self).wf(),
            Mailbox::same_config(old(self), final(self)),
            final(self).spec_ids() == old(self).spec_ids() + 1,
            ({
                let frag = spec_fragment(data@, p, old(self).spec_chunk_size(), old(self).spec_ids());
                let n = frag.len() as int;
                let room = old(self).spec_cap() - old(self).queue_view().len();
                &&& r is Ok <==> (!old(self).spec_closed() && (blocking || n <= room))
                &&& (old(self).spec_closed() ==> {
                    &&& r matches Err(SendError::Disconnected(d)) && d matches Some(b) && b@
                        == frag[0].payload()
                    &&& final(self).queue_view() == old(self).queue_view()
                })
                &&& (!old(self).spec_closed() && (blocking || n <= room)
                    ==> final(self).queue_view() == spec_enqueue_all(
                        old(self).queue_view(),
                        p,
                        frag,
                    ))
                &&& (!old(self).spec_closed() && !blocking && n > room ==> {
                    &&& r matches Err(SendError::Full(d)) && d@ == frag[room].payload()
                    &&& final(self).queue_view() == spec_enqueue_all(
                        old(self).queue_view(),
                        p,
                        frag.take(room),
                    )
                })
            }),
    {
        let ghost pre = *old(self);
        let ghost d = data@;
        let ghost frag = spec_fragment(d, p, pre.spec_chunk_size(), pre.spec_ids());
        let mut msgs = fragment(data, p, self.chunk_size, &mut self.ids);
        proof {
            crate::chunk::lemma_count_bounds(d.len(), pre.spec_chunk_size());
            assert(frag.len() >= 1);
            assert(frag.skip(0) =~= frag);
            assert(frag.take(0) =~= Seq::<MessageView>::empty());
        }
        if self.closed {
            let first = msgs.remove(0);
            proof {
                assert(first@ == frag[0]);
            }
            let bytes = first.take_payload();
            return Err(SendError::Disconnected(Some(bytes)));
        }
        let total = msgs.len();
        let mut k: usize = 0;
        while k < total
            invariant
                pre == *old(self),
                frag == spec_fragment(data@, p, pre.spec_chunk_size(), pre.spec_ids()),
                self.wf(),
                Mailbox::same_config(&pre, self),
                !self.spec_closed(),
                !pre.spec_closed(),
                sorted_by_priority(pre.queue_view()),
                self.spec_ids() == pre.spec_ids() + 1,
                total == frag.len(),
                msgs@.len() == total - k,
                k <= total,
                views_of(msgs@) == frag.skip(k as int),
                self.queue_view() == spec_enqueue_all(pre.queue_view(), p, frag.take(k as int)),
                self.queue_view().len() == pre.queue_view().len() + k,
                !blocking ==> pre.queue_view().len() + k <= pre.spec_cap(),
                blocking ==> pre.queue_view().len() + total <= usize::MAX,
            decreases total - k,
        {
            let ghost before = msgs@;
            let m = msgs.remove(0);
            proof {
                assert(m@ == frag.skip(k as int)[0]);
                assert(m@ == frag[k as int]);
                assert forall|j: int| 0 <= j < msgs@.len() implies views_of(msgs@)[j] == frag.skip(
                    k as int + 1,
                )[j] by {
                    assert(msgs@[j] == before[j + 1]);
                    assert(views_of(before)[j + 1] == before[j + 1]@);
                }
                assert(views_of(msgs@) =~= frag.skip(k as int + 1));
            }
            if !blocking && self.queue.len() >= self.queue_cap {
                let bytes = m.take_payload();
                return Err(SendError::Full(bytes));
            }
            proof {
                lemma_enqueue_all_step(pre.queue_view(), p, frag, k as int);
                crate::queue::lemma_insert_pos_bounds(self.queue_view(), p);
            }
            self.queue.enqueue(p, m);
            k = k + 1;
        }
        proof {
            assert(frag.take(total as int) =~= frag);
        }
        Ok(())
    }
}

} // verus!
