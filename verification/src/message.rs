//! The message envelope carried on the wire, and the id generator that tags
//! fragmented payloads.

use vstd::prelude::*;

verus! {

/// Priority of a queued entry; a larger value dequeues first.
pub type Priority = u32;

/// Logical message id; chunks of one fragmented payload share one id.
pub type Id = u64;

/// The priority that plain sends use.
pub const PRIORITY_MIN: Priority = u32::MIN;

/// The priority that quick sends use; it overtakes any backlog of lower
/// priority.
pub const PRIORITY_MAX: Priority = u32::MAX;

/// The wire envelope. `total_chunks == 0` marks an unchunked message whose
/// `data` is the entire payload; otherwise this is chunk `chunk_index` of
/// `total_chunks` siblings sharing `id` and `priority`.
#[derive(Debug, Clone, PartialEq, Eq)]
pub struct Message {
    pub id: Id,
    pub priority: Priority,
    pub total_chunks: u32,
    pub chunk_index: u32,
    pub data: Option<Vec<u8>>,
}

/// The mathematical image of a [`Message`]: the same fields with the payload
/// as a sequence of bytes.
pub ghost struct MessageView {
    pub id: Id,
    pub priority: Priority,
    pub total_chunks: u32,
    pub chunk_index: u32,
    pub data: Option<Seq<u8>>,
}

impl View for Message {
    type V = MessageView;

    open spec fn view(&self) -> MessageView {
        MessageView {
            id: self.id,
            priority: self.priority,
            total_chunks: self.total_chunks,
            chunk_index: self.chunk_index,
            data: match self.data {
                Some(d) => Some(d@),
                None => None,
            },
        }
    }
}

impl MessageView {
    /// Envelope invariant: an unchunked message has chunk index 0; a chunk's
    /// index lies below its sibling count.
    pub open spec fn wf(self) -> bool {
        &&& self.total_chunks == 0 ==> self.chunk_index == 0
        &&& self.total_chunks > 0 ==> self.chunk_index < self.total_chunks
    }

    /// The bytes this envelope carries; an absent payload counts as empty.
    pub open spec fn payload(self) -> Seq<u8> {
        match self.data {
            Some(d) => d,
            None => Seq::empty(),
        }
    }
}

impl Message {
    /// Builds an unchunked envelope carrying `data` whole.
    pub fn unchunked(id: Id, priority: Priority, data: Vec<u8>) -> (m: Message)
        ensures
            m@ == (MessageView {
                id,
                priority,
                total_chunks: 0,
                chunk_index: 0,
                data: Some(data@),
            }),
            m@.wf(),
    {
        Message { id, priority, total_chunks: 0, chunk_index: 0, data: Some(data) }
    }

    /// Takes the carried bytes out of the envelope; an absent payload yields
    /// an empty buffer.
    pub fn take_payload(self) -> (d: Vec<u8>)
        ensures
            d@ == self@.payload(),
    {
        match self.data {
            Some(d) => d,
            None => Vec::new(),
        }
    }
}

/// Source of message ids. Ids are strictly increasing across calls on one
/// generator, so they distinguish concurrently in-flight fragmented payloads;
/// uniqueness across process restarts is not promised. The process-wide
/// sharing of one generator is the embedding's concern: it holds a single
/// generator behind its lock and lends it to every send call site.
pub struct IdGen {
    counter: u64,
}

impl IdGen {
    /// The next id this generator will hand out.
    pub closed spec fn view(&self) -> u64 {
        self.counter
    }

    /// A fresh generator; the first id handed out is 1.
    pub fn new() -> (g: IdGen)
        ensures
            g@ == 1,
    {
        IdGen { counter: 1 }
    }

    /// Hands out the next id and advances the counter, so successive calls
    /// return strictly increasing ids.
    pub fn next_id(&mut self) -> (id: Id)
        requires
            old(self)@ < u64::MAX,
        ensures
            id == old(self)@,
            final(self)@ == old(self)@ + 1,
            id < final(self)@,
    {
        let id = self.counter;
        self.counter = self.counter + 1;
        id
    }
}

} // verus!
