//! The priority-ordered queue under the mailbox: entries leave
//! max-priority-first, and entries of equal priority leave in the order they
//! arrived. The queue itself is unbounded; the mailbox enforces its soft
//! capacity, and the embedding serialises access (one lock shared by all
//! producers and the single consumer).

use vstd::prelude::*;

use crate::message::Message;
use crate::message::MessageView;
use crate::message::Priority;

verus! {

/// An entry as the specification sees it: a priority and the message's image.
pub type EntryView = (Priority, MessageView);

/// The queue's entries stand sorted by non-increasing priority, so the next
/// entry to leave is always at the front.
pub open spec fn sorted_by_priority(s: Seq<EntryView>) -> bool {
    forall|i: int, j: int| 0 <= i <= j < s.len() ==> (#[trigger] s[i]).0 >= (#[trigger] s[j]).0
}

/// Where a new entry of priority `p` lands: directly behind every entry whose
/// priority is at least `p`, and ahead of every strictly smaller one. Entries
/// of equal priority therefore keep their arrival order.
pub open spec fn insert_pos(s: Seq<EntryView>, p: Priority) -> nat
    decreases s.len(),
{
    if s.len() == 0 {
        0
    } else if s[0].0 >= p {
        1 + insert_pos(s.drop_first(), p)
    } else {
        0
    }
}

/// The queue one entry later.
pub open spec fn spec_enqueue(s: Seq<EntryView>, p: Priority, m: MessageView) -> Seq<EntryView> {
    s.insert(insert_pos(s, p) as int, (p, m))
}

/// The queue after a run of messages, all of priority `p`, arrive in order.
pub open spec fn spec_enqueue_all(
    s: Seq<EntryView>,
    p: Priority,
    ms: Seq<MessageView>,
) -> Seq<EntryView>
    decreases ms.len(),
{
    if ms.len() == 0 {
        s
    } else {
        spec_enqueue_all(spec_enqueue(s, p, ms[0]), p, ms.drop_first())
    }
}

/// A queue of `(priority, message)` entries that pops max-priority-first and
/// first-in-first-out among entries of equal priority.
pub struct PriorityQueue {
    entries: Vec<(Priority, Message)>,
}

impl View for PriorityQueue {
    type V = Seq<EntryView>;

    closed spec fn view(&self) -> Seq<EntryView> {
        self.entries@.map_values(|e: (Priority, Message)| (e.0, e.1@))
    }
}

impl PriorityQueue {
    /// Queue invariant: the stored order is the departure order.
    pub open spec fn wf(&self) -> bool {
        sorted_by_priority(self@)
    }

    /// An empty queue.
    pub fn new() -> (q: PriorityQueue)
        ensures
            q@ == Seq::<EntryView>::empty(),
            q.wf(),
    {
        let q = PriorityQueue { entries: Vec::new() };
        proof {
            assert(q@ =~= Seq::<EntryView>::empty());
        }
        q
    }

    /// How many entries are queued.
    pub fn len(&self) -> (n: usize)
        ensures
            n == self@.len(),
    {
        self.entries.len()
    }

    /// Whether the queue is empty.
    pub fn is_empty(&self) -> (b: bool)
        ensures
            b == (self@.len() == 0),
    {
        self.entries.is_empty()
    }

    /// Places `m` behind every queued entry whose priority is at least `p`
    /// and ahead of every strictly smaller one, so a higher-priority arrival
    /// overtakes an older lower-priority backlog while equal priorities keep
    /// their arrival order.
    pub fn enqueue(&mut self, p: Priority, m: Message)
        requires
            old(self).wf(),
            old(self)@.len() < usize::MAX,
        ensures
            final(self).wf(),
            final(self)@ == spec_enqueue(old(self)@, p, m@),
    {
        let n = self.entries.len();
        let mut i: usize = 0;
        while i < n && self.entries[i].0 >= p
            invariant
                self == old(self),
                n == self.entries@.len(),
                i <= n,
                forall|j: int| 0 <= j < i ==> (#[trigger] self@[j]).0 >= p,
            decreases n - i,
        {
            i = i + 1;
        }
        proof {
            if i < n {
                assert(self@[i as int].0 < p);
            }
            lemma_insert_pos_end(self@, p, i as nat);
        }
        let ghost prev = self@;
        self.entries.insert(i, (p, m));
        proof {
            assert(self@ =~= prev.insert(i as int, (p, m@)));
            lemma_enqueue_sorted(prev, p, m@);
        }
    }

    /// Removes and returns the front entry: the oldest among those of maximal
    /// priority. Returns nothing exactly when the queue is empty.
    pub fn dequeue(&mut self) -> (r: Option<(Priority, Message)>)
        requires
            old(self).wf(),
        ensures
            final(self).wf(),
            match r {
                Some(e) => {
                    &&& old(self)@.len() > 0
                    &&& (e.0, e.1@) == old(self)@[0]
                    &&& final(self)@ == old(self)@.drop_first()
                    &&& forall|j: int| 0 <= j < old(self)@.len() ==> e.0 >= (#[trigger] old(
                        self,
                    )@[j]).0
                },
                None => {
                    &&& old(self)@.len() == 0
                    &&& final(self)@ == old(self)@
                },
            },
    {
        if self.entries.is_empty() {
            proof {
                assert(self@ =~= old(self)@);
            }
            None
        } else {
            let ghost prev = self@;
            let e = self.entries.remove(0);
            proof {
                assert(self@ =~= prev.drop_first());
            }
            Some(e)
        }
    }
}

/// Where a scan stops — at the first entry below `p`, or at the end — is
/// exactly `insert_pos`.
proof fn lemma_insert_pos_end(s: Seq<EntryView>, p: Priority, i: nat)
    requires
        i <= s.len(),
        forall|j: int| 0 <= j < i ==> (#[trigger] s[j]).0 >= p,
        i < s.len() ==> s[i as int].0 < p,
    ensures
        insert_pos(s, p) == i,
    decreases i,
{
    if i == 0 {
        if s.len() > 0 && s[0].0 >= p {
            assert(false);
        }
    } else {
        assert(s[0].0 >= p);
        let t = s.drop_first();
        assert forall|j: int| 0 <= j < i - 1 implies (#[trigger] t[j]).0 >= p by {
            assert(t[j] == s[j + 1]);
        }
        if i < s.len() {
            assert(t[i - 1] == s[i as int]);
        }
        lemma_insert_pos_end(t, p, (i - 1) as nat);
    }
}

/// Inserting at `insert_pos` keeps the queue sorted by non-increasing
/// priority.
proof fn lemma_enqueue_sorted(s: Seq<EntryView>, p: Priority, m: MessageView)
    requires
        sorted_by_priority(s),
    ensures
        sorted_by_priority(spec_enqueue(s, p, m)),
{
    let pos = insert_pos(s, p) as int;
    lemma_insert_pos_bounds(s, p);
    let t = spec_enqueue(s, p, m);
    assert forall|i: int, j: int| 0 <= i <= j < t.len() implies (#[trigger] t[i]).0
        >= (#[trigger] t[j]).0 by {
        if i < pos {
            assert(t[i] == s[i]);
        }
        if j < pos {
            assert(t[j] == s[j]);
        }
        if i > pos {
            assert(t[i] == s[i - 1]);
        }
        if j > pos {
            assert(t[j] == s[j - 1]);
        }
    }
}

/// A run of arrivals keeps the queue sorted.
pub proof fn lemma_enqueue_all_sorted(s: Seq<EntryView>, p: Priority, ms: Seq<MessageView>)
    requires
        sorted_by_priority(s),
    ensures
        sorted_by_priority(spec_enqueue_all(s, p, ms)),
    decreases ms.len(),
{
    if ms.len() > 0 {
        lemma_enqueue_sorted(s, p, ms[0]);
        lemma_enqueue_all_sorted(spec_enqueue(s, p, ms[0]), p, ms.drop_first());
    }
}

/// Extending a run of arrivals by one more message enqueues that message into
/// the queue the shorter run left behind.
pub proof fn lemma_enqueue_all_step(s: Seq<EntryView>, p: Priority, ms: Seq<MessageView>, k: int)
    requires
        0 <= k < ms.len(),
    ensures
        spec_enqueue_all(s, p, ms.take(k + 1)) == spec_enqueue(
            spec_enqueue_all(s, p, ms.take(k)),
            p,
            ms[k],
        ),
    decreases k,
{
    if k == 0 {
        assert(ms.take(1).drop_first() =~= Seq::<MessageView>::empty());
        assert(ms.take(0) =~= Seq::<MessageView>::empty());
        assert(ms.take(1)[0] == ms[0]);
        assert(spec_enqueue_all(s, p, ms.take(0)) == s);
        assert(spec_enqueue_all(s, p, ms.take(1)) == spec_enqueue_all(
            spec_enqueue(s, p, ms[0]),
            p,
            Seq::<MessageView>::empty(),
        ));
        assert(spec_enqueue_all(spec_enqueue(s, p, ms[0]), p, Seq::<MessageView>::empty())
            == spec_enqueue(s, p, ms[0]));
    } else {
        let s1 = spec_enqueue(s, p, ms[0]);
        let t = ms.drop_first();
        lemma_enqueue_all_step(s1, p, t, k - 1);
        assert(ms.take(k + 1).drop_first() =~= t.take(k));
        assert(ms.take(k).drop_first() =~= t.take(k - 1));
        assert(ms.take(k + 1)[0] == ms[0]);
        assert(ms.take(k)[0] == ms[0]);
        assert(t[k - 1] == ms[k]);
        assert(spec_enqueue_all(s, p, ms.take(k + 1)) == spec_enqueue_all(s1, p, t.take(k)));
        assert(spec_enqueue_all(s, p, ms.take(k)) == spec_enqueue_all(s1, p, t.take(k - 1)));
    }
}

/// Priority ordering: with no concurrent dequeue, the entries of a
/// well-formed queue leave in non-increasing priority order — the entry at
/// position `i` never has a smaller priority than any entry behind it.
pub proof fn lemma_dequeue_order(q: &PriorityQueue)
    requires
        q.wf(),
    ensures
        forall|i: int, j: int| 0 <= i <= j < q@.len() ==> (#[trigger] q@[i]).0 >= (
        #[trigger] q@[j]).0,
{
}

/// First-in-first-out among equal priorities: an arriving entry of priority
/// `p` lands behind every queued entry of priority at least `p` — in
/// particular behind its own earlier equals — and ahead of every strictly
/// smaller one.
pub proof fn lemma_equal_priority_fifo(s: Seq<EntryView>, p: Priority, m: MessageView)
    requires
        sorted_by_priority(s),
    ensures
        spec_enqueue(s, p, m).len() == s.len() + 1,
        spec_enqueue(s, p, m)[insert_pos(s, p) as int] == (p, m),
        forall|j: int|
            0 <= j < insert_pos(s, p) ==> (#[trigger] spec_enqueue(s, p, m)[j]) == s[j] && s[j].0
                >= p,
        forall|j: int|
            insert_pos(s, p) < j < s.len() + 1 ==> (#[trigger] spec_enqueue(s, p, m)[j]) == s[j
                - 1] && s[j - 1].0 < p,
{
    let pos = insert_pos(s, p) as int;
    lemma_insert_pos_bounds(s, p);
    assert forall|j: int| pos < j < s.len() + 1 implies (#[trigger] spec_enqueue(s, p, m)[j])
        == s[j - 1] && s[j - 1].0 < p by {
        assert(s[pos].0 < p);
        assert(s[pos].0 >= s[j - 1].0);
    }
}

/// Preemption: an entry whose priority exceeds that of everything queued —
/// as a quick send's maximal priority exceeds any default-priority backlog —
/// lands at the front and is the next to leave.
pub proof fn lemma_preemption(s: Seq<EntryView>, p: Priority, m: MessageView)
    requires
        forall|j: int| 0 <= j < s.len() ==> (#[trigger] s[j]).0 < p,
    ensures
        insert_pos(s, p) == 0,
        spec_enqueue(s, p, m)[0] == (p, m),
{
    if s.len() > 0 {
        assert(s[0].0 < p);
    }
}

/// `insert_pos` lies within the queue, every entry ahead of it has priority
/// at least `p`, and the entry standing at it, if any, has priority below
/// `p`.
pub proof fn lemma_insert_pos_bounds(s: Seq<EntryView>, p: Priority)
    ensures
        insert_pos(s, p) <= s.len(),
        forall|j: int| 0 <= j < insert_pos(s, p) ==> (#[trigger] s[j]).0 >= p,
        insert_pos(s, p) < s.len() ==> s[insert_pos(s, p) as int].0 < p,
    decreases s.len(),
{
    if s.len() > 0 {
        let t = s.drop_first();
        lemma_insert_pos_bounds(t, p);
        if s[0].0 >= p {
            assert forall|j: int| 0 <= j < insert_pos(s, p) implies (#[trigger] s[j]).0 >= p by {
                if j > 0 {
                    assert(t[j - 1] == s[j]);
                }
            }
            if insert_pos(s, p) < s.len() {
                assert(t[insert_pos(t, p) as int] == s[insert_pos(s, p) as int]);
            }
        }
    }
}

} // verus!
