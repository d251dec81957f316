//! A queue that holds ready messages in a rotating pool of arenas and defers
//! messages whose availability time lies ahead of the clock. The clock is
//! read by the caller and handed in.
use crate::memory_storage::RotatingReadBuffers;
use crate::normalised_message::{MmqpNormalisedMessage, NormalisedView};
use crate::serialiser::{frame, frame_value, lemma_storage_frame, MmqpSerialisable, SerialisationStrategy};
use vstd::prelude::*;

verus! {

/// Where a read takes a due deferred message from.
#[derive(Debug, Clone, Copy, PartialEq, Eq, Structural)]
pub enum PendingMode {
    /// A read takes a due deferred message first, before the ready ones.
    Read,
    /// A read first moves every due deferred message to the end of the ready
    /// messages, then takes the oldest ready one.
    Push,
}

/// The message that a storage frame holds.
pub open spec fn stored_message(f: Seq<u8>) -> NormalisedView {
    match frame_value::<MmqpNormalisedMessage>(f) {
        Some(m) => m,
        None => arbitrary(),
    }
}

/// A message as a read hands it out: its count of deliveries is one more,
/// up to the largest count.
pub open spec fn delivered(m: NormalisedView) -> NormalisedView {
    NormalisedView {
        receive_count: if m.receive_count < u32::MAX {
            (m.receive_count + 1) as u32
        } else {
            m.receive_count
        },
        ..m
    }
}

/// How many messages at the front of `p` are due at `now`.
pub open spec fn due_count(p: Seq<NormalisedView>, now: u128) -> nat
    decreases p.len(),
{
    if p.len() > 0 && p[0].available_time <= now {
        1 + due_count(p.drop_first(), now)
    } else {
        0
    }
}

/// Ordered by availability time.
pub open spec fn sorted_by_time(p: Seq<NormalisedView>) -> bool {
    forall|i: int, j: int| 0 <= i < j < p.len() ==> p[i].available_time <= p[j].available_time
}

pub open spec fn later_of(a: u128, b: u128) -> u128 {
    if a > b {
        a
    } else {
        b
    }
}

pub struct Queue {
    queue_name: String,
    approximate_message_count: u64,
    pending_message_count: u64,
    pending_mode: PendingMode,
    readers: RotatingReadBuffers<MmqpNormalisedMessage>,
    /// Deferred messages by availability time; equal times keep their order of
    /// arrival. A sorted `Vec` rather than a map from time to a bucket: reads
    /// take one message at a time from the front, and the rest of its bucket
    /// must stay, so the order of single messages is what the queue keeps.
    pending_received: Vec<MmqpNormalisedMessage>,
    /// Messages handed out and not yet deleted, in the order they went out.
    pending_sent: Vec<MmqpNormalisedMessage>,
    /// The latest clock reading that the queue has been handed.
    latest_time: Ghost<u128>,
}

impl Queue {
    /// The ready messages, oldest first.
    pub closed spec fn ready(&self) -> Seq<NormalisedView> {
        self.readers@.map_values(|f: Seq<u8>| stored_message(f))
    }

    /// The deferred messages, by availability time.
    pub closed spec fn pending(&self) -> Seq<NormalisedView> {
        self.pending_received@.map_values(|m: MmqpNormalisedMessage| m@)
    }

    /// The messages handed out and not yet deleted, oldest first.
    pub closed spec fn sent(&self) -> Seq<NormalisedView> {
        self.pending_sent@.map_values(|m: MmqpNormalisedMessage| m@)
    }

    pub closed spec fn spec_name(&self) -> Seq<char> {
        self.queue_name@
    }

    pub closed spec fn spec_pending_mode(&self) -> PendingMode {
        self.pending_mode
    }

    pub closed spec fn spec_approximate_message_count(&self) -> u64 {
        self.approximate_message_count
    }

    pub closed spec fn spec_pending_message_count(&self) -> u64 {
        self.pending_message_count
    }

    pub closed spec fn spec_latest_time(&self) -> u128 {
        self.latest_time@
    }

    /// The counters count the messages; the deferred ones are in time order;
    /// every ready message was available by the latest clock reading.
    pub closed spec fn wf(&self) -> bool {
        &&& self.readers.wf()
        &&& forall|i: int|
            0 <= i < self.readers@.len() ==> frame_value::<MmqpNormalisedMessage>(
                #[trigger] self.readers@[i],
            ) is Some
        &&& self.approximate_message_count == self.readers@.len()
        &&& self.pending_message_count == self.pending_received@.len()
        &&& self.approximate_message_count + self.pending_message_count <= u64::MAX
        &&& sorted_by_time(self.pending())
        &&& forall|i: int|
            0 <= i < self.ready().len() ==> (#[trigger] self.ready()[i]).available_time
                <= self.latest_time@
    }

    /// Delayed delivery: while the clock does not go back, every ready message
    /// is already available, so a read hands out no message before its time
    /// (a deferred one only once it is due).
    pub proof fn law_no_early_delivery(&self, now_ms: u128)
        requires
            self.wf(),
            now_ms >= self.spec_latest_time(),
        ensures
            forall|i: int|
                0 <= i < self.ready().len() ==> (#[trigger] self.ready()[i]).available_time
                    <= now_ms,
            later_of(now_ms, self.spec_latest_time()) == now_ms,
    {
    }

    /// The deferred messages are in order of availability time, so the first
    /// one is the earliest.
    pub proof fn law_pending_sorted(&self)
        requires
            self.wf(),
        ensures
            sorted_by_time(self.pending()),
    {
    }

    /// The counters are the numbers of ready and of deferred messages, the
    /// messages that reads can still hand out.
    pub proof fn law_counts_match(&self)
        requires
            self.wf(),
        ensures
            self.spec_approximate_message_count() == self.ready().len(),
            self.spec_pending_message_count() == self.pending().len(),
    {
    }

    /// An empty queue. Its pool has `max(num_buffers, 1)` arenas of `buffer_size` bytes.
    pub fn new(name: String, pending_mode: PendingMode, num_buffers: usize, buffer_size: usize) -> (r:
        Queue)
        ensures
            r.wf(),
            r.spec_name() == name@,
            r.spec_pending_mode() == pending_mode,
            r.ready() == Seq::<NormalisedView>::empty(),
            r.pending() == Seq::<NormalisedView>::empty(),
            r.sent() == Seq::<NormalisedView>::empty(),
            r.spec_approximate_message_count() == 0,
            r.spec_pending_message_count() == 0,
            r.spec_latest_time() == 0,
    {
        let q = Queue {
            queue_name: name,
            approximate_message_count: 0,
            pending_message_count: 0,
            pending_mode,
            readers: RotatingReadBuffers::new(num_buffers, buffer_size),
            pending_received: Vec::new(),
            pending_sent: Vec::new(),
            latest_time: Ghost(0),
        };
        assert(q.ready() =~= Seq::<NormalisedView>::empty());
        assert(q.pending() =~= Seq::<NormalisedView>::empty());
        assert(q.sent() =~= Seq::<NormalisedView>::empty());
        q
    }

    pub fn name(&self) -> (r: &String)
        ensures
            r@ == self.spec_name(),
    {
        &self.queue_name
    }

    pub fn approximate_message_count(&self) -> (r: u64)
        ensures
            r == self.spec_approximate_message_count(),
    {
        self.approximate_message_count
    }

    pub fn pending_message_count(&self) -> (r: u64)
        ensures
            r == self.spec_pending_message_count(),
    {
        self.pending_message_count
    }

    pub fn pending_mode(&self) -> (r: PendingMode)
        ensures
            r == self.spec_pending_mode(),
    {
        self.pending_mode
    }

    pub fn readers(&self) -> (r: &RotatingReadBuffers<MmqpNormalisedMessage>)
        ensures
            r@.map_values(|f: Seq<u8>| stored_message(f)) == self.ready(),
    {
        &self.readers
    }

    pub fn pending_sent(&self) -> (r: &Vec<MmqpNormalisedMessage>)
        ensures
            r@.map_values(|m: MmqpNormalisedMessage| m@) == self.sent(),
    {
        &self.pending_sent
    }

    /// Deletes the first handed-out message with the identifier `message_id`;
    /// says whether there was one.
    pub fn delete_message(&mut self, message_id: &[u8; 64]) -> (r: bool)
        requires
            old(self).wf(),
        ensures
            final(self).wf(),
            final(self).spec_name() == old(self).spec_name(),
            final(self).spec_pending_mode() == old(self).spec_pending_mode(),
            final(self).spec_latest_time() == old(self).spec_latest_time(),
            final(self).ready() == old(self).ready(),
            final(self).pending() == old(self).pending(),
            r == exists|k: int|
                0 <= k < old(self).sent().len() && (#[trigger] old(self).sent()[k]).message_id
                    == message_id@,
            r ==> exists|k: int|
                0 <= k < old(self).sent().len() && old(self).sent()[k].message_id == message_id@
                    && (forall|j: int|
                    0 <= j < k ==> (#[trigger] old(self).sent()[j]).message_id != message_id@)
                    && final(self).sent() == old(self).sent().remove(k),
            !r ==> final(self).sent() == old(self).sent(),
    {
        let ghost sent0 = self.sent();
        let mut k: usize = 0;
        while k < self.pending_sent.len()
            invariant
                k <= self.pending_sent@.len(),
                *self == *old(self),
                self.wf(),
                self.sent() == sent0,
                forall|j: int| 0 <= j < k ==> (#[trigger] sent0[j]).message_id != message_id@,
            decreases self.pending_sent@.len() - k,
        {
            if same_id(&self.pending_sent[k].message_id, message_id) {
                proof {
                    assert(sent0[k as int].message_id == message_id@);
                }
                let _ = self.pending_sent.remove(k);
                proof {
                    assert(self.sent() =~= sent0.remove(k as int));
                    assert(self.ready() == old(self).ready());
                    assert(self.pending() == old(self).pending());
                    assert(self.readers == old(self).readers);
                }
                return true;
            }
            k = k + 1;
        }
        false
    }

    pub fn pending_received(&self) -> (r: &Vec<MmqpNormalisedMessage>)
        ensures
            r@.map_values(|m: MmqpNormalisedMessage| m@) == self.pending(),
    {
        &self.pending_received
    }

    /// Takes in a message at clock reading `now_ms`. A message whose
    /// availability time lies ahead is deferred, after the deferred messages
    /// of the same or an earlier time; any other is ready at once.
    pub fn receive_message(&mut self, message: MmqpNormalisedMessage, now_ms: u128)
        requires
            old(self).wf(),
            old(self).spec_approximate_message_count() + old(self).spec_pending_message_count()
                < u64::MAX,
        ensures
            final(self).wf(),
            final(self).spec_name() == old(self).spec_name(),
            final(self).spec_pending_mode() == old(self).spec_pending_mode(),
            final(self).sent() == old(self).sent(),
            final(self).spec_latest_time() == later_of(now_ms, old(self).spec_latest_time()),
            message@.available_time > now_ms ==> final(self).ready() == old(self).ready() && (exists|
                k: int,
            |
                0 <= k <= old(self).pending().len() && final(self).pending() == old(
                    self,
                ).pending().insert(k, message@) && (forall|i: int|
                    0 <= i < k ==> (#[trigger] old(self).pending()[i]).available_time
                        <= message@.available_time) && (forall|i: int|
                    k <= i < old(self).pending().len() ==> (#[trigger] old(
                        self,
                    ).pending()[i]).available_time > message@.available_time)),
            message@.available_time <= now_ms ==> final(self).ready() == old(self).ready().push(
                message@,
            ) && final(self).pending() == old(self).pending(),
    {
        let ghost old_ready = self.ready();
        let ghost old_pending = self.pending();
        proof {
            self.latest_time = Ghost(later_of(now_ms, self.latest_time@));
        }
        if message.available_time > now_ms {
            let t = message.available_time;
            let mut k: usize = 0;
            while k < self.pending_received.len() && self.pending_received[k].available_time <= t
                invariant
                    k <= self.pending_received@.len(),
                    self.pending() == old_pending,
                    forall|i: int| 0 <= i < k ==> (#[trigger] old_pending[i]).available_time <= t,
                decreases self.pending_received@.len() - k,
            {
                k = k + 1;
            }
            proof {
                assert forall|i: int| k <= i < old_pending.len() implies (
                #[trigger] old_pending[i]).available_time > t by {
                    if k < old_pending.len() {
                        assert(old_pending[k as int].available_time > t);
                    }
                }
            }
            let ghost m = message@;
            self.pending_received.insert(k, message);
            self.pending_message_count = self.pending_message_count + 1;
            proof {
                assert(self.pending() =~= old_pending.insert(k as int, m));
                assert forall|i: int, j: int|
                    0 <= i < j < self.pending().len() implies self.pending()[i].available_time
                    <= self.pending()[j].available_time by {
                    if j < k {
                    } else if j == k {
                    } else if i < k {
                        assert(self.pending()[j] == old_pending[j - 1]);
                    } else if i == k {
                        assert(self.pending()[j] == old_pending[j - 1]);
                    } else {
                        assert(self.pending()[i] == old_pending[i - 1]);
                        assert(self.pending()[j] == old_pending[j - 1]);
                    }
                }
                assert(self.ready() == old_ready);
            }
        } else {
            self.push_ready(message);
            self.approximate_message_count = self.approximate_message_count + 1;
            proof {
                assert(self.pending() == old_pending);
            }
        }
    }

    /// Moves every deferred message that is due at `now_ms` to the end of
    /// the ready messages, earliest first.
    pub fn flush_pending(&mut self, now_ms: u128)
        requires
            old(self).wf(),
        ensures
            final(self).wf(),
            final(self).spec_name() == old(self).spec_name(),
            final(self).spec_pending_mode() == old(self).spec_pending_mode(),
            final(self).sent() == old(self).sent(),
            final(self).spec_latest_time() == later_of(now_ms, old(self).spec_latest_time()),
            final(self).ready() == old(self).ready() + old(self).pending().subrange(
                0,
                due_count(old(self).pending(), now_ms) as int,
            ),
            final(self).pending() == old(self).pending().subrange(
                due_count(old(self).pending(), now_ms) as int,
                old(self).pending().len() as int,
            ),
            forall|i: int|
                0 <= i < final(self).pending().len() ==> (
                #[trigger] final(self).pending()[i]).available_time > now_ms,
    {
        let ghost old_ready = self.ready();
        let ghost old_pending = self.pending();
        let ghost due = due_count(old_pending, now_ms) as int;
        proof {
            self.latest_time = Ghost(later_of(now_ms, self.latest_time@));
            lemma_due_count_bound(old_pending, now_ms);
        }
        let ghost mut moved: int = 0;
        while self.pending_received.len() > 0 && self.pending_received[0].available_time <= now_ms
            invariant
                self.wf(),
                self.queue_name == old(self).queue_name,
                self.pending_mode == old(self).pending_mode,
                self.pending_sent == old(self).pending_sent,
                self.latest_time@ == later_of(now_ms, old(self).latest_time@),
                0 <= moved <= due <= old_pending.len(),
                due == due_count(old_pending, now_ms),
                due - moved == due_count(self.pending(), now_ms),
                self.ready() == old_ready + old_pending.subrange(0, moved),
                self.pending() == old_pending.subrange(moved, old_pending.len() as int),
            decreases self.pending_received@.len(),
        {
            let ghost p = self.pending();
            let m = self.pending_received.remove(0);
            self.pending_message_count = self.pending_message_count - 1;
            proof {
                assert(self.pending() =~= p.drop_first());
                assert(sorted_by_time(self.pending()));
            }
            let ghost mv = m@;
            let ghost prev_ready = self.ready();
            self.push_ready(m);
            self.approximate_message_count = self.approximate_message_count + 1;
            proof {
                moved = moved + 1;
                assert(mv == old_pending[moved - 1]);
                assert(old_pending.subrange(0, moved) =~= old_pending.subrange(0, moved - 1).push(
                    mv,
                ));
                assert(self.pending() =~= old_pending.subrange(moved, old_pending.len() as int));
                assert forall|i: int| 0 <= i < self.ready().len() implies (
                #[trigger] self.ready()[i]).available_time <= self.latest_time@ by {
                    if i < self.ready().len() - 1 {
                        assert(self.ready()[i] == prev_ready[i]);
                    }
                }
            }
        }
        proof {
            let p = self.pending();
            assert forall|i: int| 0 <= i < p.len() implies (#[trigger] p[i]).available_time
                > now_ms by {
                assert(p[0].available_time <= p[i].available_time);
            }
        }
    }

    /// Hands out the next message at clock reading `now_ms`, with its count
    /// of deliveries one more. The pending mode decides where a due deferred
    /// message stands against the ready ones.
    pub fn read_next(&mut self, now_ms: u128) -> (r: Option<MmqpNormalisedMessage>)
        requires
            old(self).wf(),
        ensures
            final(self).wf(),
            final(self).spec_name() == old(self).spec_name(),
            final(self).spec_pending_mode() == old(self).spec_pending_mode(),
            r matches Some(x) ==> final(self).sent() == old(self).sent().push(x@),
            r is None ==> final(self).sent() == old(self).sent(),
            final(self).spec_latest_time() == later_of(now_ms, old(self).spec_latest_time()),
            r matches Some(x) ==> x@.available_time <= later_of(
                now_ms,
                old(self).spec_latest_time(),
            ),
            old(self).spec_pending_mode() == PendingMode::Read ==> if old(self).pending().len() > 0
                && old(self).pending()[0].available_time <= now_ms {
                &&& r matches Some(x) && x@ == delivered(old(self).pending()[0])
                &&& final(self).pending() == old(self).pending().drop_first()
                &&& final(self).ready() == old(self).ready()
            } else if old(self).ready().len() > 0 {
                &&& r matches Some(x) && x@ == delivered(old(self).ready()[0])
                &&& final(self).ready() == old(self).ready().drop_first()
                &&& final(self).pending() == old(self).pending()
            } else {
                &&& r is None
                &&& final(self).ready() == old(self).ready()
                &&& final(self).pending() == old(self).pending()
            },
            old(self).spec_pending_mode() == PendingMode::Push ==> ({
                let k = due_count(old(self).pending(), now_ms) as int;
                let ready = old(self).ready() + old(self).pending().subrange(0, k);
                &&& final(self).pending() == old(self).pending().subrange(
                    k,
                    old(self).pending().len() as int,
                )
                &&& forall|i: int|
                    0 <= i < final(self).pending().len() ==> (
                    #[trigger] final(self).pending()[i]).available_time > now_ms
                &&& if ready.len() > 0 {
                    &&& r matches Some(x) && x@ == delivered(ready[0])
                    &&& final(self).ready() == ready.drop_first()
                } else {
                    &&& r is None
                    &&& final(self).ready() == ready
                }
            }),
    {
        let ghost sent0 = self.sent();
        let r = match self.pending_mode {
            PendingMode::Push => {
                self.flush_pending(now_ms);
                self.take_ready()
            },
            PendingMode::Read => {
                proof {
                    self.latest_time = Ghost(later_of(now_ms, self.latest_time@));
                }
                if self.pending_received.len() > 0 && self.pending_received[0].available_time
                    <= now_ms {
                    let ghost p = self.pending();
                    let mut m = self.pending_received.remove(0);
                    self.pending_message_count = self.pending_message_count - 1;
                    proof {
                        assert(self.pending() =~= p.drop_first());
                        assert(sorted_by_time(self.pending()));
                    }
                    mark_delivered(&mut m);
                    Some(m)
                } else {
                    self.take_ready()
                }
            },
        };
        proof {
            assert(self.sent() == sent0);
        }
        match &r {
            Some(m) => {
                self.pending_sent.push(copy_message(m));
                assert(self.sent() =~= sent0.push(m@));
            },
            None => {},
        }
        r
    }

    /// Takes the oldest ready message, with its count of deliveries one more.
    fn take_ready(&mut self) -> (r: Option<MmqpNormalisedMessage>)
        requires
            old(self).wf(),
        ensures
            final(self).wf(),
            final(self).queue_name == old(self).queue_name,
            final(self).pending_mode == old(self).pending_mode,
            final(self).latest_time == old(self).latest_time,
            final(self).pending_sent == old(self).pending_sent,
            final(self).pending() == old(self).pending(),
            r matches Some(x) ==> x@.available_time <= old(self).latest_time@,
            old(self).ready().len() > 0 ==> (r matches Some(x) && x@ == delivered(
                old(self).ready()[0],
            )) && final(self).ready() == old(self).ready().drop_first(),
            old(self).ready().len() == 0 ==> r is None && final(self).ready() == old(self).ready(),
    {
        let ghost old_ready = self.ready();
        let ghost frames = self.readers@;
        let v = self.readers.next();
        proof {
            assert(self.ready() =~= if frames.len() > 0 {
                old_ready.drop_first()
            } else {
                old_ready
            });
            if frames.len() > 0 {
                assert(frame_value::<MmqpNormalisedMessage>(frames[0]) is Some);
                assert(old_ready[0] == stored_message(frames[0]));
            }
            assert forall|i: int| 0 <= i < self.readers@.len() implies frame_value::<
                MmqpNormalisedMessage,
            >(#[trigger] self.readers@[i]) is Some by {
                assert(self.readers@[i] == frames[i + 1]);
            }
            assert forall|i: int| 0 <= i < self.ready().len() implies (
            #[trigger] self.ready()[i]).available_time <= self.latest_time@ by {
                assert(self.ready()[i] == old_ready[i + 1]);
            }
        }
        match v {
            Some(m) => {
                let mut m = m;
                self.approximate_message_count = self.approximate_message_count - 1;
                mark_delivered(&mut m);
                Some(m)
            },
            None => None,
        }
    }

    /// Appends a message to the ready ones.
    fn push_ready(&mut self, message: MmqpNormalisedMessage)
        requires
            old(self).readers.wf(),
            forall|i: int|
                0 <= i < old(self).readers@.len() ==> frame_value::<MmqpNormalisedMessage>(
                    #[trigger] old(self).readers@[i],
                ) is Some,
        ensures
            final(self).readers.wf(),
            forall|i: int|
                0 <= i < final(self).readers@.len() ==> frame_value::<MmqpNormalisedMessage>(
                    #[trigger] final(self).readers@[i],
                ) is Some,
            final(self).ready() == old(self).ready().push(message@),
            final(self).readers@.len() == old(self).readers@.len() + 1,
            final(self).queue_name == old(self).queue_name,
            final(self).approximate_message_count == old(self).approximate_message_count,
            final(self).pending_message_count == old(self).pending_message_count,
            final(self).pending_mode == old(self).pending_mode,
            final(self).pending_received == old(self).pending_received,
            final(self).pending_sent == old(self).pending_sent,
            final(self).latest_time == old(self).latest_time,
    {
        let bytes = message.serialise(SerialisationStrategy::Storage);
        let _ = bytes.len();
        proof {
            lemma_storage_frame::<MmqpNormalisedMessage>(message@);
        }
        let ghost f = bytes@;
        self.readers.push_raw(bytes);
        proof {
            assert forall|i: int| 0 <= i < self.readers@.len() implies frame_value::<
                MmqpNormalisedMessage,
            >(#[trigger] self.readers@[i]) is Some by {
                if i < old(self).readers@.len() {
                    assert(self.readers@[i] == old(self).readers@[i]);
                }
            }
            assert(self.ready() =~= old(self).ready().push(message@));
        }
    }
}

/// A copy of a message.
fn copy_message(m: &MmqpNormalisedMessage) -> (r: MmqpNormalisedMessage)
    ensures
        r@ == m@,
{
    MmqpNormalisedMessage {
        message: m.message.clone(),
        message_id: m.message_id,
        message_group_id: m.message_group_id.clone(),
        received_time: m.received_time,
        available_time: m.available_time,
        receive_count: m.receive_count,
    }
}

/// Whether two identifiers are the same.
fn same_id(a: &[u8; 64], b: &[u8; 64]) -> (r: bool)
    ensures
        r == (a@ == b@),
{
    let mut i: usize = 0;
    while i < 64
        invariant
            i <= 64,
            a@.len() == 64,
            b@.len() == 64,
            forall|j: int| 0 <= j < i ==> a@[j] == b@[j],
        decreases 64 - i,
    {
        if a[i] != b[i] {
            return false;
        }
        i = i + 1;
    }
    assert(a@ =~= b@);
    true
}

/// Adds one to the count of deliveries, up to the largest count.
fn mark_delivered(m: &mut MmqpNormalisedMessage)
    ensures
        final(m)@ == delivered(old(m)@),
{
    if m.receive_count < u32::MAX {
        m.receive_count = m.receive_count + 1;
    }
}

pub proof fn lemma_due_count_bound(p: Seq<NormalisedView>, now: u128)
    ensures
        due_count(p, now) <= p.len(),
        forall|i: int| 0 <= i < due_count(p, now) ==> (#[trigger] p[i]).available_time <= now,
    decreases p.len(),
{
    if p.len() > 0 && p[0].available_time <= now {
        lemma_due_count_bound(p.drop_first(), now);
        assert forall|i: int| 0 <= i < due_count(p, now) implies (#[trigger] p[i]).available_time
            <= now by {
            if i > 0 {
                assert(p[i] == p.drop_first()[i - 1]);
            }
        }
    }
}

} // verus!
