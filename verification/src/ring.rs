//! The trigger channel: a bounded single-producer single-consumer queue that
//! carries triggers from the input thread to the audio thread without locks.
//!
//! Each half sees the queue through its own window. The producer knows what
//! it has enqueued and has not yet seen taken; the consumer knows what it has
//! seen published and has not yet taken. A half learns of the other's
//! progress only when its own window runs out, so the contracts below speak
//! of one half at a time. That what the consumer finds is what the producer
//! sent, in the order sent, is the ring's own doing. No contract here states
//! it; the tests exercise it.

use crate::level::Level;
use ringbuf::traits::{Consumer, Producer, Split};
use vstd::prelude::*;

verus! {

/// Number of trigger slots in the channel.
pub const RING_BUFFER_SIZE: usize = 128;

/// A request to start playing one sample.
#[derive(Debug, Clone, Copy)]
pub struct Trigger {
    /// Index into the samples of the current bank.
    pub sample_id: u8,
    /// Loudness of the hit, a level between zero and one.
    pub velocity: Level,
}

/// The sending half of the channel, owned by the input thread. It holds the
/// producer of a ring of the `ringbuf` crate.
#[verifier::external_body]
pub struct TriggerProducer {
    inner: ringbuf::HeapProd<Trigger>,
}

/// The receiving half of the channel, owned by the audio thread. It holds
/// the consumer of a ring of the `ringbuf` crate.
#[verifier::external_body]
pub struct TriggerConsumer {
    inner: ringbuf::HeapCons<Trigger>,
}

/// The triggers that a producer has enqueued and has not yet seen taken,
/// oldest first.
pub uninterp spec fn producer_pending(producer: TriggerProducer) -> Seq<Trigger>;

/// The number of slots of the ring that a producer was made with.
pub uninterp spec fn producer_capacity(producer: TriggerProducer) -> nat;

/// The triggers that a consumer has seen published and has not yet taken,
/// oldest first.
pub uninterp spec fn consumer_ready(consumer: TriggerConsumer) -> Seq<Trigger>;

/// The triggers that a consumer has taken out of the ring so far, oldest
/// first.
pub uninterp spec fn consumer_taken(consumer: TriggerConsumer) -> Seq<Trigger>;

/// Whether a queue of `capacity` slots has a free one.
pub open spec fn queue_accepts(queue: Seq<Trigger>, capacity: nat) -> bool {
    queue.len() < capacity
}

/// A queue of `capacity` slots after one send: the trigger is appended if
/// there is a free slot and dropped if there is none.
pub open spec fn queue_push(queue: Seq<Trigger>, capacity: nat, trigger: Trigger) -> Seq<Trigger> {
    if queue_accepts(queue, capacity) {
        queue.push(trigger)
    } else {
        queue
    }
}

/// A queue after a run of sends with nothing taken in between.
pub open spec fn queue_push_all(queue: Seq<Trigger>, capacity: nat, sent: Seq<Trigger>) -> Seq<
    Trigger,
>
    decreases sent.len(),
{
    if sent.len() == 0 {
        queue
    } else {
        queue_push_all(queue_push(queue, capacity, sent[0]), capacity, sent.drop_first())
    }
}

/// What one send does to the producer's window `before`. While the
/// producer knows of a free slot, the trigger is appended. With a full window
/// the producer looks how far the consumer has come: if the consumer has
/// taken triggers, those leave the window and the trigger is appended; if it
/// has taken none, the trigger is dropped and nothing changes.
pub open spec fn send_outcome(
    before: Seq<Trigger>,
    capacity: nat,
    trigger: Trigger,
    after: Seq<Trigger>,
    sent: bool,
) -> bool {
    if queue_accepts(before, capacity) {
        sent && after == before.push(trigger)
    } else if sent {
        exists|taken: int|
            0 < taken <= before.len() && after == (#[trigger] before.skip(taken)).push(trigger)
    } else {
        after == before
    }
}

/// `HeapRb::new`, then `Split::split`: the two halves of a new ring of
/// exactly `capacity` slots, both windows empty and nothing taken yet. A
/// ring has at least one slot.
#[verifier::external_body]
fn ring_split(capacity: usize) -> (halves: (TriggerProducer, TriggerConsumer))
    requires
        capacity > 0,
    ensures
        producer_pending(halves.0) == Seq::<Trigger>::empty(),
        producer_capacity(halves.0) == capacity,
        consumer_ready(halves.1) == Seq::<Trigger>::empty(),
        consumer_taken(halves.1) == Seq::<Trigger>::empty(),
{
    let (prod, cons) = ringbuf::HeapRb::<Trigger>::new(capacity).split();
    (TriggerProducer { inner: prod }, TriggerConsumer { inner: cons })
}

/// `Producer::try_push` on the caching producer. While the producer knows of
/// a free slot it appends without looking at the consumer. With its window
/// full it first looks how many triggers the consumer has taken and drops
/// those from the window; the trigger is appended if that freed a slot and
/// handed back if not. The result says whether it was appended. The ring
/// keeps its capacity.
#[verifier::external_body]
fn ring_try_push(producer: &mut TriggerProducer, trigger: Trigger) -> (accepted: bool)
    ensures
        producer_capacity(*final(producer)) == producer_capacity(*old(producer)),
        send_outcome(
            producer_pending(*old(producer)),
            producer_capacity(*old(producer)),
            trigger,
            producer_pending(*final(producer)),
            accepted,
        ),
{
    producer.inner.try_push(trigger).is_ok()
}

/// `Consumer::try_pop` on the caching consumer. While the consumer knows of
/// a published trigger it takes the oldest without looking at the producer.
/// With its window empty it first looks for newly published triggers; it
/// returns none only if there are none. A trigger that it returns has left
/// the ring and is the latest that the consumer has taken; without one,
/// nothing is taken.
#[verifier::external_body]
fn ring_try_pop(consumer: &mut TriggerConsumer) -> (r: Option<Trigger>)
    ensures
        consumer_ready(*old(consumer)).len() > 0 ==> r == Some(consumer_ready(*old(consumer))[0])
            && consumer_ready(*final(consumer)) == consumer_ready(*old(consumer)).skip(1),
        r is None ==> consumer_ready(*final(consumer)).len() == 0,
        consumer_taken(*final(consumer)) == match r {
            Some(trigger) => consumer_taken(*old(consumer)).push(trigger),
            None => consumer_taken(*old(consumer)),
        },
{
    consumer.inner.try_pop()
}

/// Creates the channel and returns its two halves: the producer for the
/// input thread, the consumer for the audio callback.
pub fn create_trigger_channel() -> (halves: (TriggerProducer, TriggerConsumer))
    ensures
        halves.0.pending() == Seq::<Trigger>::empty(),
        halves.0.capacity() == RING_BUFFER_SIZE,
        halves.1.ready() == Seq::<Trigger>::empty(),
        halves.1.taken() == Seq::<Trigger>::empty(),
{
    ring_split(RING_BUFFER_SIZE)
}

impl TriggerProducer {
    /// The triggers enqueued through this half and not yet seen taken.
    pub open spec fn pending(&self) -> Seq<Trigger> {
        producer_pending(*self)
    }

    /// The number of slots of the channel.
    pub open spec fn capacity(&self) -> nat {
        producer_capacity(*self)
    }

    /// Enqueues a trigger without blocking. Returns `true` if it was
    /// enqueued and `false` if the queue was full and the trigger dropped.
    ///
    /// A send succeeds whenever the producer knows of a free slot. It fails
    /// only with a full window of which the consumer has taken nothing. As
    /// long as the consumer takes nothing, the window is a bounded queue.
    pub fn send(&mut self, trigger: Trigger) -> (sent: bool)
        ensures
            final(self).capacity() == old(self).capacity(),
            send_outcome(
                old(self).pending(),
                old(self).capacity(),
                trigger,
                final(self).pending(),
                sent,
            ),
            queue_accepts(old(self).pending(), old(self).capacity()) || !sent ==> sent
                == queue_accepts(old(self).pending(), old(self).capacity()) && final(self).pending()
                == queue_push(old(self).pending(), old(self).capacity(), trigger),
            old(self).pending().len() <= old(self).capacity() ==> final(self).pending().len()
                <= final(self).capacity(),
    {
        ring_try_push(self, trigger)
    }
}

impl TriggerConsumer {
    /// The triggers seen published by this half and not yet taken.
    pub open spec fn ready(&self) -> Seq<Trigger> {
        consumer_ready(*self)
    }

    /// The triggers taken through this half so far.
    pub open spec fn taken(&self) -> Seq<Trigger> {
        consumer_taken(*self)
    }

    /// Moves the queued triggers into `out`, oldest first, without blocking
    /// and without allocating if `out` has room for the channel's capacity.
    /// `out` is cleared first.
    ///
    /// Afterwards `out` holds exactly what this call took out of the ring, in
    /// the order taken. What the consumer knew to be ready comes out first.
    /// The call ends when it finds the queue empty, or after as many triggers
    /// as the channel has slots.
    pub fn drain(&mut self, out: &mut Vec<Trigger>)
        ensures
            final(out)@.len() <= RING_BUFFER_SIZE,
            final(self).taken() == old(self).taken() + final(out)@,
            old(self).ready().len() <= RING_BUFFER_SIZE ==> old(self).ready() == final(out)@.take(
                old(self).ready().len() as int,
            ),
            final(out)@.len() < RING_BUFFER_SIZE ==> final(self).ready().len() == 0,
    {
        out.clear();
        let ghost known = self.ready();
        assert(self.taken() =~= old(self).taken() + out@);
        while out.len() < RING_BUFFER_SIZE
            invariant
                known == old(self).ready(),
                out@.len() <= RING_BUFFER_SIZE,
                self.taken() == old(self).taken() + out@,
                out@.len() < known.len() ==> out@ == known.take(out@.len() as int) && self.ready()
                    == known.skip(out@.len() as int),
                out@.len() >= known.len() ==> known == out@.take(known.len() as int),
            ensures
                out@.len() <= RING_BUFFER_SIZE,
                self.taken() == old(self).taken() + out@,
                known.len() <= RING_BUFFER_SIZE ==> known == out@.take(known.len() as int),
                out@.len() < RING_BUFFER_SIZE ==> self.ready().len() == 0,
            decreases RING_BUFFER_SIZE - out@.len(),
        {
            let ghost taken = out@;
            match ring_try_pop(self) {
                Some(trigger) => {
                    out.push(trigger);
                    proof {
                        assert(self.taken() =~= old(self).taken() + out@);
                        if taken.len() < known.len() {
                            assert(out@ =~= known.take(out@.len() as int));
                            assert(self.ready() =~= known.skip(out@.len() as int));
                            assert(known.take(known.len() as int) =~= known);
                        } else {
                            assert(out@.take(known.len() as int) =~= taken.take(known.len() as int));
                        }
                    }
                },
                None => {
                    break ;
                },
            }
        }
    }
}

/// A run of sends with nothing taken in between enqueues the longest prefix
/// of the sent triggers that fits, in the order sent, behind what was queued.
pub proof fn lemma_sends_enqueue_prefix(queue: Seq<Trigger>, capacity: nat, sent: Seq<Trigger>)
    requires
        queue.len() <= capacity,
    ensures
        queue_push_all(queue, capacity, sent) == queue + sent.take(
            if sent.len() <= capacity - queue.len() {
                sent.len() as int
            } else {
                capacity - queue.len()
            },
        ),
    decreases sent.len(),
{
    let room = capacity - queue.len();
    let fit = if sent.len() <= room {
        sent.len() as int
    } else {
        room
    };
    if sent.len() == 0 {
        assert(queue + sent.take(fit) =~= queue);
    } else {
        let next = queue_push(queue, capacity, sent[0]);
        lemma_sends_enqueue_prefix(next, capacity, sent.drop_first());
        if room > 0 {
            assert(queue + sent.take(fit) =~= next + sent.drop_first().take(fit - 1));
        } else {
            assert(sent.drop_first().take(0) =~= sent.take(0));
        }
    }
}

} // verus!
