use std::collections::VecDeque;
use vstd::prelude::*;

verus! {

/// Whether a channel still accepts messages.
#[derive(PartialEq, Eq, Structural, Clone, Copy, Debug)]
pub enum BufferStatus {
    OPEN,
    CLOSE,
}

/// What a sender does after one look at the channel.
pub enum SendStep<E> {
    /// The message was queued.
    Sent,
    /// The channel is shut down: the message is dropped and the send fails.
    Closed,
    /// The channel is full: wait, then try again with the message handed back.
    Full(E),
}

/// What a receiver does after one look at the channel.
pub enum RecvStep<E> {
    /// The oldest queued message, taken off the queue.
    Received(E),
    /// The channel is shut down and drained: the receive fails.
    Closed,
    /// Nothing is queued yet: wait, then look again.
    Empty,
}

/// One look by a sender offering `e`: the queue afterwards and the outcome.
pub open spec fn send_transition<E>(queued: Seq<E>, status: BufferStatus, capacity: nat, e: E) -> (Seq<E>, SendStep<E>) {
    if status == BufferStatus::CLOSE {
        (queued, SendStep::Closed)
    } else if queued.len() < capacity {
        (queued.push(e), SendStep::Sent)
    } else {
        (queued, SendStep::Full(e))
    }
}

/// One look by a receiver: the queue afterwards and the outcome.
pub open spec fn recv_transition<E>(queued: Seq<E>, status: BufferStatus) -> (Seq<E>, RecvStep<E>) {
    if status == BufferStatus::CLOSE && queued.len() == 0 {
        (queued, RecvStep::Closed)
    } else if queued.len() > 0 {
        (queued.drop_first(), RecvStep::Received(queued[0]))
    } else {
        (queued, RecvStep::Empty)
    }
}

/// The queue after the messages of `xs` are offered one after another.
pub open spec fn send_all<E>(queued: Seq<E>, status: BufferStatus, capacity: nat, xs: Seq<E>) -> Seq<E>
    decreases xs.len(),
{
    if xs.len() == 0 {
        queued
    } else {
        send_transition(send_all(queued, status, capacity, xs.drop_last()), status, capacity, xs.last()).0
    }
}

/// `n` receives one after another: the queue afterwards and their outcomes.
pub open spec fn recv_all<E>(queued: Seq<E>, status: BufferStatus, n: nat) -> (Seq<E>, Seq<RecvStep<E>>)
    decreases n,
{
    if n == 0 {
        (queued, Seq::empty())
    } else {
        let (q, r) = recv_transition(queued, status);
        let (q2, rs) = recv_all(q, status, (n - 1) as nat);
        (q2, seq![r] + rs)
    }
}

/// The state a bounded multi-producer multi-consumer channel keeps under its
/// lock: the queued messages, whether it is shut down, and its capacity.
pub struct MpMcChannel<E> {
    messages: VecDeque<E>,
    status: BufferStatus,
    size: usize,
}

impl<E> MpMcChannel<E> {
    /// The queue never holds more messages than the capacity.
    #[verifier::type_invariant]
    spec fn bounded(self) -> bool {
        self.messages@.len() <= self.size
    }

    /// The queued messages, oldest first.
    pub closed spec fn queued(self) -> Seq<E> {
        self.messages@
    }

    /// Whether the channel is open or shut down.
    pub closed spec fn status(self) -> BufferStatus {
        self.status
    }

    /// The most messages the channel queues.
    pub closed spec fn capacity(self) -> nat {
        self.size as nat
    }

    /// An open, empty channel that queues up to `size` messages.
    pub fn new(size: usize) -> (channel: Self)
        ensures
            channel.queued() == Seq::<E>::empty(),
            channel.status() == BufferStatus::OPEN,
            channel.capacity() == size,
    {
        MpMcChannel { messages: VecDeque::with_capacity(size), status: BufferStatus::OPEN, size }
    }

    /// One attempt to send `e` (see `send_transition`): a shut-down channel
    /// refuses it, an open one with room queues it last, a full one hands it
    /// back.
    pub fn send_step(&mut self, e: E) -> (step: SendStep<E>)
        ensures
            (final(self).queued(), step) == send_transition(
                old(self).queued(),
                old(self).status(),
                old(self).capacity(),
                e,
            ),
            final(self).status() == old(self).status(),
            final(self).capacity() == old(self).capacity(),
            final(self).queued().len() <= final(self).capacity(),
    {
        proof { use_type_invariant(&*self); }
        if self.status == BufferStatus::CLOSE {
            return SendStep::Closed;
        }
        if self.messages.len() < self.size {
            let mut queue = VecDeque::new();
            std::mem::swap(&mut queue, &mut self.messages);
            queue.push_back(e);
            self.messages = queue;
            return SendStep::Sent;
        }
        SendStep::Full(e)
    }

    /// One attempt to receive (see `recv_transition`): the oldest message
    /// while any is queued, even after shutdown; `Closed` once a shut-down
    /// channel is empty; `Empty` while an open channel is empty.
    pub fn recv_step(&mut self) -> (step: RecvStep<E>)
        ensures
            (final(self).queued(), step) == recv_transition(old(self).queued(), old(self).status()),
            final(self).status() == old(self).status(),
            final(self).capacity() == old(self).capacity(),
            final(self).queued().len() <= final(self).capacity(),
    {
        proof { use_type_invariant(&*self); }
        if self.status == BufferStatus::CLOSE && self.messages.len() == 0 {
            return RecvStep::Closed;
        }
        let mut queue = VecDeque::new();
        std::mem::swap(&mut queue, &mut self.messages);
        let front = queue.pop_front();
        self.messages = queue;
        match front {
            Some(e) => RecvStep::Received(e),
            None => RecvStep::Empty,
        }
    }

    /// Shuts the channel down; queued messages stay to be received.
    pub fn shutdown(&mut self) -> (r: Option<()>)
        ensures
            r == Some(()),
            final(self).status() == BufferStatus::CLOSE,
            final(self).queued() == old(self).queued(),
            final(self).capacity() == old(self).capacity(),
            final(self).queued().len() <= final(self).capacity(),
    {
        proof { use_type_invariant(&*self); }
        self.status = BufferStatus::CLOSE;
        Some(())
    }

    /// Number of queued messages.
    pub fn len(&self) -> (n: usize)
        ensures
            n == self.queued().len(),
    {
        self.messages.len()
    }
}

/// Offering messages to an open channel with room for all of them queues
/// them in the order they were offered.
proof fn lemma_send_all_queues<E>(queued: Seq<E>, capacity: nat, xs: Seq<E>)
    requires
        queued.len() + xs.len() <= capacity,
    ensures
        send_all(queued, BufferStatus::OPEN, capacity, xs) == queued + xs,
    decreases xs.len(),
{
    if xs.len() > 0 {
        lemma_send_all_queues(queued, capacity, xs.drop_last());
        assert((queued + xs.drop_last()).push(xs.last()) =~= queued + xs);
    } else {
        assert(queued + xs =~= queued);
    }
}

/// Receiving as often as messages are queued hands them out oldest first
/// and empties the queue.
proof fn lemma_recv_all_in_order<E>(queued: Seq<E>, status: BufferStatus)
    ensures
        recv_all(queued, status, queued.len()) == (
            Seq::<E>::empty(),
            Seq::new(queued.len(), |i: int| RecvStep::Received(queued[i])),
        ),
    decreases queued.len(),
{
    if queued.len() > 0 {
        let rest = queued.drop_first();
        lemma_recv_all_in_order(rest, status);
        assert((queued.len() - 1) as nat == rest.len());
        assert(seq![RecvStep::Received(queued[0])] + Seq::new(rest.len(), |i: int| RecvStep::Received(rest[i]))
            =~= Seq::new(queued.len(), |i: int| RecvStep::Received(queued[i])));
    } else {
        assert(queued =~= Seq::<E>::empty());
        assert(Seq::<RecvStep<E>>::empty() =~= Seq::new(0, |i: int| RecvStep::Received(queued[i])));
    }
}

/// First in, first out: messages offered one after another to an open,
/// empty channel with room for all of them are received in the order they
/// were sent, and the channel is empty afterwards.
pub proof fn lemma_fifo<E>(capacity: nat, xs: Seq<E>)
    requires
        xs.len() <= capacity,
    ensures
        send_all(Seq::empty(), BufferStatus::OPEN, capacity, xs) == xs,
        recv_all(send_all(Seq::empty(), BufferStatus::OPEN, capacity, xs), BufferStatus::OPEN, xs.len()) == (
            Seq::<E>::empty(),
            Seq::new(xs.len(), |i: int| RecvStep::Received(xs[i])),
        ),
{
    lemma_send_all_queues(Seq::empty(), capacity, xs);
    assert(Seq::<E>::empty() + xs =~= xs);
    lemma_recv_all_in_order(xs, BufferStatus::OPEN);
}

/// After shutdown no message is accepted, the messages still queued are
/// received oldest first, and then every receive fails.
pub proof fn lemma_shutdown_drains<E>(queued: Seq<E>, capacity: nat, e: E, extra: nat)
    ensures
        send_transition(queued, BufferStatus::CLOSE, capacity, e) == (queued, SendStep::<E>::Closed),
        recv_all(queued, BufferStatus::CLOSE, queued.len() + extra) == (
            Seq::<E>::empty(),
            Seq::new(queued.len(), |i: int| RecvStep::Received(queued[i]))
                + Seq::new(extra, |i: int| RecvStep::<E>::Closed),
        ),
    decreases queued.len() + extra,
{
    if queued.len() > 0 {
        let rest = queued.drop_first();
        lemma_shutdown_drains(rest, capacity, e, extra);
        assert((queued.len() + extra - 1) as nat == rest.len() + extra);
        assert(seq![RecvStep::Received(queued[0])] + (Seq::new(rest.len(), |i: int| RecvStep::Received(rest[i]))
            + Seq::new(extra, |i: int| RecvStep::<E>::Closed))
            =~= Seq::new(queued.len(), |i: int| RecvStep::Received(queued[i]))
            + Seq::new(extra, |i: int| RecvStep::<E>::Closed));
    } else if extra > 0 {
        lemma_shutdown_drains(queued, capacity, e, (extra - 1) as nat);
        assert((queued.len() + extra - 1) as nat == queued.len() + (extra - 1) as nat);
        assert(seq![RecvStep::<E>::Closed] + (Seq::new(0, |i: int| RecvStep::Received(queued[i]))
            + Seq::new((extra - 1) as nat, |i: int| RecvStep::<E>::Closed))
            =~= Seq::new(queued.len(), |i: int| RecvStep::Received(queued[i]))
            + Seq::new(extra, |i: int| RecvStep::<E>::Closed));
    } else {
        assert(queued =~= Seq::<E>::empty());
        assert(Seq::<RecvStep<E>>::empty() =~= Seq::new(0, |i: int| RecvStep::Received(queued[i]))
            + Seq::new(0, |i: int| RecvStep::<E>::Closed));
    }
}

/// One operation on a channel, as the threads using it perform them under
/// its lock.
pub enum ChannelOp<E> {
    /// A look by a sender offering this message.
    Send(E),
    /// A look by a receiver.
    Recv,
    /// A shutdown.
    Shutdown,
}

/// A run of operations from the given state: the queue and status
/// afterwards, the messages the run's sends queued, in order, and the
/// messages its receives got, in order.
pub open spec fn channel_run<E>(queued: Seq<E>, status: BufferStatus, capacity: nat, ops: Seq<ChannelOp<E>>) -> (Seq<E>, BufferStatus, Seq<E>, Seq<E>)
    decreases ops.len(),
{
    if ops.len() == 0 {
        (queued, status, Seq::empty(), Seq::empty())
    } else {
        match ops[0] {
            ChannelOp::Send(e) => {
                let (q, step) = send_transition(queued, status, capacity, e);
                let (q2, st2, accepted, received) = channel_run(q, status, capacity, ops.drop_first());
                let now = if step is Sent { seq![e] } else { Seq::empty() };
                (q2, st2, now + accepted, received)
            },
            ChannelOp::Recv => {
                let (q, step) = recv_transition(queued, status);
                let (q2, st2, accepted, received) = channel_run(q, status, capacity, ops.drop_first());
                let now = match step {
                    RecvStep::Received(x) => seq![x],
                    _ => Seq::empty(),
                };
                (q2, st2, accepted, now + received)
            },
            ChannelOp::Shutdown => channel_run(queued, BufferStatus::CLOSE, capacity, ops.drop_first()),
        }
    }
}

/// What was queued before a run, followed by what the run queued, is what
/// the run received followed by what is still queued.
proof fn lemma_run_conserves<E>(queued: Seq<E>, status: BufferStatus, capacity: nat, ops: Seq<ChannelOp<E>>)
    requires
        queued.len() <= capacity,
    ensures
        ({
            let (q, st, accepted, received) = channel_run(queued, status, capacity, ops);
            &&& queued + accepted == received + q
            &&& q.len() <= capacity
        }),
    decreases ops.len(),
{
    if ops.len() > 0 {
        let rest = ops.drop_first();
        match ops[0] {
            ChannelOp::Send(e) => {
                let (q, step) = send_transition(queued, status, capacity, e);
                lemma_run_conserves(q, status, capacity, rest);
                let (q2, st2, accepted, received) = channel_run(q, status, capacity, rest);
                if step is Sent {
                    assert(queued + (seq![e] + accepted) =~= q + accepted);
                } else {
                    assert(Seq::<E>::empty() + accepted =~= accepted);
                }
            },
            ChannelOp::Recv => {
                let (q, step) = recv_transition(queued, status);
                lemma_run_conserves(q, status, capacity, rest);
                let (q2, st2, accepted, received) = channel_run(q, status, capacity, rest);
                match step {
                    RecvStep::Received(x) => {
                        assert(queued =~= seq![x] + q);
                        assert(queued + accepted =~= seq![x] + (q + accepted));
                        assert(seq![x] + (received + q2) =~= (seq![x] + received) + q2);
                    },
                    _ => {
                        assert(Seq::<E>::empty() + received =~= received);
                    },
                }
            },
            ChannelOp::Shutdown => {
                lemma_run_conserves(queued, BufferStatus::CLOSE, capacity, rest);
            },
        }
    } else {
        assert(queued + Seq::<E>::empty() =~= queued);
        assert(Seq::<E>::empty() + queued =~= queued);
    }
}

/// First in, first out under any interleaving of sends, receives and
/// shutdowns on a new channel: the messages received are exactly the oldest
/// of the messages accepted, in the order they were accepted; each accepted
/// message is received at most once, nothing else is ever received, and the
/// rest are still queued, in order.
pub proof fn lemma_fifo_any_run<E>(capacity: nat, ops: Seq<ChannelOp<E>>)
    ensures
        ({
            let (q, st, accepted, received) = channel_run(Seq::empty(), BufferStatus::OPEN, capacity, ops);
            &&& accepted == received + q
            &&& received.len() <= accepted.len()
            &&& received == accepted.subrange(0, received.len() as int)
            &&& q == accepted.subrange(received.len() as int, accepted.len() as int)
            &&& q.len() <= capacity
        }),
{
    lemma_run_conserves(Seq::<E>::empty(), BufferStatus::OPEN, capacity, ops);
    let (q, st, accepted, received) = channel_run(Seq::empty(), BufferStatus::OPEN, capacity, ops);
    assert(Seq::<E>::empty() + accepted =~= accepted);
    assert(received =~= (received + q).subrange(0, received.len() as int));
    assert(q =~= (received + q).subrange(received.len() as int, (received + q).len() as int));
}

/// What one send does, in terms of the channel it finds: it fails exactly
/// when the channel is shut down; an open channel with room queues the
/// message last; an open, full channel hands back the very message offered
/// and keeps its queue. Only a send that succeeds changes the queue.
pub proof fn lemma_send_characterized<E>(queued: Seq<E>, status: BufferStatus, capacity: nat, e: E)
    ensures
        (send_transition(queued, status, capacity, e).1 is Closed) <==> status == BufferStatus::CLOSE,
        (send_transition(queued, status, capacity, e).1 is Sent) <==> (status == BufferStatus::OPEN && queued.len() < capacity),
        (send_transition(queued, status, capacity, e).1 is Full) <==> (status == BufferStatus::OPEN && queued.len() >= capacity),
        send_transition(queued, status, capacity, e).1 matches SendStep::Full(x) ==> x == e,
        send_transition(queued, status, capacity, e).1 is Sent ==> send_transition(queued, status, capacity, e).0 == queued.push(e),
        !(send_transition(queued, status, capacity, e).1 is Sent) ==> send_transition(queued, status, capacity, e).0 == queued,
{
}

/// What one receive does, in terms of the channel it finds: while anything
/// is queued it takes the oldest message, whatever the status; with nothing
/// queued it fails exactly when the channel is shut down, and otherwise
/// waits, leaving the queue alone.
pub proof fn lemma_recv_characterized<E>(queued: Seq<E>, status: BufferStatus)
    ensures
        queued.len() > 0 ==> recv_transition(queued, status) == (queued.subrange(1, queued.len() as int), RecvStep::Received(queued[0])),
        (recv_transition(queued, status).1 is Closed) <==> (status == BufferStatus::CLOSE && queued.len() == 0),
        (recv_transition(queued, status).1 is Empty) <==> (status == BufferStatus::OPEN && queued.len() == 0),
        queued.len() == 0 ==> recv_transition(queued, status).0 == queued,
{
    if queued.len() > 0 {
        assert(queued.drop_first() =~= queued.subrange(1, queued.len() as int));
    }
}

} // verus!
