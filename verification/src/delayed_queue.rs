use std::collections::VecDeque;
use vstd::prelude::*;

verus! {

/// An element together with the instant from which it may be taken.
/// Instants are ticks of one clock, as unsigned integers.
pub struct Message<T> {
    pub element: T,
    pub instant: u64,
}

impl<T> Message<T> {
    /// The element `element`, due at `instant`.
    pub fn new(element: T, instant: u64) -> (m: Self)
        ensures
            m.element == element,
            m.instant == instant,
    {
        Message { element, instant }
    }
}

/// What a thread taking from the queue does next.
pub enum TakeStep<T> {
    /// The queue is empty: the take fails.
    Empty,
    /// The earliest element, which is due, taken off the queue.
    Ready(T),
    /// The earliest element is due after this many ticks: sleep at most that
    /// long (or until the queue changes) and look again.
    WaitFor(u64),
}

/// Instants never decrease along the queue.
pub open spec fn sorted_by_instant<T>(s: Seq<Message<T>>) -> bool {
    forall|a: int, b: int| 0 <= a <= b < s.len() ==> s[a].instant <= s[b].instant
}

/// Where an element due at `instant` is placed: before the first element
/// due strictly later, or last if there is none.
pub open spec fn offer_position<T>(s: Seq<Message<T>>, instant: u64) -> nat
    decreases s.len(),
{
    if s.len() == 0 {
        0
    } else if instant < s[0].instant {
        0
    } else {
        1 + offer_position(s.drop_first(), instant)
    }
}

/// One look at the queue at time `now`: the queue afterwards and the outcome.
/// An element is due once its instant lies strictly before `now`.
pub open spec fn take_transition<T>(s: Seq<Message<T>>, now: u64) -> (Seq<Message<T>>, TakeStep<T>) {
    if s.len() == 0 {
        (s, TakeStep::Empty)
    } else if s[0].instant < now {
        (s.drop_first(), TakeStep::Ready(s[0].element))
    } else {
        (s, TakeStep::WaitFor((s[0].instant - now) as u64))
    }
}

/// The position found by a scan that stops at the first element due after
/// `instant` is `offer_position`.
proof fn lemma_offer_position_scan<T>(s: Seq<Message<T>>, instant: u64, p: int)
    requires
        0 <= p <= s.len(),
        forall|k: int| 0 <= k < p ==> !(instant < #[trigger] s[k].instant),
        p < s.len() ==> instant < s[p].instant,
    ensures
        offer_position(s, instant) == p,
    decreases s.len(),
{
    if s.len() > 0 && p > 0 {
        let rest = s.drop_first();
        assert(!(instant < s[0].instant));
        assert forall|k: int| 0 <= k < p - 1 implies !(instant < #[trigger] rest[k].instant) by {
            assert(rest[k] == s[k + 1]);
        }
        if p - 1 < rest.len() {
            assert(rest[p - 1] == s[p]);
        }
        lemma_offer_position_scan(rest, instant, p - 1);
    }
}

/// The elements before the offer position are due no later than `instant`
/// and, in a sorted queue, those from it on are due strictly later.
pub proof fn lemma_offer_position_splits<T>(s: Seq<Message<T>>, instant: u64)
    ensures
        offer_position(s, instant) <= s.len(),
        forall|k: int| 0 <= k < offer_position(s, instant) ==> #[trigger] s[k].instant <= instant,
        sorted_by_instant(s) ==> forall|k: int|
            offer_position(s, instant) <= k < s.len() ==> instant < #[trigger] s[k].instant,
    decreases s.len(),
{
    if s.len() > 0 && !(instant < s[0].instant) {
        let rest = s.drop_first();
        lemma_offer_position_splits(rest, instant);
        assert forall|k: int| 0 <= k < offer_position(s, instant) implies #[trigger] s[k].instant <= instant by {
            if k > 0 {
                assert(s[k] == rest[k - 1]);
            }
        }
        if sorted_by_instant(s) {
            assert(sorted_by_instant(rest)) by {
                assert forall|a: int, b: int| 0 <= a <= b < rest.len() implies rest[a].instant <= rest[b].instant by {
                    assert(rest[a] == s[a + 1]);
                    assert(rest[b] == s[b + 1]);
                }
            }
            assert forall|k: int| offer_position(s, instant) <= k < s.len() implies instant < #[trigger] s[k].instant by {
                assert(s[k] == rest[k - 1]);
            }
        }
    }
}

/// Offering keeps a sorted queue sorted, and an element joins those due at
/// the same instant after them, so equal instants come out in the order
/// they were offered.
pub proof fn lemma_offer_keeps_order<T>(s: Seq<Message<T>>, m: Message<T>)
    requires
        sorted_by_instant(s),
    ensures
        sorted_by_instant(s.insert(offer_position(s, m.instant) as int, m)),
        forall|k: int| 0 <= k < offer_position(s, m.instant) ==> #[trigger] s[k].instant <= m.instant,
{
    lemma_offer_position_splits(s, m.instant);
    let p = offer_position(s, m.instant) as int;
    let t = s.insert(p, m);
    assert forall|a: int, b: int| 0 <= a <= b < t.len() implies t[a].instant <= t[b].instant by {
        if a < p {
            assert(t[a] == s[a]);
        } else if a > p {
            assert(t[a] == s[a - 1]);
        }
        if b < p {
            assert(t[b] == s[b]);
        } else if b > p {
            assert(t[b] == s[b - 1]);
        }
    }
}

/// What is taken from a sorted queue is its earliest element, and only once
/// it is due; while the earliest is not due, nothing is.
pub proof fn lemma_take_earliest<T>(s: Seq<Message<T>>, now: u64)
    requires
        sorted_by_instant(s),
        s.len() > 0,
    ensures
        take_transition(s, now).1 is Ready ==> forall|k: int| 0 <= k < s.len() ==> s[0].instant <= #[trigger] s[k].instant,
        take_transition(s, now).1 is WaitFor ==> forall|k: int| 0 <= k < s.len() ==> !(#[trigger] s[k].instant < now),
{
}

/// The state a delayed queue keeps under its lock: its messages, earliest
/// first.
pub struct DelayedQueue<T> {
    queue: VecDeque<Message<T>>,
}

impl<T> DelayedQueue<T> {
    #[verifier::type_invariant]
    spec fn in_order(self) -> bool {
        sorted_by_instant(self.queue@)
    }

    /// The queued messages, earliest first.
    pub closed spec fn messages(self) -> Seq<Message<T>> {
        self.queue@
    }

    /// An empty queue.
    pub fn new() -> (q: Self)
        ensures
            q.messages() == Seq::<Message<T>>::empty(),
            sorted_by_instant(q.messages()),
    {
        DelayedQueue { queue: VecDeque::new() }
    }

    /// Queues `t`, due at `i`, at `offer_position`: after every message due
    /// no later than `i`, before every message due later.
    pub fn offer(&mut self, t: T, i: u64)
        ensures
            final(self).messages() == old(self).messages().insert(
                offer_position(old(self).messages(), i) as int,
                Message { element: t, instant: i },
            ),
            sorted_by_instant(final(self).messages()),
    {
        proof { use_type_invariant(&*self); }
        let mut queue = VecDeque::new();
        std::mem::swap(&mut queue, &mut self.queue);
        let ghost s = queue@;
        let mut j: usize = 0;
        while j < queue.len() && !(i < queue[j].instant)
            invariant
                queue@ == s,
                j <= s.len(),
                forall|k: int| 0 <= k < j ==> !(i < #[trigger] s[k].instant),
            decreases s.len() - j,
        {
            j = j + 1;
        }
        proof {
            lemma_offer_position_scan(s, i, j as int);
            lemma_offer_keeps_order(s, Message { element: t, instant: i });
        }
        queue.insert(j, Message::new(t, i));
        self.queue = queue;
    }

    /// One look at the queue at time `now` (see `take_transition`).
    pub fn take_step(&mut self, now: u64) -> (step: TakeStep<T>)
        ensures
            (final(self).messages(), step) == take_transition(old(self).messages(), now),
            sorted_by_instant(final(self).messages()),
    {
        proof { use_type_invariant(&*self); }
        if self.queue.len() == 0 {
            return TakeStep::Empty;
        }
        let due = self.queue[0].instant;
        if due < now {
            let mut queue = VecDeque::new();
            std::mem::swap(&mut queue, &mut self.queue);
            let ghost s = queue@;
            let front = queue.pop_front();
            proof {
                assert forall|a: int, b: int| 0 <= a <= b < queue@.len() implies queue@[a].instant <= queue@[b].instant by {
                    assert(queue@[a] == s[a + 1]);
                    assert(queue@[b] == s[b + 1]);
                }
            }
            self.queue = queue;
            match front {
                Some(m) => TakeStep::Ready(m.element),
                None => TakeStep::Empty,
            }
        } else {
            TakeStep::WaitFor(due - now)
        }
    }

    /// The message at position `k`, counting from the earliest.
    pub fn message(&self, k: usize) -> (m: &Message<T>)
        requires
            k < self.messages().len(),
        ensures
            *m == self.messages()[k as int],
            sorted_by_instant(self.messages()),
    {
        proof { use_type_invariant(self); }
        &self.queue[k]
    }

    /// Number of queued messages.
    pub fn size(&self) -> (n: usize)
        ensures
            n == self.messages().len(),
            sorted_by_instant(self.messages()),
    {
        proof { use_type_invariant(self); }
        self.queue.len()
    }
}

/// The messages due exactly at instant `t`.
pub open spec fn due_at<T>(t: u64) -> spec_fn(Message<T>) -> bool {
    |m: Message<T>| m.instant == t
}

/// The queue after the messages of `xs` are offered one after another.
pub open spec fn offer_all<T>(s: Seq<Message<T>>, xs: Seq<Message<T>>) -> Seq<Message<T>>
    decreases xs.len(),
{
    if xs.len() == 0 {
        s
    } else {
        let prev = offer_all(s, xs.drop_last());
        prev.insert(offer_position(prev, xs.last().instant) as int, xs.last())
    }
}

/// `n` looks at the queue at time `now`: their outcomes, in order.
pub open spec fn take_all<T>(s: Seq<Message<T>>, now: u64, n: nat) -> Seq<TakeStep<T>>
    decreases n,
{
    if n == 0 {
        Seq::empty()
    } else {
        let (next, step) = take_transition(s, now);
        seq![step] + take_all(next, now, (n - 1) as nat)
    }
}

/// Offering `m` to a sorted queue adds it last among the messages due at
/// its instant, and leaves those due at other instants alone.
proof fn lemma_offer_filter<T>(s: Seq<Message<T>>, m: Message<T>, t: u64)
    requires
        sorted_by_instant(s),
    ensures
        s.insert(offer_position(s, m.instant) as int, m).filter(due_at(t)) == if m.instant == t {
            s.filter(due_at(t)).push(m)
        } else {
            s.filter(due_at(t))
        },
{
    broadcast use Seq::filter_distributes_over_add;
    lemma_offer_position_splits(s, m.instant);
    let p = offer_position(s, m.instant) as int;
    let a = s.subrange(0, p);
    let b = s.subrange(p, s.len() as int);
    let pred = due_at::<T>(t);
    assert(s =~= a + b);
    assert(s.insert(p, m) =~= a + (seq![m] + b));
    reveal_with_fuel(Seq::filter, 2);
    assert(seq![m].drop_last() =~= Seq::<Message<T>>::empty());
    if m.instant == t {
        assert forall|k: int| 0 <= k < b.len() implies !pred(#[trigger] b[k]) by {
            assert(b[k] == s[p + k]);
        }
        assert(b.all(|x: Message<T>| !pred(x)));
        b.lemma_all_neg_filter_empty(pred);
        assert(b.filter(pred) =~= Seq::<Message<T>>::empty());
        assert(seq![m].filter(pred) =~= seq![m]);
        assert(a.filter(pred) + (seq![m] + Seq::<Message<T>>::empty()) =~= (a.filter(pred) + Seq::<Message<T>>::empty()).push(m));
    } else {
        assert(seq![m].filter(pred) =~= Seq::<Message<T>>::empty());
        assert(Seq::<Message<T>>::empty() + b.filter(pred) =~= b.filter(pred));
    }
}

/// Offering messages one after another to an empty queue gives a queue
/// sorted by instant whose messages due at each instant are exactly those
/// offered for it, none lost and none repeated, in the order they were
/// offered.
pub proof fn lemma_offer_all<T>(xs: Seq<Message<T>>)
    ensures
        sorted_by_instant(offer_all(Seq::empty(), xs)),
        offer_all(Seq::empty(), xs).len() == xs.len(),
        forall|t: u64| #[trigger] offer_all(Seq::empty(), xs).filter(due_at(t)) == xs.filter(due_at(t)),
    decreases xs.len(),
{
    if xs.len() > 0 {
        let init = xs.drop_last();
        lemma_offer_all(init);
        let prev = offer_all(Seq::empty(), init);
        lemma_offer_keeps_order(prev, xs.last());
        lemma_offer_position_splits(prev, xs.last().instant);
        assert(xs =~= init.push(xs.last()));
        assert forall|t: u64| #[trigger] offer_all(Seq::empty(), xs).filter(due_at(t)) == xs.filter(due_at(t)) by {
            lemma_offer_filter(prev, xs.last(), t);
            init.lemma_filter_push(xs.last(), due_at(t));
        }
    } else {
        reveal_with_fuel(Seq::filter, 1);
    }
}

/// Looking at a time later than every instant in the queue takes its
/// messages one by one in queue order, and then finds the queue empty.
pub proof fn lemma_take_all_due<T>(s: Seq<Message<T>>, now: u64, extra: nat)
    requires
        forall|k: int| 0 <= k < s.len() ==> #[trigger] s[k].instant < now,
    ensures
        take_all(s, now, s.len() + extra) == Seq::new(s.len(), |k: int| TakeStep::Ready(s[k].element))
            + Seq::new(extra, |k: int| TakeStep::<T>::Empty),
    decreases s.len() + extra,
{
    if s.len() > 0 {
        let rest = s.drop_first();
        assert forall|k: int| 0 <= k < rest.len() implies #[trigger] rest[k].instant < now by {
            assert(rest[k] == s[k + 1]);
        }
        lemma_take_all_due(rest, now, extra);
        assert((s.len() + extra - 1) as nat == rest.len() + extra);
        assert(seq![TakeStep::Ready(s[0].element)] + (Seq::new(rest.len(), |k: int| TakeStep::Ready(rest[k].element))
            + Seq::new(extra, |k: int| TakeStep::<T>::Empty))
            =~= Seq::new(s.len(), |k: int| TakeStep::Ready(s[k].element))
            + Seq::new(extra, |k: int| TakeStep::<T>::Empty));
    } else if extra > 0 {
        lemma_take_all_due(s, now, (extra - 1) as nat);
        assert((s.len() + extra - 1) as nat == s.len() + (extra - 1) as nat);
        assert(seq![TakeStep::<T>::Empty] + (Seq::new(0, |k: int| TakeStep::Ready(s[k].element))
            + Seq::new((extra - 1) as nat, |k: int| TakeStep::<T>::Empty))
            =~= Seq::new(s.len(), |k: int| TakeStep::Ready(s[k].element))
            + Seq::new(extra, |k: int| TakeStep::<T>::Empty));
    } else {
        assert(Seq::<TakeStep<T>>::empty() =~= Seq::new(0, |k: int| TakeStep::Ready(s[k].element))
            + Seq::new(0, |k: int| TakeStep::<T>::Empty));
    }
}

/// Offers followed by takes on one thread: after the messages `xs` are
/// offered to an empty queue, looks at a time later than all their instants
/// take them all, in order of their instants, those due at the same instant
/// in the order offered, none lost and none repeated; then the queue is
/// empty.
pub proof fn lemma_offers_then_takes<T>(xs: Seq<Message<T>>, now: u64, extra: nat)
    requires
        forall|k: int| 0 <= k < xs.len() ==> #[trigger] xs[k].instant < now,
    ensures
        ({
            let q = offer_all(Seq::empty(), xs);
            &&& sorted_by_instant(q)
            &&& forall|t: u64| #[trigger] q.filter(due_at(t)) == xs.filter(due_at(t))
            &&& take_all(q, now, xs.len() + extra) == Seq::new(xs.len(), |k: int| TakeStep::Ready(q[k].element))
                + Seq::new(extra, |k: int| TakeStep::<T>::Empty)
        }),
{
    lemma_offer_all(xs);
    let q = offer_all(Seq::empty(), xs);
    assert forall|k: int| 0 <= k < q.len() implies #[trigger] q[k].instant < now by {
        let t = q[k].instant;
        let pred = due_at::<T>(t);
        q.lemma_filter_contains(pred, k);
        let f = xs.filter(pred);
        assert(f.contains(q[k]));
        let j = choose|j: int| 0 <= j < f.len() && f[j] == q[k];
        lemma_filter_member(xs, pred, j);
    }
    lemma_take_all_due(q, now, extra);
}

/// Every element of a filtered sequence comes from the sequence.
proof fn lemma_filter_member<A>(s: Seq<A>, pred: spec_fn(A) -> bool, j: int)
    requires
        0 <= j < s.filter(pred).len(),
    ensures
        exists|k: int| 0 <= k < s.len() && s[k] == #[trigger] s.filter(pred)[j],
    decreases s.len(),
{
    reveal_with_fuel(Seq::filter, 1);
    let init = s.drop_last();
    if pred(s.last()) && j == s.filter(pred).len() - 1 {
        assert(s[s.len() - 1] == s.filter(pred)[j]);
    } else {
        assert(s.filter(pred)[j] == init.filter(pred)[j]);
        lemma_filter_member(init, pred, j);
        let k = choose|k: int| 0 <= k < init.len() && init[k] == #[trigger] init.filter(pred)[j];
        assert(s[k] == init[k]);
    }
}

/// One operation on a delayed queue, as the threads using it perform them
/// under its lock.
pub enum QueueOp<T> {
    /// An offer of this element, due at this instant.
    Offer(T, u64),
    /// A look by a taking thread at this time.
    Take(u64),
}

/// A run of operations: the queue afterwards, the number of offers and the
/// messages taken, in order.
pub open spec fn queue_run<T>(s: Seq<Message<T>>, ops: Seq<QueueOp<T>>) -> (Seq<Message<T>>, nat, Seq<Message<T>>)
    decreases ops.len(),
{
    if ops.len() == 0 {
        (s, 0, Seq::empty())
    } else {
        match ops[0] {
            QueueOp::Offer(t, i) => {
                let m = Message { element: t, instant: i };
                let (q, offers, taken) = queue_run(s.insert(offer_position(s, i) as int, m), ops.drop_first());
                (q, offers + 1, taken)
            },
            QueueOp::Take(now) => {
                let (next, step) = take_transition(s, now);
                let (q, offers, taken) = queue_run(next, ops.drop_first());
                let now_taken = if step is Ready { seq![s[0]] } else { Seq::empty() };
                (q, offers, now_taken + taken)
            },
        }
    }
}

/// Over any run of offers and takes, the queue stays sorted, and its size is
/// its size before plus the number of offers minus the number of elements
/// taken.
pub proof fn lemma_queue_run_size<T>(s: Seq<Message<T>>, ops: Seq<QueueOp<T>>)
    requires
        sorted_by_instant(s),
    ensures
        ({
            let (q, offers, taken) = queue_run(s, ops);
            &&& sorted_by_instant(q)
            &&& q.len() + taken.len() == s.len() + offers
        }),
    decreases ops.len(),
{
    if ops.len() > 0 {
        match ops[0] {
            QueueOp::Offer(t, i) => {
                let m = Message { element: t, instant: i };
                lemma_offer_keeps_order(s, m);
                lemma_offer_position_splits(s, i);
                lemma_queue_run_size(s.insert(offer_position(s, i) as int, m), ops.drop_first());
            },
            QueueOp::Take(now) => {
                let (next, step) = take_transition(s, now);
                assert(sorted_by_instant(next)) by {
                    assert forall|a: int, b: int| 0 <= a <= b < next.len() implies next[a].instant <= next[b].instant by {
                        if step is Ready {
                            assert(next[a] == s[a + 1]);
                            assert(next[b] == s[b + 1]);
                        }
                    }
                }
                lemma_queue_run_size(next, ops.drop_first());
            },
        }
    }
}

/// The messages taken by looks at any times, one after another, followed by
/// those still queued, are the queue as it was: takes hand out the queue
/// from its earliest message on, in order, none twice.
pub proof fn lemma_takes_in_order<T>(s: Seq<Message<T>>, nows: Seq<u64>)
    ensures
        ({
            let (q, offers, taken) = queue_run(s, nows.map_values(|now: u64| QueueOp::<T>::Take(now)));
            &&& offers == 0
            &&& taken + q == s
        }),
    decreases nows.len(),
{
    let ops = nows.map_values(|now: u64| QueueOp::<T>::Take(now));
    if nows.len() > 0 {
        let rest = nows.drop_first();
        assert(ops.drop_first() =~= rest.map_values(|now: u64| QueueOp::<T>::Take(now)));
        let (next, step) = take_transition(s, nows[0]);
        lemma_takes_in_order(next, rest);
        let (q, offers, taken) = queue_run(next, ops.drop_first());
        if step is Ready {
            assert(seq![s[0]] + taken + q =~= seq![s[0]] + (taken + q));
            assert(s =~= seq![s[0]] + next);
        } else {
            assert(Seq::<Message<T>>::empty() + taken =~= taken);
        }
    } else {
        assert(Seq::<Message<T>>::empty() + s =~= s);
    }
}

/// Offers and then takes at any times, on one thread: after the messages
/// `xs` are offered to an empty queue, the elements taken by later looks,
/// whenever they are made, are the messages of the sorted queue from its
/// start, in order: by instant, those due at the same instant in the order
/// offered, none lost and none repeated; the rest are still queued.
pub proof fn lemma_offers_then_takes_any_times<T>(xs: Seq<Message<T>>, nows: Seq<u64>)
    ensures
        ({
            let q = offer_all(Seq::empty(), xs);
            let (rest, offers, taken) = queue_run(q, nows.map_values(|now: u64| QueueOp::<T>::Take(now)));
            &&& sorted_by_instant(q)
            &&& forall|t: u64| #[trigger] q.filter(due_at(t)) == xs.filter(due_at(t))
            &&& taken + rest == q
            &&& sorted_by_instant(taken)
        }),
{
    lemma_offer_all(xs);
    let q = offer_all(Seq::empty(), xs);
    lemma_takes_in_order(q, nows);
    let (rest, offers, taken) = queue_run(q, nows.map_values(|now: u64| QueueOp::<T>::Take(now)));
    assert forall|a: int, b: int| 0 <= a <= b < taken.len() implies taken[a].instant <= taken[b].instant by {
        assert(taken[a] == q[a]);
        assert(taken[b] == q[b]);
    }
}

/// What one look at the queue does, in terms of the queue it finds: it
/// fails exactly when the queue is empty; it hands out the earliest message,
/// removing it, exactly when that message is due; otherwise it leaves the
/// queue alone and waits exactly until the earliest message becomes due, no
/// longer than any queued message needs.
pub proof fn lemma_take_characterized<T>(s: Seq<Message<T>>, now: u64)
    requires
        sorted_by_instant(s),
    ensures
        (take_transition(s, now).1 is Empty) <==> s.len() == 0,
        (take_transition(s, now).1 is Ready) <==> (s.len() > 0 && s[0].instant < now),
        take_transition(s, now).1 is Ready ==> take_transition(s, now) == (
            s.subrange(1, s.len() as int),
            TakeStep::Ready(s[0].element),
        ),
        take_transition(s, now).1 is Ready ==> forall|k: int| 0 <= k < s.len() ==> s[0].instant <= #[trigger] s[k].instant,
        !(take_transition(s, now).1 is Ready) ==> take_transition(s, now).0 == s,
        take_transition(s, now).1 matches TakeStep::WaitFor(d) ==> {
            &&& now + d == s[0].instant
            &&& forall|k: int| 0 <= k < s.len() ==> now + d <= #[trigger] s[k].instant
            &&& forall|k: int| 0 <= k < s.len() ==> !(#[trigger] s[k].instant < now)
        },
{
    if s.len() > 0 {
        assert(s.drop_first() =~= s.subrange(1, s.len() as int));
    }
}

} // verus!
