use vstd::prelude::*;

verus! {

/// Where a dispatch round sends the message next.
#[derive(PartialEq, Eq, Structural, Clone, Copy, Debug)]
pub enum DispatchTarget {
    /// Send it to the subscriber at this position.
    Send(usize),
    /// The round is over.
    Done,
    /// The round has reached a position past the end of the shrunken list:
    /// there is no subscriber to send to.
    Missing,
}

/// The position a round visits next, out of `len` subscribers, in a round
/// that visits positions below `end`.
pub open spec fn dispatch_target(next: nat, end: nat, len: nat) -> DispatchTarget {
    if next >= end {
        DispatchTarget::Done
    } else if next < len {
        DispatchTarget::Send(next as usize)
    } else {
        DispatchTarget::Missing
    }
}

/// What a round's next look decides, in terms of its position: the round
/// is over exactly when it has visited every position below `end`; before
/// that it sends to the position it has reached, which must be in the list;
/// a position past the end of a list that has shrunk has no subscriber.
pub proof fn lemma_target_characterized(next: nat, end: nat, len: nat)
    requires
        next <= usize::MAX,
    ensures
        (dispatch_target(next, end, len) == DispatchTarget::Done) <==> next >= end,
        (dispatch_target(next, end, len) == DispatchTarget::Missing) <==> (next < end && next >= len),
        (dispatch_target(next, end, len) == DispatchTarget::Send(next as usize)) <==> (next < end && next < len),
        forall|i: usize| dispatch_target(next, end, len) == DispatchTarget::Send(i) ==> i == next,
{
}

/// The subscribers after a send to position `at`: one whose channel is gone
/// is dropped from the list.
pub open spec fn after_delivery<S>(subs: Seq<S>, at: nat, delivered: bool) -> Seq<S> {
    if delivered {
        subs
    } else {
        subs.remove(at as int)
    }
}

/// A round from position `next`, with `outcomes[k]` telling whether the send
/// at position `k` reached its subscriber: the subscribers afterwards, the
/// subscribers sent to, in order, and whether the round ran past the end of
/// the list.
pub open spec fn dispatch_round<S>(subs: Seq<S>, next: nat, end: nat, outcomes: Seq<bool>) -> (Seq<S>, Seq<S>, bool)
    decreases end - next,
{
    match dispatch_target(next, end, subs.len()) {
        DispatchTarget::Done => (subs, Seq::empty(), false),
        DispatchTarget::Missing => (subs, Seq::empty(), true),
        DispatchTarget::Send(_) => {
            let (f, sent, missing) = dispatch_round(after_delivery(subs, next, outcomes[next as int]), next + 1, end, outcomes);
            (f, seq![subs[next as int]] + sent, missing)
        },
    }
}

/// The progress of one dispatch round: the next position to visit and the
/// number of subscribers there were when the round began.
pub struct DispatchRound {
    next: usize,
    end: usize,
}

impl DispatchRound {
    /// The next position to visit.
    pub closed spec fn next(self) -> nat {
        self.next as nat
    }

    /// The round visits the positions below this one.
    pub closed spec fn end(self) -> nat {
        self.end as nat
    }
}

/// The list of subscribers of a dispatcher, each represented by the handle
/// a message is sent through.
pub struct Dispatcher<S> {
    senders: Vec<S>,
}

impl<S> Dispatcher<S> {
    /// The subscribers, in the order they subscribed.
    pub closed spec fn subscribers(self) -> Seq<S> {
        self.senders@
    }

    /// A dispatcher with no subscriber.
    pub fn new() -> (d: Self)
        ensures
            d.subscribers() == Seq::<S>::empty(),
    {
        Dispatcher { senders: Vec::new() }
    }

    /// Adds a subscriber at the end of the list.
    pub fn subscribe(&mut self, sender: S)
        ensures
            final(self).subscribers() == old(self).subscribers().push(sender),
    {
        self.senders.push(sender);
    }

    /// Number of subscribers.
    pub fn len(&self) -> (n: usize)
        ensures
            n == self.subscribers().len(),
    {
        self.senders.len()
    }

    /// The subscriber at position `i`.
    pub fn subscriber(&self, i: usize) -> (s: &S)
        requires
            i < self.subscribers().len(),
        ensures
            *s == self.subscribers()[i as int],
    {
        &self.senders[i]
    }

    /// Begins a round over the present subscribers.
    pub fn start_dispatch(&self) -> (round: DispatchRound)
        ensures
            round.next() == 0,
            round.end() == self.subscribers().len(),
    {
        DispatchRound { next: 0, end: self.senders.len() }
    }

    /// Where the round sends next (see `dispatch_target`).
    pub fn next_target(&self, round: &DispatchRound) -> (target: DispatchTarget)
        ensures
            target == dispatch_target(round.next(), round.end(), self.subscribers().len()),
    {
        if round.next >= round.end {
            DispatchTarget::Done
        } else if round.next < self.senders.len() {
            DispatchTarget::Send(round.next)
        } else {
            DispatchTarget::Missing
        }
    }

    /// Records whether the send at the round's position reached its
    /// subscriber: a subscriber that is gone is removed, and the round moves
    /// on to the next position.
    pub fn record_delivery(&mut self, round: &mut DispatchRound, delivered: bool)
        requires
            old(round).next() < old(round).end(),
            old(round).next() < old(self).subscribers().len(),
        ensures
            final(self).subscribers() == after_delivery(old(self).subscribers(), old(round).next(), delivered),
            final(round).next() == old(round).next() + 1,
            final(round).end() == old(round).end(),
    {
        if !delivered {
            self.senders.remove(round.next);
        }
        round.next = round.next + 1;
    }
}

/// A round over a list that has become shorter than the round's end runs
/// past the end of the list.
proof fn lemma_short_list_faults<S>(subs: Seq<S>, next: nat, end: nat, outcomes: Seq<bool>)
    requires
        subs.len() < end,
        next < end,
    ensures
        dispatch_round(subs, next, end, outcomes).2,
    decreases end - next,
{
    if next < subs.len() {
        let subs2 = after_delivery(subs, next, outcomes[next as int]);
        lemma_short_list_faults(subs2, next + 1, end, outcomes);
    }
}

/// A round from `next` in which no send before the last position fails
/// reaches its end: it sends to each remaining subscriber once, in order,
/// and drops the last one only if that send fails.
proof fn lemma_round_completes<S>(subs: Seq<S>, next: nat, outcomes: Seq<bool>)
    requires
        next < subs.len(),
        forall|k: int| next <= k < subs.len() - 1 ==> outcomes[k],
    ensures
        dispatch_round(subs, next, subs.len(), outcomes) == (
            after_delivery(subs, (subs.len() - 1) as nat, outcomes[subs.len() - 1]),
            subs.subrange(next as int, subs.len() as int),
            false,
        ),
    decreases subs.len() - next,
{
    let n = subs.len();
    if next + 1 < n {
        assert(outcomes[next as int]);
        lemma_round_completes(subs, next + 1, outcomes);
        assert(seq![subs[next as int]] + subs.subrange((next + 1) as int, n as int) =~= subs.subrange(next as int, n as int));
    } else {
        let subs2 = after_delivery(subs, next, outcomes[next as int]);
        assert(dispatch_round(subs2, next + 1, n, outcomes) == (subs2, Seq::<S>::empty(), false));
        assert(seq![subs[next as int]] + Seq::<S>::empty() =~= subs.subrange(next as int, n as int));
    }
}

/// A round from `next` over a list as long as the round in which a send
/// fails before the last position runs past the end of the list.
proof fn lemma_early_failure_faults<S>(subs: Seq<S>, next: nat, outcomes: Seq<bool>, k: int)
    requires
        next <= k < subs.len() - 1,
        !outcomes[k],
    ensures
        dispatch_round(subs, next, subs.len(), outcomes).2,
    decreases subs.len() - next,
{
    let n = subs.len();
    if outcomes[next as int] {
        lemma_early_failure_faults(subs, next + 1, outcomes, k);
    } else {
        let subs2 = after_delivery(subs, next, false);
        lemma_short_list_faults(subs2, next + 1, n, outcomes);
    }
}

/// A dispatch round over `n` subscribers, where `outcomes[k]` tells whether
/// the send at position `k` reaches its subscriber. When every send before
/// the last position succeeds, each subscriber is sent the message once, in
/// the order they subscribed, and only the last one is dropped if its send
/// fails. When a send before the last position fails, the round runs past
/// the end of the shrunken list.
pub proof fn lemma_dispatch_round<S>(subs: Seq<S>, outcomes: Seq<bool>)
    requires
        subs.len() > 0,
    ensures
        (forall|k: int| 0 <= k < subs.len() - 1 ==> outcomes[k]) ==> dispatch_round(subs, 0, subs.len(), outcomes) == (
            after_delivery(subs, (subs.len() - 1) as nat, outcomes[subs.len() - 1]),
            subs,
            false,
        ),
        (exists|k: int| 0 <= k < subs.len() - 1 && !outcomes[k]) ==> dispatch_round(subs, 0, subs.len(), outcomes).2,
{
    if forall|k: int| 0 <= k < subs.len() - 1 ==> outcomes[k] {
        lemma_round_completes(subs, 0, outcomes);
        assert(subs.subrange(0, subs.len() as int) =~= subs);
    }
    if exists|k: int| 0 <= k < subs.len() - 1 && !outcomes[k] {
        let k = choose|k: int| 0 <= k < subs.len() - 1 && !outcomes[k];
        lemma_early_failure_faults(subs, 0, outcomes, k);
    }
}

/// With no subscriber, a round ends at once.
pub proof fn lemma_dispatch_round_empty<S>(outcomes: Seq<bool>)
    ensures
        dispatch_round(Seq::<S>::empty(), 0, 0, outcomes) == (Seq::<S>::empty(), Seq::<S>::empty(), false),
{
}

/// A round from position `next` in which the send to a subscriber reaches
/// it exactly when `live` holds of it: the subscribers afterwards, those the
/// message reached, in order, and whether the round ran past the end of the
/// list.
pub open spec fn live_round<S>(subs: Seq<S>, next: nat, end: nat, live: spec_fn(S) -> bool) -> (Seq<S>, Seq<S>, bool)
    decreases end - next,
{
    match dispatch_target(next, end, subs.len()) {
        DispatchTarget::Done => (subs, Seq::empty(), false),
        DispatchTarget::Missing => (subs, Seq::empty(), true),
        DispatchTarget::Send(_) => {
            let ok = live(subs[next as int]);
            let (f, reached, missing) = live_round(after_delivery(subs, next, ok), next + 1, end, live);
            (f, if ok { seq![subs[next as int]] + reached } else { reached }, missing)
        },
    }
}

/// The subscribers kept by a round that does not fault: all of them, but the
/// last one if it is gone.
pub open spec fn kept_after_round<S>(subs: Seq<S>, live: spec_fn(S) -> bool) -> Seq<S> {
    if subs.len() > 0 && !live(subs.last()) {
        subs.drop_last()
    } else {
        subs
    }
}

proof fn lemma_live_short_list_faults<S>(subs: Seq<S>, next: nat, end: nat, live: spec_fn(S) -> bool)
    requires
        subs.len() < end,
        next < end,
    ensures
        live_round(subs, next, end, live).2,
    decreases end - next,
{
    if next < subs.len() {
        lemma_live_short_list_faults(after_delivery(subs, next, live(subs[next as int])), next + 1, end, live);
    }
}

proof fn lemma_live_round_completes<S>(subs: Seq<S>, next: nat, live: spec_fn(S) -> bool)
    requires
        next < subs.len(),
        forall|k: int| next <= k < subs.len() - 1 ==> live(#[trigger] subs[k]),
    ensures
        live_round(subs, next, subs.len(), live) == (
            kept_after_round(subs, live),
            kept_after_round(subs, live).subrange(next as int, kept_after_round(subs, live).len() as int),
            false,
        ),
    decreases subs.len() - next,
{
    let n = subs.len();
    let kept = kept_after_round(subs, live);
    if next + 1 < n {
        assert(live(subs[next as int]));
        lemma_live_round_completes(subs, next + 1, live);
        assert(seq![subs[next as int]] + kept.subrange((next + 1) as int, kept.len() as int) =~= kept.subrange(next as int, kept.len() as int));
    } else {
        let ok = live(subs[next as int]);
        let subs2 = after_delivery(subs, next, ok);
        assert(live_round(subs2, next + 1, n, live) == (subs2, Seq::<S>::empty(), false));
        if ok {
            assert(seq![subs[next as int]] + Seq::<S>::empty() =~= kept.subrange(next as int, kept.len() as int));
        } else {
            assert(subs2 =~= subs.drop_last());
            assert(Seq::<S>::empty() =~= kept.subrange(next as int, kept.len() as int));
        }
    }
}

proof fn lemma_live_early_failure_faults<S>(subs: Seq<S>, next: nat, live: spec_fn(S) -> bool, k: int)
    requires
        next <= k < subs.len() - 1,
        !live(subs[k]),
    ensures
        live_round(subs, next, subs.len(), live).2,
    decreases subs.len() - next,
{
    if live(subs[next as int]) {
        lemma_live_early_failure_faults(subs, next + 1, live, k);
    } else {
        lemma_live_short_list_faults(after_delivery(subs, next, false), next + 1, subs.len(), live);
    }
}

/// A round in which the sends reach exactly the subscribers that are live.
/// When every subscriber before the last position is live, the round
/// reaches each live subscriber once, in the order they subscribed, and
/// keeps them all, dropping only the last one if it is gone. When one before
/// the last position is gone, the round runs past the end of the list.
pub proof fn lemma_live_round<S>(subs: Seq<S>, live: spec_fn(S) -> bool)
    ensures
        (forall|k: int| 0 <= k < subs.len() - 1 ==> live(#[trigger] subs[k])) ==> live_round(subs, 0, subs.len(), live) == (
            kept_after_round(subs, live),
            kept_after_round(subs, live),
            false,
        ),
        (exists|k: int| 0 <= k < subs.len() - 1 && !live(#[trigger] subs[k])) ==> live_round(subs, 0, subs.len(), live).2,
{
    if subs.len() == 0 {
        assert(kept_after_round(subs, live) == subs);
        assert(subs =~= Seq::<S>::empty());
    } else {
        if forall|k: int| 0 <= k < subs.len() - 1 ==> live(#[trigger] subs[k]) {
            lemma_live_round_completes(subs, 0, live);
            let kept = kept_after_round(subs, live);
            assert(kept.subrange(0, kept.len() as int) =~= kept);
        }
        if exists|k: int| 0 <= k < subs.len() - 1 && !live(#[trigger] subs[k]) {
            let k = choose|k: int| 0 <= k < subs.len() - 1 && !live(#[trigger] subs[k]);
            lemma_live_early_failure_faults(subs, 0, live, k);
        }
    }
}

/// One operation on a dispatcher, as the threads using it perform them
/// under its lock.
pub enum DispatcherOp<S, M> {
    /// A subscription, adding this subscriber.
    Subscribe(S),
    /// A whole dispatch round of this message.
    Dispatch(M),
}

/// How many times `s` occurs in `subs`.
pub open spec fn occurrences<S>(subs: Seq<S>, s: S) -> nat
    decreases subs.len(),
{
    if subs.len() == 0 {
        0
    } else {
        occurrences(subs.drop_last(), s) + if subs.last() == s { 1nat } else { 0nat }
    }
}

/// The messages of the run's dispatch rounds, in order.
pub open spec fn dispatched<S, M>(ops: Seq<DispatcherOp<S, M>>) -> Seq<M>
    decreases ops.len(),
{
    if ops.len() == 0 {
        Seq::empty()
    } else {
        let now = match ops[0] {
            DispatcherOp::Subscribe(_) => Seq::empty(),
            DispatcherOp::Dispatch(m) => seq![m],
        };
        now + dispatched(ops.drop_first())
    }
}

/// Whether some round of the run runs past the end of the list, when
/// `live(i, x)` tells whether subscriber `x` can still be reached during
/// operation `i`.
pub open spec fn run_faults<S, M>(subs: Seq<S>, ops: Seq<DispatcherOp<S, M>>, live: spec_fn(nat, S) -> bool) -> bool
    decreases ops.len(),
{
    if ops.len() == 0 {
        false
    } else {
        let later = |i: nat, x: S| live(i + 1, x);
        match ops[0] {
            DispatcherOp::Subscribe(t) => run_faults(subs.push(t), ops.drop_first(), later),
            DispatcherOp::Dispatch(m) => {
                let (after, reached, missing) = live_round(subs, 0, subs.len(), |x: S| live(0, x));
                missing || run_faults(after, ops.drop_first(), later)
            },
        }
    }
}

/// The messages that reach subscriber `s` over a run, when `live(i, x)`
/// tells whether subscriber `x` can still be reached during operation `i`:
/// each round sends its message once for each time `s` is among those it
/// reaches. A round that runs past the end of the list ends the run.
pub open spec fn received_by<S, M>(subs: Seq<S>, ops: Seq<DispatcherOp<S, M>>, live: spec_fn(nat, S) -> bool, s: S) -> Seq<M>
    decreases ops.len(),
{
    if ops.len() == 0 {
        Seq::empty()
    } else {
        let later = |i: nat, x: S| live(i + 1, x);
        match ops[0] {
            DispatcherOp::Subscribe(t) => received_by(subs.push(t), ops.drop_first(), later, s),
            DispatcherOp::Dispatch(m) => {
                let (after, reached, missing) = live_round(subs, 0, subs.len(), |x: S| live(0, x));
                let now = Seq::new(occurrences(reached, s), |i: int| m);
                if missing {
                    now
                } else {
                    now + received_by(after, ops.drop_first(), later, s)
                }
            },
        }
    }
}

/// A round that does not fault keeps, and reaches, a live subscriber as
/// often as it is in the list, and keeps an absent one absent.
proof fn lemma_round_keeps_count<S>(subs: Seq<S>, live: spec_fn(S) -> bool, s: S)
    requires
        !live_round(subs, 0, subs.len(), live).2,
        live(s) || occurrences(subs, s) == 0,
    ensures
        ({
            let (after, reached, missing) = live_round(subs, 0, subs.len(), live);
            &&& after == reached
            &&& occurrences(after, s) == occurrences(subs, s)
        }),
{
    lemma_live_round(subs, live);
    if exists|k: int| 0 <= k < subs.len() - 1 && !live(#[trigger] subs[k]) {
        assert(false);
    }
}

/// A subscriber that is in the list once, stays live and does not subscribe
/// again receives the message of every later round, in order, while no
/// round faults.
proof fn lemma_subscribed_receives<S, M>(subs: Seq<S>, ops: Seq<DispatcherOp<S, M>>, live: spec_fn(nat, S) -> bool, s: S)
    requires
        occurrences(subs, s) == 1,
        forall|i: int| 0 <= i < ops.len() ==> !(#[trigger] ops[i] matches DispatcherOp::Subscribe(t) && t == s),
        forall|i: nat| i < ops.len() ==> #[trigger] live(i, s),
        !run_faults(subs, ops, live),
    ensures
        received_by(subs, ops, live, s) == dispatched(ops),
    decreases ops.len(),
{
    if ops.len() > 0 {
        let rest = ops.drop_first();
        let later = |i: nat, x: S| live(i + 1, x);
        assert forall|i: int| 0 <= i < rest.len() implies !(#[trigger] rest[i] matches DispatcherOp::Subscribe(t) && t == s) by {
            assert(rest[i] == ops[i + 1]);
        }
        assert forall|i: nat| i < rest.len() implies #[trigger] later(i, s) by {
            assert(live(i + 1, s));
        }
        match ops[0] {
            DispatcherOp::Subscribe(t) => {
                assert(subs.push(t).drop_last() =~= subs);
                lemma_subscribed_receives(subs.push(t), rest, later, s);
                assert(dispatched(ops) =~= dispatched(rest));
            },
            DispatcherOp::Dispatch(m) => {
                let now_live = |x: S| live(0, x);
                assert(live(0, s));
                lemma_round_keeps_count(subs, now_live, s);
                let (after, reached, missing) = live_round(subs, 0, subs.len(), now_live);
                lemma_subscribed_receives(after, rest, later, s);
                assert(Seq::new(1, |i: int| m) + dispatched(rest) =~= seq![m] + dispatched(rest));
            },
        }
    }
}

/// Over a run in which no round faults, a subscriber not yet in the list
/// that subscribes once, at operation `j`, and stays live from then on
/// receives exactly the messages of the rounds begun after it subscribed,
/// each once, in the order they were dispatched, and nothing from earlier
/// rounds, whichever other subscribers are gone meanwhile.
pub proof fn lemma_subscriber_gets_later_rounds<S, M>(
    subs: Seq<S>,
    ops: Seq<DispatcherOp<S, M>>,
    live: spec_fn(nat, S) -> bool,
    s: S,
    j: int,
)
    requires
        occurrences(subs, s) == 0,
        0 <= j < ops.len(),
        ops[j] == DispatcherOp::<S, M>::Subscribe(s),
        forall|i: int| 0 <= i < ops.len() && i != j ==> !(#[trigger] ops[i] matches DispatcherOp::Subscribe(t) && t == s),
        forall|i: nat| j < i < ops.len() ==> #[trigger] live(i, s),
        !run_faults(subs, ops, live),
    ensures
        received_by(subs, ops, live, s) == dispatched(ops.subrange(j + 1, ops.len() as int)),
    decreases j,
{
    let rest = ops.drop_first();
    let later = |i: nat, x: S| live(i + 1, x);
    if j == 0 {
        assert(subs.push(s).drop_last() =~= subs);
        assert forall|i: int| 0 <= i < rest.len() implies !(#[trigger] rest[i] matches DispatcherOp::Subscribe(t) && t == s) by {
            assert(rest[i] == ops[i + 1]);
        }
        assert forall|i: nat| i < rest.len() implies #[trigger] later(i, s) by {
            assert(live(i + 1, s));
        }
        lemma_subscribed_receives(subs.push(s), rest, later, s);
        assert(rest =~= ops.subrange(1, ops.len() as int));
    } else {
        assert forall|i: int| 0 <= i < rest.len() && i != j - 1 implies !(#[trigger] rest[i] matches DispatcherOp::Subscribe(t) && t == s) by {
            assert(rest[i] == ops[i + 1]);
        }
        assert forall|i: nat| j - 1 < i < rest.len() implies #[trigger] later(i, s) by {
            assert(live(i + 1, s));
        }
        assert(rest[j - 1] == ops[j]);
        assert(rest.subrange(j, rest.len() as int) =~= ops.subrange(j + 1, ops.len() as int));
        match ops[0] {
            DispatcherOp::Subscribe(t) => {
                assert(t != s);
                assert(subs.push(t).drop_last() =~= subs);
                lemma_subscriber_gets_later_rounds(subs.push(t), rest, later, s, j - 1);
            },
            DispatcherOp::Dispatch(m) => {
                let now_live = |x: S| live(0, x);
                lemma_round_keeps_count(subs, now_live, s);
                let (after, reached, missing) = live_round(subs, 0, subs.len(), now_live);
                lemma_subscriber_gets_later_rounds(after, rest, later, s, j - 1);
                assert(Seq::new(0, |i: int| m) + received_by(after, rest, later, s) =~= received_by(after, rest, later, s));
            },
        }
    }
}

} // verus!
