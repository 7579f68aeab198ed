use vstd::prelude::*;

verus! {

/// Whether a ranking barrier is admitting arrivals or releasing them.
#[derive(PartialEq, Eq, Structural, Clone, Copy, Debug)]
pub enum PhaseEnum {
    OPEN,
    CLOSE,
}

/// What a thread arriving at (or woken inside) the barrier does next.
#[derive(PartialEq, Eq, Structural, Clone, Copy, Debug)]
pub enum BarrierStep {
    /// Leave the barrier with this rank.
    Pass(usize),
    /// Block until another thread changes the barrier, then look again.
    Sleep,
    /// Look again at once: the barrier can never fill up.
    Spin,
}

/// One look at the barrier by a waiting thread: the new count, the new phase
/// and what the thread does.
pub open spec fn wait_transition(count: nat, phase: PhaseEnum, limit: nat) -> (nat, PhaseEnum, BarrierStep) {
    if phase == PhaseEnum::CLOSE && count == 0 {
        (0, PhaseEnum::OPEN, BarrierStep::Pass(1))
    } else if phase == PhaseEnum::CLOSE {
        ((count - 1) as nat, PhaseEnum::CLOSE, BarrierStep::Pass(count as usize))
    } else if count + 1 == limit {
        ((count - 1) as nat, PhaseEnum::CLOSE, BarrierStep::Pass(count as usize))
    } else if count < limit {
        (count + 1, PhaseEnum::OPEN, BarrierStep::Sleep)
    } else {
        (count, phase, BarrierStep::Spin)
    }
}

/// The states a barrier can be in: while admitting, fewer threads are held
/// than make it full; while releasing, at most `limit - 2` remain to leave.
pub open spec fn barrier_consistent(count: nat, phase: PhaseEnum, limit: nat) -> bool {
    &&& limit <= usize::MAX
    &&& phase == PhaseEnum::OPEN ==> (count < limit || count == 0)
    &&& phase == PhaseEnum::CLOSE ==> count + 2 <= limit
}

/// `k` successive looks at the barrier, starting from `count` and `phase`:
/// the final count, the final phase and the outcome of each look in order.
pub open spec fn barrier_run(count: nat, phase: PhaseEnum, limit: nat, k: nat) -> (nat, PhaseEnum, Seq<BarrierStep>)
    decreases k,
{
    if k == 0 {
        (count, phase, Seq::empty())
    } else {
        let (c, p, o) = wait_transition(count, phase, limit);
        let (c2, p2, os) = barrier_run(c, p, limit, (k - 1) as nat);
        (c2, p2, seq![o] + os)
    }
}

/// The state a ranking barrier keeps under its lock: how many threads it
/// holds, whether it is admitting or releasing them, and how many make it
/// full.
pub struct RankingBarrier {
    count: usize,
    phase: PhaseEnum,
    limit: usize,
}

impl RankingBarrier {
    /// While admitting, fewer threads are held than make the barrier full;
    /// while releasing, at most `limit - 2` remain to be released.
    #[verifier::type_invariant]
    spec fn consistent(self) -> bool {
        barrier_consistent(self.count as nat, self.phase, self.limit as nat)
    }

    /// Number of threads the barrier holds.
    pub closed spec fn count(self) -> nat {
        self.count as nat
    }

    /// Current phase.
    pub closed spec fn phase(self) -> PhaseEnum {
        self.phase
    }

    /// Number of arrivals that fill the barrier.
    pub closed spec fn limit(self) -> nat {
        self.limit as nat
    }

    /// An open, empty barrier that fills up with `limit` threads.
    pub fn new(limit: usize) -> (barrier: Self)
        ensures
            barrier.count() == 0,
            barrier.phase() == PhaseEnum::OPEN,
            barrier.limit() == limit,
            barrier_consistent(barrier.count(), barrier.phase(), barrier.limit()),
    {
        RankingBarrier { count: 0, phase: PhaseEnum::OPEN, limit }
    }

    /// One look at the barrier by a waiting thread (see `wait_transition`).
    /// A thread that arrives while the barrier admits is held (`Sleep`) until
    /// the arrival that fills it; that arrival closes the barrier and leaves
    /// with the highest rank. While it is closed, each thread that looks
    /// leaves with the number still held; the last one reopens it.
    /// A barrier of one thread is refused: its first arrival would take one
    /// from an empty count.
    pub fn wait_step(&mut self) -> (step: BarrierStep)
        requires
            old(self).limit() != 1,
        ensures
            (final(self).count(), final(self).phase(), step)
                == wait_transition(old(self).count(), old(self).phase(), old(self).limit()),
            final(self).limit() == old(self).limit(),
            barrier_consistent(final(self).count(), final(self).phase(), final(self).limit()),
            step matches BarrierStep::Pass(r) ==> 1 <= r < final(self).limit(),
    {
        proof { use_type_invariant(&*self); }
        if self.phase == PhaseEnum::CLOSE && self.count == 0 {
            self.phase = PhaseEnum::OPEN;
            return BarrierStep::Pass(self.count + 1);
        }
        if self.phase == PhaseEnum::CLOSE && self.count != 0 {
            self.count = self.count - 1;
            return BarrierStep::Pass(self.count + 1);
        }
        if self.count + 1 == self.limit {
            self.count = self.count - 1;
            self.phase = PhaseEnum::CLOSE;
            return BarrierStep::Pass(self.count + 1);
        }
        if self.count < self.limit {
            self.count = self.count + 1;
            return BarrierStep::Sleep;
        }
        BarrierStep::Spin
    }
}

/// From a consistent state, one look leads to a consistent state, and a
/// thread that leaves does so with a rank from 1 to `limit - 1`.
pub proof fn lemma_transition_consistent(count: nat, phase: PhaseEnum, limit: nat)
    requires
        barrier_consistent(count, phase, limit),
        limit != 1,
    ensures
        ({
            let (c, p, step) = wait_transition(count, phase, limit);
            &&& barrier_consistent(c, p, limit)
            &&& step matches BarrierStep::Pass(r) ==> 1 <= r < limit
        }),
{
}

/// Running `k1` looks and then `k2` more is running `k1 + k2` looks.
proof fn lemma_run_split(count: nat, phase: PhaseEnum, limit: nat, k1: nat, k2: nat)
    ensures
        ({
            let (c1, p1, o1) = barrier_run(count, phase, limit, k1);
            let (c2, p2, o2) = barrier_run(c1, p1, limit, k2);
            barrier_run(count, phase, limit, k1 + k2) == (c2, p2, o1 + o2)
        }),
    decreases k1,
{
    if k1 > 0 {
        let (c, p, o) = wait_transition(count, phase, limit);
        lemma_run_split(c, p, limit, (k1 - 1) as nat, k2);
        let (c1, p1, o1) = barrier_run(c, p, limit, (k1 - 1) as nat);
        let (c2, p2, o2) = barrier_run(c1, p1, limit, k2);
        assert((k1 + k2 - 1) as nat == ((k1 - 1) as nat + k2));
        assert(seq![o] + (o1 + o2) =~= (seq![o] + o1) + o2);
    } else {
        let (c2, p2, o2) = barrier_run(count, phase, limit, k2);
        assert(Seq::<BarrierStep>::empty() + o2 =~= o2);
    }
}

/// While admitting, each arrival short of the last is held.
proof fn lemma_fill(count: nat, limit: nat)
    requires
        count + 1 <= limit,
    ensures
        barrier_run(count, PhaseEnum::OPEN, limit, (limit - 1 - count) as nat)
            == (
            (limit - 1) as nat,
            PhaseEnum::OPEN,
            Seq::new((limit - 1 - count) as nat, |i: int| BarrierStep::Sleep),
        ),
    decreases limit - count,
{
    if count + 1 < limit {
        lemma_fill(count + 1, limit);
        let rest = Seq::new((limit - 1 - (count + 1)) as nat, |i: int| BarrierStep::Sleep);
        assert(seq![BarrierStep::Sleep] + rest =~= Seq::new(
            (limit - 1 - count) as nat,
            |i: int| BarrierStep::Sleep,
        ));
    } else {
        assert(Seq::<BarrierStep>::empty() =~= Seq::new(0, |i: int| BarrierStep::Sleep));
    }
}

/// While releasing with `count` held, the next `count + 1` looks leave with
/// ranks `count`, `count - 1`, ..., `1` and then `1`, and the barrier reopens
/// empty.
proof fn lemma_drain(count: nat, limit: nat)
    requires
        count < usize::MAX,
    ensures
        barrier_run(count, PhaseEnum::CLOSE, limit, count + 1)
            == (
            0nat,
            PhaseEnum::OPEN,
            Seq::new(count, |i: int| BarrierStep::Pass((count - i) as usize)) + seq![BarrierStep::Pass(1)],
        ),
    decreases count,
{
    if count == 0 {
        assert(barrier_run(0, PhaseEnum::OPEN, limit, 0) == (0nat, PhaseEnum::OPEN, Seq::<BarrierStep>::empty()));
        assert(Seq::new(0, |i: int| BarrierStep::Pass((0 - i) as usize)) + seq![BarrierStep::Pass(1)]
            =~= seq![BarrierStep::Pass(1)]);
        assert(seq![BarrierStep::Pass(1)] + Seq::<BarrierStep>::empty() =~= seq![BarrierStep::Pass(1)]);
    } else {
        lemma_drain((count - 1) as nat, limit);
        let c1 = (count - 1) as nat;
        assert(wait_transition(count, PhaseEnum::CLOSE, limit) == (c1, PhaseEnum::CLOSE, BarrierStep::Pass(count as usize)));
        assert(((count + 1) - 1) as nat == c1 + 1);
        assert(seq![BarrierStep::Pass(count as usize)] + (Seq::new(
            c1,
            |i: int| BarrierStep::Pass((c1 - i) as usize),
        ) + seq![BarrierStep::Pass(1)]) =~= Seq::new(
            count,
            |i: int| BarrierStep::Pass((count - i) as usize),
        ) + seq![BarrierStep::Pass(1)]);
    }
}

/// A full round of a barrier for `limit >= 2` threads: starting open and
/// empty, the first `limit - 1` arrivals are held, the `limit`-th leaves with
/// rank `limit - 1` and closes the barrier, the held threads then leave with
/// ranks `limit - 2`, ..., `1` and `1`, and the barrier is open and empty
/// again.
pub proof fn lemma_full_round(limit: nat)
    requires
        2 <= limit <= usize::MAX,
    ensures
        barrier_run(0, PhaseEnum::OPEN, limit, (2 * limit - 1) as nat)
            == (
            0nat,
            PhaseEnum::OPEN,
            Seq::new((limit - 1) as nat, |i: int| BarrierStep::Sleep)
                + Seq::new((limit - 1) as nat, |i: int| BarrierStep::Pass((limit - 1 - i) as usize))
                + seq![BarrierStep::Pass(1)],
        ),
{
    let n1 = (limit - 1) as nat;
    let n2 = (limit - 2) as nat;
    lemma_fill(0, limit);
    lemma_run_split(0, PhaseEnum::OPEN, limit, n1, limit);
    lemma_run_split(n1, PhaseEnum::OPEN, limit, 1, n1);
    lemma_drain(n2, limit);
    assert(n2 + 1 == n1);
    assert(n1 + limit == (2 * limit - 1) as nat);
    assert(1 + n1 == limit);
    let (c, p, o) = wait_transition(n1, PhaseEnum::OPEN, limit);
    assert(barrier_run(n2, PhaseEnum::CLOSE, limit, 0) == (n2, PhaseEnum::CLOSE, Seq::<BarrierStep>::empty()));
    assert(barrier_run(n1, PhaseEnum::OPEN, limit, 1) == (n2, PhaseEnum::CLOSE, seq![BarrierStep::Pass(n1 as usize)]));
    let fill = Seq::new(n1, |i: int| BarrierStep::Sleep);
    let drain = Seq::new(n2, |i: int| BarrierStep::Pass((n2 - i) as usize)) + seq![BarrierStep::Pass(1)];
    assert(seq![BarrierStep::Pass(n1 as usize)] + drain =~= Seq::new(
        n1,
        |i: int| BarrierStep::Pass((limit - 1 - i) as usize),
    ) + seq![BarrierStep::Pass(1)]);
    assert(fill + (seq![BarrierStep::Pass(n1 as usize)] + drain) =~= fill + Seq::new(
        n1,
        |i: int| BarrierStep::Pass((limit - 1 - i) as usize),
    ) + seq![BarrierStep::Pass(1)]);
}

/// While admitting, `k` more arrivals that leave the barrier short of full
/// are all held.
proof fn lemma_arrivals_sleep_from(count: nat, limit: nat, k: nat)
    requires
        count + k < limit,
    ensures
        barrier_run(count, PhaseEnum::OPEN, limit, k) == (count + k, PhaseEnum::OPEN, Seq::new(k, |i: int| BarrierStep::Sleep)),
    decreases k,
{
    if k > 0 {
        lemma_arrivals_sleep_from(count + 1, limit, (k - 1) as nat);
        assert(seq![BarrierStep::Sleep] + Seq::new((k - 1) as nat, |i: int| BarrierStep::Sleep)
            =~= Seq::new(k, |i: int| BarrierStep::Sleep));
    } else {
        assert(Seq::<BarrierStep>::empty() =~= Seq::new(0, |i: int| BarrierStep::Sleep));
    }
}

/// Fewer arrivals than make the barrier full are all held: starting open
/// and empty, each of the first `k < limit` arrivals sleeps, and the barrier
/// then holds `k` threads and still admits.
pub proof fn lemma_first_arrivals_sleep(limit: nat, k: nat)
    requires
        k < limit,
    ensures
        barrier_run(0, PhaseEnum::OPEN, limit, k) == (k, PhaseEnum::OPEN, Seq::new(k, |i: int| BarrierStep::Sleep)),
{
    lemma_arrivals_sleep_from(0, limit, k);
}

/// What one look does, in terms of the barrier it finds. While admitting,
/// an arrival that leaves the barrier short of full is held and counted;
/// the arrival that fills it closes the barrier and leaves with the highest
/// rank, `limit - 1`, leaving `limit - 2` held threads to release. While
/// releasing, each look lets one held thread go with the number still held
/// as its rank; the look that finds none held reopens the barrier, empty,
/// with rank 1. A barrier for no thread never fills.
pub proof fn lemma_wait_characterized(count: nat, phase: PhaseEnum, limit: nat)
    requires
        barrier_consistent(count, phase, limit),
        limit != 1,
    ensures
        (phase == PhaseEnum::OPEN && count + 1 < limit) ==> wait_transition(count, phase, limit) == (
            count + 1,
            PhaseEnum::OPEN,
            BarrierStep::Sleep,
        ),
        (phase == PhaseEnum::OPEN && count + 1 == limit) ==> wait_transition(count, phase, limit) == (
            (limit - 2) as nat,
            PhaseEnum::CLOSE,
            BarrierStep::Pass((limit - 1) as usize),
        ),
        (phase == PhaseEnum::CLOSE && count > 0) ==> wait_transition(count, phase, limit) == (
            (count - 1) as nat,
            PhaseEnum::CLOSE,
            BarrierStep::Pass(count as usize),
        ),
        (phase == PhaseEnum::CLOSE && count == 0) ==> wait_transition(count, phase, limit) == (
            0nat,
            PhaseEnum::OPEN,
            BarrierStep::Pass(1),
        ),
        (phase == PhaseEnum::OPEN && limit == 0) ==> wait_transition(count, phase, limit) == (count, phase, BarrierStep::Spin),
        (wait_transition(count, phase, limit).2 is Sleep) <==> (phase == PhaseEnum::OPEN && count + 1 < limit),
        (wait_transition(count, phase, limit).2 is Spin) <==> (phase == PhaseEnum::OPEN && limit == 0),
{
}

} // verus!
