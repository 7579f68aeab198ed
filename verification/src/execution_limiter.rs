use vstd::prelude::*;

verus! {

/// One request to start an execution, with `running` executions admitted
/// out of `capacity`: the number admitted afterwards and whether this one
/// was admitted. A full limiter admits nothing; the caller waits for an
/// execution to finish and asks again.
pub open spec fn enter_transition(running: nat, capacity: nat) -> (nat, bool) {
    if running < capacity {
        (running + 1, true)
    } else {
        (running, false)
    }
}

/// The admission state of an execution limiter: how many executions are
/// running and how many may run at once.
pub struct ExecutionLimiter {
    count: usize,
    limit: usize,
}

impl ExecutionLimiter {
    /// Never more executions are admitted than the limit allows.
    #[verifier::type_invariant]
    spec fn within_limit(self) -> bool {
        self.count <= self.limit
    }

    /// Number of executions currently admitted.
    pub closed spec fn running(self) -> nat {
        self.count as nat
    }

    /// Largest number of executions admitted at once.
    pub closed spec fn capacity(self) -> nat {
        self.limit as nat
    }

    /// A limiter for `n` simultaneous executions, with none running.
    pub fn new(n: usize) -> (limiter: Self)
        ensures
            limiter.running() == 0,
            limiter.capacity() == n,
    {
        ExecutionLimiter { count: 0, limit: n }
    }

    /// Asks to start one execution (see `enter_transition`).
    pub fn try_enter(&mut self) -> (admitted: bool)
        ensures
            (final(self).running(), admitted) == enter_transition(old(self).running(), old(self).capacity()),
            final(self).capacity() == old(self).capacity(),
            final(self).running() <= final(self).capacity(),
    {
        proof { use_type_invariant(&*self); }
        if self.count == self.limit {
            false
        } else {
            self.count = self.count + 1;
            true
        }
    }

    /// Records that one admitted execution has finished.
    pub fn leave(&mut self)
        requires
            old(self).running() > 0,
        ensures
            final(self).running() == old(self).running() - 1,
            final(self).capacity() == old(self).capacity(),
            final(self).running() <= final(self).capacity(),
    {
        proof { use_type_invariant(&*self); }
        self.count = self.count - 1;
    }

    /// Number of executions currently admitted.
    pub fn running_count(&self) -> (n: usize)
        ensures
            n == self.running(),
    {
        self.count
    }
}

/// An execution that is admitted and then finishes leaves the limiter as it
/// found it; an execution is refused only while the limiter is full.
pub proof fn lemma_enter_leave_restores(running: nat, capacity: nat)
    ensures
        enter_transition(running, capacity).1 ==> (enter_transition(running, capacity).0 - 1) as nat == running,
        !enter_transition(running, capacity).1 <==> running >= capacity,
{
}

/// What one request does, in terms of the limiter it finds: it is admitted
/// exactly when fewer than `capacity` executions run, an admitted request
/// adds one running execution, and a refused one changes nothing.
pub proof fn lemma_enter_characterized(running: nat, capacity: nat)
    requires
        running <= capacity,
    ensures
        enter_transition(running, capacity).1 <==> running < capacity,
        enter_transition(running, capacity).1 ==> enter_transition(running, capacity).0 == running + 1,
        !enter_transition(running, capacity).1 ==> enter_transition(running, capacity).0 == running,
        enter_transition(running, capacity).0 <= capacity,
{
}

/// One operation on a limiter, as the threads using it perform them under
/// its lock.
pub enum LimiterOp {
    /// A request to start an execution (`try_enter`).
    Enter,
    /// The end of an admitted execution (`leave`).
    Leave,
}

/// A run of operations from `running` executions: the number running
/// afterwards, the number of requests admitted and the number of executions
/// that finished. A leave with nothing running stops the run (it is never
/// made: only admitted executions leave).
pub open spec fn limiter_run(running: nat, capacity: nat, ops: Seq<LimiterOp>) -> (nat, nat, nat)
    decreases ops.len(),
{
    if ops.len() == 0 {
        (running, 0, 0)
    } else {
        match ops[0] {
            LimiterOp::Enter => {
                let (r, admitted) = enter_transition(running, capacity);
                let (r2, a, f) = limiter_run(r, capacity, ops.drop_first());
                (r2, a + if admitted { 1nat } else { 0nat }, f)
            },
            LimiterOp::Leave => if running == 0 {
                (running, 0, 0)
            } else {
                let (r2, a, f) = limiter_run((running - 1) as nat, capacity, ops.drop_first());
                (r2, a, f + 1)
            },
        }
    }
}

/// Over any run of requests and finished executions on a limiter that
/// starts within its capacity, the number running is what it was, plus the
/// requests admitted, minus the executions finished, and never exceeds the
/// capacity.
pub proof fn lemma_limiter_run(running: nat, capacity: nat, ops: Seq<LimiterOp>)
    requires
        running <= capacity,
    ensures
        ({
            let (r, admitted, finished) = limiter_run(running, capacity, ops);
            &&& r + finished == running + admitted
            &&& r <= capacity
        }),
    decreases ops.len(),
{
    if ops.len() > 0 {
        match ops[0] {
            LimiterOp::Enter => {
                lemma_enter_characterized(running, capacity);
                let (r, admitted) = enter_transition(running, capacity);
                lemma_limiter_run(r, capacity, ops.drop_first());
            },
            LimiterOp::Leave => {
                if running > 0 {
                    lemma_limiter_run((running - 1) as nat, capacity, ops.drop_first());
                }
            },
        }
    }
}

} // verus!
