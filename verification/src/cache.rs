use std::collections::HashMap;
use std::hash::Hash;
use vstd::prelude::*;
use vstd::std_specs::hash::obeys_key_model;

verus! {

broadcast use vstd::std_specs::hash::group_hash_axioms;

/// What the cache holds for a key: a computed value, or the mark that some
/// thread is computing it.
pub enum EntryState<V> {
    Ready(V),
    Pending,
}

/// What a thread asking the cache for a key does next.
#[derive(PartialEq, Eq, Structural, Clone, Copy, Debug)]
pub enum CacheStep {
    /// The value is there: take it.
    Ready,
    /// Nobody has the value: this thread computes it, and the key is now
    /// marked as being computed.
    Compute,
    /// Another thread is computing the value: wait and ask again.
    Wait,
}

/// What a lookup of `k` in `entries` decides.
pub open spec fn lookup_outcome<K, V>(entries: Map<K, EntryState<V>>, k: K) -> CacheStep {
    if !entries.contains_key(k) {
        CacheStep::Compute
    } else if entries[k] is Ready {
        CacheStep::Ready
    } else {
        CacheStep::Wait
    }
}

/// The entries after a lookup of `k`: a missing key is marked as being
/// computed, nothing else changes.
pub open spec fn entries_after_lookup<K, V>(entries: Map<K, EntryState<V>>, k: K) -> Map<K, EntryState<V>> {
    if lookup_outcome(entries, k) == CacheStep::Compute {
        entries.insert(k, EntryState::Pending)
    } else {
        entries
    }
}

/// The table of a memoizing cache: for each key asked for, its value or the
/// mark that it is being computed.
pub struct Cache<K, V> {
    map: HashMap<K, EntryState<V>>,
}

impl<K: Hash + Eq, V> Cache<K, V> {
    /// The entries of the table.
    pub closed spec fn entries(self) -> Map<K, EntryState<V>> {
        self.map@
    }

    /// An empty cache.
    pub fn new() -> (cache: Self)
        ensures
            cache.entries() == Map::<K, EntryState<V>>::empty(),
    {
        Cache { map: HashMap::new() }
    }

    /// A thread asks for `k`: returns `lookup_outcome` and, where the key is
    /// missing, marks it as being computed by this thread. (The entries are
    /// described for key types whose `Hash` and `Eq` agree with equality of
    /// values, such as the integer types.)
    pub fn get_step(&mut self, k: K) -> (step: CacheStep)
        ensures
            obeys_key_model::<K>() ==> {
                &&& step == lookup_outcome(old(self).entries(), k)
                &&& final(self).entries() == entries_after_lookup(old(self).entries(), k)
            },
    {
        let step = match self.map.get(&k) {
            None => CacheStep::Compute,
            Some(EntryState::Ready(_)) => CacheStep::Ready,
            Some(EntryState::Pending) => CacheStep::Wait,
        };
        if step == CacheStep::Compute {
            self.map.insert(k, EntryState::Pending);
        }
        step
    }

    /// The computed value for `k`, if there is one.
    pub fn value(&self, k: &K) -> (v: Option<&V>)
        ensures
            obeys_key_model::<K>() ==> match v {
                Some(x) => self.entries().contains_key(*k) && self.entries()[*k] == EntryState::Ready(*x),
                None => !(self.entries().contains_key(*k) && self.entries()[*k] is Ready),
            },
    {
        match self.map.get(k) {
            Some(EntryState::Ready(x)) => Some(x),
            _ => None,
        }
    }

    /// Stores the value computed for `k`.
    pub fn fill(&mut self, k: K, v: V)
        ensures
            obeys_key_model::<K>() ==> final(self).entries() == old(self).entries().insert(k, EntryState::Ready(v)),
    {
        self.map.insert(k, EntryState::Ready(v));
    }
}

/// A value is computed once: after a lookup has found `k` missing and
/// marked it, a second lookup of `k` waits instead of computing it again.
pub proof fn lemma_second_lookup_waits<K, V>(entries: Map<K, EntryState<V>>, k: K)
    requires
        lookup_outcome(entries, k) == CacheStep::Compute,
    ensures
        lookup_outcome(entries_after_lookup(entries, k), k) == CacheStep::Wait,
        entries_after_lookup(entries_after_lookup(entries, k), k) == entries_after_lookup(entries, k),
{
}

/// A lookup never forgets a key nor changes another key's entry.
pub proof fn lemma_lookup_keeps_entries<K, V>(entries: Map<K, EntryState<V>>, k: K, j: K)
    requires
        entries.contains_key(j),
    ensures
        entries_after_lookup(entries, k).contains_key(j),
        entries_after_lookup(entries, k)[j] == entries[j],
{
}

/// What is stored is what is read back: after `fill(k, v)` a lookup of `k`
/// finds it ready, holding `v`, and leaves the entries alone.
pub proof fn lemma_lookup_after_fill<K, V>(entries: Map<K, EntryState<V>>, k: K, v: V)
    ensures
        lookup_outcome(entries.insert(k, EntryState::Ready(v)), k) == CacheStep::Ready,
        entries.insert(k, EntryState::Ready(v))[k] == EntryState::<V>::Ready(v),
        entries_after_lookup(entries.insert(k, EntryState::Ready(v)), k) == entries.insert(k, EntryState::Ready(v)),
{
}

/// One operation on a cache's table, as the threads using it perform them
/// under its lock.
pub enum CacheOp<K, V> {
    /// A thread asks for a key (`get_step`).
    Lookup(K),
    /// A thread stores the value it computed for a key (`fill`).
    Fill(K, V),
}

/// The entries after one operation.
pub open spec fn cache_apply<K, V>(entries: Map<K, EntryState<V>>, op: CacheOp<K, V>) -> Map<K, EntryState<V>> {
    match op {
        CacheOp::Lookup(k) => entries_after_lookup(entries, k),
        CacheOp::Fill(k, v) => entries.insert(k, EntryState::Ready(v)),
    }
}

/// Every fill in the run stores the value of a key that is being computed,
/// as the thread that was told to compute it does.
pub open spec fn fills_follow_compute<K, V>(entries: Map<K, EntryState<V>>, ops: Seq<CacheOp<K, V>>) -> bool
    decreases ops.len(),
{
    if ops.len() == 0 {
        true
    } else {
        let ok = match ops[0] {
            CacheOp::Lookup(_) => true,
            CacheOp::Fill(k, _) => entries.contains_key(k) && entries[k] is Pending,
        };
        ok && fills_follow_compute(cache_apply(entries, ops[0]), ops.drop_first())
    }
}

/// The values that the run's lookups of `k` find ready, in order.
pub open spec fn values_read<K, V>(entries: Map<K, EntryState<V>>, ops: Seq<CacheOp<K, V>>, k: K) -> Seq<V>
    decreases ops.len(),
{
    if ops.len() == 0 {
        Seq::empty()
    } else {
        let now = match ops[0] {
            CacheOp::Lookup(j) => if j == k && lookup_outcome(entries, k) == CacheStep::Ready {
                seq![entries[k]->Ready_0]
            } else {
                Seq::empty()
            },
            CacheOp::Fill(_, _) => Seq::empty(),
        };
        now + values_read(cache_apply(entries, ops[0]), ops.drop_first(), k)
    }
}

/// How many of the run's lookups of `k` are told to compute its value.
pub open spec fn computations<K, V>(entries: Map<K, EntryState<V>>, ops: Seq<CacheOp<K, V>>, k: K) -> nat
    decreases ops.len(),
{
    if ops.len() == 0 {
        0
    } else {
        let now: nat = match ops[0] {
            CacheOp::Lookup(j) => if j == k && lookup_outcome(entries, k) == CacheStep::Compute {
                1
            } else {
                0
            },
            CacheOp::Fill(_, _) => 0,
        };
        now + computations(cache_apply(entries, ops[0]), ops.drop_first(), k)
    }
}

/// A key that holds a value keeps it through a run whose fills follow
/// their computations, and every lookup of it reads that value.
proof fn lemma_ready_stays<K, V>(entries: Map<K, EntryState<V>>, ops: Seq<CacheOp<K, V>>, k: K, v: V)
    requires
        entries.contains_key(k),
        entries[k] == EntryState::Ready(v),
        fills_follow_compute(entries, ops),
    ensures
        forall|i: int| 0 <= i < values_read(entries, ops, k).len() ==> #[trigger] values_read(entries, ops, k)[i] == v,
    decreases ops.len(),
{
    if ops.len() > 0 {
        let next = cache_apply(entries, ops[0]);
        match ops[0] {
            CacheOp::Lookup(j) => {},
            CacheOp::Fill(j, w) => {
                assert(j != k);
            },
        }
        assert(next.contains_key(k) && next[k] == EntryState::Ready(v));
        lemma_ready_stays(next, ops.drop_first(), k, v);
        let rest = values_read(next, ops.drop_first(), k);
        let all = values_read(entries, ops, k);
        assert forall|i: int| 0 <= i < all.len() implies #[trigger] all[i] == v by {
            if all.len() > rest.len() {
                if i > 0 {
                    assert(all[i] == rest[i - 1]);
                }
            } else {
                assert(all =~= rest);
            }
        }
    }
}

/// A key present in the table is never computed again.
proof fn lemma_present_not_computed<K, V>(entries: Map<K, EntryState<V>>, ops: Seq<CacheOp<K, V>>, k: K)
    requires
        entries.contains_key(k),
    ensures
        computations(entries, ops, k) == 0,
    decreases ops.len(),
{
    if ops.len() > 0 {
        lemma_present_not_computed(cache_apply(entries, ops[0]), ops.drop_first(), k);
    }
}

/// Over any run of lookups and fills in which each fill stores the value of
/// a key being computed: each key is computed at most once (never, if the
/// table already has it), and every lookup that finds a key ready reads one
/// and the same value.
pub proof fn lemma_one_value_per_key<K, V>(entries: Map<K, EntryState<V>>, ops: Seq<CacheOp<K, V>>, k: K)
    requires
        fills_follow_compute(entries, ops),
    ensures
        computations(entries, ops, k) <= 1,
        entries.contains_key(k) ==> computations(entries, ops, k) == 0,
        forall|i: int, j: int|
            0 <= i < values_read(entries, ops, k).len() && 0 <= j < values_read(entries, ops, k).len()
                ==> #[trigger] values_read(entries, ops, k)[i] == #[trigger] values_read(entries, ops, k)[j],
    decreases ops.len(),
{
    if entries.contains_key(k) {
        lemma_present_not_computed(entries, ops, k);
    }
    if entries.contains_key(k) && entries[k] is Ready {
        lemma_ready_stays(entries, ops, k, entries[k]->Ready_0);
    } else if ops.len() > 0 {
        let next = cache_apply(entries, ops[0]);
        lemma_one_value_per_key(next, ops.drop_first(), k);
        let rest = values_read(next, ops.drop_first(), k);
        assert(values_read(entries, ops, k) =~= rest);
        if !entries.contains_key(k) {
            if ops[0] matches CacheOp::Lookup(j) && j == k {
                assert(next.contains_key(k));
                lemma_present_not_computed(next, ops.drop_first(), k);
            }
        }
    }
}

/// The value stored by the run's first fill of `k`, if it has one.
pub open spec fn first_fill<K, V>(ops: Seq<CacheOp<K, V>>, k: K) -> Option<V>
    decreases ops.len(),
{
    if ops.len() == 0 {
        None
    } else {
        match ops[0] {
            CacheOp::Fill(j, v) => if j == k {
                Some(v)
            } else {
                first_fill(ops.drop_first(), k)
            },
            CacheOp::Lookup(_) => first_fill(ops.drop_first(), k),
        }
    }
}

/// Over a run in which each fill stores the value of a key being computed,
/// starting while `k` has no value yet: every lookup that finds `k` ready
/// reads the value stored by the run's first fill of `k`, which is the fill
/// of the one thread told to compute it.
pub proof fn lemma_reads_are_first_fill<K, V>(entries: Map<K, EntryState<V>>, ops: Seq<CacheOp<K, V>>, k: K)
    requires
        fills_follow_compute(entries, ops),
        !(entries.contains_key(k) && entries[k] is Ready),
    ensures
        values_read(entries, ops, k).len() > 0 ==> first_fill(ops, k) is Some,
        forall|i: int| 0 <= i < values_read(entries, ops, k).len()
            ==> #[trigger] values_read(entries, ops, k)[i] == first_fill(ops, k)->Some_0,
    decreases ops.len(),
{
    if ops.len() > 0 {
        let next = cache_apply(entries, ops[0]);
        let rest = ops.drop_first();
        assert(values_read(entries, ops, k) =~= values_read(next, rest, k));
        match ops[0] {
            CacheOp::Fill(j, v) => {
                if j == k {
                    lemma_ready_stays(next, rest, k, v);
                } else {
                    lemma_reads_are_first_fill(next, rest, k);
                }
            },
            CacheOp::Lookup(j) => {
                lemma_reads_are_first_fill(next, rest, k);
            },
        }
    }
}

/// What one lookup does, in terms of the table it finds: a key the table
/// does not have is computed by this caller, whatever the other keys hold,
/// and marked as being computed; a key with a value is read; a key being
/// computed is waited for. Only a computing lookup changes the table.
pub proof fn lemma_lookup_characterized<K, V>(entries: Map<K, EntryState<V>>, k: K)
    ensures
        !entries.contains_key(k) ==> lookup_outcome(entries, k) == CacheStep::Compute,
        !entries.contains_key(k) ==> entries_after_lookup(entries, k) == entries.insert(k, EntryState::Pending),
        (entries.contains_key(k) && entries[k] is Ready) ==> lookup_outcome(entries, k) == CacheStep::Ready,
        (entries.contains_key(k) && entries[k] is Pending) ==> lookup_outcome(entries, k) == CacheStep::Wait,
        entries.contains_key(k) ==> entries_after_lookup(entries, k) == entries,
{
}

/// Every key asked for is computed exactly once: over a run in which each
/// fill stores the value of a key being computed, a key the table does not
/// have at the start is computed by exactly one lookup as soon as some
/// lookup asks for it.
pub proof fn lemma_asked_key_computed_once<K, V>(entries: Map<K, EntryState<V>>, ops: Seq<CacheOp<K, V>>, k: K, j: int)
    requires
        fills_follow_compute(entries, ops),
        !entries.contains_key(k),
        0 <= j < ops.len(),
        ops[j] == CacheOp::<K, V>::Lookup(k),
    ensures
        computations(entries, ops, k) == 1,
    decreases ops.len(),
{
    let next = cache_apply(entries, ops[0]);
    let rest = ops.drop_first();
    match ops[0] {
        CacheOp::Lookup(i) => {
            if i == k {
                lemma_present_not_computed(next, rest, k);
            } else {
                assert(rest[j - 1] == ops[j]);
                lemma_asked_key_computed_once(next, rest, k, j - 1);
            }
        },
        CacheOp::Fill(i, v) => {
            assert(i != k);
            assert(rest[j - 1] == ops[j]);
            lemma_asked_key_computed_once(next, rest, k, j - 1);
        },
    }
}

} // verus!
