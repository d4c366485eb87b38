use std::collections::HashMap;

use vstd::prelude::*;

use crate::determinist::{is_prime, trial_division_prime};
use crate::search::{assignments, partition, Assignment};

verus! {

broadcast use vstd::std_specs::hash::group_hash_axioms;

/// The numbers below this bound have their verdict computed when a pool is
/// built.
pub const CACHE_LIMIT: u128 = 4194304;

/// What a worker sends back at the end of its sub-range.
#[derive(Clone, Copy, Debug, PartialEq, Eq)]
pub enum Report {
    /// This proper divisor of the round's number was found.
    Divisor(u128),
    /// No candidate of the sub-range divides the number.
    Clear,
}

/// Every entry of `s` is set.
pub open spec fn all_set(s: Seq<bool>) -> bool {
    forall|j: int| 0 <= j < s.len() ==> #[trigger] s[j]
}

/// How a query starts.
#[derive(Debug)]
pub enum Begin {
    /// The verdict is already known.
    Known(bool),
    /// A round is open, under this tag: hand out one assignment to each
    /// worker.
    Dispatch(u64, Vec<Assignment>),
}

/// The decisions of a pool of divisor-search workers: the verdicts known so
/// far, and the round in progress, if any.
pub struct PoolState {
    thread_count: usize,
    cache_limit: u128,
    cache: HashMap<u128, bool>,
    round: Option<u128>,
    tag: u64,
    cleared: Vec<bool>,
}

impl PoolState {
    /// How many workers share each round.
    pub closed spec fn workers(&self) -> nat {
        self.thread_count as nat
    }

    /// The numbers below this were settled when the pool was built.
    pub closed spec fn limit(&self) -> int {
        self.cache_limit as int
    }

    /// The verdicts known so far.
    pub closed spec fn known(&self) -> Map<u128, bool> {
        self.cache@
    }

    /// The number whose round is open.
    pub closed spec fn round(&self) -> Option<u128> {
        self.round
    }

    /// The tag of the latest round; reports carry it so that one left over
    /// from an earlier round is told apart.
    pub closed spec fn tag(&self) -> u64 {
        self.tag
    }

    /// Which workers of the open round have reported a clear sub-range.
    pub closed spec fn cleared(&self) -> Seq<bool> {
        self.cleared@
    }

    pub closed spec fn wf(&self) -> bool {
        &&& self.thread_count >= 1
        &&& forall|k: u128| #[trigger]
            self.cache@.contains_key(k) || k < self.cache_limit ==> self.cache@.contains_key(k)
                && (k < self.cache_limit ==> self.cache@[k] == trial_division_prime(k as int))
                && (!self.cache@[k] ==> !trial_division_prime(k as int))
        &&& self.round matches Some(n) ==> !self.cache@.contains_key(n) && self.cleared.len()
            == self.thread_count
    }

    /// Builds the verdicts of every number below `cache_limit` by trial
    /// division; `thread_count` workers will share each later round.
    pub fn new(thread_count: usize, cache_limit: u128) -> (r: PoolState)
        requires
            thread_count >= 1,
        ensures
            r.wf(),
            r.workers() == thread_count,
            r.limit() == cache_limit,
            r.round() is None,
            forall|k: u128| #[trigger]
                r.known().contains_key(k) <==> k < cache_limit,
            forall|k: u128|
                k < cache_limit ==> #[trigger] r.known()[k] == trial_division_prime(k as int),
    {
        let mut cache: HashMap<u128, bool> = HashMap::new();
        let mut v: u128 = 0;
        while v < cache_limit
            invariant
                v <= cache_limit,
                forall|k: u128| #[trigger] cache@.contains_key(k) <==> k < v,
                forall|k: u128| k < v ==> #[trigger] cache@[k] == trial_division_prime(k as int),
            decreases cache_limit - v,
        {
            let p = is_prime(v);
            cache.insert(v, p);
            v = v + 1;
        }
        PoolState { thread_count, cache_limit, cache, round: None, tag: 0, cleared: Vec::new() }
    }

    /// Starts a query of `number`: a known verdict is returned at once, and
    /// otherwise a round opens, with its assignments.
    pub fn begin(&mut self, number: u128) -> (r: Begin)
        requires
            old(self).wf(),
            old(self).round() is None,
        ensures
            final(self).wf(),
            final(self).workers() == old(self).workers(),
            final(self).limit() == old(self).limit(),
            final(self).known() == old(self).known(),
            (number as int) < old(self).limit() ==> r == Begin::Known(
                trial_division_prime(number as int),
            ),
            match r {
                Begin::Known(v) => {
                    &&& old(self).known().contains_key(number)
                    &&& v == old(self).known()[number]
                    &&& !v ==> !trial_division_prime(number as int)
                    &&& final(self).round() is None
                    &&& final(self).tag() == old(self).tag()
                },
                Begin::Dispatch(t, a) => {
                    &&& !old(self).known().contains_key(number)
                    &&& t == final(self).tag()
                    &&& t != old(self).tag()
                    &&& a@ == partition(number, old(self).workers())
                    &&& final(self).round() == Some(number)
                    &&& final(self).cleared().len() == old(self).workers()
                    &&& forall|i: int| 0 <= i < old(self).workers() ==> !#[trigger] final(self).cleared()[i]
                },
            },
    {
        match self.cache.get(&number) {
            Some(v) => {
                return Begin::Known(*v);
            },
            None => {},
        }
        let mut cleared: Vec<bool> = Vec::new();
        let mut i: usize = 0;
        while i < self.thread_count
            invariant
                i <= self.thread_count,
                cleared.len() == i,
                forall|j: int| 0 <= j < i ==> !#[trigger] cleared@[j],
            decreases self.thread_count - i,
        {
            cleared.push(false);
            i = i + 1;
        }
        self.cleared = cleared;
        self.round = Some(number);
        self.tag = self.tag.wrapping_add(1);
        Begin::Dispatch(self.tag, assignments(number, self.thread_count))
    }

    /// Takes the report of `worker` for the round tagged `tag`. A report
    /// for any round but the open one is stale and changes nothing. A divisor settles
    /// the round as composite at once; a clear report settles it as prime
    /// once every worker has sent one. A settled verdict is recorded and
    /// returned, and the round closes.
    pub fn answer(&mut self, worker: usize, tag: u64, report: Report) -> (r: Option<bool>)
        requires
            old(self).wf(),
            old(self).round() is Some,
            worker < old(self).workers(),
            forall|d: u128|
                report == Report::Divisor(d) && tag == old(self).tag() ==> 2 <= d < old(self).round()->0 && old(
                    self,
                ).round()->0 % d == 0,
        ensures
            final(self).wf(),
            final(self).workers() == old(self).workers(),
            final(self).limit() == old(self).limit(),
            final(self).tag() == old(self).tag(),
            old(self).known().submap_of(final(self).known()),
            tag != old(self).tag() ==> r is None && *final(self) == *old(self),
            tag == old(self).tag() ==> ({
                let n = old(self).round()->0;
                let now_cleared = old(self).cleared().update(worker as int, true);
                let v = report == Report::Clear;
                if report == Report::Clear && !all_set(now_cleared) {
                    &&& r is None
                    &&& final(self).known() == old(self).known()
                    &&& final(self).round() == old(self).round()
                    &&& final(self).cleared() == now_cleared
                } else {
                    &&& r == Some(v)
                    &&& final(self).known() == old(self).known().insert(n, v)
                    &&& final(self).round() is None
                }
            }),
    {
        let n = match self.round {
            Some(n) => n,
            None => {
                return None;
            },
        };
        if tag != self.tag {
            return None;
        }
        match report {
            Report::Divisor(d) => {
                proof {
                    assert(report == Report::Divisor(d));
                    crate::search::lemma_divisor_means_composite(n, d);
                }
                self.cache.insert(n, false);
                self.round = None;
                Some(false)
            },
            Report::Clear => {
                self.cleared.set(worker, true);
                let mut all = true;
                let mut j: usize = 0;
                while j < self.cleared.len()
                    invariant
                        j <= self.cleared.len(),
                        all == all_set(self.cleared@.subrange(0, j as int)),
                    decreases self.cleared.len() - j,
                {
                    if !self.cleared[j] {
                        all = false;
                    }
                    proof {
                        let pre = self.cleared@.subrange(0, j as int);
                        let post = self.cleared@.subrange(0, j as int + 1);
                        assert(forall|k: int| 0 <= k < j ==> #[trigger] post[k] == pre[k]);
                        assert(post[j as int] == self.cleared@[j as int]);
                    }
                    j = j + 1;
                }
                assert(self.cleared@.subrange(0, j as int) =~= self.cleared@);
                if all {
                    self.cache.insert(n, true);
                    self.round = None;
                    Some(true)
                } else {
                    None
                }
            },
        }
    }
}

/// A verdict once known is never changed: `begin` and `answer` only ever
/// extend the known verdicts, so a later state gives, for every number an
/// earlier one knew, the same verdict, and asking twice for the same number
/// gives the same answer.
pub proof fn lemma_verdicts_are_kept(before: PoolState, after: PoolState, n: u128)
    requires
        before.known().contains_key(n),
        before.known().submap_of(after.known()),
    ensures
        after.known().contains_key(n),
        after.known()[n] == before.known()[n],
{
    assert(before.known().dom().contains(n) ==> after.known().dom().contains(n));
}

} // verus!
