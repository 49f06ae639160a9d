//! The bounded concurrency scheduler: an ordered collection of independent
//! jobs, at most a fixed number in flight at once, started in submission
//! order, each finishing exactly once in whatever order completion comes.

use vstd::prelude::*;
use vstd::multiset::Multiset;

verus! {

/// The scheduler's state over jobs numbered in submission order.
pub struct BoundedPool {
    /// The parallelism ceiling; at least one.
    pub ceiling: usize,
    /// How many jobs there are in all.
    pub total: usize,
    /// The next job to start, in submission order.
    pub next_job: usize,
    /// The jobs started and not yet completed.
    pub in_flight: Vec<usize>,
    /// The jobs completed, in completion order.
    pub completed: Vec<usize>,
}

/// The multiset of the numbers below a bound.
pub open spec fn range_multiset(n: int) -> Multiset<usize>
    decreases n,
{
    if n <= 0 {
        Multiset::empty()
    } else {
        range_multiset(n - 1).insert(((n - 1) as usize))
    }
}

impl BoundedPool {
    /// The scheduler's invariant: the ceiling is respected, starts follow
    /// submission order, and the started jobs are exactly the in-flight
    /// and completed ones, each once.
    pub open spec fn wf(&self) -> bool {
        &&& self.ceiling >= 1
        &&& self.next_job <= self.total
        &&& self.in_flight@.len() <= self.ceiling
        &&& self.in_flight@.to_multiset().add(self.completed@.to_multiset()) == range_multiset(
            self.next_job as int,
        )
    }

    /// A scheduler for the given number of jobs and ceiling.
    pub fn new(total: usize, ceiling: usize) -> (r: Self)
        requires
            ceiling >= 1,
        ensures
            r.wf(),
            r.total == total,
            r.ceiling == ceiling,
            r.next_job == 0,
            r.in_flight@.len() == 0,
            r.completed@.len() == 0,
    {
        let r = BoundedPool {
            ceiling,
            total,
            next_job: 0,
            in_flight: Vec::new(),
            completed: Vec::new(),
        };
        proof {
            r.in_flight@.to_multiset_ensures();
            r.completed@.to_multiset_ensures();
            assert(r.in_flight@.to_multiset() =~= Multiset::empty()) by {
                assert(forall|a: usize| !r.in_flight@.contains(a));
            }
            assert(r.completed@.to_multiset() =~= Multiset::empty()) by {
                assert(forall|a: usize| !r.completed@.contains(a));
            }
            assert(r.in_flight@.to_multiset().add(r.completed@.to_multiset())
                =~= range_multiset(0));
        }
        r
    }

    /// Whether another job may start: submission order has one left and
    /// the ceiling leaves room.
    pub fn can_start(&self) -> (r: bool)
        ensures
            r == (self.next_job < self.total && self.in_flight@.len() < self.ceiling),
    {
        self.next_job < self.total && self.in_flight.len() < self.ceiling
    }

    /// Starts the next job in submission order, returning its number.
    pub fn start(&mut self) -> (r: usize)
        requires
            old(self).wf(),
            old(self).next_job < old(self).total,
            old(self).in_flight@.len() < old(self).ceiling,
        ensures
            final(self).wf(),
            r == old(self).next_job,
            final(self).next_job == old(self).next_job + 1,
            final(self).in_flight@ == old(self).in_flight@.push(r),
            final(self).completed@ == old(self).completed@,
            final(self).total == old(self).total,
            final(self).ceiling == old(self).ceiling,
    {
        let job = self.next_job;
        self.in_flight.push(job);
        self.next_job = self.next_job + 1;
        proof {
            old(self).in_flight@.to_multiset_ensures();
            assert(final(self).in_flight@.to_multiset() =~= old(
                self,
            ).in_flight@.to_multiset().insert(job));
            assert(final(self).in_flight@.to_multiset().add(final(self).completed@.to_multiset())
                =~= range_multiset(final(self).next_job as int));
        }
        job
    }

    /// Marks one in-flight job as completed; its position in the
    /// in-flight set is arbitrary, as completion order is unconstrained.
    pub fn complete(&mut self, pos: usize)
        requires
            old(self).wf(),
            pos < old(self).in_flight@.len(),
        ensures
            final(self).wf(),
            final(self).in_flight@ == old(self).in_flight@.remove(pos as int),
            final(self).completed@ == old(self).completed@.push(
                old(self).in_flight@[pos as int],
            ),
            final(self).next_job == old(self).next_job,
            final(self).total == old(self).total,
            final(self).ceiling == old(self).ceiling,
    {
        let job = self.in_flight.remove(pos);
        self.completed.push(job);
        proof {
            old(self).in_flight@.to_multiset_ensures();
            old(self).completed@.to_multiset_ensures();
            assert(final(self).in_flight@.to_multiset() =~= old(
                self,
            ).in_flight@.to_multiset().remove(job));
            assert(final(self).completed@.to_multiset() =~= old(
                self,
            ).completed@.to_multiset().insert(job));
            assert(final(self).in_flight@.to_multiset().add(final(self).completed@.to_multiset())
                =~= range_multiset(final(self).next_job as int)) by {
                assert(old(self).in_flight@.contains(old(self).in_flight@[pos as int]));
                assert(old(self).in_flight@.to_multiset().count(job) > 0);
            }
        }
    }

    /// Whether every job has started and finished.
    pub fn finished(&self) -> (r: bool)
        ensures
            r == (self.next_job == self.total && self.in_flight@.len() == 0),
    {
        self.next_job == self.total && self.in_flight.len() == 0
    }
}

/// The numbers below a bound each sit in the range multiset exactly once.
pub proof fn lemma_range_multiset_count(n: int, j: usize)
    requires
        n <= usize::MAX as int,
    ensures
        range_multiset(n).count(j) == if (j as int) < n {
            1nat
        } else {
            0nat
        },
    decreases n,
{
    if n > 0 {
        lemma_range_multiset_count(n - 1, j);
        assert(range_multiset(n) == range_multiset(n - 1).insert(((n - 1) as usize)));
        if j == (n - 1) as usize && (j as int) == n - 1 {
            assert(range_multiset(n).count(j) == range_multiset(n - 1).count(j) + 1);
        } else {
            assert(range_multiset(n).count(j) == range_multiset(n - 1).count(j));
        }
    } else {
        assert(range_multiset(n).count(j) == 0);
    }
}

/// Law: the scheduler never has more than the ceiling in flight, and once
/// it is finished, every submitted job appears in the completed list
/// exactly once.
pub proof fn lemma_pool_complete_exactly_once(p: BoundedPool)
    requires
        p.wf(),
    ensures
        p.in_flight@.len() <= p.ceiling,
        p.next_job == p.total && p.in_flight@.len() == 0 ==> forall|j: usize|
            p.completed@.to_multiset().count(j) == if (j as int) < p.total {
                1nat
            } else {
                0nat
            },
{
    if p.next_job == p.total && p.in_flight@.len() == 0 {
        p.in_flight@.to_multiset_ensures();
        assert(p.in_flight@ =~= Seq::<usize>::empty());
        assert(p.in_flight@.to_multiset() =~= Multiset::empty()) by {
            assert(forall|a: usize| !p.in_flight@.contains(a));
        }
        assert forall|j: usize|
            p.completed@.to_multiset().count(j) == if (j as int) < p.total {
                1nat
            } else {
                0nat
            } by {
            lemma_range_multiset_count(p.total as int, j);
            assert(p.completed@.to_multiset().count(j) == Multiset::empty().add(
                p.completed@.to_multiset(),
            ).count(j));
        }
    }
}

} // verus!
