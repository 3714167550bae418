//! The coordinator's record of which workers of a pool are at work.
use crate::error::PlanError;
use vstd::prelude::*;

verus! {

/// Whether a worker holds a task.
#[derive(Clone, Copy, Debug, PartialEq, Eq, Structural)]
pub enum Status {
    Busy,
    Idle,
}

/// The number of busy workers among `pool`.
pub open spec fn busy(pool: Seq<Status>) -> nat
    decreases pool.len(),
{
    if pool.len() == 0 {
        0
    } else {
        busy(pool.drop_last()) + if pool.last() == Status::Busy {
            1nat
        } else {
            0nat
        }
    }
}

/// Worker `i` is the first idle one of `pool`.
pub open spec fn first_idle(pool: Seq<Status>, i: int) -> bool {
    &&& 0 <= i < pool.len()
    &&& pool[i] == Status::Idle
    &&& forall|j: int| 0 <= j < i ==> pool[j] == Status::Busy
}

/// More than 99 in 100 workers of `pool` are busy.
pub open spec fn saturated(pool: Seq<Status>) -> bool {
    100 * busy(pool) > 99 * pool.len()
}

/// At most every worker is busy, and every one is exactly when none is
/// idle.
pub proof fn lemma_busy_full(pool: Seq<Status>)
    ensures
        busy(pool) <= pool.len(),
        busy(pool) == pool.len() <==> forall|i: int| 0 <= i < pool.len() ==> pool[i]
            == Status::Busy,
    decreases pool.len(),
{
    if pool.len() > 0 {
        let p = pool.drop_last();
        lemma_busy_full(p);
        if busy(pool) == pool.len() {
            assert forall|i: int| 0 <= i < pool.len() implies pool[i] == Status::Busy by {
                if i < pool.len() - 1 {
                    assert(p[i] == pool[i]);
                }
            }
        }
        if forall|i: int| 0 <= i < pool.len() ==> pool[i] == Status::Busy {
            assert forall|i: int| 0 <= i < p.len() implies p[i] == Status::Busy by {
                assert(p[i] == pool[i]);
            }
        }
    }
}

/// A pool of up to a hundred workers counts as saturated exactly when it
/// has a worker and none of them is idle.
pub proof fn lemma_saturated_small(pool: Seq<Status>)
    requires
        pool.len() <= 100,
    ensures
        saturated(pool) <==> pool.len() > 0 && forall|i: int|
            0 <= i < pool.len() ==> pool[i] == Status::Busy,
{
    lemma_busy_full(pool);
}

/// The status of each worker of one pool, by the worker's index.
pub struct PoolManager {
    worker_status: Vec<Status>,
}

impl View for PoolManager {
    type V = Seq<Status>;

    closed spec fn view(&self) -> Seq<Status> {
        self.worker_status@
    }
}

impl PoolManager {
    /// A pool of `work_num` workers, all idle.
    pub fn new(work_num: usize) -> (pool: Self)
        ensures
            pool@ == Seq::new(work_num as nat, |i: int| Status::Idle),
    {
        let mut worker_status: Vec<Status> = Vec::new();
        let mut i: usize = 0;
        while i < work_num
            invariant
                i <= work_num,
                worker_status@ == Seq::new(i as nat, |j: int| Status::Idle),
            decreases work_num - i,
        {
            worker_status.push(Status::Idle);
            i += 1;
            assert(worker_status@ =~= Seq::new(i as nat, |j: int| Status::Idle));
        }
        PoolManager { worker_status }
    }

    /// The number of workers.
    pub fn work_num(&self) -> (n: usize)
        ensures
            n == self@.len(),
    {
        self.worker_status.len()
    }

    /// Whether worker `id` holds a task.
    pub fn is_busy(&self, id: usize) -> (at_work: bool)
        requires
            id < self@.len(),
        ensures
            at_work == (self@[id as int] == Status::Busy),
    {
        match self.worker_status[id] {
            Status::Busy => true,
            Status::Idle => false,
        }
    }

    /// Whether some worker is idle.
    pub fn has_idle_server(&self) -> (idle: bool)
        ensures
            idle == exists|i: int| 0 <= i < self@.len() && self@[i] == Status::Idle,
    {
        let mut i: usize = 0;
        while i < self.worker_status.len()
            invariant
                i <= self.worker_status@.len(),
                forall|j: int| 0 <= j < i ==> self.worker_status@[j] == Status::Busy,
            decreases self.worker_status@.len() - i,
        {
            match self.worker_status[i] {
                Status::Idle => {
                    return true;
                },
                Status::Busy => {},
            }
            i += 1;
        }
        false
    }

    /// Marks the first idle worker as busy and returns its index, for the
    /// caller to send it a task. With no idle worker the pool stays as it
    /// is.
    pub fn find_idle_worker(&mut self) -> (found: Result<usize, PlanError>)
        ensures
            match found {
                Ok(id) => first_idle(old(self)@, id as int) && final(self)@ == old(self)@.update(
                    id as int,
                    Status::Busy,
                ),
                Err(e) => e == PlanError::NoIdleWorker && final(self)@ == old(self)@ && forall|
                    i: int,
                | 0 <= i < old(self)@.len() ==> old(self)@[i] == Status::Busy,
            },
    {
        let mut i: usize = 0;
        while i < self.worker_status.len()
            invariant
                self.worker_status@ == old(self).worker_status@,
                i <= self.worker_status@.len(),
                forall|j: int| 0 <= j < i ==> self.worker_status@[j] == Status::Busy,
            decreases self.worker_status@.len() - i,
        {
            match self.worker_status[i] {
                Status::Idle => {
                    self.worker_status.set(i, Status::Busy);
                    return Ok(i);
                },
                Status::Busy => {},
            }
            i += 1;
        }
        Err(PlanError::NoIdleWorker)
    }

    /// Marks worker `id` as idle, once its reply has come in.
    pub fn release(&mut self, id: usize)
        requires
            id < old(self)@.len(),
        ensures
            final(self)@ == old(self)@.update(id as int, Status::Idle),
    {
        self.worker_status.set(id, Status::Idle);
    }

    /// The fraction of the workers that are busy, as the number of busy
    /// workers over the number of all.
    pub fn occupancy(&self) -> (fraction: (usize, usize))
        ensures
            fraction.0 == busy(self@),
            fraction.1 == self@.len(),
    {
        let mut n: usize = 0;
        let mut i: usize = 0;
        while i < self.worker_status.len()
            invariant
                i <= self.worker_status@.len(),
                n == busy(self.worker_status@.take(i as int)),
                n <= i,
            decreases self.worker_status@.len() - i,
        {
            assert(self.worker_status@.take(i + 1).drop_last() =~= self.worker_status@.take(
                i as int,
            ));
            match self.worker_status[i] {
                Status::Busy => {
                    n += 1;
                },
                Status::Idle => {},
            }
            i += 1;
        }
        assert(self.worker_status@.take(i as int) =~= self.worker_status@);
        (n, self.worker_status.len())
    }

    /// Whether the occupancy is above 0.99, the mark at which the
    /// coordinator stops to collect a reply.
    pub fn is_saturated(&self) -> (full: bool)
        ensures
            full == saturated(self@),
    {
        let (n, all) = self.occupancy();
        (n as u128) * 100 > (all as u128) * 99
    }
}

} // verus!
