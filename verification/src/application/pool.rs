//! The pool of workers of a service: they are started one by one, and started again when they stop.

use vstd::prelude::*;

verus! {

/// How long a pool waits between two rounds, in milliseconds.
pub const REST_MS: u64 = 500;

/// What was heard of a worker.
#[derive(Clone, Copy, PartialEq, Eq, Structural, Debug)]
pub enum Signal {
    /// The worker has stopped.
    Disconnected,
    /// The worker sent something, which it never should.
    Message,
    /// Nothing: the worker is at work.
    Empty,
}

/// How far the pool is.
#[derive(Clone, Copy, PartialEq, Eq, Structural, Debug)]
pub enum Stage {
    /// The workers before this one were started for the first time.
    Starting(usize),
    /// The workers before this one were looked after in this round.
    Watching(usize),
    /// This worker has stopped and is to be started again.
    Restarting(usize),
}

/// What the pool is to do next.
#[derive(Clone, Copy, PartialEq, Eq, Structural, Debug)]
pub enum Task {
    /// Start a worker, and wait until it is ready or has failed to start.
    Spawn(usize),
    /// Hear whether a worker is at work.
    Check(usize),
    /// Wait before the next round.
    Sleep,
}

/// What has happened since the pool asked for a task. `R` is the receiver by which a worker is
/// heard.
pub enum PoolEvent<R> {
    /// The worker is ready and heard by the receiver, or has failed to start.
    Spawned(Option<R>),
    /// What was heard of the worker.
    Heard(Signal),
    /// The time until the next round has passed.
    Rested,
}

/// A pool of workers, heard by the receivers in `workers`.
pub struct DispatcherPool<R> {
    pub worker_count: usize,
    pub workers: Vec<R>,
    pub stage: Stage,
}

/// The mathematical reading of a [`DispatcherPool`].
pub struct PoolView<R> {
    pub worker_count: usize,
    pub workers: Seq<R>,
    pub stage: Stage,
}

impl<R> View for DispatcherPool<R> {
    type V = PoolView<R>;

    open spec fn view(&self) -> PoolView<R> {
        PoolView {
            worker_count: self.worker_count,
            workers: self.workers@,
            stage: self.stage,
        }
    }
}

impl<R> PoolView<R> {
    /// The stage is about a worker of the pool, or past the last.
    pub open spec fn wf(self) -> bool {
        match self.stage {
            Stage::Starting(i) => i < self.worker_count,
            Stage::Watching(i) => i <= self.worker_count,
            Stage::Restarting(i) => i < self.worker_count,
        }
    }

    /// What the pool is to do next.
    pub open spec fn task(self) -> Task {
        match self.stage {
            Stage::Starting(i) => Task::Spawn(i),
            Stage::Watching(i) => if i < self.worker_count {
                Task::Check(i)
            } else {
                Task::Sleep
            },
            Stage::Restarting(i) => Task::Spawn(i),
        }
    }

    /// The receivers once an attempt to start the worker has come to an end: the one of a worker
    /// that is ready goes in at its place, and where the worker has failed to start the one at its
    /// place comes out.
    pub open spec fn heard_by(self, worker_id: usize, ready: Option<R>) -> Seq<R> {
        match ready {
            Some(receiver) => self.workers.insert(worker_id as int, receiver),
            None => self.workers.remove(worker_id as int),
        }
    }

    /// Whether the receivers have a place for the outcome.
    pub open spec fn has_place(self, worker_id: usize, ready: Option<R>) -> bool {
        match ready {
            Some(_) => worker_id <= self.workers.len(),
            None => worker_id < self.workers.len(),
        }
    }

    /// The stage after a worker was started for the first time.
    pub open spec fn after_start(self, i: usize) -> Stage {
        if i + 1 < self.worker_count {
            Stage::Starting((i + 1) as usize)
        } else {
            Stage::Watching(0)
        }
    }

    /// Whether the event answers the task.
    pub open spec fn answered_by(self, event: PoolEvent<R>) -> bool {
        match self.task() {
            Task::Spawn(i) => event is Spawned && self.has_place(i, event->Spawned_0),
            Task::Check(_) => event is Heard,
            Task::Sleep => event is Rested,
        }
    }
}

/// One step of the pool.
pub open spec fn pool_step<R>(p: PoolView<R>, event: PoolEvent<R>) -> PoolView<R> {
    match (p.stage, event) {
        (Stage::Starting(i), PoolEvent::Spawned(ready)) => PoolView {
            workers: p.heard_by(i, ready),
            stage: p.after_start(i),
            ..p
        },
        (Stage::Restarting(i), PoolEvent::Spawned(ready)) => PoolView {
            workers: p.heard_by(i, ready),
            stage: Stage::Watching((i + 1) as usize),
            ..p
        },
        (Stage::Watching(i), PoolEvent::Heard(Signal::Disconnected)) => PoolView {
            stage: Stage::Restarting(i),
            ..p
        },
        (Stage::Watching(i), PoolEvent::Heard(_)) => PoolView {
            stage: Stage::Watching((i + 1) as usize),
            ..p
        },
        (_, PoolEvent::Rested) => PoolView { stage: Stage::Watching(0), ..p },
        _ => p,
    }
}

impl<R> DispatcherPool<R> {
    /// A pool of which no worker is started yet.
    pub fn new(worker_count: usize) -> (r: DispatcherPool<R>)
        ensures
            r@ == (PoolView {
                worker_count,
                workers: Seq::<R>::empty(),
                stage: if worker_count > 0 {
                    Stage::Starting(0)
                } else {
                    Stage::Watching(0)
                },
            }),
            r@.wf(),
            all_heard(r@),
    {
        let stage = if worker_count > 0 {
            Stage::Starting(0)
        } else {
            Stage::Watching(0)
        };
        DispatcherPool { worker_count, workers: Vec::with_capacity(worker_count), stage }
    }

    /// What the pool is to do next.
    pub fn task(&self) -> (r: Task)
        ensures
            r == self@.task(),
    {
        match self.stage {
            Stage::Starting(i) => Task::Spawn(i),
            Stage::Watching(i) => if i < self.worker_count {
                Task::Check(i)
            } else {
                Task::Sleep
            },
            Stage::Restarting(i) => Task::Spawn(i),
        }
    }

    /// Takes in the outcome of an attempt to start a worker.
    pub fn spawn_dispatcher(&mut self, worker_id: usize, ready: Option<R>)
        requires
            old(self)@.has_place(worker_id, ready),
        ensures
            final(self)@ == (PoolView {
                workers: old(self)@.heard_by(worker_id, ready),
                ..old(self)@
            }),
    {
        match ready {
            Some(receiver) => {
                self.workers.insert(worker_id, receiver);
            },
            None => {
                self.workers.remove(worker_id);
            },
        }
    }

    /// Whether the event answers the task that the pool has asked for.
    pub fn answered_by(&self, event: &PoolEvent<R>) -> (r: bool)
        ensures
            r == self@.answered_by(*event),
    {
        match (self.task(), event) {
            (Task::Spawn(i), PoolEvent::Spawned(Some(_))) => i <= self.workers.len(),
            (Task::Spawn(i), PoolEvent::Spawned(None)) => i < self.workers.len(),
            (Task::Check(_), PoolEvent::Heard(_)) => true,
            (Task::Sleep, PoolEvent::Rested) => true,
            _ => false,
        }
    }

    /// One step of the pool: the workers are started one after the other, and then looked after in
    /// rounds, in which each that has stopped is started again.
    pub fn run(&mut self, event: PoolEvent<R>)
        requires
            old(self)@.wf(),
            old(self)@.answered_by(event),
        ensures
            final(self)@ == pool_step(old(self)@, event),
            final(self)@.wf(),
    {
        match (self.stage, event) {
            (Stage::Starting(i), PoolEvent::Spawned(ready)) => {
                self.spawn_dispatcher(i, ready);
                self.stage = if i + 1 < self.worker_count {
                    Stage::Starting(i + 1)
                } else {
                    Stage::Watching(0)
                };
            },
            (Stage::Restarting(i), PoolEvent::Spawned(ready)) => {
                self.spawn_dispatcher(i, ready);
                self.stage = Stage::Watching(i + 1);
            },
            (Stage::Watching(i), PoolEvent::Heard(Signal::Disconnected)) => {
                self.stage = Stage::Restarting(i);
            },
            (Stage::Watching(i), PoolEvent::Heard(_)) => {
                self.stage = Stage::Watching(i + 1);
            },
            _ => {
                self.stage = Stage::Watching(0);
            },
        }
    }
}

/// Every worker that is to be looked after has a receiver, and while the workers are started for
/// the first time there is one for each started.
pub open spec fn all_heard<R>(p: PoolView<R>) -> bool {
    match p.stage {
        Stage::Starting(i) => p.workers.len() == i,
        _ => p.workers.len() >= p.worker_count,
    }
}

/// As long as workers do not fail to start, every worker has a receiver, and there is a place for
/// the receiver of a worker that is started next.
pub proof fn law_started_workers_are_heard<R>(p: PoolView<R>, event: PoolEvent<R>)
    requires
        p.wf(),
        all_heard(p),
        p.answered_by(event),
        event is Spawned ==> event->Spawned_0 is Some,
    ensures
        all_heard(pool_step(p, event)),
        pool_step(p, event).wf(),
        pool_step(p, event).task() matches Task::Spawn(i) ==> i <= pool_step(p, event).workers.len(),
        pool_step(p, event).task() matches Task::Check(i) ==> i < pool_step(p, event).workers.len(),
{
}

/// A round comes to every worker: whatever is heard of a worker and whatever comes of starting it
/// again, it is the turn of the next.
pub proof fn law_a_round_goes_on<R>(p: PoolView<R>, signal: Signal, ready: Option<R>)
    requires
        p.wf(),
        p.stage is Watching,
        p.stage->Watching_0 < p.worker_count,
        p.has_place(p.stage->Watching_0, ready),
    ensures
        ({
            let i = p.stage->Watching_0;
            let after = pool_step(p, PoolEvent::Heard(signal));
            if signal == Signal::Disconnected {
                &&& after.task() == Task::Spawn(i)
                &&& pool_step(after, PoolEvent::Spawned(ready)).stage == Stage::Watching(
                    (i + 1) as usize,
                )
            } else {
                after.stage == Stage::Watching((i + 1) as usize)
            }
        }),
{
}

/// The pool once so many workers have been started for the first time, each heard by the receiver
/// of its number.
pub open spec fn started<R>(p: PoolView<R>, receivers: Seq<R>, count: nat) -> PoolView<R>
    decreases count,
{
    if count == 0 {
        p
    } else {
        let before = started(p, receivers, (count - 1) as nat);
        pool_step(before, PoolEvent::Spawned(Some(receivers[count - 1])))
    }
}

/// All workers of a pool are started, one after the other from the first to the last, and heard by
/// their own receivers; only then does the first round begin.
pub proof fn law_all_workers_are_started<R>(p: PoolView<R>, receivers: Seq<R>, count: nat)
    requires
        p.worker_count > 0,
        p.workers.len() == 0,
        p.stage == Stage::Starting(0),
        receivers.len() == p.worker_count,
        count <= p.worker_count,
    ensures
        ({
            let q = started(p, receivers, count);
            &&& q.worker_count == p.worker_count
            &&& q.workers == receivers.take(count as int)
            &&& q.wf()
            &&& count < p.worker_count ==> {
                &&& q.task() == Task::Spawn(count as usize)
                &&& q.answered_by(PoolEvent::Spawned(Some(receivers[count as int])))
                &&& q.stage == Stage::Starting(count as usize)
            }
            &&& count == p.worker_count ==> q.task() == Task::Check(0) && q.stage
                == Stage::Watching(0)
        }),
    decreases count,
{
    if count == 0 {
        assert(p.workers =~= receivers.take(0));
    } else {
        let before = (count - 1) as nat;
        law_all_workers_are_started(p, receivers, before);
        let held = started(p, receivers, before).workers;
        assert(held.insert(before as int, receivers[before as int]) =~= receivers.take(
            count as int,
        ));
    }
}

/// The pool once it has rested and then come to so many workers: `signals` is what was heard of
/// each, and `outcomes` what came of starting again those that had stopped.
pub open spec fn looked_after<R>(
    p: PoolView<R>,
    signals: Seq<Signal>,
    outcomes: Seq<Option<R>>,
    count: nat,
) -> PoolView<R>
    decreases count,
{
    if count == 0 {
        pool_step(p, PoolEvent::Rested)
    } else {
        let before = looked_after(p, signals, outcomes, (count - 1) as nat);
        let heard = pool_step(before, PoolEvent::Heard(signals[count - 1]));
        if signals[count - 1] == Signal::Disconnected {
            pool_step(heard, PoolEvent::Spawned(outcomes[count - 1]))
        } else {
            heard
        }
    }
}

/// Every round comes to every worker, once and in their order, from the first to the last: after
/// the rest the first is looked after, after each the next, and after the last the pool rests
/// again. Exactly those that have stopped are started again. One that is ready then is heard by its
/// receiver at its place, and one that fails to start leaves its place.
pub proof fn law_every_round_comes_to_every_worker<R>(
    p: PoolView<R>,
    signals: Seq<Signal>,
    outcomes: Seq<Option<R>>,
    count: nat,
)
    requires
        p.wf(),
        p.task() == Task::Sleep,
        count <= p.worker_count,
    ensures
        ({
            let q = looked_after(p, signals, outcomes, count);
            &&& q.worker_count == p.worker_count
            &&& q.wf()
            &&& q.task() == if count < p.worker_count {
                Task::Check(count as usize)
            } else {
                Task::Sleep
            }
            &&& count == 0 ==> q.workers == p.workers
        }),
        count > 0 ==> ({
            let i = count - 1;
            let before = looked_after(p, signals, outcomes, i as nat);
            let heard = pool_step(before, PoolEvent::Heard(signals[i]));
            let q = looked_after(p, signals, outcomes, count);
            if signals[i] == Signal::Disconnected {
                &&& heard.task() == Task::Spawn(i as usize)
                &&& heard.workers == before.workers
                &&& outcomes[i] is Some ==> q.workers == before.workers.insert(i, outcomes[i]->0)
                &&& outcomes[i] is None ==> q.workers == before.workers.remove(i)
            } else {
                q.workers == before.workers
            }
        }),
    decreases count,
{
    if count > 0 {
        law_every_round_comes_to_every_worker(p, signals, outcomes, (count - 1) as nat);
    }
}

/// An outcome of starting a worker has a place exactly where its receiver can go in, or the
/// receiver that is to come out is there; anything heard answers a check, and only the end of a
/// rest a rest.
pub proof fn law_answers_fit_the_task<R>(p: PoolView<R>, receiver: R, signal: Signal)
    ensures
        p.answered_by(PoolEvent::Spawned(Some(receiver))) <==> (p.task() matches Task::Spawn(i)
            && i <= p.workers.len()),
        p.answered_by(PoolEvent::Spawned(None)) <==> (p.task() matches Task::Spawn(i) && i
            < p.workers.len()),
        p.answered_by(PoolEvent::Heard(signal)) <==> p.task() is Check,
        p.answered_by(PoolEvent::Rested) <==> p.task() == Task::Sleep,
{
}

/// A pool is read as what it is.
pub proof fn law_views_of_a_pool<R>(pool: DispatcherPool<R>)
    ensures
        pool@.worker_count == pool.worker_count,
        pool@.workers == pool.workers@,
        pool@.stage == pool.stage,
{
}

} // verus!
