//! The worker set of one service type: a fixed number of workers, each with
//! an unbounded queue of its own, served in turn.

use crate::services::service::{cpu_count, worker_plan, worker_plan_of, ServiceConcurrency, WorkerPlan};
use crate::utils::{
    after_first_envelope, envelopes, first_envelope, leading_ends, lemma_envelopes_push,
    lemma_first_envelope, lemma_leading_ends, recv_until_command_or_end, Command,
};
use std::collections::VecDeque;
use vstd::prelude::*;

verus! {

/// What a worker reports of itself.
#[derive(Debug, Clone, Copy, PartialEq, Eq, Structural)]
pub struct ServiceReport {
    /// When the last envelope was handed to the worker set.
    pub last_message_on: u64,
    /// How many commands wait at the worker.
    pub enqueued_messages: usize,
}

/// Where a worker stands in its life.
#[derive(Debug, Clone, Copy, PartialEq, Eq, Structural)]
pub enum WorkerState {
    /// Serving envelopes.
    Running,
    /// A stop was received and the queue was seen empty; the exit is pending.
    Draining,
    /// The loop has ended.
    Exited,
}

/// What the loop of a worker has to do next.
#[derive(Debug)]
pub enum WorkerAction<E> {
    /// Hand this envelope to the handler and come back when it has finished.
    Handle(E),
    /// Start a detached task that hands this envelope to the handler, and
    /// come back at once.
    Spawn(E),
    /// Nothing waits: await the next command.
    Wait,
    /// A stop was received and nothing waits: ask the set to retire the
    /// worker.
    Retire,
}

/// What the worker set answers to a worker that asks to be retired.
#[derive(Debug)]
pub enum WorkerRetirement<E> {
    /// The worker has left; `last` says that no worker is left and the set
    /// has to leave its router.
    Exited { last: bool },
    /// An envelope arrived in the meantime: handle it and go on.
    Postponed(WorkerAction<E>),
    /// There is no such worker, or it is not draining.
    Refused,
}

/// The state of one worker as contracts see it.
pub struct WorkerView<E> {
    pub queue: Seq<Command<E>>,
    pub state: WorkerState,
}

/// The number of workers that have not exited.
pub open spec fn active_count<E>(workers: Seq<WorkerView<E>>) -> nat
    decreases workers.len(),
{
    if workers.len() == 0 {
        0
    } else if workers.last().state is Exited {
        active_count(workers.drop_last())
    } else {
        1 + active_count(workers.drop_last())
    }
}

/// Replacing one worker changes the count by what that worker contributes.
pub proof fn lemma_active_count_update<E>(workers: Seq<WorkerView<E>>, i: int, worker: WorkerView<E>)
    requires
        0 <= i < workers.len(),
    ensures
        active_count(workers.update(i, worker)) + (if workers[i].state is Exited {
            0nat
        } else {
            1nat
        }) == active_count(workers) + (if worker.state is Exited {
            0nat
        } else {
            1nat
        }),
    decreases workers.len(),
{
    let updated = workers.update(i, worker);
    if i == workers.len() - 1 {
        assert(updated.drop_last() =~= workers.drop_last());
    } else {
        lemma_active_count_update(workers.drop_last(), i, worker);
        assert(updated.drop_last() =~= workers.drop_last().update(i, worker));
    }
}

/// No worker is counted exactly when every worker has exited.
pub proof fn lemma_active_count_zero<E>(workers: Seq<WorkerView<E>>)
    ensures
        active_count(workers) == 0 <==> forall|i: int|
            0 <= i < workers.len() ==> (#[trigger] workers[i]).state is Exited,
        active_count(workers) <= workers.len(),
    decreases workers.len(),
{
    if workers.len() > 0 {
        let rest = workers.drop_last();
        lemma_active_count_zero(rest);
        if active_count(workers) == 0 {
            assert forall|i: int| 0 <= i < workers.len() implies (#[trigger] workers[i]).state is Exited by {
                if i < rest.len() {
                    assert(rest[i] == workers[i]);
                }
            }
        } else if rest.len() > 0 && active_count(rest) != 0 {
            let j = choose|j: int| 0 <= j < rest.len() && !((#[trigger] rest[j]).state is Exited);
            assert(workers[j] == rest[j]);
        }
    }
}

/// The state of a worker set as contracts see it.
pub struct WorkerSetView<E> {
    pub workers: Seq<WorkerView<E>>,
    pub cursor: nat,
    pub active: nat,
    pub wait_for_service: bool,
    pub is_ending: bool,
    pub last_message_on: u64,
}

impl<E> WorkerSetView<E> {
    /// The cursor points at a worker, and the counter counts the workers that
    /// have not exited.
    pub open spec fn wf(self) -> bool {
        &&& self.cursor < self.workers.len() || self.cursor == 0
        &&& self.active == active_count(self.workers)
    }

    /// A set of running workers with empty queues, as a plan asks for.
    pub open spec fn created(plan: WorkerPlan, now: u64) -> Self {
        WorkerSetView {
            workers: Seq::new(
                plan.workers as nat,
                |i: int| WorkerView { queue: Seq::empty(), state: WorkerState::Running },
            ),
            cursor: 0,
            active: plan.workers as nat,
            wait_for_service: plan.wait_for_service,
            is_ending: false,
            last_message_on: now,
        }
    }

    /// The worker that takes the next envelope: the one behind the cursor,
    /// starting over after the last. A single worker takes them all.
    pub open spec fn next_index(self) -> nat {
        if self.workers.len() == 1 || self.cursor + 1 >= self.workers.len() {
            0
        } else {
            self.cursor + 1
        }
    }

    /// The set after the next worker in turn took a command.
    pub open spec fn deliver(self, command: Command<E>) -> Self {
        let i = self.next_index() as int;
        WorkerSetView {
            workers: self.workers.update(
                i,
                WorkerView { queue: self.workers[i].queue.push(command), ..self.workers[i] },
            ),
            cursor: if self.workers.len() == 1 {
                self.cursor
            } else {
                i as nat
            },
            ..self
        }
    }

    /// The set after an envelope was handed to it at `now`.
    pub open spec fn dispatch(self, envelope: E, now: u64) -> Self {
        WorkerSetView { last_message_on: now, ..self.deliver(Command::Dispatch(envelope)) }
    }

    /// The set after it was told to end: every worker is asked to stop.
    pub open spec fn end(self) -> Self {
        WorkerSetView {
            workers: Seq::new(
                self.workers.len(),
                |i: int|
                    WorkerView {
                        queue: self.workers[i].queue.push(Command::End),
                        ..self.workers[i]
                    },
            ),
            is_ending: true,
            ..self
        }
    }

    /// How a worker is told to treat an envelope.
    pub open spec fn action_for(self, envelope: E) -> WorkerAction<E> {
        if self.wait_for_service {
            WorkerAction::Handle(envelope)
        } else {
            WorkerAction::Spawn(envelope)
        }
    }

    /// The set after a number of turns of the loop of worker `i`.
    pub open spec fn after_turns(self, i: usize, turns: nat) -> Self
        decreases turns,
    {
        if turns == 0 {
            self
        } else {
            self.service_loop(i).0.after_turns(i, (turns - 1) as nat)
        }
    }

    /// Whether a stop waits in the queue of worker `i`.
    pub open spec fn stop_requested(self, i: usize) -> bool {
        exists|k: int|
            0 <= k < self.workers[i as int].queue.len() && self.workers[i as int].queue[k] is End
    }

    /// Whether `i` is a worker that has not exited.
    pub open spec fn is_active(self, i: usize) -> bool {
        i < self.workers.len() && !(self.workers[i as int].state is Exited)
    }

    /// One turn of a worker's loop. The first waiting envelope is handed out,
    /// and a stop that stood before it goes to the back of the queue. Where
    /// only stops wait, the worker drains and asks to be retired. `None` for a
    /// worker that does not exist or has exited.
    pub open spec fn service_loop(self, i: usize) -> (Self, Option<WorkerAction<E>>) {
        if self.is_active(i) {
            let worker = self.workers[i as int];
            match first_envelope(worker.queue) {
                Some(envelope) => {
                    let rest = after_first_envelope(worker.queue);
                    (
                        WorkerSetView {
                            workers: self.workers.update(
                                i as int,
                                WorkerView {
                                    queue: if leading_ends(worker.queue) > 0 {
                                        rest.push(Command::End)
                                    } else {
                                        rest
                                    },
                                    state: WorkerState::Running,
                                },
                            ),
                            ..self
                        },
                        Some(self.action_for(envelope)),
                    )
                },
                None => if worker.queue.len() > 0 {
                    (
                        WorkerSetView {
                            workers: self.workers.update(
                                i as int,
                                WorkerView { queue: Seq::empty(), state: WorkerState::Draining },
                            ),
                            ..self
                        },
                        Some(WorkerAction::Retire),
                    )
                } else {
                    (self, Some(WorkerAction::Wait))
                },
            }
        } else {
            (self, None)
        }
    }

    /// The answer to a worker that asks to be retired, with the slot of the
    /// set held. An envelope that arrived in the meantime is handed out and
    /// the stop is postponed; otherwise the worker exits, and the last one to
    /// exit takes the set with it.
    pub open spec fn retire(self, i: usize) -> (Self, WorkerRetirement<E>) {
        if i < self.workers.len() && self.workers[i as int].state is Draining {
            let worker = self.workers[i as int];
            match first_envelope(worker.queue) {
                Some(envelope) => (
                    WorkerSetView {
                        workers: self.workers.update(
                            i as int,
                            WorkerView {
                                queue: after_first_envelope(worker.queue).push(Command::End),
                                state: WorkerState::Running,
                            },
                        ),
                        ..self
                    },
                    WorkerRetirement::Postponed(self.action_for(envelope)),
                ),
                None => (
                    WorkerSetView {
                        workers: self.workers.update(
                            i as int,
                            WorkerView { queue: Seq::empty(), state: WorkerState::Exited },
                        ),
                        active: (self.active - 1) as nat,
                        ..self
                    },
                    WorkerRetirement::Exited { last: self.active <= 1 },
                ),
            }
        } else {
            (self, WorkerRetirement::Refused)
        }
    }
}

/// One worker: its queue and where it stands.
#[derive(Debug)]
struct Worker<E> {
    queue: VecDeque<Command<E>>,
    state: WorkerState,
}

impl<E> Worker<E> {
    spec fn view(&self) -> WorkerView<E> {
        WorkerView { queue: self.queue@, state: self.state }
    }
}

/// The worker set of one service type.
#[derive(Debug)]
pub struct ServiceManager<E> {
    senders: Vec<Worker<E>>,
    current: usize,
    is_ending: bool,
    active_services: usize,
    wait_for_service: bool,
    last_message_on: u64,
}

impl<E> ServiceManager<E> {
    pub closed spec fn view(&self) -> WorkerSetView<E> {
        WorkerSetView {
            workers: Seq::new(self.senders@.len(), |i: int| self.senders@[i]@),
            cursor: self.current as nat,
            active: self.active_services as nat,
            wait_for_service: self.wait_for_service,
            is_ending: self.is_ending,
            last_message_on: self.last_message_on,
        }
    }

    /// Creates the worker set that a plan asks for.
    pub fn with_plan(plan: WorkerPlan, now: u64) -> (manager: ServiceManager<E>)
        ensures
            manager@ == WorkerSetView::<E>::created(plan, now),
            manager@.wf(),
    {
        let mut senders: Vec<Worker<E>> = Vec::new();
        let mut i: usize = 0;
        while i < plan.workers
            invariant
                i <= plan.workers,
                senders@.len() == i,
                forall|j: int|
                    0 <= j < i ==> (#[trigger] senders@[j])@ == (WorkerView::<E> {
                        queue: Seq::empty(),
                        state: WorkerState::Running,
                    }),
                active_count(Seq::new(senders@.len(), |j: int| senders@[j]@)) == i,
            decreases plan.workers - i,
        {
            let ghost before = Seq::new(senders@.len(), |j: int| senders@[j]@);
            senders.push(Worker { queue: VecDeque::new(), state: WorkerState::Running });
            proof {
                let after = Seq::new(senders@.len(), |j: int| senders@[j]@);
                assert(after.drop_last() =~= before);
            }
            i += 1;
        }
        let manager = ServiceManager {
            senders,
            current: 0,
            is_ending: false,
            active_services: plan.workers,
            wait_for_service: plan.wait_for_service,
            last_message_on: now,
        };
        assert(manager@.workers =~= WorkerSetView::<E>::created(plan, now).workers);
        manager
    }

    /// Creates the worker set of a service on a machine with `cpus` cores.
    pub fn with_cpu_count(concurrency: ServiceConcurrency, cpus: usize, zero_sized: bool, now: u64) -> (manager:
        ServiceManager<E>)
        ensures
            manager@ == WorkerSetView::<E>::created(worker_plan_of(concurrency, cpus, zero_sized), now),
            manager@.wf(),
    {
        ServiceManager::with_plan(worker_plan(concurrency, cpus, zero_sized), now)
    }

    /// Creates the worker set of a service on this machine, from what the
    /// service returned when it was initialized and whether its value is
    /// zero-sized. The number of cores is asked of the machine.
    pub fn new(concurrency: ServiceConcurrency, zero_sized: bool, now: u64) -> (manager:
        ServiceManager<E>)
        ensures
            manager@.wf(),
            exists|cpus: usize|
                cpus >= 1 && manager@ == WorkerSetView::<E>::created(
                    #[trigger] worker_plan_of(concurrency, cpus, zero_sized),
                    now,
                ),
    {
        let cpus: usize = cpu_count();
        ServiceManager::with_cpu_count(concurrency, cpus, zero_sized, now)
    }

    /// The number of workers, exited ones included.
    pub fn get_concurrency(&self) -> (workers: usize)
        ensures
            workers == self@.workers.len(),
    {
        self.senders.len()
    }

    /// The number of workers that have not exited.
    pub fn get_active_services(&self) -> (active: usize)
        ensures
            active == self@.active,
    {
        self.active_services
    }

    /// Advances the cursor and returns the worker that takes the next
    /// envelope.
    pub fn get_next_sender_index(&mut self) -> (index: usize)
        requires
            old(self)@.wf(),
        ensures
            final(self)@.wf(),
            index == old(self)@.next_index(),
            final(self)@ == (WorkerSetView {
                cursor: if old(self)@.workers.len() == 1 {
                    old(self)@.cursor
                } else {
                    index as nat
                },
                ..old(self)@
            }),
            old(self)@.workers.len() > 0 ==> index < old(self)@.workers.len(),
    {
        if self.senders.len() == 1 {
            return 0;
        }
        if self.current >= self.senders.len() || self.current + 1 >= self.senders.len() {
            self.current = 0;
        } else {
            self.current = self.current + 1;
        }
        self.current
    }

    /// Hands an envelope to the next worker in turn and returns that worker.
    /// A set without workers takes nothing and hands the envelope back.
    pub fn dispatch(&mut self, envelope: E, now: u64) -> (taken: Result<usize, E>)
        requires
            old(self)@.wf(),
        ensures
            final(self)@.wf(),
            match taken {
                Ok(index) => {
                    &&& old(self)@.workers.len() > 0
                    &&& index == old(self)@.next_index()
                    &&& final(self)@ == old(self)@.dispatch(envelope, now)
                },
                Err(back) => {
                    &&& old(self)@.workers.len() == 0
                    &&& back == envelope
                    &&& final(self)@ == old(self)@
                },
            },
    {
        if self.senders.len() == 0 {
            return Err(envelope);
        }
        let index: usize = self.get_next_sender_index();
        self.last_message_on = now;
        let ghost before = self@.workers;
        let worker = &mut self.senders[index];
        worker.queue.push_back(Command::Dispatch(envelope));
        proof {
            let pushed = WorkerView {
                queue: before[index as int].queue.push(Command::Dispatch(envelope)),
                ..before[index as int]
            };
            assert(self@.workers =~= before.update(index as int, pushed));
            lemma_active_count_update(before, index as int, pushed);
        }
        Ok(index)
    }

    /// Asks every worker to stop once it has served what waits.
    pub fn end(&mut self)
        requires
            old(self)@.wf(),
        ensures
            final(self)@.wf(),
            final(self)@ == old(self)@.end(),
    {
        self.is_ending = true;
        let n: usize = self.senders.len();
        let mut i: usize = 0;
        while i < n
            invariant
                i <= n,
                n == self.senders@.len(),
                n == old(self).senders@.len(),
                self.current == old(self).current,
                self.active_services == old(self).active_services,
                self.wait_for_service == old(self).wait_for_service,
                self.last_message_on == old(self).last_message_on,
                self.is_ending,
                forall|j: int|
                    0 <= j < i ==> (#[trigger] self.senders@[j])@ == (WorkerView {
                        queue: old(self).senders@[j]@.queue.push(Command::End),
                        ..old(self).senders@[j]@
                    }),
                forall|j: int| i <= j < n ==> (#[trigger] self.senders@[j])@ == old(self).senders@[j]@,
                self@.active == active_count(self@.workers),
            decreases n - i,
        {
            let ghost before = self@.workers;
            let worker = &mut self.senders[i];
            worker.queue.push_back(Command::End);
            proof {
                let pushed = WorkerView {
                    queue: before[i as int].queue.push(Command::End),
                    ..before[i as int]
                };
                assert(self@.workers =~= before.update(i as int, pushed));
                lemma_active_count_update(before, i as int, pushed);
            }
            i += 1;
        }
        assert(self@.workers =~= old(self)@.end().workers);
    }

    /// The report of every worker, in their order.
    pub fn get_statistics(&self) -> (report: Vec<ServiceReport>)
        ensures
            report@.len() == self@.workers.len(),
            forall|i: int|
                0 <= i < report@.len() ==> (#[trigger] report@[i]) == (ServiceReport {
                    last_message_on: self@.last_message_on,
                    enqueued_messages: self@.workers[i].queue.len() as usize,
                }),
    {
        let mut report: Vec<ServiceReport> = Vec::new();
        let mut i: usize = 0;
        while i < self.senders.len()
            invariant
                i <= self.senders@.len(),
                report@.len() == i,
                forall|j: int|
                    0 <= j < i ==> (#[trigger] report@[j]) == (ServiceReport {
                        last_message_on: self@.last_message_on,
                        enqueued_messages: self@.workers[j].queue.len() as usize,
                    }),
            decreases self.senders@.len() - i,
        {
            report.push(
                ServiceReport {
                    last_message_on: self.last_message_on,
                    enqueued_messages: self.senders[i].queue.len(),
                },
            );
            i += 1;
        }
        report
    }

    /// How a worker is told to treat an envelope: it waits for the handler,
    /// or starts a detached task where the concurrency is unlimited.
    fn action_for(&self, envelope: E) -> (action: WorkerAction<E>)
        ensures
            action == self@.action_for(envelope),
    {
        if self.wait_for_service {
            WorkerAction::Handle(envelope)
        } else {
            WorkerAction::Spawn(envelope)
        }
    }

    /// One turn of the loop of worker `index`: what its host has to do next,
    /// or `None` if there is no such worker or it has exited.
    pub fn service_loop(&mut self, index: usize) -> (action: Option<WorkerAction<E>>)
        requires
            old(self)@.wf(),
        ensures
            final(self)@.wf(),
            (final(self)@, action) == old(self)@.service_loop(index),
    {
        if index >= self.senders.len() {
            return None;
        }
        if let WorkerState::Exited = self.senders[index].state {
            return None;
        }
        let ghost before = self@.workers;
        let waiting: usize = self.senders[index].queue.len();
        proof {
            lemma_leading_ends(before[index as int].queue);
            lemma_first_envelope(before[index as int].queue);
        }
        if waiting == 0 {
            return Some(WorkerAction::Wait);
        }
        let worker = &mut self.senders[index];
        let found = recv_until_command_or_end(&mut worker.queue);
        match found {
            Some(envelope) => {
                let taken: usize = waiting - worker.queue.len();
                if taken > 1 {
                    worker.queue.push_back(Command::End);
                }
                worker.state = WorkerState::Running;
                proof {
                    let next = self@.workers[index as int];
                    assert(self@.workers =~= before.update(index as int, next));
                    lemma_active_count_update(before, index as int, next);
                }
                Some(self.action_for(envelope))
            },
            None => {
                worker.state = WorkerState::Draining;
                proof {
                    let next = self@.workers[index as int];
                    assert(self@.workers =~= before.update(index as int, next));
                    lemma_active_count_update(before, index as int, next);
                }
                Some(WorkerAction::Retire)
            },
        }
    }

    /// Answers worker `index`, which asks to be retired, with the slot of the
    /// set held. An envelope that arrived since the worker saw its queue
    /// empty is handed out and the stop is postponed; otherwise the worker
    /// exits and the counter of active workers goes down by one.
    pub fn retire_worker(&mut self, index: usize) -> (retirement: WorkerRetirement<E>)
        requires
            old(self)@.wf(),
        ensures
            final(self)@.wf(),
            (final(self)@, retirement) == old(self)@.retire(index),
    {
        if index >= self.senders.len() {
            return WorkerRetirement::Refused;
        }
        match self.senders[index].state {
            WorkerState::Draining => {},
            _ => {
                return WorkerRetirement::Refused;
            },
        }
        let ghost before = self@.workers;
        proof {
            lemma_leading_ends(before[index as int].queue);
            lemma_first_envelope(before[index as int].queue);
            lemma_active_count_zero(before);
        }
        let worker = &mut self.senders[index];
        let found = recv_until_command_or_end(&mut worker.queue);
        match found {
            Some(envelope) => {
                worker.queue.push_back(Command::End);
                worker.state = WorkerState::Running;
                proof {
                    let next = self@.workers[index as int];
                    assert(self@.workers =~= before.update(index as int, next));
                    lemma_active_count_update(before, index as int, next);
                }
                WorkerRetirement::Postponed(self.action_for(envelope))
            },
            None => {
                worker.state = WorkerState::Exited;
                let previously_active: usize = self.active_services;
                proof {
                    let next = self@.workers[index as int];
                    assert(self@.workers =~= before.update(index as int, next));
                    lemma_active_count_update(before, index as int, next);
                }
                self.active_services = previously_active - 1;
                WorkerRetirement::Exited { last: previously_active <= 1 }
            },
        }
    }
}

/// Workers are served in turn: with more than one worker, each envelope goes
/// to the worker behind the one that took the last, and the first worker
/// follows the last.
pub proof fn lemma_round_robin<E>(set: WorkerSetView<E>, envelope: E, now: u64)
    requires
        set.wf(),
        set.workers.len() > 0,
    ensures
        set.next_index() < set.workers.len(),
        set.workers.len() > 1 ==> set.next_index() == (set.cursor + 1) as int % (
        set.workers.len() as int),
        set.workers.len() > 1 ==> set.dispatch(envelope, now).next_index() == (set.next_index()
            + 1) as int % (set.workers.len() as int),
        set.workers.len() == 1 ==> set.dispatch(envelope, now).next_index() == 0,
        set.dispatch(envelope, now).workers[set.next_index() as int].queue
            == set.workers[set.next_index() as int].queue.push(Command::Dispatch(envelope)),
        forall|j: int|
            0 <= j < set.workers.len() && j != set.next_index() ==> set.dispatch(
                envelope,
                now,
            ).workers[j] == set.workers[j],
{
    let n = set.workers.len() as int;
    if n > 1 {
        let c = set.cursor as int;
        if c + 1 >= n {
            assert(c + 1 == n);
            assert((c + 1) % n == 0) by (nonlinear_arith)
                requires
                    c + 1 == n,
                    n > 0,
            ;
        } else {
            assert((c + 1) % n == c + 1) by (nonlinear_arith)
                requires
                    0 <= c + 1 < n,
            ;
        }
        let i = set.next_index() as int;
        if i + 1 >= n {
            assert((i + 1) % n == 0) by (nonlinear_arith)
                requires
                    i + 1 == n,
                    n > 0,
            ;
        } else {
            assert((i + 1) % n == i + 1) by (nonlinear_arith)
                requires
                    0 <= i + 1 < n,
            ;
        }
    }
}

/// A worker serves its envelopes in the order in which they reached it, and
/// exits only on an empty queue: a turn of its loop, and the answer to its
/// request to retire, hand out the envelope that has waited longest or none,
/// and a worker that exits leaves no envelope behind.
pub proof fn lemma_worker_serves_in_order<E>(set: WorkerSetView<E>, i: usize)
    requires
        set.wf(),
        i < set.workers.len(),
    ensures
        match set.service_loop(i).1 {
            Some(WorkerAction::Handle(first)) | Some(WorkerAction::Spawn(first)) => envelopes(
                set.workers[i as int].queue,
            ) == seq![first] + envelopes(set.service_loop(i).0.workers[i as int].queue),
            _ => envelopes(set.service_loop(i).0.workers[i as int].queue) == envelopes(
                set.workers[i as int].queue,
            ),
        },
        match set.retire(i).1 {
            WorkerRetirement::Postponed(WorkerAction::Handle(first))
            | WorkerRetirement::Postponed(WorkerAction::Spawn(first)) => envelopes(
                set.workers[i as int].queue,
            ) == seq![first] + envelopes(set.retire(i).0.workers[i as int].queue),
            WorkerRetirement::Exited { last } => envelopes(set.workers[i as int].queue).len() == 0
                && (last <==> forall|j: int|
                0 <= j < set.workers.len() ==> (#[trigger] set.retire(i).0.workers[j]).state is Exited),
            _ => set.retire(i).0 == set,
        },
{
    let queue = set.workers[i as int].queue;
    lemma_first_envelope(queue);
    lemma_leading_ends(queue);
    lemma_envelopes_push(after_first_envelope(queue), Command::End);
    match set.retire(i).1 {
        WorkerRetirement::Exited { last } => {
            let after = set.retire(i).0;
            lemma_active_count_update(set.workers, i as int, after.workers[i as int]);
            lemma_active_count_zero(after.workers);
        },
        _ => {},
    }
}

/// When a set is told to end, a stop waits at every worker; the workers, the
/// cursor and the counter of active workers stay as they are.
pub proof fn lemma_end_reaches_every_worker<E>(set: WorkerSetView<E>, i: usize)
    requires
        set.wf(),
        i < set.workers.len(),
    ensures
        set.end().wf(),
        set.end().workers.len() == set.workers.len(),
        set.end().stop_requested(i),
        set.end().is_active(i) == set.is_active(i),
        envelopes(set.end().workers[i as int].queue) == envelopes(set.workers[i as int].queue),
{
    let stopped = set.end().workers[i as int].queue;
    assert(stopped[stopped.len() - 1] is End);
    lemma_envelopes_push(set.workers[i as int].queue, Command::End);
    lemma_active_count_end(set.workers, set.end().workers);
}

/// Workers that differ in their queues alone count alike.
proof fn lemma_active_count_end<E>(before: Seq<WorkerView<E>>, after: Seq<WorkerView<E>>)
    requires
        before.len() == after.len(),
        forall|i: int| 0 <= i < before.len() ==> (#[trigger] after[i]).state == before[i].state,
    ensures
        active_count(after) == active_count(before),
    decreases before.len(),
{
    if before.len() > 0 {
        lemma_active_count_end(before.drop_last(), after.drop_last());
    }
}

/// A worker at which a stop waits drains in a bounded number of turns: as
/// long as envelopes wait, each turn hands one out; the turn after the last
/// asks for the worker to be retired, and the worker then exits unless
/// something reached it in between.
pub proof fn lemma_stopping_worker_drains<E>(set: WorkerSetView<E>, i: usize)
    requires
        set.wf(),
        set.is_active(i),
        set.stop_requested(i),
    ensures
        forall|turns: nat|
            turns < envelopes(set.workers[i as int].queue).len() ==> (#[trigger] set.after_turns(
                i,
                turns,
            )).service_loop(i).1 is Some && !(set.after_turns(i, turns).service_loop(i).1->0 is Wait)
                && !(set.after_turns(i, turns).service_loop(i).1->0 is Retire),
        set.after_turns(i, envelopes(set.workers[i as int].queue).len()).service_loop(i).1 == Some(
            WorkerAction::<E>::Retire,
        ),
        set.after_turns(i, envelopes(set.workers[i as int].queue).len() + 1).retire(i).1 is Exited,
    decreases envelopes(set.workers[i as int].queue).len(),
{
    let queue = set.workers[i as int].queue;
    lemma_first_envelope(queue);
    lemma_leading_ends(queue);
    let n = envelopes(queue).len();
    let next = set.service_loop(i).0;
    if n == 0 {
        assert(first_envelope(queue) is None);
        assert(next.workers[i as int].queue =~= Seq::<Command<E>>::empty());
        assert(set.after_turns(i, 1) == next.after_turns(i, 0));
        assert(leading_ends(next.workers[i as int].queue) == 0);
    } else {
        assert(first_envelope(queue) is Some) by {
            if first_envelope(queue) is None {
                assert(envelopes(queue).len() == 0);
            }
        }
        let rest = after_first_envelope(queue);
        lemma_envelopes_push(rest, Command::End);
        let after = next.workers[i as int].queue;
        assert(envelopes(after).len() == n - 1);
        assert(next.stop_requested(i)) by {
            if leading_ends(queue) > 0 {
                assert(after[after.len() - 1] is End);
            } else {
                let k = choose|k: int| 0 <= k < queue.len() && queue[k] is End;
                assert(queue[0] is Dispatch);
                assert(after[k - 1] == queue[k]);
            }
        }
        lemma_active_count_update(set.workers, i as int, next.workers[i as int]);
        lemma_stopping_worker_drains(next, i);
        assert forall|turns: nat| turns < n implies (#[trigger] set.after_turns(
            i,
            turns,
        )).service_loop(i).1 is Some && !(set.after_turns(i, turns).service_loop(i).1->0 is Wait)
            && !(set.after_turns(i, turns).service_loop(i).1->0 is Retire) by {
            if turns > 0 {
                assert(set.after_turns(i, turns) == next.after_turns(i, (turns - 1) as nat));
            }
        }
        assert(set.after_turns(i, n) == next.after_turns(i, (n - 1) as nat));
        assert(set.after_turns(i, n + 1) == next.after_turns(i, n as nat));
    }
}

} // verus!
