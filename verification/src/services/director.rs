//! The router of the services: one worker set for each service type.

use crate::registry::{lemma_table_entry, Registry};
use crate::services::manager::{
    ServiceManager, ServiceReport, WorkerAction, WorkerRetirement, WorkerSetView,
};
use crate::services::service::{worker_plan_of, ServiceConcurrency, WorkerPlan};
use vstd::prelude::*;

verus! {

/// The state of the router as contracts see it.
pub struct ServiceRouterView<E> {
    pub managers: Map<u64, WorkerSetView<E>>,
    pub is_stopping: bool,
}

impl<E> ServiceRouterView<E> {
    /// Every worker set is sound.
    pub open spec fn wf(self) -> bool {
        forall|type_id: u64|
            self.managers.contains_key(type_id) ==> (#[trigger] self.managers[type_id]).wf()
    }

    /// A router without worker sets.
    pub open spec fn created() -> Self {
        ServiceRouterView { managers: Map::empty(), is_stopping: false }
    }

    /// Whether a service type has its worker set.
    pub open spec fn is_loaded(self, type_id: u64) -> bool {
        self.managers.contains_key(type_id)
    }

    /// Whether an envelope for a service type can be taken: the type has a
    /// worker set with at least one worker.
    pub open spec fn takes(self, type_id: u64) -> bool {
        self.managers.contains_key(type_id) && self.managers[type_id].workers.len() > 0
    }

    /// The router with the worker set of one type replaced.
    pub open spec fn with_set(self, type_id: u64, set: WorkerSetView<E>) -> Self {
        ServiceRouterView { managers: self.managers.insert(type_id, set), ..self }
    }

    /// Whether a worker set is created for a type: it has none yet, and the
    /// router is not stopping.
    pub open spec fn creates(self, type_id: u64) -> bool {
        !self.managers.contains_key(type_id) && !self.is_stopping
    }

    /// The router after a service type was loaded with a plan.
    pub open spec fn preload(self, type_id: u64, plan: WorkerPlan, now: u64) -> Self {
        if self.creates(type_id) {
            self.with_set(type_id, WorkerSetView::created(plan, now))
        } else {
            self
        }
    }

    /// The router after an envelope was sent to a service type.
    pub open spec fn send(self, type_id: u64, envelope: E, now: u64) -> Self {
        if self.takes(type_id) {
            self.with_set(type_id, self.managers[type_id].dispatch(envelope, now))
        } else {
            self
        }
    }

    /// The router after it was told to stop: it is flagged, and every worker
    /// of every set is asked to stop.
    pub open spec fn stop(self) -> Self {
        ServiceRouterView {
            managers: Map::new(
                |type_id: u64| self.managers.contains_key(type_id),
                |type_id: u64| self.managers[type_id].end(),
            ),
            is_stopping: true,
        }
    }

    /// Whether the router has stopped: it was told to, and no set is left.
    pub open spec fn is_stopped(self) -> bool {
        self.is_stopping && forall|type_id: u64| !self.managers.contains_key(type_id)
    }

    /// One turn of the loop of a worker; `None` for a type without a set or
    /// a worker that does not exist or has exited.
    pub open spec fn service_loop(self, type_id: u64, index: usize) -> (
        Self,
        Option<WorkerAction<E>>,
    ) {
        if self.managers.contains_key(type_id) {
            let (set, action) = self.managers[type_id].service_loop(index);
            (self.with_set(type_id, set), action)
        } else {
            (self, None)
        }
    }

    /// The answer to a worker that asks to be retired. The set leaves the
    /// router with its last worker.
    pub open spec fn retire(self, type_id: u64, index: usize) -> (Self, WorkerRetirement<E>) {
        if self.managers.contains_key(type_id) {
            let (set, retirement) = self.managers[type_id].retire(index);
            match retirement {
                WorkerRetirement::Exited { last: true } => (
                    ServiceRouterView { managers: self.managers.remove(type_id), ..self },
                    retirement,
                ),
                _ => (self.with_set(type_id, set), retirement),
            }
        } else {
            (self, WorkerRetirement::Refused)
        }
    }
}

/// The router of the services.
#[derive(Debug)]
pub struct ServicesDirector<E> {
    managers: Registry<ServiceManager<E>>,
    is_stopping: bool,
}

impl<E> ServicesDirector<E> {
    pub closed spec fn view(&self) -> ServiceRouterView<E> {
        ServiceRouterView {
            managers: Map::new(
                |type_id: u64| self.managers@.contains_key(type_id),
                |type_id: u64| self.managers@[type_id]@,
            ),
            is_stopping: self.is_stopping,
        }
    }

    /// The table of worker sets is sound, and so is every set.
    pub closed spec fn wf(&self) -> bool {
        &&& self.managers.wf()
        &&& self@.wf()
    }

    /// Every worker set of a sound router is sound.
    pub proof fn lemma_wf(&self)
        requires
            self.wf(),
        ensures
            self@.wf(),
    {
    }

    /// After the set of one type was replaced in the table, the router's view
    /// differs from the earlier one in that set alone.
    proof fn lemma_replaced(&self, before: Self, type_id: u64)
        requires
            before.wf(),
            self.managers.wf(),
            self.managers@.contains_key(type_id),
            self.managers@[type_id]@.wf(),
            self.managers@ == before.managers@.insert(type_id, self.managers@[type_id]),
            self.is_stopping == before.is_stopping,
        ensures
            self.wf(),
            self@ == before@.with_set(type_id, self.managers@[type_id]@),
    {
        assert(self@.managers =~= before@.managers.insert(type_id, self.managers@[type_id]@));
        assert forall|t: u64| self@.managers.contains_key(t) implies (#[trigger] self@.managers[t]).wf() by {
            if t != type_id {
                assert(before@.managers[t].wf());
            }
        }
    }

    /// A router without worker sets.
    pub fn new() -> (director: ServicesDirector<E>)
        ensures
            director.wf(),
            director@ == ServiceRouterView::<E>::created(),
    {
        let director = ServicesDirector { managers: Registry::new(), is_stopping: false };
        assert(director@.managers =~= Map::empty());
        director
    }

    /// Whether a service type has its worker set.
    pub fn is_loaded(&self, type_id: u64) -> (loaded: bool)
        requires
            self.wf(),
        ensures
            loaded == self@.is_loaded(type_id),
    {
        self.managers.contains_key(type_id)
    }

    /// Whether a worker set would be created for a type now.
    pub fn creates(&self, type_id: u64) -> (creates: bool)
        requires
            self.wf(),
        ensures
            creates == self@.creates(type_id),
    {
        !self.is_stopping && !self.managers.contains_key(type_id)
    }

    /// Puts a worker set under a type that has none.
    fn install(&mut self, type_id: u64, manager: ServiceManager<E>)
        requires
            old(self).wf(),
            old(self)@.creates(type_id),
            manager@.wf(),
        ensures
            final(self).wf(),
            final(self)@ == old(self)@.with_set(type_id, manager@),
    {
        self.managers.insert(type_id, manager);
        proof {
            self.lemma_replaced(*old(self), type_id);
        }
    }

    /// Loads a service type with a given plan, unless it is loaded already or
    /// the router is stopping. Returns whether the worker set was created.
    pub fn preload_with_plan(&mut self, type_id: u64, plan: WorkerPlan, now: u64) -> (created: bool)
        requires
            old(self).wf(),
        ensures
            final(self).wf(),
            created == old(self)@.creates(type_id),
            final(self)@ == old(self)@.preload(type_id, plan, now),
    {
        if self.creates(type_id) {
            self.install(type_id, ServiceManager::with_plan(plan, now));
            true
        } else {
            false
        }
    }

    /// Loads a service type on this machine, from what the service returned
    /// when it was initialized and whether its value is zero-sized, unless it
    /// is loaded already or the router is stopping. Returns whether the
    /// worker set was created.
    pub fn preload(
        &mut self,
        type_id: u64,
        concurrency: ServiceConcurrency,
        zero_sized: bool,
        now: u64,
    ) -> (created: bool)
        requires
            old(self).wf(),
        ensures
            final(self).wf(),
            created == old(self)@.creates(type_id),
            exists|cpus: usize|
                cpus >= 1 && final(self)@ == old(self)@.preload(
                    type_id,
                    #[trigger] worker_plan_of(concurrency, cpus, zero_sized),
                    now,
                ),
    {
        if self.creates(type_id) {
            let manager = ServiceManager::new(concurrency, zero_sized, now);
            let ghost set = manager@;
            self.install(type_id, manager);
            proof {
                let cpus = choose|cpus: usize|
                    cpus >= 1 && set == WorkerSetView::<E>::created(
                        #[trigger] worker_plan_of(concurrency, cpus, zero_sized),
                        now,
                    );
                assert(self@ == old(self)@.preload(
                    type_id,
                    worker_plan_of(concurrency, cpus, zero_sized),
                    now,
                ));
            }
            true
        } else {
            proof {
                assert(self@ == old(self)@.preload(
                    type_id,
                    worker_plan_of(concurrency, 1, zero_sized),
                    now,
                ));
            }
            false
        }
    }

    /// Sends an envelope to a service type: the next worker in turn takes it.
    /// Returns that worker. A type that is not loaded, or has no worker,
    /// takes nothing and the envelope comes back.
    pub fn send(&mut self, type_id: u64, envelope: E, now: u64) -> (taken: Result<usize, E>)
        requires
            old(self).wf(),
        ensures
            final(self).wf(),
            final(self)@ == old(self)@.send(type_id, envelope, now),
            match taken {
                Ok(index) => old(self)@.takes(type_id) && index
                    == old(self)@.managers[type_id].next_index(),
                Err(back) => !old(self)@.takes(type_id) && back == envelope,
            },
    {
        match self.managers.position(type_id) {
            Some(i) => {
                proof {
                    assert(old(self)@.managers[type_id].wf());
                }
                let manager = self.managers.value_at_mut(i);
                let taken = manager.dispatch(envelope, now);
                proof {
                    self.lemma_replaced(*old(self), type_id);
                    if taken is Err {
                        assert(self@.managers =~= old(self)@.managers);
                    }
                }
                taken
            },
            None => Err(envelope),
        }
    }

    /// Flags the router as stopping and asks every worker of every set to
    /// stop.
    pub fn stop(&mut self)
        requires
            old(self).wf(),
        ensures
            final(self).wf(),
            final(self)@ == old(self)@.stop(),
    {
        self.is_stopping = true;
        let n: usize = self.managers.len();
        let mut i: usize = 0;
        proof {
            assert forall|j: int| 0 <= j < n implies (#[trigger] self.managers.values()[j])@.wf() by {
                lemma_table_entry(old(self).managers.keys(), old(self).managers.values(), j);
                assert(old(self)@.managers[old(self).managers.keys()[j]].wf());
            }
        }
        while i < n
            invariant
                self.managers.wf(),
                i <= n,
                n == self.managers.keys().len(),
                self.managers.keys() == old(self).managers.keys(),
                self.is_stopping,
                old(self).wf(),
                forall|j: int|
                    0 <= j < i ==> (#[trigger] self.managers.values()[j])@ == old(
                        self,
                    ).managers.values()[j]@.end(),
                forall|j: int|
                    i <= j < n ==> (#[trigger] self.managers.values()[j])@ == old(
                        self,
                    ).managers.values()[j]@,
                forall|j: int| 0 <= j < n ==> (#[trigger] self.managers.values()[j])@.wf(),
            decreases n - i,
        {
            let manager = self.managers.value_at_mut(i);
            manager.end();
            i += 1;
        }
        proof {
            let before = old(self)@.stop();
            let after = self@;
            assert forall|type_id: u64| after.managers.contains_key(type_id) implies (
            #[trigger] after.managers[type_id]) == before.managers[type_id]
                && after.managers[type_id].wf() by {
                let j = self.managers.keys().index_of(type_id);
                lemma_table_entry(self.managers.keys(), self.managers.values(), j);
                lemma_table_entry(old(self).managers.keys(), old(self).managers.values(), j);
            }
            assert(after.managers =~= before.managers);
        }
    }

    /// Whether the router has stopped: what a waiter for the end of the
    /// system polls.
    pub fn is_stopped(&self) -> (stopped: bool)
        requires
            self.wf(),
        ensures
            stopped == self@.is_stopped(),
    {
        proof {
            if self.managers.keys().len() > 0 {
                lemma_table_entry(self.managers.keys(), self.managers.values(), 0);
                assert(self@.managers.contains_key(self.managers.keys()[0]));
            }
        }
        self.is_stopping && self.managers.is_empty()
    }

    /// Called after a worker set left the router. Returns whether a waiter
    /// for the end of the system has to be woken.
    pub fn signal_manager_removed(&self) -> (wake: bool)
        requires
            self.wf(),
        ensures
            wake == self@.is_stopped(),
    {
        self.is_stopped()
    }

    /// One turn of the loop of a worker: what its host has to do next.
    pub fn service_loop(&mut self, type_id: u64, index: usize) -> (action: Option<WorkerAction<E>>)
        requires
            old(self).wf(),
        ensures
            final(self).wf(),
            (final(self)@, action) == old(self)@.service_loop(type_id, index),
    {
        match self.managers.position(type_id) {
            Some(i) => {
                proof {
                    assert(old(self)@.managers[type_id].wf());
                }
                let manager = self.managers.value_at_mut(i);
                let action = manager.service_loop(index);
                proof {
                    self.lemma_replaced(*old(self), type_id);
                }
                action
            },
            None => None,
        }
    }

    /// Answers a worker that asks to be retired, with the slot of its set
    /// held. The set is removed when its last worker exits.
    pub fn retire_worker(&mut self, type_id: u64, index: usize) -> (retirement: WorkerRetirement<E>)
        requires
            old(self).wf(),
        ensures
            final(self).wf(),
            (final(self)@, retirement) == old(self)@.retire(type_id, index),
    {
        match self.managers.position(type_id) {
            Some(i) => {
                proof {
                    assert(old(self)@.managers[type_id].wf());
                }
                let manager = self.managers.value_at_mut(i);
                let retirement = manager.retire_worker(index);
                proof {
                    self.lemma_replaced(*old(self), type_id);
                }
                if let WorkerRetirement::Exited { last: true } = retirement {
                    let _ = self.managers.remove_at(i);
                    proof {
                        assert(self@.managers =~= old(self)@.managers.remove(type_id));
                        assert forall|t: u64| self@.managers.contains_key(t) implies (
                        #[trigger] self@.managers[t]).wf() by {
                            assert(old(self)@.managers[t].wf());
                        }
                    }
                }
                retirement
            },
            None => WorkerRetirement::Refused,
        }
    }

    /// The reports of the workers of a service type, if it is loaded.
    pub fn get_statistics(&self, type_id: u64) -> (statistics: Option<Vec<ServiceReport>>)
        requires
            self.wf(),
        ensures
            match statistics {
                Some(report) => {
                    &&& self@.is_loaded(type_id)
                    &&& report@.len() == self@.managers[type_id].workers.len()
                    &&& forall|i: int|
                        0 <= i < report@.len() ==> (#[trigger] report@[i]) == (ServiceReport {
                            last_message_on: self@.managers[type_id].last_message_on,
                            enqueued_messages: self@.managers[type_id].workers[i].queue.len() as usize,
                        })
                },
                None => !self@.is_loaded(type_id),
            },
    {
        match self.managers.position(type_id) {
            Some(i) => Some(self.managers.value_at(i).get_statistics()),
            None => None,
        }
    }
}

} // verus!
