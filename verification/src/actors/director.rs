//! The router of the actors: one pool for each actor type, created on the
//! first send to the type and removed when the system stops.

use crate::actors::manager::{
    all_stopping, lemma_stop_request_stays, ActorManagerProxyCommand, ActorsManager, ManagerStep,
    PoolView, Retirement,
};
use crate::actors::proxy::{ActorReport, LoopAction};
use crate::registry::{lemma_table_entry, Registry};
use vstd::prelude::*;

verus! {

/// The idle window of a mailbox where none is configured, in seconds.
pub const DEFAULT_INACTIVITY_SECONDS: u64 = 300;

/// What the router of the actors is configured with.
#[derive(Debug, Clone, Copy, PartialEq, Eq, Structural)]
pub struct ActorsDirectorConfiguration {
    /// How long a mailbox stays without a command before it stops itself.
    pub innactivity_seconds_until_actor_end: u64,
}

impl Default for ActorsDirectorConfiguration {
    fn default() -> (configuration: ActorsDirectorConfiguration)
        ensures
            configuration.innactivity_seconds_until_actor_end == DEFAULT_INACTIVITY_SECONDS,
    {
        ActorsDirectorConfiguration {
            innactivity_seconds_until_actor_end: DEFAULT_INACTIVITY_SECONDS,
        }
    }
}

/// The state of the router as contracts see it.
pub struct ActorRouterView<E> {
    pub managers: Map<u64, PoolView<E>>,
    pub is_stopping: bool,
    pub idle_seconds: u64,
}

impl<E> ActorRouterView<E> {
    /// Every pool is sound.
    pub open spec fn wf(self) -> bool {
        forall|type_id: u64|
            self.managers.contains_key(type_id) ==> (#[trigger] self.managers[type_id]).wf()
    }

    /// A router without pools.
    pub open spec fn created(configuration: ActorsDirectorConfiguration) -> Self {
        ActorRouterView {
            managers: Map::empty(),
            is_stopping: false,
            idle_seconds: configuration.innactivity_seconds_until_actor_end,
        }
    }

    /// Whether a command for an actor type is accepted: its pool exists, or
    /// can still be created because the router is not stopping.
    pub open spec fn accepts(self, type_id: u64) -> bool {
        self.managers.contains_key(type_id) || !self.is_stopping
    }

    /// The router with the pool of one type replaced.
    pub open spec fn with_pool(self, type_id: u64, pool: PoolView<E>) -> Self {
        ActorRouterView { managers: self.managers.insert(type_id, pool), ..self }
    }

    /// The router after a command was sent to an actor type. The command
    /// joins the queue of the type's pool; a pool is created for a type
    /// without one, unless the router is stopping, in which case the command
    /// is discarded.
    pub open spec fn route(self, type_id: u64, command: ActorManagerProxyCommand<E>) -> Self {
        if self.managers.contains_key(type_id) {
            self.with_pool(type_id, self.managers[type_id].enqueue(command))
        } else if !self.is_stopping {
            self.with_pool(type_id, PoolView::created().enqueue(command))
        } else {
            self
        }
    }

    /// The router after it was told to stop: it is flagged, and every pool is
    /// told to end.
    pub open spec fn stop(self) -> Self {
        ActorRouterView {
            managers: Map::new(
                |type_id: u64| self.managers.contains_key(type_id),
                |type_id: u64| self.managers[type_id].end(),
            ),
            is_stopping: true,
            ..self
        }
    }

    /// Whether the router has stopped: it was told to, and no pool is left.
    pub open spec fn is_stopped(self) -> bool {
        self.is_stopping && forall|type_id: u64| !self.managers.contains_key(type_id)
    }

    /// The router after a mailbox of a type was removed: the pool of the type
    /// leaves the router if it is ready to; the flag says whether it did.
    pub open spec fn signal_actor_removed(self, type_id: u64) -> (Self, bool) {
        if self.managers.contains_key(type_id) && self.managers[type_id].is_ready_to_be_removed() {
            (ActorRouterView { managers: self.managers.remove(type_id), ..self }, true)
        } else {
            (self, false)
        }
    }

    /// One turn of the loop of a mailbox; `None` for a type without a pool or
    /// an identity without a mailbox.
    pub open spec fn actor_loop(self, type_id: u64, actor_id: u64, timed_out: bool) -> (
        Self,
        Option<LoopAction<E>>,
    ) {
        if self.managers.contains_key(type_id) {
            let (pool, action) = self.managers[type_id].actor_loop(actor_id, timed_out);
            (self.with_pool(type_id, pool), action)
        } else {
            (self, None)
        }
    }

    /// The answer to a mailbox that asks to be retired.
    pub open spec fn retire(self, type_id: u64, actor_id: u64) -> (Self, Retirement<E>) {
        if self.managers.contains_key(type_id) {
            let (pool, retirement) = self.managers[type_id].retire(actor_id);
            (self.with_pool(type_id, pool), retirement)
        } else {
            (self, Retirement::Refused)
        }
    }
}

impl<E: Clone> ActorRouterView<E> {
    /// Whether `after` and `outcome` are what one turn of the loop of a
    /// type's pool makes of this router; `None` for a type without a pool.
    pub open spec fn stepped(
        self,
        after: Self,
        type_id: u64,
        outcome: Option<ManagerStep>,
        now: u64,
    ) -> bool {
        if self.managers.contains_key(type_id) {
            &&& after.managers.contains_key(type_id)
            &&& after == self.with_pool(type_id, after.managers[type_id])
            &&& outcome is Some
            &&& self.managers[type_id].stepped(after.managers[type_id], outcome->0, now)
        } else {
            after == self && outcome is None
        }
    }
}

/// The router of the actors.
#[derive(Debug)]
pub struct ActorsDirector<E> {
    managers: Registry<ActorsManager<E>>,
    is_stopping: bool,
    configuration: ActorsDirectorConfiguration,
}

impl<E> ActorsDirector<E> {
    pub closed spec fn view(&self) -> ActorRouterView<E> {
        ActorRouterView {
            managers: Map::new(
                |type_id: u64| self.managers@.contains_key(type_id),
                |type_id: u64| self.managers@[type_id]@,
            ),
            is_stopping: self.is_stopping,
            idle_seconds: self.configuration.innactivity_seconds_until_actor_end,
        }
    }

    /// The table of pools is sound, and so is every pool.
    pub closed spec fn wf(&self) -> bool {
        &&& self.managers.wf()
        &&& forall|type_id: u64|
            self.managers@.contains_key(type_id) ==> (#[trigger] self.managers@[type_id]).wf()
    }

    /// The actor types that have a pool, in the order of the statistics.
    pub closed spec fn type_ids(&self) -> Seq<u64> {
        self.managers.keys()
    }

    /// The identities that have a mailbox in the pool of a type, in the order
    /// of the statistics.
    pub closed spec fn actor_ids(&self, type_id: u64) -> Seq<u64> {
        self.managers@[type_id].ids()
    }

    /// The identities listed for a type are those that have a mailbox in its
    /// pool, each once.
    pub proof fn lemma_actor_ids(&self, type_id: u64)
        requires
            self.wf(),
            self@.managers.contains_key(type_id),
        ensures
            self.actor_ids(type_id).no_duplicates(),
            forall|id: u64|
                self.actor_ids(type_id).contains(id) <==> self@.managers[type_id].is_resident(id),
    {
        self.managers@[type_id].lemma_ids();
    }

    /// The types listed are those that have a pool, each once, and every
    /// pool is sound.
    pub proof fn lemma_type_ids(&self)
        requires
            self.wf(),
        ensures
            self@.wf(),
            self.type_ids().no_duplicates(),
            forall|type_id: u64|
                self.type_ids().contains(type_id) <==> self@.managers.contains_key(type_id),
    {
        assert forall|type_id: u64| self@.managers.contains_key(type_id) implies (
        #[trigger] self@.managers[type_id]).wf() by {
            self.managers@[type_id].lemma_ids();
        }
    }

    /// After the pool of one type was replaced in the table, the router's
    /// view differs from the earlier one in that pool alone.
    proof fn lemma_replaced(&self, before: Self, type_id: u64)
        requires
            before.wf(),
            self.managers.wf(),
            self.managers@.contains_key(type_id),
            self.managers@[type_id].wf(),
            self.managers@ == before.managers@.insert(type_id, self.managers@[type_id]),
            self.is_stopping == before.is_stopping,
            self.configuration == before.configuration,
        ensures
            self.wf(),
            self@ == before@.with_pool(type_id, self.managers@[type_id]@),
    {
        assert(self@.managers =~= before@.managers.insert(type_id, self.managers@[type_id]@));
    }

    /// A router without pools.
    pub fn new(configuration: ActorsDirectorConfiguration) -> (director: ActorsDirector<E>)
        ensures
            director.wf(),
            director@ == ActorRouterView::<E>::created(configuration),
    {
        let director = ActorsDirector {
            managers: Registry::new(),
            is_stopping: false,
            configuration,
        };
        assert(director@.managers =~= Map::empty());
        director
    }

    /// The idle window of a mailbox, in seconds.
    pub fn get_inactivity_seconds(&self) -> (seconds: u64)
        ensures
            seconds == self@.idle_seconds,
    {
        self.configuration.innactivity_seconds_until_actor_end
    }

    /// Puts a command into the queue of the pool of an actor type, creating
    /// the pool if the type has none and the router is not stopping. Returns
    /// whether the command was accepted; one that is not is discarded.
    fn route(&mut self, type_id: u64, command: ActorManagerProxyCommand<E>) -> (accepted: bool)
        requires
            old(self).wf(),
        ensures
            final(self).wf(),
            accepted == old(self)@.accepts(type_id),
            final(self)@ == old(self)@.route(type_id, command),
    {
        match self.managers.position(type_id) {
            Some(i) => {
                let manager = self.managers.value_at_mut(i);
                manager.enqueue(command);
                proof {
                    self.lemma_replaced(*old(self), type_id);
                }
                true
            },
            None => {
                if self.is_stopping {
                    false
                } else {
                    let mut manager = ActorsManager::new();
                    manager.enqueue(command);
                    self.managers.insert(type_id, manager);
                    proof {
                        self.lemma_replaced(*old(self), type_id);
                    }
                    true
                }
            },
        }
    }

    /// Sends an envelope to one actor. Returns whether it was accepted.
    pub fn send(&mut self, type_id: u64, actor_id: u64, envelope: E) -> (accepted: bool)
        requires
            old(self).wf(),
        ensures
            final(self).wf(),
            accepted == old(self)@.accepts(type_id),
            final(self)@ == old(self)@.route(
                type_id,
                ActorManagerProxyCommand::Dispatch(actor_id, envelope),
            ),
    {
        self.route(type_id, ActorManagerProxyCommand::Dispatch(actor_id, envelope))
    }

    /// Sends an envelope to every actor of a type that has a mailbox when
    /// the pool comes to route it. Returns whether it was accepted.
    pub fn send_to_all(&mut self, type_id: u64, envelope: E) -> (accepted: bool)
        requires
            old(self).wf(),
        ensures
            final(self).wf(),
            accepted == old(self)@.accepts(type_id),
            final(self)@ == old(self)@.route(
                type_id,
                ActorManagerProxyCommand::DispatchToAll(envelope),
            ),
    {
        self.route(type_id, ActorManagerProxyCommand::DispatchToAll(envelope))
    }

    /// Asks one actor to stop. Returns whether the request was accepted.
    pub fn stop_actor(&mut self, type_id: u64, actor_id: u64) -> (accepted: bool)
        requires
            old(self).wf(),
        ensures
            final(self).wf(),
            accepted == old(self)@.accepts(type_id),
            final(self)@ == old(self)@.route(type_id, ActorManagerProxyCommand::EndActor(actor_id)),
    {
        self.route(type_id, ActorManagerProxyCommand::EndActor(actor_id))
    }

    /// Flags the router as stopping and tells every pool to end.
    pub fn stop(&mut self)
        requires
            old(self).wf(),
        ensures
            final(self).wf(),
            final(self)@ == old(self)@.stop(),
    {
        self.is_stopping = true;
        let n: usize = self.managers.len();
        let mut i: usize = 0;
        proof {
            assert forall|j: int| 0 <= j < n implies (#[trigger] self.managers.values()[j]).wf() by {
                lemma_table_entry(old(self).managers.keys(), old(self).managers.values(), j);
                assert(old(self).managers@[old(self).managers.keys()[j]].wf());
            }
        }
        while i < n
            invariant
                self.managers.wf(),
                i <= n,
                n == self.managers.keys().len(),
                self.managers.keys() == old(self).managers.keys(),
                self.configuration == old(self).configuration,
                self.is_stopping,
                old(self).wf(),
                forall|j: int|
                    0 <= j < i ==> (#[trigger] self.managers.values()[j])@ == old(
                        self,
                    ).managers.values()[j]@.end(),
                forall|j: int|
                    i <= j < n ==> (#[trigger] self.managers.values()[j])@ == old(
                        self,
                    ).managers.values()[j]@,
                forall|j: int| 0 <= j < n ==> (#[trigger] self.managers.values()[j]).wf(),
            decreases n - i,
        {
            let manager = self.managers.value_at_mut(i);
            manager.end();
            i += 1;
        }
        proof {
            let before = old(self)@.stop();
            let after = self@;
            assert forall|type_id: u64| after.managers.contains_key(type_id) implies (
            #[trigger] after.managers[type_id]) == before.managers[type_id]
                && self.managers@[type_id].wf() by {
                let j = self.managers.keys().index_of(type_id);
                lemma_table_entry(self.managers.keys(), self.managers.values(), j);
                lemma_table_entry(old(self).managers.keys(), old(self).managers.values(), j);
            }
            assert(after.managers =~= before.managers);
        }
    }

    /// Whether the router has stopped: what a waiter for the end of the
    /// system polls.
    pub fn is_stopped(&self) -> (stopped: bool)
        requires
            self.wf(),
        ensures
            stopped == self@.is_stopped(),
    {
        proof {
            if self.managers.keys().len() > 0 {
                lemma_table_entry(self.managers.keys(), self.managers.values(), 0);
                assert(self@.managers.contains_key(self.managers.keys()[0]));
            }
        }
        self.is_stopping && self.managers.is_empty()
    }

    /// Called after a pool left the router. Returns whether a waiter for the
    /// end of the system has to be woken: the router is stopping and no pool
    /// is left.
    pub fn signal_manager_removed(&self) -> (wake: bool)
        requires
            self.wf(),
        ensures
            wake == self@.is_stopped(),
    {
        self.is_stopped()
    }

    /// Called after a mailbox of a type was removed. With the slot of the
    /// pool held, the pool is removed if it is ending, holds no mailbox and
    /// has nothing left to route. Returns whether it was removed.
    pub fn signal_actor_removed(&mut self, type_id: u64) -> (removed: bool)
        requires
            old(self).wf(),
        ensures
            final(self).wf(),
            (final(self)@, removed) == old(self)@.signal_actor_removed(type_id),
    {
        match self.managers.position(type_id) {
            Some(i) => {
                if self.managers.value_at(i).is_ready_to_be_removed() {
                    let _ = self.managers.remove_at(i);
                    assert(self@.managers =~= old(self)@.managers.remove(type_id));
                    true
                } else {
                    false
                }
            },
            None => false,
        }
    }

    /// One turn of the loop of a mailbox: what its host has to do next.
    pub fn actor_loop(&mut self, type_id: u64, actor_id: u64, timed_out: bool) -> (action: Option<
        LoopAction<E>,
    >)
        requires
            old(self).wf(),
        ensures
            final(self).wf(),
            (final(self)@, action) == old(self)@.actor_loop(type_id, actor_id, timed_out),
    {
        match self.managers.position(type_id) {
            Some(i) => {
                let manager = self.managers.value_at_mut(i);
                let action = manager.actor_loop(actor_id, timed_out);
                proof {
                    self.lemma_replaced(*old(self), type_id);
                }
                action
            },
            None => None,
        }
    }

    /// Answers a mailbox that asks to be retired, with its slot held.
    pub fn retire_actor(&mut self, type_id: u64, actor_id: u64) -> (retirement: Retirement<E>)
        requires
            old(self).wf(),
        ensures
            final(self).wf(),
            (final(self)@, retirement) == old(self)@.retire(type_id, actor_id),
    {
        match self.managers.position(type_id) {
            Some(i) => {
                let manager = self.managers.value_at_mut(i);
                let retirement = manager.retire_actor(actor_id);
                proof {
                    self.lemma_replaced(*old(self), type_id);
                }
                retirement
            },
            None => Retirement::Refused,
        }
    }

    /// The reports of the mailboxes of every pool, by actor type: the types
    /// in the order of `type_ids`, the mailboxes of each in the order of its
    /// `actor_ids`.
    pub fn get_statistics(&self) -> (statistics: Vec<(u64, Vec<ActorReport>)>)
        requires
            self.wf(),
        ensures
            statistics@.len() == self.type_ids().len(),
            forall|i: int|
                0 <= i < statistics@.len() ==> (#[trigger] statistics@[i]).0 == self.type_ids()[i]
                    && self.lists(statistics@[i].0, statistics@[i].1@),
    {
        let mut statistics: Vec<(u64, Vec<ActorReport>)> = Vec::new();
        let n: usize = self.managers.len();
        let mut i: usize = 0;
        while i < n
            invariant
                self.wf(),
                i <= n,
                n == self.managers.keys().len(),
                statistics@.len() == i,
                forall|j: int|
                    0 <= j < i ==> (#[trigger] statistics@[j]).0 == self.type_ids()[j]
                        && self.lists(statistics@[j].0, statistics@[j].1@),
            decreases n - i,
        {
            let type_id: u64 = self.managers.key_at(i);
            let manager = self.managers.value_at(i);
            let reports = manager.get_statistics();
            statistics.push((type_id, reports));
            i += 1;
        }
        statistics
    }

    /// Whether `reports` are the reports of the mailboxes of a type, one for
    /// each identity in the order of `actor_ids`.
    pub open spec fn lists(&self, type_id: u64, reports: Seq<ActorReport>) -> bool {
        &&& self@.managers.contains_key(type_id)
        &&& reports.len() == self.actor_ids(type_id).len()
        &&& forall|k: int|
            0 <= k < reports.len() ==> #[trigger] reports[k]
                == self@.managers[type_id].actors[self.actor_ids(type_id)[k]].report()
    }
}

impl<E: Clone> ActorsDirector<E> {
    /// One turn of the loop of the pool of an actor type.
    pub fn actor_manager_loop(&mut self, type_id: u64, now: u64) -> (outcome: Option<ManagerStep>)
        requires
            old(self).wf(),
        ensures
            final(self).wf(),
            old(self)@.stepped(final(self)@, type_id, outcome, now),
    {
        match self.managers.position(type_id) {
            Some(i) => {
                let manager = self.managers.value_at_mut(i);
                let outcome = manager.actor_manager_loop(now);
                proof {
                    self.lemma_replaced(*old(self), type_id);
                }
                Some(outcome)
            },
            None => None,
        }
    }
}

/// The router has stopped as soon as it was told to stop and its last pool
/// has left, and a router that is stopping creates no pool: a command for a
/// type without a pool is discarded then, so what has left stays away.
pub proof fn lemma_stopping_router_creates_no_pool<E>(
    router: ActorRouterView<E>,
    type_id: u64,
    command: ActorManagerProxyCommand<E>,
)
    ensures
        router.stop().is_stopping,
        forall|t: u64| router.managers.contains_key(t) <==> router.stop().managers.contains_key(t),
        router.is_stopping && !router.managers.contains_key(type_id) ==> router.route(
            type_id,
            command,
        ) == router,
        router.is_stopped() ==> router.route(type_id, command).is_stopped(),
        router.signal_actor_removed(type_id).1 ==> router.managers[type_id].is_ready_to_be_removed()
            && !router.signal_actor_removed(type_id).0.managers.contains_key(type_id),
        router.is_stopping && router.signal_actor_removed(type_id).1 && (forall|t: u64|
            router.managers.contains_key(t) ==> t == type_id) ==> router.signal_actor_removed(
            type_id,
        ).0.is_stopped(),
{
}

/// A stop reaches every mailbox: after the router was told to stop, every
/// pool is ending and every mailbox of every pool is asked to stop, so each
/// pool comes to its end as its mailboxes make their turns.
pub proof fn lemma_stop_reaches_every_mailbox<E>(router: ActorRouterView<E>, type_id: u64)
    requires
        router.wf(),
        router.managers.contains_key(type_id),
    ensures
        router.stop().wf(),
        router.stop().managers.contains_key(type_id),
        router.stop().managers[type_id].is_ending,
        router.stop().managers[type_id].inbound == router.managers[type_id].inbound,
        all_stopping(router.stop().managers[type_id]),
{
    assert forall|t: u64| router.stop().managers.contains_key(t) implies (
    #[trigger] router.stop().managers[t]).wf() by {
        let pool = router.managers[t];
        assert(pool.wf());
        assert forall|id: u64| pool.end().actors.contains_key(id) implies (
        #[trigger] pool.end().actors[id]).wf() by {
            assert(pool.actors[id].wf());
            lemma_stop_request_stays(pool.actors[id], arbitrary::<E>(), 0);
        }
    }
    let pool = router.managers[type_id];
    assert(pool.wf());
    assert forall|id: u64| pool.end().actors.contains_key(id) implies (
    #[trigger] pool.end().actors[id]).stop_requested() by {
        assert(pool.actors[id].wf());
        lemma_stop_request_stays(pool.actors[id], arbitrary::<E>(), 0);
    }
}

} // verus!
