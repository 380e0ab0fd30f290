//! The coordinator: owns the two routers and the publish/subscribe table,
//! and stops them together.

use crate::actors::director::{ActorRouterView, ActorsDirector, ActorsDirectorConfiguration};
use crate::actors::manager::ActorManagerProxyCommand;
use crate::actors::proxy::ActorReport;
use crate::services::broker::{registered, registrations, subscribers_of, MessageBroker};
use crate::services::director::{ServiceRouterView, ServicesDirector};
use crate::services::manager::{lemma_active_count_update, WorkerView};
use crate::services::service::{worker_plan_of, ServiceConcurrency};
use crate::utils::Command;
use vstd::prelude::*;

verus! {

/// The state of the system as contracts see it.
pub struct SystemView<A, S> {
    pub actors: ActorRouterView<A>,
    pub services: ServiceRouterView<S>,
    pub subscriptions: Map<u64, Seq<u64>>,
}

/// The router of the services after one copy of a message was sent to each
/// subscriber, in the order of the list.
pub open spec fn fan_out<S>(
    services: ServiceRouterView<S>,
    subscribers: Seq<u64>,
    copies: Seq<S>,
    now: u64,
) -> ServiceRouterView<S>
    decreases subscribers.len(),
{
    if subscribers.len() == 0 || copies.len() != subscribers.len() {
        services
    } else {
        fan_out(services, subscribers.drop_last(), copies.drop_last(), now).send(
            subscribers.last(),
            copies.last(),
            now,
        )
    }
}

/// Whether every element of `copies` is a copy of the envelope, one for each
/// subscriber.
pub open spec fn copies_of<S: Clone>(envelope: S, copies: Seq<S>, subscribers: Seq<u64>) -> bool {
    &&& copies.len() == subscribers.len()
    &&& forall|i: int| 0 <= i < copies.len() ==> cloned(envelope, #[trigger] copies[i])
}

/// The number of commands that wait at the workers of a set, all together.
pub open spec fn total_queued<S>(workers: Seq<WorkerView<S>>) -> nat
    decreases workers.len(),
{
    if workers.len() == 0 {
        0
    } else {
        total_queued(workers.drop_last()) + workers.last().queue.len()
    }
}

/// A command that joins the queue of one worker adds one to the total.
pub proof fn lemma_total_queued_push<S>(workers: Seq<WorkerView<S>>, i: int, command: Command<S>)
    requires
        0 <= i < workers.len(),
    ensures
        total_queued(
            workers.update(
                i,
                WorkerView { queue: workers[i].queue.push(command), ..workers[i] },
            ),
        ) == total_queued(workers) + 1,
    decreases workers.len(),
{
    let worker = WorkerView { queue: workers[i].queue.push(command), ..workers[i] };
    let updated = workers.update(i, worker);
    if i == workers.len() - 1 {
        assert(updated.drop_last() =~= workers.drop_last());
    } else {
        lemma_total_queued_push(workers.drop_last(), i, command);
        assert(updated.drop_last() =~= workers.drop_last().update(i, worker));
    }
}

/// A published message reaches a service type once for each of its
/// registrations: after the fan-out, the workers of a type that takes
/// envelopes hold as many commands more as the type is registered for the
/// message, and the type still takes envelopes.
pub proof fn lemma_fan_out_once_per_registration<S>(
    services: ServiceRouterView<S>,
    subscribers: Seq<u64>,
    copies: Seq<S>,
    now: u64,
    service_type: u64,
)
    requires
        services.wf(),
        services.takes(service_type),
        copies.len() == subscribers.len(),
    ensures
        fan_out(services, subscribers, copies, now).wf(),
        fan_out(services, subscribers, copies, now).takes(service_type),
        fan_out(services, subscribers, copies, now).managers[service_type].workers.len()
            == services.managers[service_type].workers.len(),
        total_queued(fan_out(services, subscribers, copies, now).managers[service_type].workers)
            == total_queued(services.managers[service_type].workers) + registrations(
            subscribers,
            service_type,
        ),
    decreases subscribers.len(),
{
    if subscribers.len() > 0 {
        lemma_fan_out_once_per_registration(
            services,
            subscribers.drop_last(),
            copies.drop_last(),
            now,
            service_type,
        );
        let before = fan_out(services, subscribers.drop_last(), copies.drop_last(), now);
        let target = subscribers.last();
        if before.takes(target) {
            let set = before.managers[target];
            let i = set.next_index() as int;
            let worker = WorkerView {
                queue: set.workers[i].queue.push(Command::Dispatch(copies.last())),
                ..set.workers[i]
            };
            lemma_total_queued_push(set.workers, i, Command::Dispatch(copies.last()));
            lemma_active_count_update(set.workers, i, worker);
        }
    }
}

/// The coordinator of the system.
pub struct SystemDirector<A, S> {
    actors_director: ActorsDirector<A>,
    services_director: ServicesDirector<S>,
    broker: MessageBroker,
}

impl<A, S> SystemDirector<A, S> {
    /// The subscriptions, by message type.
    pub closed spec fn subscriptions(&self) -> Map<u64, Seq<u64>> {
        self.broker@
    }

    pub open spec fn view(&self) -> SystemView<A, S> {
        SystemView {
            actors: self.actors()@,
            services: self.services()@,
            subscriptions: self.subscriptions(),
        }
    }

    /// The subscription table is sound.
    pub closed spec fn subscriptions_wf(&self) -> bool {
        self.broker.wf()
    }

    /// Both routers and the subscription table are sound.
    pub open spec fn wf(&self) -> bool {
        &&& self.actors().wf()
        &&& self.services().wf()
        &&& self.subscriptions_wf()
    }

    /// The router of the actors.
    pub closed spec fn actors(&self) -> ActorsDirector<A> {
        self.actors_director
    }

    /// The router of the services.
    pub closed spec fn services(&self) -> ServicesDirector<S> {
        self.services_director
    }

    /// A system without pools, worker sets or subscriptions, whose mailboxes
    /// have the default idle window.
    pub fn new() -> (system: SystemDirector<A, S>)
        ensures
            system.wf(),
            system@.actors == ActorRouterView::<A>::created(
                ActorsDirectorConfiguration { innactivity_seconds_until_actor_end: 300 },
            ),
            system@.services == ServiceRouterView::<S>::created(),
            system@.subscriptions == Map::<u64, Seq<u64>>::empty(),
    {
        SystemDirector {
            actors_director: ActorsDirector::new(ActorsDirectorConfiguration::default()),
            services_director: ServicesDirector::new(),
            broker: MessageBroker::new(),
        }
    }

    /// Exclusive access to the router of the actors, for the loops of its
    /// pools and mailboxes. The rest of the system stays as it is.
    pub fn actors_mut(&mut self) -> (director: &mut ActorsDirector<A>)
        ensures
            *director == old(self).actors(),
            final(self).actors() == *final(director),
            final(self).services() == old(self).services(),
            final(self).subscriptions() == old(self).subscriptions(),
            final(self).subscriptions_wf() == old(self).subscriptions_wf(),
    {
        &mut self.actors_director
    }

    /// Exclusive access to the router of the services, for the loops of its
    /// workers. The rest of the system stays as it is.
    pub fn services_mut(&mut self) -> (director: &mut ServicesDirector<S>)
        ensures
            *director == old(self).services(),
            final(self).services() == *final(director),
            final(self).actors() == old(self).actors(),
            final(self).subscriptions() == old(self).subscriptions(),
            final(self).subscriptions_wf() == old(self).subscriptions_wf(),
    {
        &mut self.services_director
    }

    /// Sends an envelope to one actor. Returns whether it was accepted: it is
    /// discarded where the type has no pool and the system is stopping.
    pub fn send_to_actor(&mut self, type_id: u64, actor_id: u64, envelope: A) -> (accepted: bool)
        requires
            old(self).wf(),
        ensures
            final(self).wf(),
            accepted == old(self)@.actors.accepts(type_id),
            final(self)@ == (SystemView {
                actors: old(self)@.actors.route(
                    type_id,
                    ActorManagerProxyCommand::Dispatch(actor_id, envelope),
                ),
                ..old(self)@
            }),
    {
        self.actors_director.send(type_id, actor_id, envelope)
    }

    /// Sends an envelope to every actor of a type that has a mailbox.
    /// Returns whether it was accepted.
    pub fn send_to_all_actors(&mut self, type_id: u64, envelope: A) -> (accepted: bool)
        requires
            old(self).wf(),
        ensures
            final(self).wf(),
            accepted == old(self)@.actors.accepts(type_id),
            final(self)@ == (SystemView {
                actors: old(self)@.actors.route(
                    type_id,
                    ActorManagerProxyCommand::DispatchToAll(envelope),
                ),
                ..old(self)@
            }),
    {
        self.actors_director.send_to_all(type_id, envelope)
    }

    /// Asks one actor to stop. Returns whether the request was accepted.
    pub fn stop_actor(&mut self, type_id: u64, actor_id: u64) -> (accepted: bool)
        requires
            old(self).wf(),
        ensures
            final(self).wf(),
            accepted == old(self)@.actors.accepts(type_id),
            final(self)@ == (SystemView {
                actors: old(self)@.actors.route(type_id, ActorManagerProxyCommand::EndActor(actor_id)),
                ..old(self)@
            }),
    {
        self.actors_director.stop_actor(type_id, actor_id)
    }

    /// Sends an envelope to a service type. Returns the worker that took it;
    /// a type that is not loaded, or has no worker, hands the envelope back.
    pub fn send_to_service(&mut self, type_id: u64, envelope: S, now: u64) -> (taken: Result<
        usize,
        S,
    >)
        requires
            old(self).wf(),
        ensures
            final(self).wf(),
            final(self)@ == (SystemView {
                services: old(self)@.services.send(type_id, envelope, now),
                ..old(self)@
            }),
            match taken {
                Ok(index) => old(self)@.services.takes(type_id) && index
                    == old(self)@.services.managers[type_id].next_index(),
                Err(back) => !old(self)@.services.takes(type_id) && back == envelope,
            },
    {
        self.services_director.send(type_id, envelope, now)
    }

    /// Loads a service type without sending it a message, unless it is loaded
    /// already or the system is stopping. Returns whether the worker set was
    /// created.
    pub fn preload_service(
        &mut self,
        type_id: u64,
        concurrency: ServiceConcurrency,
        zero_sized: bool,
        now: u64,
    ) -> (created: bool)
        requires
            old(self).wf(),
        ensures
            final(self).wf(),
            created == old(self)@.services.creates(type_id),
            final(self)@.actors == old(self)@.actors,
            final(self)@.subscriptions == old(self)@.subscriptions,
            exists|cpus: usize|
                cpus >= 1 && final(self)@.services == old(self)@.services.preload(
                    type_id,
                    #[trigger] worker_plan_of(concurrency, cpus, zero_sized),
                    now,
                ),
    {
        self.services_director.preload(type_id, concurrency, zero_sized, now)
    }

    /// Registers a service type as a listener of a message type.
    pub fn subscribe(&mut self, service_type: u64, message_type: u64)
        requires
            old(self).wf(),
        ensures
            final(self).wf(),
            final(self)@ == (SystemView {
                subscriptions: registered(old(self)@.subscriptions, service_type, message_type),
                ..old(self)@
            }),
    {
        self.broker.register(service_type, message_type);
    }

    /// Tells both routers to stop.
    pub fn stop(&mut self)
        requires
            old(self).wf(),
        ensures
            final(self).wf(),
            final(self)@ == (SystemView {
                actors: old(self)@.actors.stop(),
                services: old(self)@.services.stop(),
                ..old(self)@
            }),
    {
        self.actors_director.stop();
        self.services_director.stop();
    }

    /// Whether the system has stopped: both routers have. This is what a
    /// waiter for the end of the system polls.
    pub fn is_stopped(&self) -> (stopped: bool)
        requires
            self.wf(),
        ensures
            stopped == (self@.actors.is_stopped() && self@.services.is_stopped()),
    {
        self.actors_director.is_stopped() && self.services_director.is_stopped()
    }

    /// The reports of the mailboxes of every pool, by actor type.
    pub fn get_statistics(&self) -> (statistics: Vec<(u64, Vec<ActorReport>)>)
        requires
            self.wf(),
        ensures
            statistics@.len() == self.actors().type_ids().len(),
            forall|i: int|
                0 <= i < statistics@.len() ==> (#[trigger] statistics@[i]).0
                    == self.actors().type_ids()[i] && self.actors().lists(
                    statistics@[i].0,
                    statistics@[i].1@,
                ),
    {
        self.actors_director.get_statistics()
    }
}

impl<A, S: Clone> SystemDirector<A, S> {
    /// Publishes a message: one copy of the envelope is sent to each service
    /// type registered for the message type, once for each registration and
    /// in the order of registration. Nothing happens where no one listens.
    pub fn publish(&mut self, message_type: u64, envelope: S, now: u64)
        requires
            old(self).wf(),
        ensures
            final(self).wf(),
            final(self)@.actors == old(self)@.actors,
            final(self)@.subscriptions == old(self)@.subscriptions,
            exists|copies: Seq<S>|
                copies_of(envelope, copies, subscribers_of(old(self)@.subscriptions, message_type))
                    && final(self)@.services == #[trigger] fan_out(
                    old(self)@.services,
                    subscribers_of(old(self)@.subscriptions, message_type),
                    copies,
                    now,
                ),
    {
        let subscribers = self.broker.subscribers(message_type);
        let ghost mut copies: Seq<S> = Seq::empty();
        let mut i: usize = 0;
        while i < subscribers.len()
            invariant
                i <= subscribers@.len(),
                self.wf(),
                self.actors_director == old(self).actors_director,
                self.broker == old(self).broker,
                copies_of(envelope, copies, subscribers@.take(i as int)),
                self.services_director@ == fan_out(
                    old(self).services_director@,
                    subscribers@.take(i as int),
                    copies,
                    now,
                ),
            decreases subscribers@.len() - i,
        {
            let copy = envelope.clone();
            proof {
                let next = subscribers@.take(i as int + 1);
                assert(next.drop_last() =~= subscribers@.take(i as int));
                assert(copies.push(copy).drop_last() =~= copies);
                copies = copies.push(copy);
            }
            let _ = self.services_director.send(subscribers[i], copy, now);
            i += 1;
        }
        proof {
            assert(subscribers@.take(i as int) =~= subscribers@);
            assert(self@.services == fan_out(
                old(self)@.services,
                subscribers_of(old(self)@.subscriptions, message_type),
                copies,
                now,
            ));
        }
    }
}

} // verus!
