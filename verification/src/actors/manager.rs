//! The pool of one actor type: the mailboxes of its identities and the
//! unbounded queue of commands in front of them.

use crate::actors::proxy::{
    lemma_mailbox_serves_in_order, lemma_retirement_loses_nothing,
    lemma_stopping_mailbox_makes_progress, ActorProxy, ActorReport, LoopAction, MailboxState,
    MailboxView,
};
use crate::utils::{leading_ends, Command};
use crate::registry::{lemma_table_entry, Registry};
use std::collections::VecDeque;
use vstd::prelude::*;

verus! {

/// A command to the pool of an actor type.
#[derive(Debug)]
pub enum ActorManagerProxyCommand<E> {
    /// Deliver the envelope to the mailbox of this identity, creating the
    /// mailbox if the identity has none.
    Dispatch(u64, E),
    /// Deliver a copy of the envelope to every mailbox that exists.
    DispatchToAll(E),
    /// Ask the mailbox of this identity, if it exists, to stop.
    EndActor(u64),
}

/// What one turn of the pool's loop did.
#[derive(Debug, Clone, Copy, PartialEq, Eq, Structural)]
pub enum ManagerStep {
    /// No command waits.
    Idle,
    /// The command at the head cannot be delivered yet: a mailbox it is meant
    /// for is full. The command stays at the head.
    Blocked,
    /// An envelope entered the mailbox of this identity.
    Delivered(u64),
    /// An envelope entered a mailbox created for this identity: its loop has
    /// to be started.
    Spawned(u64),
    /// A copy of an envelope entered every mailbox.
    DeliveredToAll,
    /// The mailbox of this identity, if it exists, was asked to stop.
    EndedActor(u64),
}

/// What the pool answers to a mailbox that asks to be retired.
#[derive(Debug)]
pub enum Retirement<E> {
    /// The slot is gone: deactivate the actor value and end the loop.
    Removed,
    /// An envelope arrived in the meantime: handle it and go on.
    Postponed(E),
    /// The identity has no slot, or its mailbox is not draining.
    Refused,
}

/// The state of a pool as contracts see it.
pub struct PoolView<E> {
    pub actors: Map<u64, MailboxView<E>>,
    pub inbound: Seq<ActorManagerProxyCommand<E>>,
    pub is_ending: bool,
}

impl<E> PoolView<E> {
    /// Every mailbox is within its capacity.
    pub open spec fn wf(self) -> bool {
        forall|id: u64| self.actors.contains_key(id) ==> (#[trigger] self.actors[id]).wf()
    }

    /// Whether the identity has a mailbox.
    pub open spec fn is_resident(self, id: u64) -> bool {
        self.actors.contains_key(id)
    }

    /// Whether no identity has a mailbox.
    pub open spec fn has_no_actors(self) -> bool {
        forall|id: u64| !self.actors.contains_key(id)
    }

    /// Whether an envelope for the identity can be delivered without waiting.
    pub open spec fn can_deliver(self, id: u64) -> bool {
        self.actors.contains_key(id) ==> self.actors[id].has_room()
    }

    /// Whether every mailbox can take an envelope without waiting.
    pub open spec fn all_have_room(self) -> bool {
        forall|id: u64| self.actors.contains_key(id) ==> (#[trigger] self.actors[id]).has_room()
    }

    /// A pool may leave its router once it is flagged as ending, holds no
    /// mailbox and has no command left to route.
    pub open spec fn is_ready_to_be_removed(self) -> bool {
        self.is_ending && self.has_no_actors() && self.inbound.len() == 0
    }

    /// A pool with nothing in it.
    pub open spec fn created() -> Self {
        PoolView { actors: Map::empty(), inbound: Seq::empty(), is_ending: false }
    }

    /// The pool after a command joined its queue.
    pub open spec fn enqueue(self, command: ActorManagerProxyCommand<E>) -> Self {
        PoolView { inbound: self.inbound.push(command), ..self }
    }

    /// The pool without the command at the head of its queue.
    pub open spec fn dequeue(self) -> Self {
        PoolView { inbound: self.inbound.drop_first(), ..self }
    }

    /// The pool after it was told to end: it is flagged, and every mailbox is
    /// asked to stop.
    pub open spec fn end(self) -> Self {
        PoolView {
            actors: Map::new(
                |id: u64| self.actors.contains_key(id),
                |id: u64| self.actors[id].end(),
            ),
            is_ending: true,
            ..self
        }
    }

    /// The mailbox that a first envelope creates: activated later, holding the
    /// envelope, and already asked to stop if the pool is ending.
    pub open spec fn spawned(self, envelope: E, now: u64) -> MailboxView<E> {
        let mailbox = MailboxView::created(now).send(envelope, now);
        if self.is_ending {
            mailbox.end()
        } else {
            mailbox
        }
    }

    /// The pool after an envelope was routed to an identity.
    pub open spec fn dispatch(self, id: u64, envelope: E, now: u64) -> Self {
        if self.actors.contains_key(id) {
            PoolView { actors: self.actors.insert(id, self.actors[id].send(envelope, now)), ..self }
        } else {
            PoolView { actors: self.actors.insert(id, self.spawned(envelope, now)), ..self }
        }
    }

    /// The pool after the mailbox of an identity was asked to stop.
    pub open spec fn end_actor(self, id: u64) -> Self {
        if self.actors.contains_key(id) {
            PoolView { actors: self.actors.insert(id, self.actors[id].end()), ..self }
        } else {
            self
        }
    }

    /// One turn of the loop of the mailbox of an identity; `None` for an
    /// identity without a mailbox.
    pub open spec fn actor_loop(self, id: u64, timed_out: bool) -> (Self, Option<LoopAction<E>>) {
        if self.actors.contains_key(id) {
            let (mailbox, action) = self.actors[id].receive(timed_out);
            (PoolView { actors: self.actors.insert(id, mailbox), ..self }, Some(action))
        } else {
            (self, None)
        }
    }

    /// The answer to a mailbox that asks to be retired. The slot is removed
    /// only if the mailbox is draining and nothing waits in it.
    pub open spec fn retire(self, id: u64) -> (Self, Retirement<E>) {
        if self.actors.contains_key(id) && self.actors[id].state is Draining {
            let (mailbox, found) = self.actors[id].finish();
            match found {
                Some(envelope) => (
                    PoolView { actors: self.actors.insert(id, mailbox), ..self },
                    Retirement::Postponed(envelope),
                ),
                None => (PoolView { actors: self.actors.remove(id), ..self }, Retirement::Removed),
            }
        } else {
            (self, Retirement::Refused)
        }
    }
}

/// Whether a mailbox took a copy of an envelope at `now`.
pub open spec fn received_copy<E: Clone>(
    before: MailboxView<E>,
    after: MailboxView<E>,
    envelope: E,
    now: u64,
) -> bool {
    exists|copy: E| cloned(envelope, copy) && after == #[trigger] before.send(copy, now)
}

impl<E: Clone> PoolView<E> {
    /// Whether `after` is this pool with a copy of the envelope delivered to
    /// every mailbox and to no other.
    pub open spec fn dispatched_to_all(self, after: Self, envelope: E, now: u64) -> bool {
        &&& after.inbound == self.inbound
        &&& after.is_ending == self.is_ending
        &&& forall|id: u64| self.actors.contains_key(id) <==> after.actors.contains_key(id)
        &&& forall|id: u64|
            self.actors.contains_key(id) ==> received_copy(
                self.actors[id],
                #[trigger] after.actors[id],
                envelope,
                now,
            )
    }

    /// Whether `after` and `outcome` are what one turn of the pool's loop
    /// makes of this pool: the command at the head is routed, or stays where
    /// it is while a mailbox that it is meant for is full.
    pub open spec fn stepped(self, after: Self, outcome: ManagerStep, now: u64) -> bool {
        if self.inbound.len() == 0 {
            after == self && outcome == ManagerStep::Idle
        } else {
            match self.inbound[0] {
                ActorManagerProxyCommand::Dispatch(id, envelope) => if self.can_deliver(id) {
                    &&& after == self.dequeue().dispatch(id, envelope, now)
                    &&& outcome == if self.is_resident(id) {
                        ManagerStep::Delivered(id)
                    } else {
                        ManagerStep::Spawned(id)
                    }
                } else {
                    after == self && outcome == ManagerStep::Blocked
                },
                ActorManagerProxyCommand::DispatchToAll(envelope) => if self.all_have_room() {
                    &&& self.dequeue().dispatched_to_all(after, envelope, now)
                    &&& outcome == ManagerStep::DeliveredToAll
                } else {
                    after == self && outcome == ManagerStep::Blocked
                },
                ActorManagerProxyCommand::EndActor(id) => {
                    &&& after == self.dequeue().end_actor(id)
                    &&& outcome == ManagerStep::EndedActor(id)
                },
            }
        }
    }
}

/// The pool of one actor type.
#[derive(Debug)]
pub struct ActorsManager<E> {
    actors: Registry<ActorProxy<E>>,
    inbound: VecDeque<ActorManagerProxyCommand<E>>,
    is_ending: bool,
}

impl<E> ActorsManager<E> {
    pub closed spec fn view(&self) -> PoolView<E> {
        PoolView {
            actors: Map::new(
                |id: u64| self.actors@.contains_key(id),
                |id: u64| self.actors@[id]@,
            ),
            inbound: self.inbound@,
            is_ending: self.is_ending,
        }
    }

    /// The table of mailboxes is sound and every mailbox is within its
    /// capacity.
    pub closed spec fn wf(&self) -> bool {
        &&& self.actors.wf()
        &&& self@.wf()
    }

    /// The identities that have a mailbox, in the order of the statistics.
    pub closed spec fn ids(&self) -> Seq<u64> {
        self.actors.keys()
    }

    /// The identities listed are those that have a mailbox, each once.
    pub proof fn lemma_ids(&self)
        requires
            self.wf(),
        ensures
            self@.wf(),
            self.ids().no_duplicates(),
            forall|id: u64| self.ids().contains(id) <==> self@.is_resident(id),
    {
    }

    /// A pool with nothing in it.
    pub fn new() -> (manager: ActorsManager<E>)
        ensures
            manager.wf(),
            manager@ == PoolView::<E>::created(),
    {
        let manager = ActorsManager {
            actors: Registry::new(),
            inbound: VecDeque::new(),
            is_ending: false,
        };
        assert(manager@.actors =~= Map::empty());
        manager
    }

    /// Puts a command at the back of the pool's queue, which is unbounded.
    pub fn enqueue(&mut self, command: ActorManagerProxyCommand<E>)
        requires
            old(self).wf(),
        ensures
            final(self).wf(),
            final(self)@ == old(self)@.enqueue(command),
    {
        self.inbound.push_back(command);
    }

    /// Flags the pool as ending and asks every mailbox to stop.
    pub fn end(&mut self)
        requires
            old(self).wf(),
        ensures
            final(self).wf(),
            final(self)@ == old(self)@.end(),
    {
        self.is_ending = true;
        let n: usize = self.actors.len();
        let mut i: usize = 0;
        while i < n
            invariant
                self.actors.wf(),
                i <= n,
                n == self.actors.keys().len(),
                self.actors.keys() == old(self).actors.keys(),
                self.inbound == old(self).inbound,
                self.is_ending,
                old(self).wf(),
                forall|j: int| 0 <= j < i ==> (#[trigger] self.actors.values()[j])@ == old(
                    self,
                ).actors.values()[j]@.end(),
                forall|j: int| i <= j < n ==> (#[trigger] self.actors.values()[j])@ == old(
                    self,
                ).actors.values()[j]@,
            decreases n - i,
        {
            proof {
                lemma_table_entry(old(self).actors.keys(), old(self).actors.values(), i as int);
                assert(old(self)@.actors[old(self).actors.keys()[i as int]].wf());
            }
            let proxy = self.actors.value_at_mut(i);
            proxy.end();
            i += 1;
        }
        proof {
            let before = old(self)@.end();
            let after = self@;
            assert forall|id: u64| after.actors.contains_key(id) implies #[trigger] after.actors[id]
                == before.actors[id] && after.actors[id].wf() by {
                let j = self.actors.keys().index_of(id);
                lemma_table_entry(self.actors.keys(), self.actors.values(), j);
                lemma_table_entry(old(self).actors.keys(), old(self).actors.values(), j);
                assert(old(self)@.actors[id].wf());
            }
            assert(after.actors =~= before.actors);
        }
    }

    /// Whether the pool may leave its router: it is ending, holds no mailbox
    /// and has no command left to route.
    pub fn is_ready_to_be_removed(&self) -> (ready: bool)
        requires
            self.wf(),
        ensures
            ready == self@.is_ready_to_be_removed(),
    {
        self.is_ending && self.is_empty()
    }

    /// Whether the pool holds no mailbox and no command.
    pub fn is_empty(&self) -> (empty: bool)
        requires
            self.wf(),
        ensures
            empty == (self@.has_no_actors() && self@.inbound.len() == 0),
    {
        proof {
            if self.actors.keys().len() > 0 {
                lemma_table_entry(self.actors.keys(), self.actors.values(), 0);
                assert(self@.actors.contains_key(self.actors.keys()[0]));
            }
        }
        self.actors.is_empty() && self.inbound.len() == 0
    }

    /// Whether the pool is flagged as ending.
    pub fn is_ending(&self) -> (ending: bool)
        ensures
            ending == self@.is_ending,
    {
        self.is_ending
    }

    /// Whether the identity has a mailbox.
    pub fn is_resident(&self, actor_id: u64) -> (resident: bool)
        requires
            self.wf(),
        ensures
            resident == self@.is_resident(actor_id),
    {
        self.actors.contains_key(actor_id)
    }

    /// How many commands wait to be routed.
    pub fn get_inbound_length(&self) -> (length: usize)
        ensures
            length == self@.inbound.len(),
    {
        self.inbound.len()
    }

    /// The report of every mailbox, in the order of `ids`.
    pub fn get_statistics(&self) -> (report: Vec<ActorReport>)
        requires
            self.wf(),
        ensures
            report@.len() == self.ids().len(),
            forall|i: int|
                0 <= i < report@.len() ==> #[trigger] report@[i]
                    == self@.actors[self.ids()[i]].report(),
    {
        let mut report: Vec<ActorReport> = Vec::new();
        let n: usize = self.actors.len();
        let mut i: usize = 0;
        while i < n
            invariant
                self.wf(),
                i <= n,
                n == self.actors.keys().len(),
                report@.len() == i,
                forall|j: int|
                    0 <= j < i ==> #[trigger] report@[j] == self@.actors[self.ids()[j]].report(),
            decreases n - i,
        {
            let proxy = self.actors.value_at(i);
            report.push(proxy.get_report());
            i += 1;
        }
        report
    }

    /// The report of the mailbox of an identity, if it has one.
    pub fn get_report(&self, actor_id: u64) -> (report: Option<ActorReport>)
        requires
            self.wf(),
        ensures
            match report {
                Some(r) => self@.is_resident(actor_id) && r == self@.actors[actor_id].report(),
                None => !self@.is_resident(actor_id),
            },
    {
        match self.actors.position(actor_id) {
            Some(i) => Some(self.actors.value_at(i).get_report()),
            None => None,
        }
    }

    /// Drops the mailbox of an identity, whatever waits in it.
    pub fn remove_actor(&mut self, actor_id: u64)
        requires
            old(self).wf(),
        ensures
            final(self).wf(),
            final(self)@ == (PoolView { actors: old(self)@.actors.remove(actor_id), ..old(self)@ }),
    {
        let _ = self.actors.remove(actor_id);
        assert(self@.actors =~= old(self)@.actors.remove(actor_id));
        assert forall|id: u64| self@.actors.contains_key(id) implies (#[trigger] self@.actors[id]).wf() by {
            assert(old(self)@.actors[id].wf());
        }
    }

    /// Asks the mailbox of an identity to stop; nothing happens if the
    /// identity has none.
    pub fn process_end_actor_command(&mut self, actor_id: u64)
        requires
            old(self).wf(),
        ensures
            final(self).wf(),
            final(self)@ == old(self)@.end_actor(actor_id),
    {
        match self.actors.position(actor_id) {
            Some(i) => {
                proof {
                    assert(old(self)@.actors[actor_id].wf());
                }
                let proxy = self.actors.value_at_mut(i);
                proxy.end();
                proof {
                    self.lemma_replaced(*old(self), actor_id);
                }
            },
            None => {},
        }
    }

    /// Routes an envelope to an identity. A mailbox that exists takes it; for
    /// an identity without one a mailbox is created, takes the envelope, and
    /// is at once asked to stop if the pool is ending. A full mailbox takes
    /// nothing and the envelope comes back: the pool has to wait.
    pub fn process_dispatch_command(&mut self, actor_id: u64, envelope: E, now: u64) -> (delivered:
        Result<bool, E>)
        requires
            old(self).wf(),
        ensures
            final(self).wf(),
            match delivered {
                Ok(spawned) => {
                    &&& old(self)@.can_deliver(actor_id)
                    &&& spawned == !old(self)@.is_resident(actor_id)
                    &&& final(self)@ == old(self)@.dispatch(actor_id, envelope, now)
                },
                Err(back) => {
                    &&& !old(self)@.can_deliver(actor_id)
                    &&& back == envelope
                    &&& final(self)@ == old(self)@
                },
            },
    {
        match self.actors.position(actor_id) {
            Some(i) => {
                proof {
                    assert(old(self)@.actors[actor_id].wf());
                }
                let proxy = self.actors.value_at_mut(i);
                let sent = proxy.send(envelope, now);
                proof {
                    self.lemma_replaced(*old(self), actor_id);
                }
                match sent {
                    Ok(()) => Ok(false),
                    Err(back) => {
                        assert(self@.actors =~= old(self)@.actors);
                        Err(back)
                    },
                }
            },
            None => {
                let mut proxy = ActorProxy::new(now);
                let sent = proxy.send(envelope, now);
                if self.is_ending {
                    proxy.end();
                }
                self.actors.insert(actor_id, proxy);
                proof {
                    self.lemma_replaced(*old(self), actor_id);
                }
                match sent {
                    Ok(()) => Ok(true),
                    Err(back) => Err(back),
                }
            },
        }
    }

    /// One turn of the loop of the mailbox of an identity: what its host has
    /// to do next, or `None` if the identity has no mailbox.
    pub fn actor_loop(&mut self, actor_id: u64, timed_out: bool) -> (action: Option<LoopAction<E>>)
        requires
            old(self).wf(),
        ensures
            final(self).wf(),
            (final(self)@, action) == old(self)@.actor_loop(actor_id, timed_out),
    {
        match self.actors.position(actor_id) {
            Some(i) => {
                proof {
                    assert(old(self)@.actors[actor_id].wf());
                }
                let proxy = self.actors.value_at_mut(i);
                let action = proxy.receive(timed_out);
                proof {
                    self.lemma_replaced(*old(self), actor_id);
                }
                Some(action)
            },
            None => None,
        }
    }

    /// Answers a mailbox that asks to be retired, with its slot held. An
    /// envelope that arrived since the mailbox saw its queue empty is handed
    /// out and the stop is postponed; otherwise the slot is removed.
    pub fn retire_actor(&mut self, actor_id: u64) -> (retirement: Retirement<E>)
        requires
            old(self).wf(),
        ensures
            final(self).wf(),
            (final(self)@, retirement) == old(self)@.retire(actor_id),
    {
        match self.actors.position(actor_id) {
            Some(i) => {
                proof {
                    assert(old(self)@.actors[actor_id].wf());
                }
                let proxy = self.actors.value_at_mut(i);
                match proxy.get_state() {
                    MailboxState::Draining => {},
                    _ => {
                        proof {
                            self.lemma_replaced(*old(self), actor_id);
                            assert(self@.actors =~= old(self)@.actors);
                        }
                        return Retirement::Refused;
                    },
                }
                let found = proxy.finish();
                match found {
                    Some(envelope) => {
                        proof {
                            self.lemma_replaced(*old(self), actor_id);
                        }
                        Retirement::Postponed(envelope)
                    },
                    None => {
                        proof {
                            self.lemma_replaced(*old(self), actor_id);
                        }
                        self.remove_actor(actor_id);
                        assert(self@.actors =~= old(self)@.actors.remove(actor_id));
                        Retirement::Removed
                    },
                }
            },
            None => Retirement::Refused,
        }
    }

    /// After the slot of one identity was replaced in the table, the pool's
    /// view differs from the earlier one in that slot alone.
    proof fn lemma_replaced(&self, before: Self, actor_id: u64)
        requires
            before.actors.wf(),
            before@.wf(),
            self.actors.wf(),
            self.actors@.contains_key(actor_id),
            self.actors@[actor_id]@.wf(),
            self.actors@ == before.actors@.insert(actor_id, self.actors@[actor_id]),
            self.inbound == before.inbound,
            self.is_ending == before.is_ending,
        ensures
            self.wf(),
            self@ == (PoolView {
                actors: before@.actors.insert(actor_id, self.actors@[actor_id]@),
                ..before@
            }),
    {
        assert(self@.actors =~= before@.actors.insert(actor_id, self.actors@[actor_id]@));
        assert forall|id: u64| self@.actors.contains_key(id) implies (#[trigger] self@.actors[id]).wf() by {
            if id != actor_id {
                assert(before@.actors[id].wf());
            }
        }
    }
}

impl<E: Clone> ActorsManager<E> {
    /// Whether every mailbox can take an envelope without waiting.
    pub fn all_have_room(&self) -> (room: bool)
        requires
            self.wf(),
        ensures
            room == self@.all_have_room(),
    {
        let n: usize = self.actors.len();
        let mut i: usize = 0;
        while i < n
            invariant
                self.wf(),
                i <= n,
                n == self.actors.keys().len(),
                forall|j: int| 0 <= j < i ==> (#[trigger] self.actors.values()[j])@.has_room(),
            decreases n - i,
        {
            if !self.actors.value_at(i).has_room() {
                proof {
                    assert(!self@.actors[self.actors.keys()[i as int]].has_room());
                }
                return false;
            }
            i += 1;
        }
        proof {
            assert forall|id: u64| self@.actors.contains_key(id) implies (
            #[trigger] self@.actors[id]).has_room() by {
                let j = self.actors.keys().index_of(id);
                lemma_table_entry(self.actors.keys(), self.actors.values(), j);
            }
        }
        true
    }

    /// Delivers a copy of the envelope to every mailbox that exists. No
    /// mailbox is created.
    pub fn process_dispatch_all_command(&mut self, envelope: E, now: u64)
        requires
            old(self).wf(),
            old(self)@.all_have_room(),
        ensures
            final(self).wf(),
            old(self)@.dispatched_to_all(final(self)@, envelope, now),
    {
        let n: usize = self.actors.len();
        let mut i: usize = 0;
        while i < n
            invariant
                self.actors.wf(),
                i <= n,
                n == self.actors.keys().len(),
                self.actors.keys() == old(self).actors.keys(),
                self.inbound == old(self).inbound,
                self.is_ending == old(self).is_ending,
                old(self).wf(),
                old(self)@.all_have_room(),
                forall|j: int|
                    0 <= j < i ==> received_copy(
                        old(self).actors.values()[j]@,
                        (#[trigger] self.actors.values()[j])@,
                        envelope,
                        now,
                    ) && self.actors.values()[j]@.wf(),
                forall|j: int|
                    i <= j < n ==> (#[trigger] self.actors.values()[j])@ == old(
                        self,
                    ).actors.values()[j]@,
            decreases n - i,
        {
            proof {
                lemma_table_entry(old(self).actors.keys(), old(self).actors.values(), i as int);
                let id = old(self).actors.keys()[i as int];
                assert(old(self)@.actors[id].wf());
                assert(old(self)@.actors[id].has_room());
            }
            let copy = envelope.clone();
            let proxy = self.actors.value_at_mut(i);
            let _ = proxy.send(copy, now);
            i += 1;
        }
        proof {
            let before = old(self)@;
            let after = self@;
            assert forall|id: u64| before.actors.contains_key(id) implies received_copy(
                before.actors[id],
                #[trigger] after.actors[id],
                envelope,
                now,
            ) && after.actors[id].wf() by {
                let j = self.actors.keys().index_of(id);
                lemma_table_entry(self.actors.keys(), self.actors.values(), j);
                lemma_table_entry(old(self).actors.keys(), old(self).actors.values(), j);
            }
        }
    }

    /// One turn of the pool's loop: routes the command at the head of the
    /// queue. While a mailbox that the command is meant for is full, the
    /// command stays at the head and nothing behind it overtakes it.
    pub fn actor_manager_loop(&mut self, now: u64) -> (outcome: ManagerStep)
        requires
            old(self).wf(),
        ensures
            final(self).wf(),
            old(self)@.stepped(final(self)@, outcome, now),
    {
        let command = self.inbound.pop_front();
        proof {
            if old(self).inbound@.len() > 0 {
                assert(self.inbound@ =~= old(self).inbound@.drop_first());
                assert(self@ == old(self)@.dequeue());
            }
        }
        match command {
            None => ManagerStep::Idle,
            Some(ActorManagerProxyCommand::Dispatch(actor_id, envelope)) => {
                match self.process_dispatch_command(actor_id, envelope, now) {
                    Ok(spawned) => {
                        if spawned {
                            ManagerStep::Spawned(actor_id)
                        } else {
                            ManagerStep::Delivered(actor_id)
                        }
                    },
                    Err(back) => {
                        self.inbound.push_front(ActorManagerProxyCommand::Dispatch(actor_id, back));
                        assert(self.inbound@ =~= old(self).inbound@);
                        ManagerStep::Blocked
                    },
                }
            },
            Some(ActorManagerProxyCommand::DispatchToAll(envelope)) => {
                if self.all_have_room() {
                    self.process_dispatch_all_command(envelope, now);
                    ManagerStep::DeliveredToAll
                } else {
                    self.inbound.push_front(ActorManagerProxyCommand::DispatchToAll(envelope));
                    assert(self.inbound@ =~= old(self).inbound@);
                    ManagerStep::Blocked
                }
            },
            Some(ActorManagerProxyCommand::EndActor(actor_id)) => {
                self.process_end_actor_command(actor_id);
                ManagerStep::EndedActor(actor_id)
            },
        }
    }
}

/// The envelopes that a pool's queue holds for one identity, in their order.
pub open spec fn addressed<E>(inbound: Seq<ActorManagerProxyCommand<E>>, id: u64) -> Seq<E>
    decreases inbound.len(),
{
    if inbound.len() == 0 {
        Seq::empty()
    } else {
        match inbound[0] {
            ActorManagerProxyCommand::Dispatch(to, envelope) => if to == id {
                seq![envelope] + addressed(inbound.drop_first(), id)
            } else {
                addressed(inbound.drop_first(), id)
            },
            _ => addressed(inbound.drop_first(), id),
        }
    }
}

/// The envelopes sent to one identity and not handled yet, in the order in
/// which they will be handled: those in its mailbox, then those that the pool
/// still has to route.
pub open spec fn pending_for<E>(pool: PoolView<E>, id: u64) -> Seq<E> {
    if pool.actors.contains_key(id) {
        pool.actors[id].pending() + addressed(pool.inbound, id)
    } else {
        addressed(pool.inbound, id)
    }
}

/// A command that joins the back of the pool's queue adds its envelope, if it
/// is a dispatch to this identity, behind those already addressed to it.
pub proof fn lemma_addressed_push<E>(
    inbound: Seq<ActorManagerProxyCommand<E>>,
    command: ActorManagerProxyCommand<E>,
    id: u64,
)
    ensures
        addressed(inbound.push(command), id) == match command {
            ActorManagerProxyCommand::Dispatch(to, envelope) => if to == id {
                addressed(inbound, id).push(envelope)
            } else {
                addressed(inbound, id)
            },
            _ => addressed(inbound, id),
        },
    decreases inbound.len(),
{
    let pushed = inbound.push(command);
    if inbound.len() == 0 {
        assert(pushed.drop_first() =~= Seq::<ActorManagerProxyCommand<E>>::empty());
        assert(addressed(pushed.drop_first(), id) =~= Seq::<E>::empty());
        match command {
            ActorManagerProxyCommand::Dispatch(to, envelope) => {
                assert(seq![envelope] + Seq::<E>::empty() =~= Seq::<E>::empty().push(envelope));
            },
            _ => {},
        }
    } else {
        let rest = inbound.drop_first();
        lemma_addressed_push(rest, command, id);
        assert(pushed.drop_first() =~= rest.push(command));
        match (inbound[0], command) {
            (
                ActorManagerProxyCommand::Dispatch(_, head),
                ActorManagerProxyCommand::Dispatch(_, envelope),
            ) => {
                assert(seq![head] + addressed(rest, id).push(envelope) =~= (seq![head] + addressed(
                    rest,
                    id,
                )).push(envelope));
            },
            _ => {},
        }
    }
}

/// Envelopes sent to one identity are handled in the order in which they were
/// sent, whatever happens to its mailbox in between. A send puts the envelope
/// behind all that wait for that identity. Routing the command at the head of
/// the pool's queue, into a mailbox that exists or into one created for it,
/// changes the waiting order of no identity. A turn of a mailbox loop, and the
/// answer to a request to retire, hand out the envelope that has waited
/// longest for that identity or none; a slot that is removed leaves the
/// waiting order as it was, so a mailbox created later starts with the
/// envelope that has waited longest.
pub proof fn lemma_pool_serves_in_order<E>(
    pool: PoolView<E>,
    id: u64,
    other: u64,
    envelope: E,
    timed_out: bool,
    now: u64,
)
    requires
        pool.wf(),
    ensures
        pending_for(pool.enqueue(ActorManagerProxyCommand::Dispatch(id, envelope)), other) == if other
            == id {
            pending_for(pool, other).push(envelope)
        } else {
            pending_for(pool, other)
        },
        pool.inbound.len() > 0 && pool.inbound[0] == ActorManagerProxyCommand::Dispatch(id, envelope)
            ==> pending_for(pool.dequeue().dispatch(id, envelope, now), other) == pending_for(
            pool,
            other,
        ),
        match pool.actor_loop(id, timed_out).1 {
            Some(LoopAction::Dispatch(first)) => pending_for(pool, id) == seq![first] + pending_for(
                pool.actor_loop(id, timed_out).0,
                id,
            ),
            _ => pending_for(pool.actor_loop(id, timed_out).0, id) == pending_for(pool, id),
        },
        other != id ==> pending_for(pool.actor_loop(id, timed_out).0, other) == pending_for(
            pool,
            other,
        ),
        match pool.retire(id).1 {
            Retirement::Postponed(first) => pending_for(pool, id) == seq![first] + pending_for(
                pool.retire(id).0,
                id,
            ),
            _ => pending_for(pool.retire(id).0, id) == pending_for(pool, id),
        },
        other != id ==> pending_for(pool.retire(id).0, other) == pending_for(pool, other),
        pending_for(pool.end_actor(id), other) == pending_for(pool, other),
        pending_for(pool.end(), other) == pending_for(pool, other),
{
    if pool.actors.contains_key(other) {
        lemma_mailbox_serves_in_order(pool.actors[other], timed_out, envelope, now);
    }
    lemma_addressed_push(pool.inbound, ActorManagerProxyCommand::Dispatch(id, envelope), other);
    let waiting = addressed(pool.inbound, other);
    if pool.actors.contains_key(other) {
        assert(pool.actors[other].pending() + waiting.push(envelope) =~= (pool.actors[other].pending()
            + waiting).push(envelope));
    }
    if pool.inbound.len() > 0 && pool.inbound[0] == ActorManagerProxyCommand::Dispatch(id, envelope) {
        let rest = addressed(pool.inbound.drop_first(), other);
        if other == id {
            if pool.actors.contains_key(id) {
                let mailbox = pool.actors[id];
                lemma_mailbox_serves_in_order(mailbox, timed_out, envelope, now);
                assert(mailbox.pending().push(envelope) + rest =~= mailbox.pending() + (
                seq![envelope] + rest));
            } else {
                let fresh = MailboxView::<E>::created(now);
                lemma_mailbox_serves_in_order(fresh, timed_out, envelope, now);
                lemma_mailbox_serves_in_order(fresh.send(envelope, now), timed_out, envelope, now);
                assert(fresh.pending() =~= Seq::<E>::empty());
                assert(Seq::<E>::empty().push(envelope) =~= seq![envelope]);
            }
        }
    }
    if pool.actors.contains_key(id) {
        let mailbox = pool.actors[id];
        lemma_mailbox_serves_in_order(mailbox, timed_out, envelope, now);
        let queued = addressed(pool.inbound, id);
        match pool.actor_loop(id, timed_out).1 {
            Some(LoopAction::Dispatch(first)) => {
                let next = pool.actor_loop(id, timed_out).0.actors[id];
                assert((seq![first] + next.pending()) + queued =~= seq![first] + (next.pending()
                    + queued));
            },
            _ => {},
        }
        match pool.retire(id).1 {
            Retirement::Postponed(first) => {
                let next = pool.retire(id).0.actors[id];
                assert((seq![first] + next.pending()) + queued =~= seq![first] + (next.pending()
                    + queued));
            },
            Retirement::Removed => {
                assert(Seq::<E>::empty() + queued =~= queued);
            },
            Retirement::Refused => {},
        }
    }
}

/// When a pool is told to end, every mailbox that exists is asked to stop,
/// and a mailbox created afterwards is asked to stop as soon as it has taken
/// its first envelope: its queue holds that envelope and then the stop. An
/// envelope that enters a mailbox later does not take the request back.
pub proof fn lemma_ending_pool_stops_mailboxes<E>(pool: PoolView<E>, id: u64, envelope: E, now: u64)
    requires
        pool.wf(),
    ensures
        pool.end().wf(),
        pool.end().is_ending,
        pool.is_resident(id) <==> pool.end().is_resident(id),
        pool.is_resident(id) ==> pool.end().actors[id] == pool.actors[id].end()
            && pool.end().actors[id].stop_requested(),
        pool.is_ending && !pool.is_resident(id) ==> pool.dispatch(id, envelope, now).actors[id].inbox
            == seq![Command::Dispatch(envelope), Command::End],
        pool.is_resident(id) && pool.actors[id].stop_requested() && pool.actors[id].has_room()
            ==> pool.dispatch(id, envelope, now).actors[id].stop_requested(),
{
    assert(Seq::<Command<E>>::empty().push(Command::Dispatch(envelope)).push(Command::End)
        =~= seq![Command::Dispatch(envelope), Command::End]);
    if pool.is_resident(id) {
        let mailbox = pool.actors[id];
        assert(mailbox.wf());
        if mailbox.has_room() {
            let stopped = mailbox.end();
            assert(stopped.inbox[stopped.inbox.len() - 1] is End);
            if mailbox.stop_requested() {
                let i = choose|i: int| 0 <= i < mailbox.inbox.len() && mailbox.inbox[i] is End;
                let sent = mailbox.send(envelope, now);
                assert(sent.inbox[i] is End);
            }
        }
    }
    assert forall|other: u64| pool.end().actors.contains_key(other) implies (
    #[trigger] pool.end().actors[other]).wf() by {
        assert(pool.actors[other].wf());
    }
}

/// Identities do not constrain one another: a turn of the loop of one
/// mailbox, and the answer to its request to retire, leave every other
/// mailbox as it is, and turns of two mailboxes give the same actions and
/// the same pool in either order.
pub proof fn lemma_identities_are_independent<E>(
    pool: PoolView<E>,
    id: u64,
    other: u64,
    timed_out: bool,
    other_timed_out: bool,
)
    requires
        id != other,
    ensures
        pool.actor_loop(id, timed_out).0.is_resident(other) == pool.is_resident(other),
        pool.is_resident(other) ==> pool.actor_loop(id, timed_out).0.actors[other]
            == pool.actors[other],
        pool.retire(id).0.is_resident(other) == pool.is_resident(other),
        pool.is_resident(other) ==> pool.retire(id).0.actors[other] == pool.actors[other],
        pool.actor_loop(id, timed_out).0.actor_loop(other, other_timed_out).1 == pool.actor_loop(
            other,
            other_timed_out,
        ).1,
        pool.actor_loop(other, other_timed_out).0.actor_loop(id, timed_out).1 == pool.actor_loop(
            id,
            timed_out,
        ).1,
        pool.actor_loop(id, timed_out).0.actor_loop(other, other_timed_out).0 == pool.actor_loop(
            other,
            other_timed_out,
        ).0.actor_loop(id, timed_out).0,
{
    let one = pool.actor_loop(id, timed_out).0.actor_loop(other, other_timed_out).0;
    let two = pool.actor_loop(other, other_timed_out).0.actor_loop(id, timed_out).0;
    assert(one.actors =~= two.actors);
}

/// A mailbox that was removed is created again by the next envelope for its
/// identity: the identity has no slot after the removal, and the envelope
/// that the pool routes to it then enters a mailbox that was just created,
/// whose first turn activates the actor value before the envelope is handled.
pub proof fn lemma_removed_mailbox_is_created_again<E>(
    pool: PoolView<E>,
    id: u64,
    envelope: E,
    now: u64,
)
    requires
        pool.wf(),
    ensures
        pool.retire(id).1 is Removed ==> !pool.retire(id).0.is_resident(id),
        pool.retire(id).1 is Removed ==> pool.actors[id].pending().len() == 0,
        !pool.is_resident(id) ==> {
            let created = pool.dispatch(id, envelope, now);
            &&& created.is_resident(id)
            &&& created.actors[id].state is Created
            &&& created.actors[id].pending() == seq![envelope]
            &&& created.actor_loop(id, false).1 == Some(LoopAction::<E>::Activate)
            &&& created.actor_loop(id, false).0.actor_loop(id, false).1 == Some(
                LoopAction::Dispatch(envelope),
            )
        },
{
    if pool.is_resident(id) {
        assert(pool.actors[id].wf());
        lemma_retirement_loses_nothing(pool.actors[id]);
    }
    if !pool.is_resident(id) {
        let fresh = MailboxView::<E>::created(now);
        let sent = fresh.send(envelope, now);
        lemma_mailbox_serves_in_order(fresh, false, envelope, now);
        lemma_mailbox_serves_in_order(sent, false, envelope, now);
        assert(fresh.pending() =~= Seq::<E>::empty());
        assert(Seq::<E>::empty().push(envelope) =~= seq![envelope]);
        assert(sent.inbox =~= seq![Command::Dispatch(envelope)]);
        let created = pool.dispatch(id, envelope, now);
        let mailbox = created.actors[id];
        assert(mailbox.inbox[0] == Command::Dispatch(envelope));
        let running = created.actor_loop(id, false).0.actors[id];
        assert(running.inbox == mailbox.inbox);
        assert(leading_ends(running.inbox) == 0);
    }
}

/// The turns that the mailboxes of the listed identities still have to make
/// before each has asked to be retired, all together.
pub open spec fn total_work<E>(pool: PoolView<E>, ids: Seq<u64>) -> nat
    decreases ids.len(),
{
    if ids.len() == 0 {
        0
    } else {
        total_work(pool, ids.drop_last()) + pool.actors[ids.last()].work()
    }
}

/// Whether `ids` lists the identities that have a mailbox, each once.
pub open spec fn lists_actors<E>(pool: PoolView<E>, ids: Seq<u64>) -> bool {
    &&& ids.no_duplicates()
    &&& forall|id: u64| ids.contains(id) <==> pool.actors.contains_key(id)
}

/// Whether every mailbox of the pool was asked to stop.
pub open spec fn all_stopping<E>(pool: PoolView<E>) -> bool {
    forall|id: u64| pool.actors.contains_key(id) ==> (#[trigger] pool.actors[id]).stop_requested()
}

/// Pools that agree on the mailboxes of the listed identities have the same
/// work left for them.
pub proof fn lemma_total_work_frame<E>(pool: PoolView<E>, other: PoolView<E>, ids: Seq<u64>)
    requires
        forall|k: int| 0 <= k < ids.len() ==> pool.actors[#[trigger] ids[k]] == other.actors[ids[k]],
    ensures
        total_work(pool, ids) == total_work(other, ids),
    decreases ids.len(),
{
    if ids.len() > 0 {
        let rest = ids.drop_last();
        assert forall|k: int| 0 <= k < rest.len() implies pool.actors[#[trigger] rest[k]]
            == other.actors[rest[k]] by {
            assert(rest[k] == ids[k]);
        }
        lemma_total_work_frame(pool, other, rest);
        assert(ids.last() == ids[ids.len() - 1]);
    }
}

/// Taking one identity off the list takes the work of its mailbox off the
/// total.
pub proof fn lemma_total_work_remove<E>(pool: PoolView<E>, ids: Seq<u64>, k: int)
    requires
        0 <= k < ids.len(),
    ensures
        total_work(pool, ids.remove(k)) + pool.actors[ids[k]].work() == total_work(pool, ids),
    decreases ids.len(),
{
    if k == ids.len() - 1 {
        assert(ids.remove(k) =~= ids.drop_last());
    } else {
        lemma_total_work_remove(pool, ids.drop_last(), k);
        assert(ids.remove(k).drop_last() =~= ids.drop_last().remove(k));
        assert(ids.remove(k).last() == ids.last());
    }
}

/// No work is left exactly when the pool holds no mailbox; a pool that is
/// ending and has nothing left to route is then ready to leave its router.
pub proof fn lemma_no_work_left<E>(pool: PoolView<E>, ids: Seq<u64>)
    requires
        lists_actors(pool, ids),
    ensures
        total_work(pool, ids) == 0 <==> pool.has_no_actors(),
        pool.is_ending && pool.inbound.len() == 0 && total_work(pool, ids) == 0
            ==> pool.is_ready_to_be_removed(),
{
    if ids.len() > 0 {
        assert(ids.contains(ids[0]));
        assert(pool.actors.contains_key(ids[0]));
    } else {
        assert forall|id: u64| !pool.actors.contains_key(id) by {
            assert(!ids.contains(id));
        }
    }
}

/// A pool whose mailboxes were all asked to stop comes to its end in as many
/// steps as its mailboxes have work left, whatever the order in which they
/// take their turns and whatever the timers do. A turn of any mailbox never
/// waits: it either takes one off the work that is left and keeps every
/// mailbox asked to stop, or it asks to retire, and the answer then removes
/// the slot and takes one off the work that is left.
pub proof fn lemma_ending_pool_makes_progress<E>(
    pool: PoolView<E>,
    ids: Seq<u64>,
    id: u64,
    timed_out: bool,
)
    requires
        pool.wf(),
        lists_actors(pool, ids),
        all_stopping(pool),
        pool.is_resident(id),
    ensures
        match pool.actor_loop(id, timed_out) {
            (next, Some(LoopAction::Retire)) => {
                let last = next.retire(id).0;
                let left = ids.remove(ids.index_of(id));
                &&& next.retire(id).1 is Removed
                &&& last.wf()
                &&& lists_actors(last, left)
                &&& all_stopping(last)
                &&& total_work(last, left) + 1 == total_work(pool, ids)
            },
            (next, Some(LoopAction::Activate)) | (next, Some(LoopAction::Dispatch(_))) => {
                &&& next.wf()
                &&& lists_actors(next, ids)
                &&& all_stopping(next)
                &&& total_work(next, ids) + 1 == total_work(pool, ids)
            },
            _ => false,
        },
{
    let k = ids.index_of(id);
    assert(ids.contains(id));
    assert(0 <= k < ids.len() && ids[k] == id);
    let mailbox = pool.actors[id];
    assert(mailbox.wf());
    lemma_stopping_mailbox_makes_progress(mailbox, timed_out);
    lemma_retirement_loses_nothing(mailbox.receive(timed_out).0);
    let left = ids.remove(k);
    lemma_total_work_remove(pool, ids, k);
    assert(left.no_duplicates()) by {
        assert forall|a: int, b: int|
            0 <= a < left.len() && 0 <= b < left.len() && a != b implies left[a] != left[b] by {
            let a1 = if a < k { a } else { a + 1 };
            let b1 = if b < k { b } else { b + 1 };
            assert(left[a] == ids[a1] && left[b] == ids[b1]);
        }
    }
    assert forall|other: u64| left.contains(other) <==> (ids.contains(other) && other != id) by {
        if left.contains(other) {
            let a = left.index_of(other);
            assert(0 <= a < left.len() && left[a] == other);
            let a1 = if a < k { a } else { a + 1 };
            assert(ids[a1] == other);
        }
        if ids.contains(other) && other != id {
            let a = ids.index_of(other);
            assert(0 <= a < ids.len() && ids[a] == other);
            let a2 = if a < k { a } else { a - 1 };
            assert(left[a2] == other);
        }
    }
    assert(total_work(pool, ids) >= 1);
    let (next, action) = pool.actor_loop(id, timed_out);
    assert forall|j: int| 0 <= j < left.len() implies pool.actors[#[trigger] left[j]]
        == next.actors[left[j]] && pool.actors[left[j]] == next.retire(id).0.actors[left[j]] by {
        assert(left.contains(left[j]));
    }
    lemma_total_work_frame(pool, next, left);
    lemma_total_work_frame(pool, next.retire(id).0, left);
    lemma_total_work_remove(next, ids, k);
    assert forall|other: u64| next.actors.contains_key(other) implies (
    #[trigger] next.actors[other]).wf() && next.actors[other].stop_requested()
        || action == Some(LoopAction::<E>::Retire) && other == id by {
        if other != id {
            assert(pool.actors[other].wf());
            assert(pool.actors[other].stop_requested());
        }
    }
    if action == Some(LoopAction::<E>::Retire) {
        let last = next.retire(id).0;
        assert forall|other: u64| last.actors.contains_key(other) implies (
        #[trigger] last.actors[other]).wf() && last.actors[other].stop_requested() by {
            assert(pool.actors[other].wf());
            assert(pool.actors[other].stop_requested());
        }
    }
}

/// An envelope or a stop that enters a mailbox does not take back a request
/// to stop, and a stop asked of a mailbox is a request to stop.
pub proof fn lemma_stop_request_stays<E>(mailbox: MailboxView<E>, envelope: E, now: u64)
    requires
        mailbox.wf(),
    ensures
        mailbox.end().stop_requested(),
        mailbox.end().wf(),
        mailbox.has_room() ==> mailbox.send(envelope, now).wf(),
        mailbox.stop_requested() && mailbox.has_room() ==> mailbox.send(
            envelope,
            now,
        ).stop_requested(),
{
    if mailbox.has_room() {
        let stopped = mailbox.end();
        assert(stopped.inbox[stopped.inbox.len() - 1] is End);
        if mailbox.stop_requested() {
            let i = choose|i: int| 0 <= i < mailbox.inbox.len() && mailbox.inbox[i] is End;
            assert(mailbox.send(envelope, now).inbox[i] is End);
        }
    }
}

/// An ending pool routes what is left in its queue: a turn of its loop
/// either takes the command at the head, after which every mailbox is still
/// asked to stop (a mailbox created for the command as well), or changes
/// nothing, because the queue is empty or a mailbox is full. In the last
/// case that mailbox has something to serve, so its loop can take a turn.
/// Together with the progress of the mailboxes this bounds the end of the
/// pool: every step takes one off the queue, or leaves the queue and takes
/// one off the work of the mailboxes.
pub proof fn lemma_ending_pool_routes_what_is_left<E: Clone>(
    pool: PoolView<E>,
    after: PoolView<E>,
    outcome: ManagerStep,
    now: u64,
)
    requires
        pool.wf(),
        pool.is_ending,
        all_stopping(pool),
        pool.stepped(after, outcome, now),
    ensures
        after.wf(),
        after.is_ending,
        all_stopping(after),
        outcome is Idle <==> pool.inbound.len() == 0,
        outcome is Idle || outcome is Blocked ==> after == pool,
        !(outcome is Idle || outcome is Blocked) ==> after.inbound.len() + 1 == pool.inbound.len(),
        outcome is Blocked ==> exists|id: u64|
            pool.is_resident(id) && !(#[trigger] pool.actors[id]).has_room(),
{
    if pool.inbound.len() > 0 {
        match pool.inbound[0] {
            ActorManagerProxyCommand::Dispatch(id, envelope) => {
                if pool.can_deliver(id) {
                    if pool.is_resident(id) {
                        assert(pool.actors[id].wf());
                        lemma_stop_request_stays(pool.actors[id], envelope, now);
                    } else {
                        let fresh = MailboxView::<E>::created(now);
                        lemma_stop_request_stays(fresh, envelope, now);
                        lemma_stop_request_stays(fresh.send(envelope, now), envelope, now);
                    }
                    assert forall|other: u64| after.actors.contains_key(other) implies (
                    #[trigger] after.actors[other]).wf() && after.actors[other].stop_requested() by {
                        if other != id {
                            assert(pool.actors[other].wf());
                            assert(pool.actors[other].stop_requested());
                        }
                    }
                } else {
                    assert(pool.is_resident(id) && !pool.actors[id].has_room());
                }
            },
            ActorManagerProxyCommand::DispatchToAll(envelope) => {
                if pool.all_have_room() {
                    assert forall|other: u64| after.actors.contains_key(other) implies (
                    #[trigger] after.actors[other]).wf() && after.actors[other].stop_requested() by {
                        let before = pool.actors[other];
                        assert(before.wf() && before.stop_requested() && before.has_room());
                        assert(received_copy(before, after.actors[other], envelope, now));
                        let copy = choose|copy: E|
                            cloned(envelope, copy) && after.actors[other] == #[trigger] before.send(
                                copy,
                                now,
                            );
                        lemma_stop_request_stays(before, copy, now);
                    }
                } else {
                    let id = choose|id: u64|
                        pool.actors.contains_key(id) && !(#[trigger] pool.actors[id]).has_room();
                    assert(pool.is_resident(id) && !pool.actors[id].has_room());
                }
            },
            ActorManagerProxyCommand::EndActor(id) => {
                if pool.is_resident(id) {
                    let envelope = arbitrary::<E>();
                    assert(pool.actors[id].wf());
                    lemma_stop_request_stays(pool.actors[id], envelope, now);
                }
                assert forall|other: u64| after.actors.contains_key(other) implies (
                #[trigger] after.actors[other]).wf() && after.actors[other].stop_requested() by {
                    if other != id {
                        assert(pool.actors[other].wf());
                        assert(pool.actors[other].stop_requested());
                    }
                }
            },
        }
    }
}

} // verus!
