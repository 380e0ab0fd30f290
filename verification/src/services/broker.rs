//! The publish/subscribe table: which service types listen to which message
//! type.

use crate::registry::Registry;
use vstd::prelude::*;

verus! {

/// The subscribers of a message type according to a table: its list, or no
/// one where the type has no entry.
pub open spec fn subscribers_of(table: Map<u64, Seq<u64>>, message_type: u64) -> Seq<u64> {
    if table.contains_key(message_type) {
        table[message_type]
    } else {
        Seq::empty()
    }
}

/// The table after a service type was registered for a message type.
pub open spec fn registered(table: Map<u64, Seq<u64>>, service_type: u64, message_type: u64) -> Map<
    u64,
    Seq<u64>,
> {
    table.insert(message_type, subscribers_of(table, message_type).push(service_type))
}

/// How often a service type is registered in a list of subscribers.
pub open spec fn registrations(subscribers: Seq<u64>, service_type: u64) -> nat
    decreases subscribers.len(),
{
    if subscribers.len() == 0 {
        0
    } else if subscribers.last() == service_type {
        1 + registrations(subscribers.drop_last(), service_type)
    } else {
        registrations(subscribers.drop_last(), service_type)
    }
}

/// The table of subscriptions.
#[derive(Debug)]
pub struct MessageBroker {
    managers: Registry<Vec<u64>>,
}

impl MessageBroker {
    /// The subscriptions, by message type.
    pub closed spec fn view(&self) -> Map<u64, Seq<u64>> {
        Map::new(
            |message_type: u64| self.managers@.contains_key(message_type),
            |message_type: u64| self.managers@[message_type]@,
        )
    }

    /// The table is sound.
    pub closed spec fn wf(&self) -> bool {
        self.managers.wf()
    }

    /// A broker without subscriptions.
    pub fn new() -> (broker: MessageBroker)
        ensures
            broker.wf(),
            broker@ == Map::<u64, Seq<u64>>::empty(),
    {
        let broker = MessageBroker { managers: Registry::new() };
        assert(broker@ =~= Map::<u64, Seq<u64>>::empty());
        broker
    }

    /// Registers a service type as a listener of a message type. Every call
    /// adds a registration, also for a pair that is registered already.
    pub fn register(&mut self, service_type: u64, message_type: u64)
        requires
            old(self).wf(),
        ensures
            final(self).wf(),
            final(self)@ == registered(old(self)@, service_type, message_type),
    {
        match self.managers.position(message_type) {
            Some(i) => {
                let list = self.managers.value_at_mut(i);
                list.push(service_type);
            },
            None => {
                let mut list: Vec<u64> = Vec::new();
                list.push(service_type);
                assert(list@ =~= Seq::<u64>::empty().push(service_type));
                self.managers.insert(message_type, list);
            },
        }
        assert(self@ =~= registered(old(self)@, service_type, message_type));
    }

    /// The service types that a message of this type has to reach: one entry
    /// for each registration, in the order of registration; empty where no
    /// one listens.
    pub fn subscribers(&self, message_type: u64) -> (list: Vec<u64>)
        requires
            self.wf(),
        ensures
            list@ == subscribers_of(self@, message_type),
    {
        let mut list: Vec<u64> = Vec::new();
        match self.managers.position(message_type) {
            Some(i) => {
                let registered = self.managers.value_at(i);
                let mut k: usize = 0;
                while k < registered.len()
                    invariant
                        k <= registered@.len(),
                        list@ == registered@.take(k as int),
                    decreases registered@.len() - k,
                {
                    list.push(registered[k]);
                    assert(registered@.take(k as int + 1) =~= registered@.take(k as int).push(
                        registered@[k as int],
                    ));
                    k += 1;
                }
                assert(registered@.take(k as int) =~= registered@);
            },
            None => {},
        }
        list
    }
}

/// A registration adds one entry for its pair and changes nothing else: the
/// service type is listed once more for that message type, every other
/// service type as often as before, and other message types keep their lists.
pub proof fn lemma_register_adds_one(
    table: Map<u64, Seq<u64>>,
    service_type: u64,
    message_type: u64,
    other_service: u64,
    other_message: u64,
)
    ensures
        registrations(
            subscribers_of(registered(table, service_type, message_type), message_type),
            service_type,
        ) == registrations(subscribers_of(table, message_type), service_type) + 1,
        other_service != service_type ==> registrations(
            subscribers_of(registered(table, service_type, message_type), message_type),
            other_service,
        ) == registrations(subscribers_of(table, message_type), other_service),
        other_message != message_type ==> subscribers_of(
            registered(table, service_type, message_type),
            other_message,
        ) == subscribers_of(table, other_message),
        subscribers_of(Map::<u64, Seq<u64>>::empty(), message_type) == Seq::<u64>::empty(),
{
    let before = subscribers_of(table, message_type);
    assert(before.push(service_type).drop_last() =~= before);
}

} // verus!
