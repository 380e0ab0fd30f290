use acteur::{
    ActorManagerProxyCommand, ActorReport, ActorsDirector, ActorsDirectorConfiguration,
    ActorsManager, LoopAction, ManagerStep, Responder, Retirement, SystemDirector,
};
use std::collections::HashMap;

const EMPLOYEE: u64 = 1;
const COUNTER: u64 = 2;

#[derive(Debug, Clone, PartialEq)]
enum Message {
    SalaryChanged(u32),
    Tick(u32),
}

#[derive(Debug, Default)]
struct World {
    salaries: HashMap<u64, u32>,
    activations: Vec<u64>,
    deactivations: Vec<u64>,
    handled: Vec<(u64, Message)>,
}

/// Runs the loop of one mailbox until it waits or its slot is gone.
fn run_actor(director: &mut ActorsDirector<Message>, type_id: u64, id: u64, world: &mut World) {
    loop {
        match director.actor_loop(type_id, id, false) {
            Some(LoopAction::Activate) => {
                world.activations.push(id);
                world.salaries.insert(id, 0);
            }
            Some(LoopAction::Dispatch(message)) => {
                if let Message::SalaryChanged(salary) = message {
                    world.salaries.insert(id, salary);
                }
                world.handled.push((id, message));
            }
            Some(LoopAction::Retire) => match director.retire_actor(type_id, id) {
                Retirement::Removed => {
                    world.deactivations.push(id);
                    director.signal_actor_removed(type_id);
                    return;
                }
                Retirement::Postponed(message) => world.handled.push((id, message)),
                Retirement::Refused => return,
            },
            Some(LoopAction::StopQueued) => {}
            Some(LoopAction::Wait) | None => return,
        }
    }
}

/// Routes everything that waits at the pool of a type and serves the mailboxes.
fn run_pool(director: &mut ActorsDirector<Message>, type_id: u64, world: &mut World) {
    loop {
        match director.actor_manager_loop(type_id, 0) {
            Some(ManagerStep::Spawned(id)) | Some(ManagerStep::Delivered(id)) => {
                run_actor(director, type_id, id, world)
            }
            Some(ManagerStep::EndedActor(id)) => run_actor(director, type_id, id, world),
            Some(ManagerStep::DeliveredToAll) => {}
            Some(ManagerStep::Blocked) => panic!("nothing is slow here"),
            Some(ManagerStep::Idle) | None => return,
        }
    }
}

#[test]
fn single_send_reaches_the_handler() {
    let mut director: ActorsDirector<Message> =
        ActorsDirector::new(ActorsDirectorConfiguration::default());
    let mut world = World::default();
    assert!(director.send(EMPLOYEE, 42, Message::SalaryChanged(55_000)));
    run_pool(&mut director, EMPLOYEE, &mut world);
    assert_eq!(world.salaries.get(&42), Some(&55_000));
    assert_eq!(world.activations, vec![42]);
}

#[test]
fn call_round_trip_returns_thanks() {
    let mut director: ActorsDirector<Message> =
        ActorsDirector::new(ActorsDirectorConfiguration::default());
    let mut responder: Responder<String> = Responder::new();
    let mut salary: u32 = 0;
    assert!(director.send(EMPLOYEE, 42, Message::SalaryChanged(60_000)));
    assert_eq!(director.actor_manager_loop(EMPLOYEE, 0), Some(ManagerStep::Spawned(42)));
    assert!(matches!(director.actor_loop(EMPLOYEE, 42, false), Some(LoopAction::Activate)));
    assert_eq!(responder.recv(), None);
    match director.actor_loop(EMPLOYEE, 42, false) {
        Some(LoopAction::Dispatch(Message::SalaryChanged(value))) => {
            salary = value;
            assert_eq!(responder.send(String::from("Thanks!")), Ok(()));
        }
        other => panic!("unexpected {:?}", other),
    }
    assert_eq!(responder.recv(), Some(Ok(String::from("Thanks!"))));
    assert_eq!(salary, 60_000);
}

#[test]
fn chained_send_counts_to_one_million_and_one() {
    let mut director: ActorsDirector<Message> =
        ActorsDirector::new(ActorsDirectorConfiguration::default());
    let mut highest: u32 = 0;
    let mut stopped = false;
    assert!(director.send(COUNTER, 0, Message::Tick(0)));
    let mut id: u64 = 0;
    while !stopped {
        assert_eq!(director.actor_manager_loop(COUNTER, 0), Some(ManagerStep::Spawned(id)));
        assert!(matches!(director.actor_loop(COUNTER, id, false), Some(LoopAction::Activate)));
        match director.actor_loop(COUNTER, id, false) {
            Some(LoopAction::Dispatch(Message::Tick(n))) => {
                assert_eq!(n as u64, id);
                highest = highest.max(n);
                if n > 1_000_000 {
                    director.stop();
                    stopped = true;
                } else {
                    assert!(director.send(COUNTER, id + 1, Message::Tick(n + 1)));
                }
            }
            other => panic!("unexpected {:?}", other),
        }
        // The counter has nothing more to do: its idle window passes, or the stop reaches it.
        if !stopped {
            assert!(matches!(director.actor_loop(COUNTER, id, true), Some(LoopAction::StopQueued)));
        }
        assert!(matches!(director.actor_loop(COUNTER, id, false), Some(LoopAction::Retire)));
        assert!(matches!(director.retire_actor(COUNTER, id), Retirement::Removed));
        let removed = director.signal_actor_removed(COUNTER);
        assert_eq!(removed, stopped);
        id += 1;
    }
    assert!(director.signal_manager_removed());
    assert!(director.is_stopped());
    assert_eq!(highest, 1_000_001);
}

#[test]
fn idle_mailbox_is_unregistered_and_a_later_send_activates_again() {
    let mut manager: ActorsManager<Message> = ActorsManager::new();
    let mut activations = 0;
    manager.enqueue(ActorManagerProxyCommand::Dispatch(7, Message::SalaryChanged(1)));
    assert_eq!(manager.actor_manager_loop(100), ManagerStep::Spawned(7));
    assert!(matches!(manager.actor_loop(7, false), Some(LoopAction::Activate)));
    activations += 1;
    assert!(matches!(manager.actor_loop(7, false), Some(LoopAction::Dispatch(_))));
    assert!(matches!(manager.actor_loop(7, false), Some(LoopAction::Wait)));
    assert!(manager.is_resident(7));
    assert_eq!(
        manager.get_statistics(),
        vec![ActorReport { last_message_on: 100, enqueued_messages: 0 }]
    );
    // the idle window passes
    assert!(matches!(manager.actor_loop(7, true), Some(LoopAction::StopQueued)));
    assert!(matches!(manager.actor_loop(7, false), Some(LoopAction::Retire)));
    assert!(matches!(manager.retire_actor(7), Retirement::Removed));
    assert!(!manager.is_resident(7));
    assert_eq!(manager.get_statistics(), vec![]);
    assert_eq!(manager.get_report(7), None);
    assert!(manager.actor_loop(7, false).is_none());
    // a later send creates the mailbox again
    manager.enqueue(ActorManagerProxyCommand::Dispatch(7, Message::SalaryChanged(2)));
    assert_eq!(manager.actor_manager_loop(200), ManagerStep::Spawned(7));
    assert!(matches!(manager.actor_loop(7, false), Some(LoopAction::Activate)));
    activations += 1;
    assert_eq!(activations, 2);
    assert!(matches!(
        manager.actor_loop(7, false),
        Some(LoopAction::Dispatch(Message::SalaryChanged(2)))
    ));
}

#[test]
fn pool_waits_for_a_full_mailbox_and_keeps_the_order() {
    let mut manager: ActorsManager<u32> = ActorsManager::new();
    for n in 0..100u32 {
        manager.enqueue(ActorManagerProxyCommand::Dispatch(1, n));
    }
    assert_eq!(manager.actor_manager_loop(0), ManagerStep::Spawned(1));
    for _ in 1..5 {
        assert_eq!(manager.actor_manager_loop(0), ManagerStep::Delivered(1));
    }
    // five envelopes are unacknowledged: the pool has to wait
    assert_eq!(manager.actor_manager_loop(0), ManagerStep::Blocked);
    assert_eq!(manager.actor_manager_loop(0), ManagerStep::Blocked);
    assert_eq!(manager.get_inbound_length(), 95);
    assert!(matches!(manager.actor_loop(1, false), Some(LoopAction::Activate)));
    let mut handled: Vec<u32> = Vec::new();
    loop {
        match manager.actor_loop(1, false) {
            Some(LoopAction::Dispatch(n)) => handled.push(n),
            Some(LoopAction::Wait) => match manager.actor_manager_loop(0) {
                ManagerStep::Idle => break,
                ManagerStep::Delivered(1) => {}
                other => panic!("unexpected {:?}", other),
            },
            other => panic!("unexpected {:?}", other),
        }
    }
    let expected: Vec<u32> = (0..100).collect();
    assert_eq!(handled, expected);
}

#[test]
fn identities_are_served_independently_each_in_its_order() {
    let mut manager: ActorsManager<u32> = ActorsManager::new();
    for n in 0..4u32 {
        manager.enqueue(ActorManagerProxyCommand::Dispatch(1, 10 + n));
        manager.enqueue(ActorManagerProxyCommand::Dispatch(2, 20 + n));
    }
    while manager.actor_manager_loop(0) != ManagerStep::Idle {}
    assert!(matches!(manager.actor_loop(2, false), Some(LoopAction::Activate)));
    assert!(matches!(manager.actor_loop(2, false), Some(LoopAction::Dispatch(20))));
    assert!(matches!(manager.actor_loop(1, false), Some(LoopAction::Activate)));
    assert!(matches!(manager.actor_loop(2, false), Some(LoopAction::Dispatch(21))));
    assert!(matches!(manager.actor_loop(1, false), Some(LoopAction::Dispatch(10))));
    assert!(matches!(manager.actor_loop(1, false), Some(LoopAction::Dispatch(11))));
    assert!(matches!(manager.actor_loop(1, false), Some(LoopAction::Dispatch(12))));
    assert!(matches!(manager.actor_loop(2, false), Some(LoopAction::Dispatch(22))));
    assert!(matches!(manager.actor_loop(2, false), Some(LoopAction::Dispatch(23))));
    assert!(matches!(manager.actor_loop(2, false), Some(LoopAction::Wait)));
    assert!(matches!(manager.actor_loop(1, false), Some(LoopAction::Dispatch(13))));
    assert!(matches!(manager.actor_loop(1, false), Some(LoopAction::Wait)));
}

#[test]
fn message_sent_during_reclamation_is_not_overtaken() {
    let mut manager: ActorsManager<u32> = ActorsManager::new();
    manager.enqueue(ActorManagerProxyCommand::Dispatch(1, 1));
    manager.enqueue(ActorManagerProxyCommand::EndActor(1));
    assert_eq!(manager.actor_manager_loop(0), ManagerStep::Spawned(1));
    assert_eq!(manager.actor_manager_loop(0), ManagerStep::EndedActor(1));
    assert!(matches!(manager.actor_loop(1, false), Some(LoopAction::Activate)));
    assert!(matches!(manager.actor_loop(1, false), Some(LoopAction::Dispatch(1))));
    assert!(matches!(manager.actor_loop(1, false), Some(LoopAction::Retire)));
    // before the slot is held, two more envelopes are routed to the mailbox
    manager.enqueue(ActorManagerProxyCommand::Dispatch(1, 2));
    manager.enqueue(ActorManagerProxyCommand::Dispatch(1, 3));
    assert_eq!(manager.actor_manager_loop(0), ManagerStep::Delivered(1));
    assert_eq!(manager.actor_manager_loop(0), ManagerStep::Delivered(1));
    assert!(matches!(manager.retire_actor(1), Retirement::Postponed(2)));
    assert!(manager.is_resident(1));
    assert!(matches!(manager.actor_loop(1, false), Some(LoopAction::Dispatch(3))));
    assert!(matches!(manager.actor_loop(1, false), Some(LoopAction::Retire)));
    assert!(matches!(manager.retire_actor(1), Retirement::Removed));
    assert!(!manager.is_resident(1));
    assert!(matches!(manager.retire_actor(1), Retirement::Refused));
}

#[test]
fn retirement_is_refused_to_a_mailbox_that_is_not_draining() {
    let mut manager: ActorsManager<u32> = ActorsManager::new();
    manager.enqueue(ActorManagerProxyCommand::Dispatch(1, 1));
    assert_eq!(manager.actor_manager_loop(0), ManagerStep::Spawned(1));
    assert!(matches!(manager.retire_actor(1), Retirement::Refused));
    assert!(manager.is_resident(1));
    assert!(matches!(manager.actor_loop(1, false), Some(LoopAction::Activate)));
    assert!(matches!(manager.retire_actor(1), Retirement::Refused));
    assert!(matches!(manager.actor_loop(1, false), Some(LoopAction::Dispatch(1))));
}

#[test]
fn dispatch_to_all_reaches_resident_mailboxes_only() {
    let mut manager: ActorsManager<u32> = ActorsManager::new();
    manager.enqueue(ActorManagerProxyCommand::DispatchToAll(5));
    assert_eq!(manager.actor_manager_loop(0), ManagerStep::DeliveredToAll);
    assert_eq!(manager.get_statistics().len(), 0);
    manager.enqueue(ActorManagerProxyCommand::Dispatch(1, 1));
    manager.enqueue(ActorManagerProxyCommand::Dispatch(2, 2));
    manager.enqueue(ActorManagerProxyCommand::DispatchToAll(9));
    manager.enqueue(ActorManagerProxyCommand::Dispatch(3, 3));
    while manager.actor_manager_loop(7) != ManagerStep::Idle {}
    assert_eq!(manager.get_report(1), Some(ActorReport { last_message_on: 7, enqueued_messages: 2 }));
    assert_eq!(manager.get_report(2), Some(ActorReport { last_message_on: 7, enqueued_messages: 2 }));
    assert_eq!(manager.get_report(3), Some(ActorReport { last_message_on: 7, enqueued_messages: 1 }));
    assert!(matches!(manager.actor_loop(1, false), Some(LoopAction::Activate)));
    assert!(matches!(manager.actor_loop(1, false), Some(LoopAction::Dispatch(1))));
    assert!(matches!(manager.actor_loop(1, false), Some(LoopAction::Dispatch(9))));
}

#[test]
fn dispatch_to_all_waits_while_a_mailbox_is_full() {
    let mut manager: ActorsManager<u32> = ActorsManager::new();
    for n in 0..5u32 {
        manager.enqueue(ActorManagerProxyCommand::Dispatch(1, n));
    }
    manager.enqueue(ActorManagerProxyCommand::Dispatch(2, 0));
    manager.enqueue(ActorManagerProxyCommand::DispatchToAll(9));
    for _ in 0..6 {
        assert_ne!(manager.actor_manager_loop(0), ManagerStep::Blocked);
    }
    assert!(!manager.all_have_room());
    assert_eq!(manager.actor_manager_loop(0), ManagerStep::Blocked);
    assert_eq!(manager.get_report(2).map(|r| r.enqueued_messages), Some(1));
    assert!(matches!(manager.actor_loop(1, false), Some(LoopAction::Activate)));
    assert!(matches!(manager.actor_loop(1, false), Some(LoopAction::Dispatch(0))));
    assert_eq!(manager.actor_manager_loop(0), ManagerStep::DeliveredToAll);
    assert_eq!(manager.get_report(1).map(|r| r.enqueued_messages), Some(5));
    assert_eq!(manager.get_report(2).map(|r| r.enqueued_messages), Some(2));
}

#[test]
fn stopping_an_absent_actor_does_nothing() {
    let mut manager: ActorsManager<u32> = ActorsManager::new();
    manager.enqueue(ActorManagerProxyCommand::EndActor(9));
    assert_eq!(manager.actor_manager_loop(0), ManagerStep::EndedActor(9));
    assert!(!manager.is_resident(9));
    assert!(manager.is_empty());
    manager.process_end_actor_command(9);
    assert!(manager.is_empty());
}

#[test]
fn ending_pool_stops_its_mailboxes_and_those_created_later() {
    let mut manager: ActorsManager<u32> = ActorsManager::new();
    assert_eq!(manager.process_dispatch_command(1, 10, 0), Ok(true));
    assert_eq!(manager.process_dispatch_command(1, 11, 0), Ok(false));
    assert!(!manager.is_ready_to_be_removed());
    manager.end();
    assert!(manager.is_ending());
    assert_eq!(manager.get_report(1).map(|r| r.enqueued_messages), Some(3));
    // the envelope of a late send is still delivered, then the new mailbox stops
    assert_eq!(manager.process_dispatch_command(2, 20, 0), Ok(true));
    assert_eq!(manager.get_report(2).map(|r| r.enqueued_messages), Some(2));
    assert!(matches!(manager.actor_loop(2, false), Some(LoopAction::Activate)));
    assert!(matches!(manager.actor_loop(2, false), Some(LoopAction::Dispatch(20))));
    assert!(matches!(manager.actor_loop(2, false), Some(LoopAction::Retire)));
    assert!(matches!(manager.retire_actor(2), Retirement::Removed));
    assert!(!manager.is_ready_to_be_removed());
    assert!(matches!(manager.actor_loop(1, false), Some(LoopAction::Activate)));
    assert!(matches!(manager.actor_loop(1, false), Some(LoopAction::Dispatch(10))));
    assert!(matches!(manager.actor_loop(1, false), Some(LoopAction::Dispatch(11))));
    assert!(matches!(manager.actor_loop(1, false), Some(LoopAction::Retire)));
    assert!(matches!(manager.retire_actor(1), Retirement::Removed));
    assert!(manager.is_ready_to_be_removed());
}

#[test]
fn full_mailbox_refuses_a_routed_envelope() {
    let mut manager: ActorsManager<u32> = ActorsManager::new();
    for n in 0..5u32 {
        assert!(manager.process_dispatch_command(1, n, 0).is_ok());
    }
    assert_eq!(manager.process_dispatch_command(1, 5, 0), Err(5));
    assert_eq!(manager.get_report(1).map(|r| r.enqueued_messages), Some(5));
}

#[test]
fn remove_actor_drops_the_slot() {
    let mut manager: ActorsManager<u32> = ActorsManager::new();
    assert_eq!(manager.process_dispatch_command(1, 1, 0), Ok(true));
    assert_eq!(manager.process_dispatch_command(2, 2, 0), Ok(true));
    manager.remove_actor(1);
    assert!(!manager.is_resident(1));
    assert!(manager.is_resident(2));
    manager.remove_actor(1);
    assert_eq!(manager.get_statistics().len(), 1);
}

#[test]
fn router_stops_when_its_last_pool_has_left() {
    let mut director: ActorsDirector<Message> =
        ActorsDirector::new(ActorsDirectorConfiguration::default());
    let mut world = World::default();
    assert_eq!(director.get_inactivity_seconds(), 300);
    assert!(director.send(EMPLOYEE, 1, Message::SalaryChanged(10)));
    assert!(director.send(EMPLOYEE, 2, Message::SalaryChanged(20)));
    assert!(director.send(COUNTER, 1, Message::Tick(1)));
    run_pool(&mut director, EMPLOYEE, &mut world);
    assert!(!director.is_stopped());
    director.stop();
    assert!(!director.is_stopped());
    assert!(!director.signal_manager_removed());
    // already enqueued messages drain
    run_pool(&mut director, COUNTER, &mut world);
    assert!(!director.is_stopped());
    run_actor(&mut director, EMPLOYEE, 1, &mut world);
    assert!(!director.is_stopped());
    run_actor(&mut director, EMPLOYEE, 2, &mut world);
    assert!(director.is_stopped());
    assert!(director.signal_manager_removed());
    assert_eq!(world.handled.len(), 3);
    assert_eq!(world.salaries.get(&2), Some(&20));
    let mut deactivated = world.deactivations.clone();
    deactivated.sort();
    assert_eq!(deactivated, vec![1, 1, 2]);
    assert_eq!(director.get_statistics().len(), 0);
}

#[test]
fn send_after_stop_is_discarded_where_the_pool_is_gone() {
    let mut director: ActorsDirector<u32> =
        ActorsDirector::new(ActorsDirectorConfiguration { innactivity_seconds_until_actor_end: 5 });
    assert_eq!(director.get_inactivity_seconds(), 5);
    assert!(director.send(EMPLOYEE, 1, 1));
    director.stop();
    // the pool still exists: the send is accepted and delivered
    assert!(director.send(EMPLOYEE, 2, 2));
    assert!(director.send_to_all(EMPLOYEE, 3));
    assert!(director.stop_actor(EMPLOYEE, 9));
    // no pool for this type, and none is created any more
    assert!(!director.send(COUNTER, 1, 1));
    assert!(!director.send_to_all(COUNTER, 1));
    assert!(!director.stop_actor(COUNTER, 1));
    assert_eq!(director.actor_manager_loop(COUNTER, 0), None);
    assert!(director.actor_loop(COUNTER, 1, false).is_none());
    assert!(matches!(director.retire_actor(COUNTER, 1), Retirement::Refused));
    assert!(!director.signal_actor_removed(COUNTER));
    let statistics = director.get_statistics();
    assert_eq!(statistics.len(), 1);
    assert_eq!(statistics[0].0, EMPLOYEE);
}

#[test]
fn system_statistics_list_resident_mailboxes() {
    let mut system: SystemDirector<u32, u32> = SystemDirector::new();
    assert!(system.send_to_actor(EMPLOYEE, 7, 1));
    assert!(system.send_to_actor(EMPLOYEE, 8, 1));
    assert!(system.send_to_all_actors(EMPLOYEE, 2));
    assert!(system.stop_actor(EMPLOYEE, 8));
    while system.actors_mut().actor_manager_loop(EMPLOYEE, 50) != Some(ManagerStep::Idle) {}
    let statistics = system.get_statistics();
    assert_eq!(statistics.len(), 1);
    assert_eq!(statistics[0].0, EMPLOYEE);
    assert_eq!(
        statistics[0].1,
        vec![
            ActorReport { last_message_on: 50, enqueued_messages: 2 },
            ActorReport { last_message_on: 50, enqueued_messages: 3 },
        ]
    );
}

#[test]
fn default_idle_window_is_300_seconds() {
    let mut system: SystemDirector<u32, u32> = SystemDirector::new();
    assert_eq!(system.actors_mut().get_inactivity_seconds(), 300);
    assert_eq!(ActorsDirectorConfiguration::default().innactivity_seconds_until_actor_end, 300);
}

#[test]
fn pool_is_removed_only_after_a_mailbox_removal() {
    let mut director: ActorsDirector<u32> =
        ActorsDirector::new(ActorsDirectorConfiguration::default());
    assert!(director.send(EMPLOYEE, 7, 1));
    assert_eq!(director.actor_manager_loop(EMPLOYEE, 0), Some(ManagerStep::Spawned(7)));
    assert!(matches!(director.actor_loop(EMPLOYEE, 7, false), Some(LoopAction::Activate)));
    assert!(matches!(director.actor_loop(EMPLOYEE, 7, false), Some(LoopAction::Dispatch(1))));
    // the idle window passes while the router is not stopping: the pool stays
    assert!(matches!(director.actor_loop(EMPLOYEE, 7, true), Some(LoopAction::StopQueued)));
    assert!(matches!(director.actor_loop(EMPLOYEE, 7, false), Some(LoopAction::Retire)));
    assert!(matches!(director.retire_actor(EMPLOYEE, 7), Retirement::Removed));
    assert!(!director.signal_actor_removed(EMPLOYEE));
    assert_eq!(director.get_statistics(), vec![(EMPLOYEE, vec![])]);
    director.stop();
    // nothing is left to be removed, so the readiness of the pool is not looked at again
    assert!(!director.is_stopped());
    assert!(director.signal_actor_removed(EMPLOYEE));
    assert!(director.is_stopped());
}

#[test]
fn work_left_matches_the_turns_a_stopping_mailbox_takes() {
    let mut manager: ActorsManager<u32> = ActorsManager::new();
    for n in 0..3u32 {
        assert_eq!(manager.process_dispatch_command(1, n, 0), Ok(n == 0));
    }
    manager.end();
    // one turn to activate, three envelopes, and the turn that finds the queue empty
    let mut turns = 0;
    loop {
        turns += 1;
        match manager.actor_loop(1, true) {
            Some(LoopAction::Activate) | Some(LoopAction::Dispatch(_)) => {}
            Some(LoopAction::Retire) => break,
            other => panic!("a stopping mailbox never waits, got {:?}", other),
        }
    }
    assert_eq!(turns, 5);
    assert!(matches!(manager.retire_actor(1), Retirement::Removed));
    assert!(manager.is_ready_to_be_removed());
}
