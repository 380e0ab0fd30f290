use acteur::{
    worker_plan, MessageBroker, ServiceConcurrency, ServiceConfiguration, ServiceManager,
    ServiceReport, ServicesDirector, SystemDirector, WorkerAction, WorkerPlan, WorkerRetirement,
};

const TAX_CALC: u64 = 10;
const AUDIT: u64 = 11;
const SALARY_CHANGE: u64 = 100;
const HIRED: u64 = 101;

#[test]
fn worker_plan_follows_the_configuration() {
    let plan = |workers: usize, wait_for_service: bool| WorkerPlan { workers, wait_for_service };
    assert_eq!(worker_plan(ServiceConcurrency::NoConcurrency, 8, false), plan(1, true));
    assert_eq!(worker_plan(ServiceConcurrency::OnePerCore, 8, false), plan(8, true));
    assert_eq!(worker_plan(ServiceConcurrency::OneEachTwoCore, 8, false), plan(4, true));
    assert_eq!(worker_plan(ServiceConcurrency::OneEachTwoCore, 7, false), plan(3, true));
    assert_eq!(worker_plan(ServiceConcurrency::OneEachTwoCore, 1, false), plan(0, true));
    assert_eq!(worker_plan(ServiceConcurrency::Fixed(3), 8, true), plan(3, true));
    assert_eq!(worker_plan(ServiceConcurrency::Fixed(0), 8, false), plan(0, true));
    assert_eq!(worker_plan(ServiceConcurrency::Unlimited, 8, false), plan(1, false));
    assert_eq!(worker_plan(ServiceConcurrency::Automatic, 8, true), plan(1, false));
    assert_eq!(worker_plan(ServiceConcurrency::Automatic, 8, false), plan(8, true));
}

#[test]
fn default_configuration_is_automatic() {
    assert_eq!(ServiceConfiguration::default().concurrency, ServiceConcurrency::Automatic);
}

#[test]
fn worker_set_on_this_machine_has_a_worker_per_core() {
    let per_core: ServiceManager<u32> = ServiceManager::new(ServiceConcurrency::OnePerCore, false, 0);
    assert!(per_core.get_concurrency() >= 1);
    assert_eq!(per_core.get_active_services(), per_core.get_concurrency());
    let half: ServiceManager<u32> = ServiceManager::new(ServiceConcurrency::OneEachTwoCore, false, 0);
    assert_eq!(half.get_concurrency(), per_core.get_concurrency() / 2);
    let fixed: ServiceManager<u32> = ServiceManager::new(ServiceConcurrency::Fixed(6), false, 0);
    assert_eq!(fixed.get_concurrency(), 6);
    let stateless: ServiceManager<u32> = ServiceManager::new(ServiceConcurrency::Automatic, true, 0);
    assert_eq!(stateless.get_concurrency(), 1);
}

#[test]
fn workers_take_envelopes_in_turn() {
    let mut set: ServiceManager<u32> =
        ServiceManager::with_cpu_count(ServiceConcurrency::Fixed(3), 8, false, 0);
    let mut taken: Vec<usize> = Vec::new();
    for n in 0..7u32 {
        taken.push(set.dispatch(n, n as u64).unwrap());
    }
    assert_eq!(taken, vec![1, 2, 0, 1, 2, 0, 1]);
    assert_eq!(set.get_next_sender_index(), 2);
    assert_eq!(set.get_next_sender_index(), 0);
    let queued: Vec<usize> = set.get_statistics().iter().map(|r| r.enqueued_messages).collect();
    assert_eq!(queued, vec![2, 3, 2]);
    assert_eq!(set.get_statistics()[0].last_message_on, 6);
}

#[test]
fn single_worker_takes_everything() {
    let mut set: ServiceManager<u32> =
        ServiceManager::with_cpu_count(ServiceConcurrency::NoConcurrency, 8, false, 0);
    assert_eq!(set.dispatch(1, 0), Ok(0));
    assert_eq!(set.dispatch(2, 0), Ok(0));
    assert_eq!(set.get_next_sender_index(), 0);
    assert!(matches!(set.service_loop(0), Some(WorkerAction::Handle(1))));
    assert!(matches!(set.service_loop(0), Some(WorkerAction::Handle(2))));
    assert!(matches!(set.service_loop(0), Some(WorkerAction::Wait)));
    assert!(set.service_loop(1).is_none());
}

#[test]
fn set_without_workers_hands_the_envelope_back() {
    let mut set: ServiceManager<u32> =
        ServiceManager::with_plan(WorkerPlan { workers: 0, wait_for_service: true }, 0);
    assert_eq!(set.get_concurrency(), 0);
    assert_eq!(set.dispatch(5, 1), Err(5));
    assert_eq!(set.get_next_sender_index(), 0);
    assert!(set.service_loop(0).is_none());
    assert!(matches!(set.retire_worker(0), WorkerRetirement::Refused));
}

#[test]
fn unlimited_service_spawns_instead_of_waiting() {
    let mut set: ServiceManager<u32> =
        ServiceManager::with_cpu_count(ServiceConcurrency::Unlimited, 8, false, 0);
    assert_eq!(set.get_concurrency(), 1);
    assert_eq!(set.dispatch(1, 0), Ok(0));
    assert!(matches!(set.service_loop(0), Some(WorkerAction::Spawn(1))));
    let mut stateless: ServiceManager<u32> =
        ServiceManager::with_cpu_count(ServiceConcurrency::Automatic, 8, true, 0);
    assert_eq!(stateless.dispatch(2, 0), Ok(0));
    assert!(matches!(stateless.service_loop(0), Some(WorkerAction::Spawn(2))));
}

#[test]
fn workers_exit_one_by_one_and_the_last_takes_the_set() {
    let mut set: ServiceManager<u32> =
        ServiceManager::with_cpu_count(ServiceConcurrency::Fixed(2), 8, false, 0);
    assert_eq!(set.dispatch(1, 0), Ok(1));
    set.end();
    set.end();
    assert!(matches!(set.retire_worker(0), WorkerRetirement::Refused));
    assert!(matches!(set.service_loop(0), Some(WorkerAction::Retire)));
    assert!(matches!(set.retire_worker(0), WorkerRetirement::Exited { last: false }));
    assert_eq!(set.get_active_services(), 1);
    assert!(set.service_loop(0).is_none());
    assert!(matches!(set.retire_worker(0), WorkerRetirement::Refused));
    assert!(matches!(set.service_loop(1), Some(WorkerAction::Handle(1))));
    assert!(matches!(set.service_loop(1), Some(WorkerAction::Retire)));
    // an envelope arrives before the slot is held
    assert_eq!(set.dispatch(2, 0), Ok(0));
    assert_eq!(set.dispatch(3, 0), Ok(1));
    assert!(matches!(
        set.retire_worker(1),
        WorkerRetirement::Postponed(WorkerAction::Handle(3))
    ));
    assert!(matches!(set.service_loop(1), Some(WorkerAction::Retire)));
    assert!(matches!(set.retire_worker(1), WorkerRetirement::Exited { last: true }));
    assert_eq!(set.get_active_services(), 0);
}

#[test]
fn stop_before_an_envelope_is_postponed_at_a_worker() {
    let mut set: ServiceManager<u32> =
        ServiceManager::with_cpu_count(ServiceConcurrency::NoConcurrency, 1, false, 0);
    set.end();
    assert_eq!(set.dispatch(1, 0), Ok(0));
    assert!(matches!(set.service_loop(0), Some(WorkerAction::Handle(1))));
    assert_eq!(set.get_statistics()[0].enqueued_messages, 1);
    assert!(matches!(set.service_loop(0), Some(WorkerAction::Retire)));
}

#[test]
fn broker_lists_subscribers_in_order_of_registration() {
    let mut broker = MessageBroker::new();
    assert_eq!(broker.subscribers(SALARY_CHANGE), Vec::<u64>::new());
    broker.register(TAX_CALC, SALARY_CHANGE);
    assert_eq!(broker.subscribers(SALARY_CHANGE), vec![TAX_CALC]);
    broker.register(AUDIT, SALARY_CHANGE);
    broker.register(TAX_CALC, SALARY_CHANGE);
    broker.register(AUDIT, HIRED);
    assert_eq!(broker.subscribers(SALARY_CHANGE), vec![TAX_CALC, AUDIT, TAX_CALC]);
    assert_eq!(broker.subscribers(HIRED), vec![AUDIT]);
    assert_eq!(broker.subscribers(102), Vec::<u64>::new());
}

#[test]
fn router_loads_a_service_once() {
    let mut director: ServicesDirector<u32> = ServicesDirector::new();
    assert!(!director.is_loaded(TAX_CALC));
    assert_eq!(director.send(TAX_CALC, 1, 0), Err(1));
    assert!(director.preload_with_plan(TAX_CALC, WorkerPlan { workers: 2, wait_for_service: true }, 5));
    assert!(director.is_loaded(TAX_CALC));
    assert!(!director.preload_with_plan(TAX_CALC, WorkerPlan { workers: 9, wait_for_service: true }, 6));
    assert!(!director.preload(TAX_CALC, ServiceConcurrency::Fixed(4), false, 7));
    assert_eq!(director.get_statistics(TAX_CALC).map(|r| r.len()), Some(2));
    assert_eq!(director.get_statistics(AUDIT), None);
    assert!(director.preload(AUDIT, ServiceConcurrency::Fixed(4), false, 7));
    assert_eq!(
        director.get_statistics(AUDIT),
        Some(vec![ServiceReport { last_message_on: 7, enqueued_messages: 0 }; 4])
    );
    assert_eq!(director.send(TAX_CALC, 1, 9), Ok(1));
    assert_eq!(director.send(TAX_CALC, 2, 9), Ok(0));
    assert!(matches!(director.service_loop(TAX_CALC, 0), Some(WorkerAction::Handle(2))));
    assert!(director.service_loop(102, 0).is_none());
}

#[test]
fn service_router_stops_when_its_last_set_has_left() {
    let mut director: ServicesDirector<u32> = ServicesDirector::new();
    assert!(director.preload_with_plan(TAX_CALC, WorkerPlan { workers: 2, wait_for_service: true }, 0));
    assert_eq!(director.send(TAX_CALC, 1, 0), Ok(1));
    director.stop();
    assert!(!director.is_stopped());
    assert!(!director.creates(AUDIT));
    assert!(!director.preload(AUDIT, ServiceConcurrency::NoConcurrency, false, 0));
    assert!(!director.is_loaded(AUDIT));
    assert!(matches!(director.service_loop(TAX_CALC, 1), Some(WorkerAction::Handle(1))));
    assert!(matches!(director.service_loop(TAX_CALC, 1), Some(WorkerAction::Retire)));
    assert!(matches!(
        director.retire_worker(TAX_CALC, 1),
        WorkerRetirement::Exited { last: false }
    ));
    assert!(!director.signal_manager_removed());
    assert!(matches!(director.service_loop(TAX_CALC, 0), Some(WorkerAction::Retire)));
    assert!(matches!(
        director.retire_worker(TAX_CALC, 0),
        WorkerRetirement::Exited { last: true }
    ));
    assert!(!director.is_loaded(TAX_CALC));
    assert!(director.signal_manager_removed());
    assert!(director.is_stopped());
    assert!(matches!(director.retire_worker(TAX_CALC, 0), WorkerRetirement::Refused));
}

#[test]
fn published_messages_reach_the_subscriber_in_publish_order() {
    let mut system: SystemDirector<u32, u32> = SystemDirector::new();
    assert!(system.preload_service(TAX_CALC, ServiceConcurrency::NoConcurrency, false, 0));
    system.subscribe(TAX_CALC, SALARY_CHANGE);
    for n in 0..10u32 {
        system.publish(SALARY_CHANGE, 55_000 + n, n as u64);
    }
    let mut observed: Vec<u32> = Vec::new();
    loop {
        match system.services_mut().service_loop(TAX_CALC, 0) {
            Some(WorkerAction::Handle(message)) => observed.push(message),
            Some(WorkerAction::Wait) => break,
            other => panic!("unexpected {:?}", other),
        }
    }
    let expected: Vec<u32> = (0..10).map(|n| 55_000 + n).collect();
    assert_eq!(observed, expected);
}

#[test]
fn publish_delivers_once_per_registration() {
    let mut system: SystemDirector<u32, String> = SystemDirector::new();
    assert!(system.preload_service(TAX_CALC, ServiceConcurrency::Fixed(2), false, 0));
    assert!(system.preload_service(AUDIT, ServiceConcurrency::NoConcurrency, false, 0));
    system.subscribe(TAX_CALC, SALARY_CHANGE);
    system.subscribe(AUDIT, SALARY_CHANGE);
    system.subscribe(TAX_CALC, SALARY_CHANGE);
    system.subscribe(55, SALARY_CHANGE);
    system.publish(SALARY_CHANGE, String::from("raise"), 3);
    system.publish(HIRED, String::from("nobody listens"), 4);
    let tax: usize = system
        .services_mut()
        .get_statistics(TAX_CALC)
        .unwrap()
        .iter()
        .map(|r| r.enqueued_messages)
        .sum();
    assert_eq!(tax, 2);
    assert_eq!(
        system.services_mut().get_statistics(AUDIT),
        Some(vec![ServiceReport { last_message_on: 3, enqueued_messages: 1 }])
    );
    assert!(!system.services_mut().is_loaded(55));
    match system.services_mut().service_loop(AUDIT, 0) {
        Some(WorkerAction::Handle(message)) => assert_eq!(message, "raise"),
        other => panic!("unexpected {:?}", other),
    }
}

#[test]
fn system_stops_when_both_routers_have() {
    let mut system: SystemDirector<u32, u32> = SystemDirector::new();
    assert!(system.send_to_actor(1, 42, 7));
    assert!(system.preload_service(TAX_CALC, ServiceConcurrency::NoConcurrency, false, 0));
    assert_eq!(system.send_to_service(TAX_CALC, 9, 1), Ok(0));
    assert_eq!(system.send_to_service(AUDIT, 9, 1), Err(9));
    assert!(!system.is_stopped());
    system.stop();
    assert!(!system.is_stopped());
    assert!(matches!(system.services_mut().service_loop(TAX_CALC, 0), Some(WorkerAction::Handle(9))));
    assert!(matches!(system.services_mut().service_loop(TAX_CALC, 0), Some(WorkerAction::Retire)));
    assert!(matches!(
        system.services_mut().retire_worker(TAX_CALC, 0),
        WorkerRetirement::Exited { last: true }
    ));
    assert!(system.services_mut().is_stopped());
    assert!(!system.is_stopped());
    assert!(system.actors_mut().actor_manager_loop(1, 0).is_some());
    assert!(system.actors_mut().actor_loop(1, 42, false).is_some());
    assert!(system.actors_mut().actor_loop(1, 42, false).is_some());
    assert!(system.actors_mut().actor_loop(1, 42, false).is_some());
    assert!(matches!(system.actors_mut().retire_actor(1, 42), acteur::Retirement::Removed));
    assert!(system.actors_mut().signal_actor_removed(1));
    assert!(system.is_stopped());
    assert!(!system.send_to_actor(1, 42, 8));
}
