use acteur::{
    recv_until_command_or_end, ActorProxy, ActorReport, CallError, Command, Letter, LoopAction,
    MailboxState, Responder, MAILBOX_CAPACITY,
};
use std::collections::VecDeque;

fn activated(now: u64) -> ActorProxy<u32> {
    let mut proxy = ActorProxy::new(now);
    assert!(matches!(proxy.receive(false), LoopAction::Activate));
    proxy
}

#[test]
fn mailbox_capacity_is_five() {
    assert_eq!(MAILBOX_CAPACITY, 5);
}

#[test]
fn mailbox_activates_once_before_the_first_envelope() {
    let mut proxy: ActorProxy<u32> = ActorProxy::new(10);
    assert_eq!(proxy.get_state(), MailboxState::Created);
    assert!(proxy.send(7, 11).is_ok());
    assert!(matches!(proxy.receive(false), LoopAction::Activate));
    assert_eq!(proxy.get_state(), MailboxState::Running);
    assert_eq!(proxy.get_inbox_length(), 1);
    assert!(matches!(proxy.receive(false), LoopAction::Dispatch(7)));
    assert!(matches!(proxy.receive(false), LoopAction::Wait));
    assert!(proxy.send(8, 12).is_ok());
    assert!(matches!(proxy.receive(false), LoopAction::Dispatch(8)));
}

#[test]
fn mailbox_serves_envelopes_in_the_order_sent() {
    let mut proxy = activated(0);
    for n in 1..=5u32 {
        assert!(proxy.send(n, n as u64).is_ok());
    }
    for n in 1..=5u32 {
        match proxy.receive(false) {
            LoopAction::Dispatch(got) => assert_eq!(got, n),
            other => panic!("expected an envelope, got {:?}", other),
        }
    }
    assert!(matches!(proxy.receive(false), LoopAction::Wait));
}

#[test]
fn full_mailbox_hands_the_envelope_back() {
    let mut proxy = activated(0);
    for n in 0..5u32 {
        assert_eq!(proxy.send(n, 1), Ok(()));
    }
    assert!(!proxy.has_room());
    assert_eq!(proxy.send(99, 2), Err(99));
    assert_eq!(proxy.get_inbox_length(), 5);
    assert_eq!(proxy.get_last_sent_message_time(), 1);
    assert!(matches!(proxy.receive(false), LoopAction::Dispatch(0)));
    assert!(proxy.has_room());
    assert_eq!(proxy.send(99, 2), Ok(()));
    assert_eq!(proxy.get_last_sent_message_time(), 2);
}

#[test]
fn sender_waits_after_five_unacknowledged_sends_and_loses_nothing() {
    let mut proxy = activated(0);
    let mut handled: Vec<u32> = Vec::new();
    let mut first_refusal: Option<u32> = None;
    let mut next: u32 = 0;
    while next < 100 {
        match proxy.send(next, next as u64) {
            Ok(()) => next += 1,
            Err(back) => {
                assert_eq!(back, next);
                if first_refusal.is_none() {
                    first_refusal = Some(next);
                }
                assert_eq!(proxy.get_inbox_length(), 5);
                match proxy.receive(false) {
                    LoopAction::Dispatch(envelope) => handled.push(envelope),
                    other => panic!("expected an envelope, got {:?}", other),
                }
            }
        }
    }
    assert_eq!(first_refusal, Some(5));
    loop {
        match proxy.receive(false) {
            LoopAction::Dispatch(envelope) => handled.push(envelope),
            LoopAction::Wait => break,
            other => panic!("unexpected {:?}", other),
        }
    }
    let expected: Vec<u32> = (0..100).collect();
    assert_eq!(handled, expected);
}

#[test]
fn consecutive_stops_collapse_into_one_request_to_retire() {
    let mut proxy = activated(0);
    proxy.end();
    proxy.end();
    proxy.end();
    assert_eq!(proxy.get_inbox_length(), 3);
    assert!(matches!(proxy.receive(false), LoopAction::Retire));
    assert_eq!(proxy.get_inbox_length(), 0);
    assert_eq!(proxy.get_state(), MailboxState::Draining);
    assert_eq!(proxy.finish(), None);
}

#[test]
fn stop_before_an_envelope_is_postponed_behind_it() {
    let mut proxy = activated(0);
    proxy.end();
    proxy.end();
    assert!(proxy.send(1, 1).is_ok());
    assert!(proxy.send(2, 2).is_ok());
    assert!(matches!(proxy.receive(false), LoopAction::Dispatch(1)));
    assert_eq!(proxy.get_inbox_length(), 2);
    assert!(matches!(proxy.receive(false), LoopAction::Dispatch(2)));
    assert_eq!(proxy.get_inbox_length(), 1);
    assert!(matches!(proxy.receive(false), LoopAction::Retire));
}

#[test]
fn idle_mailbox_stops_after_its_window() {
    let mut proxy = activated(0);
    assert!(matches!(proxy.receive(false), LoopAction::Wait));
    assert_eq!(proxy.get_inbox_length(), 0);
    assert!(matches!(proxy.receive(true), LoopAction::StopQueued));
    assert_eq!(proxy.get_inbox_length(), 1);
    assert!(matches!(proxy.receive(false), LoopAction::Retire));
    assert_eq!(proxy.finish(), None);
}

#[test]
fn timeout_is_ignored_while_an_envelope_waits() {
    let mut proxy = activated(0);
    assert!(proxy.send(3, 1).is_ok());
    assert!(matches!(proxy.receive(true), LoopAction::Dispatch(3)));
    assert_eq!(proxy.get_inbox_length(), 0);
}

#[test]
fn envelope_that_arrives_before_removal_is_handled_by_the_same_mailbox() {
    let mut proxy = activated(0);
    proxy.end();
    assert!(matches!(proxy.receive(false), LoopAction::Retire));
    assert!(proxy.send(7, 5).is_ok());
    assert_eq!(proxy.finish(), Some(7));
    assert_eq!(proxy.get_state(), MailboxState::Running);
    assert_eq!(proxy.get_inbox_length(), 1);
    assert!(matches!(proxy.receive(false), LoopAction::Retire));
    assert_eq!(proxy.finish(), None);
}

#[test]
fn stop_asked_of_a_full_mailbox_enters_when_a_command_leaves() {
    let mut proxy = activated(0);
    for n in 0..5u32 {
        assert!(proxy.send(n, 0).is_ok());
    }
    proxy.end();
    assert_eq!(proxy.get_inbox_length(), 5);
    assert!(matches!(proxy.receive(false), LoopAction::Dispatch(0)));
    assert_eq!(proxy.get_inbox_length(), 5);
    for n in 1..5u32 {
        match proxy.receive(false) {
            LoopAction::Dispatch(got) => assert_eq!(got, n),
            other => panic!("unexpected {:?}", other),
        }
    }
    assert!(matches!(proxy.receive(false), LoopAction::Retire));
}

#[test]
fn report_gives_time_of_last_envelope_and_queue_length() {
    let mut proxy = activated(3);
    assert_eq!(
        proxy.get_report(),
        ActorReport { last_message_on: 3, enqueued_messages: 0 }
    );
    assert!(proxy.send(1, 40).is_ok());
    assert!(proxy.send(2, 41).is_ok());
    proxy.end();
    assert_eq!(
        proxy.get_report(),
        ActorReport { last_message_on: 41, enqueued_messages: 3 }
    );
}

#[test]
fn collapse_returns_first_envelope_behind_the_stops() {
    let mut queue: VecDeque<Command<u8>> = VecDeque::new();
    assert_eq!(recv_until_command_or_end(&mut queue), None);
    queue.push_back(Command::End);
    queue.push_back(Command::End);
    queue.push_back(Command::Dispatch(4));
    queue.push_back(Command::End);
    queue.push_back(Command::Dispatch(5));
    assert_eq!(recv_until_command_or_end(&mut queue), Some(4));
    assert_eq!(queue.len(), 2);
    assert_eq!(recv_until_command_or_end(&mut queue), Some(5));
    assert_eq!(queue.len(), 0);
    queue.push_back(Command::End);
    assert_eq!(recv_until_command_or_end(&mut queue), None);
    assert_eq!(queue.len(), 0);
}

#[test]
fn letter_is_handed_out_once() {
    let mut letter = Letter::new(String::from("hello"));
    assert_eq!(letter.dispatch(), Some(String::from("hello")));
    assert_eq!(letter.dispatch(), None);
    assert_eq!(letter.dispatch(), None);
}

#[test]
fn call_returns_what_the_handler_returned() {
    let mut responder: Responder<String> = Responder::new();
    assert_eq!(responder.recv(), None);
    assert_eq!(responder.send(String::from("Thanks!")), Ok(()));
    responder.close();
    assert_eq!(responder.recv(), Some(Ok(String::from("Thanks!"))));
    assert_eq!(responder.recv(), Some(Err(CallError::CallFailed)));
}

#[test]
fn closed_channel_gives_call_failed() {
    let mut responder: Responder<u32> = Responder::new();
    responder.close();
    assert_eq!(responder.recv(), Some(Err(CallError::CallFailed)));
    assert_eq!(CallError::CallFailed.message(), "call failed");
    assert_eq!(responder.send(1), Err(1));
}

#[test]
fn response_channel_takes_one_value() {
    let mut responder: Responder<u32> = Responder::new();
    assert_eq!(responder.send(1), Ok(()));
    assert_eq!(responder.send(2), Err(2));
    assert_eq!(responder.recv(), Some(Ok(1)));
}
