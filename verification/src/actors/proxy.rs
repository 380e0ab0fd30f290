//! The mailbox of one actor identity: a bounded queue of commands, served by
//! one loop that hands one envelope at a time to the handler.

use crate::utils::{
    after_first_envelope, envelopes, first_envelope, leading_ends, lemma_envelopes_push,
    lemma_first_envelope, lemma_leading_ends, recv_until_command_or_end, Command,
};
use std::collections::VecDeque;
use vstd::prelude::*;

verus! {

/// The number of commands that a mailbox holds before a sender has to wait.
pub const MAILBOX_CAPACITY: usize = 5;

/// What a mailbox reports of itself.
#[derive(Debug, Clone, Copy, PartialEq, Eq, Structural)]
pub struct ActorReport {
    /// When the last envelope entered the mailbox.
    pub last_message_on: u64,
    /// How many commands wait in it.
    pub enqueued_messages: usize,
}

/// Where a mailbox stands in its life. A mailbox that has terminated is no
/// longer held by its pool.
#[derive(Debug, Clone, Copy, PartialEq, Eq, Structural)]
pub enum MailboxState {
    /// Created; the actor value has not been activated yet.
    Created,
    /// Activated and serving envelopes.
    Running,
    /// A stop was received and the queue was seen empty; removal is pending.
    Draining,
}

/// What the loop of a mailbox has to do next.
#[derive(Debug)]
pub enum LoopAction<E> {
    /// Activate the actor value, then come back.
    Activate,
    /// Hand this envelope to the handler, then come back.
    Dispatch(E),
    /// Nothing waits: await the next command or the end of the idle window.
    Wait,
    /// The idle window ended on an empty queue: a stop was enqueued.
    StopQueued,
    /// A stop was received and nothing waits: ask the pool to retire the slot.
    Retire,
}

/// The state of a mailbox as contracts see it.
pub struct MailboxView<E> {
    pub inbox: Seq<Command<E>>,
    pub last_message_on: u64,
    pub end_deferred: bool,
    pub state: MailboxState,
}

impl<E> MailboxView<E> {
    /// The queue is within its capacity, and a stop is deferred only while
    /// the queue is full.
    pub open spec fn wf(self) -> bool {
        &&& self.inbox.len() <= MAILBOX_CAPACITY
        &&& self.end_deferred ==> self.inbox.len() == MAILBOX_CAPACITY
    }

    /// Whether a command can enter without waiting.
    pub open spec fn has_room(self) -> bool {
        self.inbox.len() < MAILBOX_CAPACITY
    }

    /// Whether a stop waits in the queue or is deferred.
    pub open spec fn stop_requested(self) -> bool {
        self.end_deferred || exists|i: int| 0 <= i < self.inbox.len() && self.inbox[i] is End
    }

    /// The number of turns that the loop still has to make before it asks to
    /// be retired, if nothing more is sent: one to activate a mailbox that
    /// was just created, one for each envelope that waits, and the turn that
    /// finds the queue empty.
    pub open spec fn work(self) -> nat {
        (if self.state is Created {
            1nat
        } else {
            0nat
        }) + self.pending().len() + 1
    }

    /// The mailbox after a number of turns of its loop, none of them at the
    /// end of an idle window.
    pub open spec fn after_turns(self, turns: nat) -> Self
        decreases turns,
    {
        if turns == 0 {
            self
        } else {
            self.receive(false).0.after_turns((turns - 1) as nat)
        }
    }

    /// The envelopes that wait, in the order in which they will be handled.
    pub open spec fn pending(self) -> Seq<E> {
        envelopes(self.inbox)
    }

    /// What the mailbox reports of itself.
    pub open spec fn report(self) -> ActorReport {
        ActorReport {
            last_message_on: self.last_message_on,
            enqueued_messages: self.inbox.len() as usize,
        }
    }

    /// A mailbox created at `now`.
    pub open spec fn created(now: u64) -> Self {
        MailboxView {
            inbox: Seq::empty(),
            last_message_on: now,
            end_deferred: false,
            state: MailboxState::Created,
        }
    }

    /// The mailbox after an envelope entered it at `now`.
    pub open spec fn send(self, envelope: E, now: u64) -> Self {
        MailboxView {
            inbox: self.inbox.push(Command::Dispatch(envelope)),
            last_message_on: now,
            ..self
        }
    }

    /// The mailbox after a stop was asked of it: the sentinel joins the queue,
    /// or is deferred until a command leaves a full queue.
    pub open spec fn end(self) -> Self {
        if self.has_room() {
            MailboxView { inbox: self.inbox.push(Command::End), ..self }
        } else {
            MailboxView { end_deferred: true, ..self }
        }
    }

    /// One turn of the loop. A mailbox that was just created is activated
    /// first. Otherwise the first waiting envelope is dispatched, and a stop
    /// that stood before it (or was deferred) goes to the back of the queue.
    /// Where only stops wait, the mailbox drains and asks to be retired. On an
    /// empty queue the loop waits, and the end of the idle window enqueues a
    /// stop.
    pub open spec fn receive(self, timed_out: bool) -> (Self, LoopAction<E>) {
        if self.state is Created {
            (MailboxView { state: MailboxState::Running, ..self }, LoopAction::Activate)
        } else {
            match first_envelope(self.inbox) {
                Some(envelope) => {
                    let rest = after_first_envelope(self.inbox);
                    let postponed = leading_ends(self.inbox) > 0 || self.end_deferred;
                    (
                        MailboxView {
                            inbox: if postponed {
                                rest.push(Command::End)
                            } else {
                                rest
                            },
                            end_deferred: false,
                            state: MailboxState::Running,
                            ..self
                        },
                        LoopAction::Dispatch(envelope),
                    )
                },
                None => if self.inbox.len() > 0 {
                    (
                        MailboxView {
                            inbox: Seq::empty(),
                            end_deferred: false,
                            state: MailboxState::Draining,
                            ..self
                        },
                        LoopAction::Retire,
                    )
                } else if timed_out {
                    (MailboxView { inbox: seq![Command::End], ..self }, LoopAction::StopQueued)
                } else {
                    (self, LoopAction::Wait)
                },
            }
        }
    }

    /// The check made while the slot is held for removal. An envelope that
    /// arrived in the meantime is dispatched and the stop is postponed behind
    /// what waits; otherwise the queue is empty and the slot may go.
    pub open spec fn finish(self) -> (Self, Option<E>) {
        match first_envelope(self.inbox) {
            Some(envelope) => (
                MailboxView {
                    inbox: after_first_envelope(self.inbox).push(Command::End),
                    end_deferred: false,
                    state: MailboxState::Running,
                    ..self
                },
                Some(envelope),
            ),
            None => (MailboxView { inbox: Seq::empty(), end_deferred: false, ..self }, None),
        }
    }
}

/// The pool's handle on one mailbox.
#[derive(Debug)]
pub struct ActorProxy<E> {
    inbox: VecDeque<Command<E>>,
    last_sent_message_time: u64,
    end_deferred: bool,
    state: MailboxState,
}

impl<E> ActorProxy<E> {
    pub closed spec fn view(&self) -> MailboxView<E> {
        MailboxView {
            inbox: self.inbox@,
            last_message_on: self.last_sent_message_time,
            end_deferred: self.end_deferred,
            state: self.state,
        }
    }

    /// Creates an empty mailbox whose actor value is still to be activated.
    pub fn new(now: u64) -> (proxy: ActorProxy<E>)
        ensures
            proxy@ == MailboxView::<E>::created(now),
            proxy@.wf(),
    {
        ActorProxy {
            inbox: VecDeque::new(),
            last_sent_message_time: now,
            end_deferred: false,
            state: MailboxState::Created,
        }
    }

    /// Whether an envelope can enter without waiting.
    pub fn has_room(&self) -> (room: bool)
        ensures
            room == self@.has_room(),
    {
        self.inbox.len() < MAILBOX_CAPACITY
    }

    /// Offers an envelope to the mailbox. A full mailbox takes nothing and
    /// hands the envelope back: the sender has to wait and offer it again.
    pub fn send(&mut self, envelope: E, now: u64) -> (sent: Result<(), E>)
        requires
            old(self)@.wf(),
        ensures
            final(self)@.wf(),
            match sent {
                Ok(()) => old(self)@.has_room() && final(self)@ == old(self)@.send(envelope, now),
                Err(back) => !old(self)@.has_room() && back == envelope && final(self)@ == old(
                    self,
                )@,
            },
    {
        if self.inbox.len() < MAILBOX_CAPACITY {
            self.last_sent_message_time = now;
            self.inbox.push_back(Command::Dispatch(envelope));
            Ok(())
        } else {
            Err(envelope)
        }
    }

    /// When the last envelope entered the mailbox.
    pub fn get_last_sent_message_time(&self) -> (time: u64)
        ensures
            time == self@.last_message_on,
    {
        self.last_sent_message_time
    }

    /// How many commands wait in the mailbox.
    pub fn get_inbox_length(&self) -> (length: usize)
        ensures
            length == self@.inbox.len(),
    {
        self.inbox.len()
    }

    /// The report of the mailbox.
    pub fn get_report(&self) -> (report: ActorReport)
        ensures
            report == self@.report(),
    {
        ActorReport {
            last_message_on: self.get_last_sent_message_time(),
            enqueued_messages: self.get_inbox_length(),
        }
    }

    /// Where the mailbox stands in its life.
    pub fn get_state(&self) -> (state: MailboxState)
        ensures
            state == self@.state,
    {
        self.state
    }

    /// Asks the mailbox to stop once it has served what waits.
    pub fn end(&mut self)
        requires
            old(self)@.wf(),
        ensures
            final(self)@.wf(),
            final(self)@ == old(self)@.end(),
    {
        if self.inbox.len() < MAILBOX_CAPACITY {
            self.inbox.push_back(Command::End);
        } else {
            self.end_deferred = true;
        }
    }

    /// One turn of the mailbox loop; `timed_out` says that the idle window
    /// ended without a command.
    pub fn receive(&mut self, timed_out: bool) -> (action: LoopAction<E>)
        requires
            old(self)@.wf(),
        ensures
            final(self)@.wf(),
            (final(self)@, action) == old(self)@.receive(timed_out),
    {
        if let MailboxState::Created = self.state {
            self.state = MailboxState::Running;
            return LoopAction::Activate;
        }
        let waiting: usize = self.inbox.len();
        proof {
            lemma_leading_ends(self.inbox@);
            lemma_first_envelope(self.inbox@);
        }
        if waiting == 0 {
            if timed_out {
                self.inbox.push_back(Command::End);
                assert(self.inbox@ =~= seq![Command::End]);
                LoopAction::StopQueued
            } else {
                LoopAction::Wait
            }
        } else {
            match recv_until_command_or_end(&mut self.inbox) {
                Some(envelope) => {
                    let taken: usize = waiting - self.inbox.len();
                    if taken > 1 || self.end_deferred {
                        self.inbox.push_back(Command::End);
                    }
                    self.end_deferred = false;
                    self.state = MailboxState::Running;
                    LoopAction::Dispatch(envelope)
                },
                None => {
                    self.end_deferred = false;
                    self.state = MailboxState::Draining;
                    LoopAction::Retire
                },
            }
        }
    }

    /// The check made while the slot is held for removal, after the loop has
    /// asked to retire: hands out an envelope that arrived in the meantime
    /// and postpones the stop, or finds the queue empty.
    pub fn finish(&mut self) -> (found: Option<E>)
        requires
            old(self)@.wf(),
            old(self)@.state is Draining,
        ensures
            final(self)@.wf(),
            (final(self)@, found) == old(self)@.finish(),
    {
        proof {
            lemma_leading_ends(self.inbox@);
            lemma_first_envelope(self.inbox@);
        }
        match recv_until_command_or_end(&mut self.inbox) {
            Some(envelope) => {
                self.inbox.push_back(Command::End);
                self.end_deferred = false;
                self.state = MailboxState::Running;
                Some(envelope)
            },
            None => {
                self.end_deferred = false;
                None
            },
        }
    }
}

/// Envelopes leave a mailbox in the order in which they entered it: a turn of
/// the loop hands out the head of the waiting envelopes or none, keeps the
/// others in their order, and an envelope that enters waits behind them all.
pub proof fn lemma_mailbox_serves_in_order<E>(
    mailbox: MailboxView<E>,
    timed_out: bool,
    envelope: E,
    now: u64,
)
    requires
        mailbox.wf(),
    ensures
        mailbox.send(envelope, now).pending() == mailbox.pending().push(envelope),
        mailbox.end().pending() == mailbox.pending(),
        match mailbox.receive(timed_out).1 {
            LoopAction::Dispatch(first) => mailbox.pending() == seq![first] + mailbox.receive(
                timed_out,
            ).0.pending(),
            _ => mailbox.receive(timed_out).0.pending() == mailbox.pending(),
        },
        match mailbox.finish().1 {
            Some(first) => mailbox.pending() == seq![first] + mailbox.finish().0.pending(),
            None => mailbox.pending() == Seq::<E>::empty() && mailbox.finish().0.pending()
                == Seq::<E>::empty(),
        },
{
    lemma_envelopes_push(mailbox.inbox, Command::Dispatch(envelope));
    lemma_envelopes_push(mailbox.inbox, Command::End);
    lemma_first_envelope(mailbox.inbox);
    lemma_leading_ends(mailbox.inbox);
    lemma_envelopes_push(after_first_envelope(mailbox.inbox), Command::End);
    lemma_envelopes_push(Seq::empty(), Command::<E>::End);
    assert(Seq::<Command<E>>::empty().push(Command::End) =~= seq![Command::End]);
}

/// The actor value is activated once, before any envelope is handled: only a
/// mailbox that was just created asks for activation, it asks for nothing
/// else, and no operation brings a mailbox back to that state. A mailbox
/// asks to retire, and is draining, only after it was activated.
pub proof fn lemma_activation_comes_first<E>(
    mailbox: MailboxView<E>,
    timed_out: bool,
    envelope: E,
    now: u64,
)
    ensures
        mailbox.receive(timed_out).1 is Activate <==> mailbox.state is Created,
        !(mailbox.receive(timed_out).0.state is Created),
        mailbox.receive(timed_out).0.state is Draining <==> mailbox.receive(timed_out).1 is Retire
            || (mailbox.state is Draining && (mailbox.receive(timed_out).1 is Wait
            || mailbox.receive(timed_out).1 is StopQueued)),
        MailboxView::<E>::created(now).state is Created,
        mailbox.send(envelope, now).state == mailbox.state,
        mailbox.end().state == mailbox.state,
        mailbox.state is Draining ==> !(mailbox.finish().0.state is Created),
{
}

/// A mailbox that stays without a command for the idle window stops: the end
/// of the window enqueues a stop, the next turn finds nothing but that stop
/// and asks to be retired, and the check under the hold finds the queue empty.
pub proof fn lemma_idle_mailbox_retires<E>(mailbox: MailboxView<E>)
    requires
        mailbox.wf(),
        !(mailbox.state is Created),
        mailbox.inbox.len() == 0,
    ensures
        mailbox.receive(false) == (mailbox, LoopAction::<E>::Wait),
        mailbox.receive(true).1 is StopQueued,
        mailbox.receive(true).0.receive(false).1 is Retire,
        mailbox.receive(true).0.receive(false).0.state is Draining,
        mailbox.receive(true).0.receive(false).0.finish().1 is None,
{
    let stopped = mailbox.receive(true).0;
    assert(stopped.inbox =~= seq![Command::End]);
    assert(stopped.inbox.drop_first() =~= Seq::<Command<E>>::empty());
    assert(leading_ends(stopped.inbox) == 1) by {
        assert(leading_ends(stopped.inbox.drop_first()) == 0);
    }
}

/// A slot is given up only on an empty queue: the check under the hold finds
/// nothing to hand out exactly when no envelope waits, and then no command is
/// left behind.
pub proof fn lemma_retirement_loses_nothing<E>(mailbox: MailboxView<E>)
    requires
        mailbox.wf(),
    ensures
        mailbox.finish().1 is None <==> mailbox.pending().len() == 0,
        mailbox.finish().1 is None ==> mailbox.finish().0.inbox.len() == 0,
        mailbox.finish().0.wf(),
{
    lemma_first_envelope(mailbox.inbox);
    lemma_leading_ends(mailbox.inbox);
}

/// A mailbox that was asked to stop never waits: whatever the schedule and
/// the timer, each turn of its loop activates the actor value, hands out an
/// envelope or asks for the slot to be retired. A turn that does not ask to
/// retire brings the mailbox one turn closer to it and keeps the request to
/// stop; the turn that asks to retire is the last, and the check under the
/// hold then finds the queue empty.
pub proof fn lemma_stopping_mailbox_makes_progress<E>(mailbox: MailboxView<E>, timed_out: bool)
    requires
        mailbox.wf(),
        mailbox.stop_requested(),
    ensures
        !(mailbox.receive(timed_out).1 is Wait),
        !(mailbox.receive(timed_out).1 is StopQueued),
        mailbox.receive(timed_out).1 is Retire <==> mailbox.work() == 1,
        !(mailbox.receive(timed_out).1 is Retire) ==> mailbox.receive(timed_out).0.work() + 1
            == mailbox.work() && mailbox.receive(timed_out).0.stop_requested(),
        mailbox.receive(timed_out).1 is Retire ==> mailbox.receive(timed_out).0.finish().1 is None,
        mailbox.receive(timed_out).0.wf(),
{
    lemma_first_envelope(mailbox.inbox);
    lemma_leading_ends(mailbox.inbox);
    let next = mailbox.receive(timed_out).0;
    if !(mailbox.state is Created) {
        match first_envelope(mailbox.inbox) {
            Some(envelope) => {
                let rest = after_first_envelope(mailbox.inbox);
                lemma_envelopes_push(rest, Command::End);
                if leading_ends(mailbox.inbox) > 0 || mailbox.end_deferred {
                    assert(next.inbox[next.inbox.len() - 1] is End);
                } else {
                    let i = choose|i: int| 0 <= i < mailbox.inbox.len() && mailbox.inbox[i] is End;
                    assert(mailbox.inbox[0] is Dispatch);
                    assert(next.inbox[i - 1] == mailbox.inbox[i]);
                }
            },
            None => {
                assert(mailbox.inbox.len() > 0);
                assert(next.inbox =~= Seq::<Command<E>>::empty());
                assert(leading_ends(next.inbox) == 0);
            },
        }
    }
}

/// A mailbox that was asked to stop drains in a bounded number of turns: as
/// long as envelopes wait, each turn hands one to the handler; the turn after
/// the last envelope asks for the slot to be retired, and the check under the
/// hold then finds the queue empty, unless something was sent in between.
pub proof fn lemma_stopping_mailbox_drains<E>(mailbox: MailboxView<E>)
    requires
        mailbox.wf(),
        !(mailbox.state is Created),
        mailbox.stop_requested(),
    ensures
        forall|turns: nat|
            turns < mailbox.pending().len() ==> (#[trigger] mailbox.after_turns(turns)).receive(
                false,
            ).1 is Dispatch,
        mailbox.after_turns(mailbox.pending().len()).receive(false).1 is Retire,
        mailbox.after_turns(mailbox.pending().len() + 1).state is Draining,
        mailbox.after_turns(mailbox.pending().len() + 1).finish().1 is None,
    decreases mailbox.pending().len(),
{
    lemma_first_envelope(mailbox.inbox);
    lemma_leading_ends(mailbox.inbox);
    let n = mailbox.pending().len();
    let next = mailbox.receive(false).0;
    if n == 0 {
        assert(first_envelope(mailbox.inbox) is None);
        assert(mailbox.inbox.len() > 0);
        assert(next.inbox =~= Seq::<Command<E>>::empty());
        assert(mailbox.after_turns(1) == next.after_turns(0));
        assert(leading_ends(next.inbox) == 0);
    } else {
        assert(first_envelope(mailbox.inbox) is Some) by {
            if first_envelope(mailbox.inbox) is None {
                assert(mailbox.pending().len() == 0);
            }
        }
        let rest = after_first_envelope(mailbox.inbox);
        lemma_envelopes_push(rest, Command::End);
        assert(next.pending().len() == n - 1);
        assert(next.stop_requested()) by {
            if leading_ends(mailbox.inbox) > 0 || mailbox.end_deferred {
                assert(next.inbox[next.inbox.len() - 1] is End);
            } else {
                let i = choose|i: int| 0 <= i < mailbox.inbox.len() && mailbox.inbox[i] is End;
                assert(mailbox.inbox[0] is Dispatch);
                assert(next.inbox[i - 1] == mailbox.inbox[i]);
            }
        }
        lemma_stopping_mailbox_drains(next);
        assert forall|turns: nat| turns < n implies (#[trigger] mailbox.after_turns(turns)).receive(
            false,
        ).1 is Dispatch by {
            if turns > 0 {
                assert(mailbox.after_turns(turns) == next.after_turns((turns - 1) as nat));
            }
        }
        assert(mailbox.after_turns(n) == next.after_turns((n - 1) as nat));
        assert(mailbox.after_turns(n + 1) == next.after_turns(n as nat));
    }
}

} // verus!
