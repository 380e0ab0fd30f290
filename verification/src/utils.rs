//! Command queues and the collapse of stop sentinels.

use std::collections::VecDeque;
use vstd::prelude::*;

verus! {

/// What travels through the queue of a mailbox or of a service worker: an
/// envelope to hand to the handler, or the sentinel that asks the loop to stop.
#[derive(Debug)]
pub enum Command<E> {
    Dispatch(E),
    End,
}

/// The number of stop sentinels at the head of a queue.
pub open spec fn leading_ends<E>(queue: Seq<Command<E>>) -> nat
    decreases queue.len(),
{
    if queue.len() == 0 {
        0
    } else {
        match queue[0] {
            Command::End => 1 + leading_ends(queue.drop_first()),
            Command::Dispatch(_) => 0,
        }
    }
}

/// The envelopes of a queue, in the order in which they wait.
pub open spec fn envelopes<E>(queue: Seq<Command<E>>) -> Seq<E>
    decreases queue.len(),
{
    if queue.len() == 0 {
        Seq::empty()
    } else {
        match queue[0] {
            Command::End => envelopes(queue.drop_first()),
            Command::Dispatch(envelope) => seq![envelope] + envelopes(queue.drop_first()),
        }
    }
}

/// The first envelope of a queue: the one behind its leading stop sentinels.
pub open spec fn first_envelope<E>(queue: Seq<Command<E>>) -> Option<E> {
    let k = leading_ends(queue) as int;
    if k < queue.len() {
        match queue[k] {
            Command::Dispatch(envelope) => Some(envelope),
            Command::End => None,
        }
    } else {
        None
    }
}

/// What is left of a queue once its leading stop sentinels and its first
/// envelope are taken.
pub open spec fn after_first_envelope<E>(queue: Seq<Command<E>>) -> Seq<Command<E>> {
    let k = leading_ends(queue) as int;
    if k < queue.len() {
        queue.skip(k + 1)
    } else {
        Seq::empty()
    }
}

/// The leading stop sentinels are sentinels, and what follows them, if
/// anything, is an envelope.
pub proof fn lemma_leading_ends<E>(queue: Seq<Command<E>>)
    ensures
        leading_ends(queue) <= queue.len(),
        forall|j: int| 0 <= j < leading_ends(queue) ==> queue[j] is End,
        leading_ends(queue) < queue.len() ==> queue[leading_ends(queue) as int] is Dispatch,
        leading_ends(queue) < queue.len() <==> first_envelope(queue) is Some,
    decreases queue.len(),
{
    if queue.len() > 0 {
        let rest = queue.drop_first();
        lemma_leading_ends(rest);
        if queue[0] is End {
            assert forall|j: int| 0 <= j < leading_ends(queue) implies queue[j] is End by {
                if j > 0 {
                    assert(queue[j] == rest[j - 1]);
                }
            }
            if leading_ends(queue) < queue.len() {
                assert(queue[leading_ends(queue) as int] == rest[leading_ends(rest) as int]);
            }
        }
    }
}

/// Taking the first envelope takes the head of the waiting envelopes and
/// leaves the others in their order; a queue without a first envelope holds
/// none at all.
pub proof fn lemma_first_envelope<E>(queue: Seq<Command<E>>)
    ensures
        match first_envelope(queue) {
            Some(envelope) => envelopes(queue) == seq![envelope] + envelopes(
                after_first_envelope(queue),
            ),
            None => envelopes(queue) == Seq::<E>::empty(),
        },
        after_first_envelope(queue).len() <= queue.len(),
        first_envelope(queue) is Some ==> after_first_envelope(queue).len() + leading_ends(queue)
            + 1 == queue.len(),
    decreases queue.len(),
{
    lemma_leading_ends(queue);
    if queue.len() > 0 {
        let rest = queue.drop_first();
        lemma_first_envelope(rest);
        lemma_leading_ends(rest);
        match queue[0] {
            Command::End => {
                let k = leading_ends(rest) as int;
                if k < rest.len() {
                    assert(queue[k + 1] == rest[k]);
                    assert(queue.skip(k + 2) =~= rest.skip(k + 1));
                }
            },
            Command::Dispatch(_) => {
                assert(queue.skip(1) =~= rest);
            },
        }
    }
}

/// A command that joins the back of a queue adds its envelope, if it has one,
/// behind the waiting ones.
pub proof fn lemma_envelopes_push<E>(queue: Seq<Command<E>>, command: Command<E>)
    ensures
        envelopes(queue.push(command)) == match command {
            Command::Dispatch(envelope) => envelopes(queue).push(envelope),
            Command::End => envelopes(queue),
        },
    decreases queue.len(),
{
    let pushed = queue.push(command);
    if queue.len() == 0 {
        assert(pushed.drop_first() =~= Seq::<Command<E>>::empty());
        assert(envelopes(pushed.drop_first()) =~= Seq::<E>::empty());
        match command {
            Command::Dispatch(envelope) => {
                assert(seq![envelope] + Seq::<E>::empty() =~= Seq::<E>::empty().push(envelope));
            },
            Command::End => {},
        }
    } else {
        let rest = queue.drop_first();
        lemma_envelopes_push(rest, command);
        assert(pushed.drop_first() =~= rest.push(command));
        match (queue[0], command) {
            (Command::Dispatch(head), Command::Dispatch(envelope)) => {
                assert(seq![head] + envelopes(rest).push(envelope) =~= (seq![head] + envelopes(
                    rest,
                )).push(envelope));
            },
            _ => {},
        }
    }
}

/// Consumes the stop sentinels at the head of a queue and the first envelope
/// behind them. Returns that envelope; `None` when the queue held nothing but
/// sentinels, all of which are then consumed.
pub fn recv_until_command_or_end<E>(receiver: &mut VecDeque<Command<E>>) -> (found: Option<E>)
    ensures
        found == first_envelope(old(receiver)@),
        final(receiver)@ == after_first_envelope(old(receiver)@),
{
    let ghost start = receiver@;
    let mut found: Option<E> = None;
    while found.is_none() && receiver.len() > 0
        invariant
            found is None ==> first_envelope(receiver@) == first_envelope(start)
                && after_first_envelope(receiver@) == after_first_envelope(start),
            found is Some ==> found == first_envelope(start) && receiver@ == after_first_envelope(
                start,
            ),
        decreases receiver@.len(),
    {
        let ghost queue = receiver@;
        let command = receiver.pop_front();
        proof {
            let rest = queue.drop_first();
            assert(queue.subrange(1, queue.len() as int) =~= rest);
            lemma_leading_ends(rest);
            let k = leading_ends(rest) as int;
            if queue[0] is End {
                if k < rest.len() {
                    assert(queue[k + 1] == rest[k]);
                    assert(queue.skip(k + 2) =~= rest.skip(k + 1));
                }
            } else {
                assert(queue.skip(1) =~= rest);
            }
        }
        match command {
            Some(Command::Dispatch(envelope)) => {
                found = Some(envelope);
            },
            _ => {},
        }
    }
    found
}

} // verus!
