//! Letters and the single-shot channel that carries the answer to a call.

use vstd::prelude::*;

verus! {

/// Why a call brought no answer.
#[derive(Debug, Clone, Copy, PartialEq, Eq, Structural)]
pub enum CallError {
    /// The channel was closed before the handler produced a value.
    CallFailed,
}

impl CallError {
    /// The text of the error.
    pub fn message(&self) -> (text: &'static str)
        ensures
            text@ == "call failed"@,
    {
        "call failed"
    }
}

/// A message on its way to a handler. It is handed out once.
#[derive(Debug)]
pub struct Letter<M> {
    message: Option<M>,
}

impl<M> Letter<M> {
    /// The message, while it has not been handed out.
    pub closed spec fn view(&self) -> Option<M> {
        self.message
    }

    /// Wraps a message.
    pub fn new(message: M) -> (letter: Letter<M>)
        ensures
            letter@ == Some(message),
    {
        Letter { message: Some(message) }
    }

    /// Hands the message out: the first call returns it, every later call
    /// returns nothing, so a handler sees a message at most once.
    pub fn dispatch(&mut self) -> (message: Option<M>)
        ensures
            message == old(self)@,
            final(self)@ is None,
    {
        self.message.take()
    }
}

/// The state of a response channel as contracts see it.
pub enum ChannelView<R> {
    /// No value yet; the sending side is open.
    Open,
    /// The handler's value waits for the caller.
    Filled(R),
    /// The value was received.
    Received,
    /// The sending side went away without a value.
    Closed,
}

impl<R> ChannelView<R> {
    /// The channel after the handler's value was offered: an open channel
    /// takes it, any other stays as it is.
    pub open spec fn send(self, value: R) -> Self {
        match self {
            ChannelView::Open => ChannelView::Filled(value),
            _ => self,
        }
    }

    /// The channel after its sending side went away: a value that waits
    /// stays.
    pub open spec fn close(self) -> Self {
        match self {
            ChannelView::Open => ChannelView::Closed,
            _ => self,
        }
    }

    /// What the caller receives, and the channel afterwards. `None` means
    /// that the caller has to go on waiting.
    pub open spec fn recv(self) -> (Self, Option<Result<R, CallError>>) {
        match self {
            ChannelView::Open => (self, None),
            ChannelView::Filled(value) => (ChannelView::Received, Some(Ok(value))),
            ChannelView::Received => (self, Some(Err(CallError::CallFailed))),
            ChannelView::Closed => (self, Some(Err(CallError::CallFailed))),
        }
    }
}

/// The channel of capacity one that carries the answer of one call.
#[derive(Debug)]
pub struct Responder<R> {
    value: Option<R>,
    open: bool,
    received: bool,
}

impl<R> Responder<R> {
    pub closed spec fn view(&self) -> ChannelView<R> {
        match self.value {
            Some(value) => ChannelView::Filled(value),
            None => if self.received {
                ChannelView::Received
            } else if self.open {
                ChannelView::Open
            } else {
                ChannelView::Closed
            },
        }
    }

    /// An open channel without a value.
    pub fn new() -> (responder: Responder<R>)
        ensures
            responder@ == ChannelView::<R>::Open,
    {
        Responder { value: None, open: true, received: false }
    }

    /// Puts the handler's value on the channel. A channel that is not open
    /// takes nothing and hands the value back.
    pub fn send(&mut self, value: R) -> (sent: Result<(), R>)
        ensures
            final(self)@ == old(self)@.send(value),
            match sent {
                Ok(()) => old(self)@ is Open,
                Err(back) => !(old(self)@ is Open) && back == value,
            },
    {
        if self.value.is_none() && self.open && !self.received {
            self.value = Some(value);
            Ok(())
        } else {
            Err(value)
        }
    }

    /// Closes the sending side: the letter was dropped without an answer.
    pub fn close(&mut self)
        ensures
            final(self)@ == old(self)@.close(),
    {
        self.open = false;
    }

    /// Receives the answer: the handler's value if it was sent, the error if
    /// the channel was closed without one, `None` while neither has happened.
    pub fn recv(&mut self) -> (answer: Option<Result<R, CallError>>)
        ensures
            (final(self)@, answer) == old(self)@.recv(),
    {
        match self.value.take() {
            Some(value) => {
                self.received = true;
                Some(Ok(value))
            },
            None => {
                if self.open && !self.received {
                    None
                } else {
                    Some(Err(CallError::CallFailed))
                }
            },
        }
    }
}

/// A call returns what its handler returned: the value put on a fresh channel
/// is the value that the caller receives, also if the sending side is closed
/// afterwards, and it is received once. A channel closed without a value
/// gives the error, and an open one keeps the caller waiting.
pub proof fn lemma_response_round_trip<R>(value: R, other: R)
    ensures
        ChannelView::<R>::Open.send(value).recv().1 == Some(Ok::<R, CallError>(value)),
        ChannelView::<R>::Open.send(value).close().recv().1 == Some(Ok::<R, CallError>(value)),
        ChannelView::<R>::Open.send(value).send(other) == ChannelView::<R>::Open.send(value),
        ChannelView::<R>::Open.send(value).recv().0.recv().1 == Some(
            Err::<R, CallError>(CallError::CallFailed),
        ),
        ChannelView::<R>::Open.close().recv().1 == Some(Err::<R, CallError>(CallError::CallFailed)),
        ChannelView::<R>::Open.recv().1 is None,
{
}

} // verus!
