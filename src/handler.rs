//! The decisions of one connection: read a submission, append it to the
//! store, then relay updates until the connection ends. The caller performs
//! each action and reports back what happened.
use vstd::prelude::*;
use crate::protocol::{parse_submission, submission_value, update_message, update_prefix};
use crate::store::{appended_text, apply_append};

verus! {

/// Why a connection's submission was not applied.
#[derive(Debug, Clone, Copy, PartialEq, Eq)]
pub enum HandlerError {
    /// The payload is not a decimal `i32`; the store is left alone.
    ProtocolDecode,
    /// The stored text is no document; nothing is written.
    StorageDecode,
}

/// An applied submission: the value, the text that replaces the stored
/// one, and the message for subscribers.
pub struct Accepted {
    pub value: i32,
    pub document: Vec<u8>,
    pub message: Vec<u8>,
}

/// Decides what one submission does to the store: `payload` is what the
/// connection sent, `stored` the text that the store holds now.
pub fn handle_submission(payload: &[u8], stored: &[u8]) -> (r: Result<Accepted, HandlerError>)
    ensures
        match r {
            Ok(a) => submission_value(payload@) == Some(a.value)
                && appended_text(stored@, a.value) == Some(a.document@)
                && a.message@ == update_prefix() + a.document@,
            Err(HandlerError::ProtocolDecode) => submission_value(payload@) is None,
            Err(HandlerError::StorageDecode) => submission_value(payload@) is Some
                && appended_text(stored@, submission_value(payload@)->Some_0) is None,
        },
{
    let value = match parse_submission(payload) {
        Ok(v) => v,
        Err(_) => {
            return Err(HandlerError::ProtocolDecode);
        },
    };
    let document = match apply_append(stored, value) {
        Ok(t) => t,
        Err(_) => {
            return Err(HandlerError::StorageDecode);
        },
    };
    let message = update_message(&document);
    Ok(Accepted { value, document, message })
}

/// Where a connection stands.
#[derive(Debug, Clone, Copy, PartialEq, Eq, Structural)]
pub enum Phase {
    AwaitingInteger,
    Processing,
    Listening,
    Closed,
}

/// What happened on the connection or to its last action.
pub enum Event {
    /// The first read returned these bytes.
    Received(Vec<u8>),
    /// The first read failed.
    ReadFailed,
    /// The store applied the submission and produced this message.
    Stored(Vec<u8>),
    /// The store could not apply the submission.
    StoreFailed,
    /// A broadcast message arrived on the connection's channel.
    Relayed(Vec<u8>),
    /// The peer closed the connection, or a write to it failed.
    Ended,
}

/// What the caller does next.
pub enum Action {
    /// Append this value to the store, under the store's lock.
    Append(i32),
    /// Register this connection, then broadcast this message.
    RegisterAndBroadcast(Vec<u8>),
    /// Write this message to the connection.
    Write(Vec<u8>),
    /// Report the error and close; the connection was never registered.
    Reject(HandlerError),
    /// Close the connection without unregistering.
    Close,
    /// Unregister the connection and close it.
    UnregisterAndClose,
    /// Nothing to do: the event does not apply in this phase.
    Ignore,
}

/// The phase and action that follow `event` in `phase`.
pub open spec fn step_spec(phase: Phase, event: Event) -> (Phase, Action) {
    match (phase, event) {
        (Phase::AwaitingInteger, Event::Received(p)) => match submission_value(p@) {
            Some(v) => (Phase::Processing, Action::Append(v)),
            None => (Phase::Closed, Action::Reject(HandlerError::ProtocolDecode)),
        },
        (Phase::AwaitingInteger, Event::ReadFailed) => (Phase::Closed, Action::Close),
        (Phase::Processing, Event::Stored(m)) => (Phase::Listening, Action::RegisterAndBroadcast(m)),
        (Phase::Processing, Event::StoreFailed) => (
            Phase::Closed,
            Action::Reject(HandlerError::StorageDecode),
        ),
        (Phase::Listening, Event::Relayed(m)) => (Phase::Listening, Action::Write(m)),
        (Phase::Listening, Event::Ended) => (Phase::Closed, Action::UnregisterAndClose),
        (Phase::Closed, _) => (Phase::Closed, Action::Ignore),
        (p, _) => (p, Action::Ignore),
    }
}

/// Moves a connection on by one event.
pub fn step(phase: Phase, event: Event) -> (r: (Phase, Action))
    ensures
        r == step_spec(phase, event),
{
    match (phase, event) {
        (Phase::AwaitingInteger, Event::Received(p)) => match parse_submission(&p) {
            Ok(v) => (Phase::Processing, Action::Append(v)),
            Err(_) => (Phase::Closed, Action::Reject(HandlerError::ProtocolDecode)),
        },
        (Phase::AwaitingInteger, Event::ReadFailed) => (Phase::Closed, Action::Close),
        (Phase::Processing, Event::Stored(m)) => (Phase::Listening, Action::RegisterAndBroadcast(m)),
        (Phase::Processing, Event::StoreFailed) => (
            Phase::Closed,
            Action::Reject(HandlerError::StorageDecode),
        ),
        (Phase::Listening, Event::Relayed(m)) => (Phase::Listening, Action::Write(m)),
        (Phase::Listening, Event::Ended) => (Phase::Closed, Action::UnregisterAndClose),
        (Phase::Closed, _) => (Phase::Closed, Action::Ignore),
        (p, _) => (p, Action::Ignore),
    }
}

/// A connection registers only once its submission is stored, and leaves
/// the registry only from the listening phase: a closed connection stays
/// closed, and a rejected payload is never appended.
pub proof fn lemma_registration_follows_store(phase: Phase, event: Event)
    ensures
        step_spec(phase, event).1 is RegisterAndBroadcast ==> phase == Phase::Processing,
        step_spec(phase, event).1 is UnregisterAndClose ==> phase == Phase::Listening,
        phase == Phase::Closed ==> step_spec(phase, event).0 == Phase::Closed,
        step_spec(phase, event).1 is Append ==> phase == Phase::AwaitingInteger,
{
}

} // verus!
