//! The life of an association, as a state machine.
//!
//! `step` decides: from the state an association is in and what has just
//! happened, it gives the state that follows, what to send, and what to tell
//! the application. It decides nothing else and touches nothing else, so the
//! whole machine can be read off one function.

use vstd::prelude::*;

verus! {

/// The states of an association.
#[derive(Clone, Copy, Debug, PartialEq, Eq, Structural)]
pub enum AssociationState {
    /// No association exists; also the state after it has ended.
    Closed,
    /// An INIT was sent and its answer is awaited.
    CookieWait,
    /// A COOKIE ECHO was sent and its answer is awaited.
    CookieEchoed,
    /// Data flows.
    Established,
    /// The user has asked to close; data that was sent still waits to be acknowledged.
    ShutdownPending,
    /// A SHUTDOWN was sent and its answer is awaited.
    ShutdownSent,
    /// A SHUTDOWN ACK was sent and its answer is awaited.
    ShutdownAckSent,
}

/// What can happen to an association.
#[derive(Clone, Copy, Debug, PartialEq, Eq, Structural)]
pub enum Trigger {
    /// The user asks to connect.
    Connect,
    /// An INIT arrived that carries an initiate tag other than zero.
    Init,
    /// An INIT ACK arrived that carries a state cookie.
    InitAck,
    /// A COOKIE ECHO arrived whose cookie is the one that was handed out.
    CookieEcho,
    /// A COOKIE ACK arrived.
    CookieAck,
    /// The user asks to close.
    Close,
    /// The last outstanding data was acknowledged, or none was outstanding.
    AllAcked,
    /// A SHUTDOWN arrived.
    Shutdown,
    /// A SHUTDOWN ACK arrived.
    ShutdownAck,
    /// A SHUTDOWN COMPLETE arrived.
    ShutdownComplete,
    /// An ABORT arrived.
    Abort,
    /// The user asks to abort.
    LocalAbort,
    /// A handshake message was sent as often as allowed without an answer.
    RetriesExceeded,
}

/// What an association sends in answer.
#[derive(Clone, Copy, Debug, PartialEq, Eq, Structural)]
pub enum Action {
    Nothing,
    SendInit,
    SendInitAck,
    SendCookieEcho,
    SendCookieAck,
    SendShutdown,
    SendShutdownAck,
    SendShutdownComplete,
    SendAbort,
}

/// What an association tells the application.
#[derive(Clone, Copy, Debug, PartialEq, Eq, Structural)]
pub enum Notice {
    Nothing,
    /// The handshake is done.
    Connected,
    /// The association has ended in order.
    Closed,
    /// The peer aborted the association.
    Aborted,
    /// The handshake got no answer.
    HandshakeFailed,
}

/// What `step` decides.
#[derive(Clone, Copy, Debug, PartialEq, Eq, Structural)]
pub struct Step {
    pub state: AssociationState,
    pub action: Action,
    pub notice: Notice,
}

/// The step in which nothing happens.
pub open spec fn stay(state: AssociationState) -> Step {
    Step { state, action: Action::Nothing, notice: Notice::Nothing }
}

/// What follows when `trigger` happens in `state`.
///
/// An abort ends the association from any state. Every other trigger acts
/// only in the states that expect it and is ignored elsewhere.
pub open spec fn step_of(state: AssociationState, trigger: Trigger) -> Step {
    match trigger {
        Trigger::Abort => if state == AssociationState::Closed {
            stay(state)
        } else {
            Step { state: AssociationState::Closed, action: Action::Nothing, notice: Notice::Aborted }
        },
        Trigger::LocalAbort => if state == AssociationState::Closed {
            stay(state)
        } else {
            Step { state: AssociationState::Closed, action: Action::SendAbort, notice: Notice::Closed }
        },
        Trigger::Connect => if state == AssociationState::Closed {
            Step { state: AssociationState::CookieWait, action: Action::SendInit, notice: Notice::Nothing }
        } else {
            stay(state)
        },
        Trigger::Init => if state == AssociationState::Closed {
            Step { state: AssociationState::Closed, action: Action::SendInitAck, notice: Notice::Nothing }
        } else {
            stay(state)
        },
        Trigger::InitAck => if state == AssociationState::CookieWait {
            Step {
                state: AssociationState::CookieEchoed,
                action: Action::SendCookieEcho,
                notice: Notice::Nothing,
            }
        } else {
            stay(state)
        },
        Trigger::CookieEcho => if state == AssociationState::Closed {
            Step {
                state: AssociationState::Established,
                action: Action::SendCookieAck,
                notice: Notice::Connected,
            }
        } else if state == AssociationState::Established {
            Step { state, action: Action::SendCookieAck, notice: Notice::Nothing }
        } else {
            stay(state)
        },
        Trigger::CookieAck => if state == AssociationState::CookieEchoed {
            Step {
                state: AssociationState::Established,
                action: Action::Nothing,
                notice: Notice::Connected,
            }
        } else {
            stay(state)
        },
        Trigger::Close => if state == AssociationState::Established {
            Step { state: AssociationState::ShutdownPending, action: Action::Nothing, notice: Notice::Nothing }
        } else {
            stay(state)
        },
        Trigger::AllAcked => if state == AssociationState::ShutdownPending {
            Step {
                state: AssociationState::ShutdownSent,
                action: Action::SendShutdown,
                notice: Notice::Nothing,
            }
        } else {
            stay(state)
        },
        Trigger::Shutdown => if state == AssociationState::Established || state
            == AssociationState::ShutdownPending || state == AssociationState::ShutdownSent {
            Step {
                state: AssociationState::ShutdownAckSent,
                action: Action::SendShutdownAck,
                notice: Notice::Nothing,
            }
        } else {
            stay(state)
        },
        Trigger::ShutdownAck => if state == AssociationState::ShutdownSent || state
            == AssociationState::ShutdownAckSent {
            Step {
                state: AssociationState::Closed,
                action: Action::SendShutdownComplete,
                notice: Notice::Closed,
            }
        } else {
            stay(state)
        },
        Trigger::ShutdownComplete => if state == AssociationState::ShutdownAckSent {
            Step { state: AssociationState::Closed, action: Action::Nothing, notice: Notice::Closed }
        } else {
            stay(state)
        },
        Trigger::RetriesExceeded => if state == AssociationState::CookieWait || state
            == AssociationState::CookieEchoed {
            Step {
                state: AssociationState::Closed,
                action: Action::Nothing,
                notice: Notice::HandshakeFailed,
            }
        } else {
            stay(state)
        },
    }
}

/// Decides what follows when `trigger` happens in `state`.
pub fn step(state: AssociationState, trigger: Trigger) -> (s: Step)
    ensures
        s == step_of(state, trigger),
{
    let stay = Step { state, action: Action::Nothing, notice: Notice::Nothing };
    match trigger {
        Trigger::Abort => match state {
            AssociationState::Closed => stay,
            _ => Step { state: AssociationState::Closed, action: Action::Nothing, notice: Notice::Aborted },
        },
        Trigger::LocalAbort => match state {
            AssociationState::Closed => stay,
            _ => Step { state: AssociationState::Closed, action: Action::SendAbort, notice: Notice::Closed },
        },
        Trigger::Connect => match state {
            AssociationState::Closed => Step {
                state: AssociationState::CookieWait,
                action: Action::SendInit,
                notice: Notice::Nothing,
            },
            _ => stay,
        },
        Trigger::Init => match state {
            AssociationState::Closed => Step {
                state: AssociationState::Closed,
                action: Action::SendInitAck,
                notice: Notice::Nothing,
            },
            _ => stay,
        },
        Trigger::InitAck => match state {
            AssociationState::CookieWait => Step {
                state: AssociationState::CookieEchoed,
                action: Action::SendCookieEcho,
                notice: Notice::Nothing,
            },
            _ => stay,
        },
        Trigger::CookieEcho => match state {
            AssociationState::Closed => Step {
                state: AssociationState::Established,
                action: Action::SendCookieAck,
                notice: Notice::Connected,
            },
            AssociationState::Established => Step {
                state,
                action: Action::SendCookieAck,
                notice: Notice::Nothing,
            },
            _ => stay,
        },
        Trigger::CookieAck => match state {
            AssociationState::CookieEchoed => Step {
                state: AssociationState::Established,
                action: Action::Nothing,
                notice: Notice::Connected,
            },
            _ => stay,
        },
        Trigger::Close => match state {
            AssociationState::Established => Step {
                state: AssociationState::ShutdownPending,
                action: Action::Nothing,
                notice: Notice::Nothing,
            },
            _ => stay,
        },
        Trigger::AllAcked => match state {
            AssociationState::ShutdownPending => Step {
                state: AssociationState::ShutdownSent,
                action: Action::SendShutdown,
                notice: Notice::Nothing,
            },
            _ => stay,
        },
        Trigger::Shutdown => match state {
            AssociationState::Established
            | AssociationState::ShutdownPending
            | AssociationState::ShutdownSent => Step {
                state: AssociationState::ShutdownAckSent,
                action: Action::SendShutdownAck,
                notice: Notice::Nothing,
            },
            _ => stay,
        },
        Trigger::ShutdownAck => match state {
            AssociationState::ShutdownSent | AssociationState::ShutdownAckSent => Step {
                state: AssociationState::Closed,
                action: Action::SendShutdownComplete,
                notice: Notice::Closed,
            },
            _ => stay,
        },
        Trigger::ShutdownComplete => match state {
            AssociationState::ShutdownAckSent => Step {
                state: AssociationState::Closed,
                action: Action::Nothing,
                notice: Notice::Closed,
            },
            _ => stay,
        },
        Trigger::RetriesExceeded => match state {
            AssociationState::CookieWait | AssociationState::CookieEchoed => Step {
                state: AssociationState::Closed,
                action: Action::Nothing,
                notice: Notice::HandshakeFailed,
            },
            _ => stay,
        },
    }
}

/// An abort ends the association whatever state it is in, and once it has
/// ended nothing but a new handshake leads out of `Closed`.
pub proof fn lemma_abort_closes(state: AssociationState, trigger: Trigger)
    ensures
        step_of(state, Trigger::Abort).state == AssociationState::Closed,
        step_of(state, Trigger::Abort).action == Action::Nothing,
        step_of(AssociationState::Closed, trigger).state != AssociationState::Closed ==> trigger
            == Trigger::Connect || trigger == Trigger::CookieEcho,
{
}

/// Only an abort from the peer, a handshake that got no answer, and the
/// last step of a shutdown end an association; nothing else leads to `Closed`.
pub proof fn lemma_ways_to_closed(state: AssociationState, trigger: Trigger)
    requires
        state != AssociationState::Closed,
        step_of(state, trigger).state == AssociationState::Closed,
    ensures
        trigger == Trigger::Abort || trigger == Trigger::LocalAbort || trigger == Trigger::RetriesExceeded
            || trigger == Trigger::ShutdownAck || trigger == Trigger::ShutdownComplete,
        step_of(state, trigger).notice != Notice::Nothing,
{
}

/// The application is told that the handshake is done exactly when a step leads into `Established`.
pub proof fn lemma_connected_once(state: AssociationState, trigger: Trigger)
    ensures
        step_of(state, trigger).notice == Notice::Connected <==> state != AssociationState::Established
            && step_of(state, trigger).state == AssociationState::Established,
{
}

} // verus!
