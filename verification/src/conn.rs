//! One viewer's connection, as a machine: what happened on the wire comes in
//! as an event, and what to do next goes out as an action. Whoever owns the
//! socket performs the action and reports back.

use vstd::prelude::*;
use crate::display::{frame, joined};
use crate::hub::{entered, left, taken, BroadcastHub, HubState};

verus! {

/// Where a connection stands.
#[derive(Clone, Copy, Debug, PartialEq, Eq, Structural)]
pub enum Connection {
    /// Accepted, handshake not finished.
    Handshaking,
    /// Subscribed under `handle` and being served.
    Streaming { handle: u64 },
    /// Done with; nothing more is sent.
    Closed,
}

/// What happened on a connection.
#[derive(Clone, Copy, Debug, PartialEq, Eq, Structural)]
pub enum Event {
    /// The handshake went through.
    HandshakeDone,
    /// The handshake failed.
    HandshakeFailed,
    /// The last line was sent.
    Sent,
    /// The last line could not be sent, or the viewer went away.
    SendFailed,
    /// Something was published since the connection last waited.
    Published,
}

/// What to do on a connection next.
#[derive(Debug)]
pub enum Action {
    /// Send this line.
    Send(String),
    /// Nothing to send: wait for the next publish.
    Wait,
    /// Close the connection and stop serving it.
    Close,
}

/// An action with its line as plain text.
pub enum ActionView {
    Send(Seq<char>),
    Wait,
    Close,
}

impl View for Action {
    type V = ActionView;

    open spec fn view(&self) -> ActionView {
        match self {
            Action::Send(line) => ActionView::Send(line@),
            Action::Wait => ActionView::Wait,
            Action::Close => ActionView::Close,
        }
    }
}

/// The separator between the entries of a line.
pub open spec fn comma() -> Seq<char> {
    ","@
}

/// A streaming connection has something to take from its queue.
pub open spec fn has_pending(state: HubState, handle: u64) -> bool {
    state.pending.contains_key(handle) && state.pending[handle].len() > 0
}

/// Where the connection stands after the event.
///
/// A handshake that went through makes a subscriber, unless the hub has no
/// handle left to give. Any other news during the handshake closes the
/// connection, a failed send closes a streaming one, and a closed connection
/// stays closed.
pub open spec fn connection_after(state: HubState, conn: Connection, event: Event) -> Connection {
    match conn {
        Connection::Handshaking => if event == Event::HandshakeDone && state.issued < u64::MAX {
            Connection::Streaming { handle: state.issued as u64 }
        } else {
            Connection::Closed
        },
        Connection::Streaming { handle } => if event == Event::SendFailed {
            Connection::Closed
        } else {
            conn
        },
        Connection::Closed => Connection::Closed,
    }
}

/// The hub after the event: a new subscriber on a handshake, one fewer on a
/// failed send, one row fewer in the viewer's queue when a row goes out.
pub open spec fn hub_after(state: HubState, conn: Connection, event: Event) -> HubState {
    match conn {
        Connection::Handshaking => if event == Event::HandshakeDone && state.issued < u64::MAX {
            entered(state)
        } else {
            state
        },
        Connection::Streaming { handle } => if event == Event::SendFailed {
            left(state, handle)
        } else if has_pending(state, handle) {
            taken(state, handle)
        } else {
            state
        },
        Connection::Closed => state,
    }
}

/// What to do after the event: on joining, send the row that is current;
/// while streaming, send the oldest row that waits, or wait when none does;
/// otherwise close.
pub open spec fn action_after(state: HubState, conn: Connection, event: Event) -> ActionView {
    match conn {
        Connection::Handshaking => if event == Event::HandshakeDone && state.issued < u64::MAX {
            ActionView::Send(joined(state.current, comma()))
        } else {
            ActionView::Close
        },
        Connection::Streaming { handle } => if event == Event::SendFailed {
            ActionView::Close
        } else if has_pending(state, handle) {
            ActionView::Send(joined(state.pending[handle][0], comma()))
        } else {
            ActionView::Wait
        },
        Connection::Closed => ActionView::Close,
    }
}

/// Takes one event on a connection and answers with the connection's new
/// standing and the action to perform.
pub fn step(hub: &mut BroadcastHub, conn: Connection, event: Event) -> (r: (Connection, Action))
    requires
        old(hub).wf(),
    ensures
        final(hub).wf(),
        final(hub)@ == hub_after(old(hub)@, conn, event),
        r.0 == connection_after(old(hub)@, conn, event),
        r.1@ == action_after(old(hub)@, conn, event),
{
    match conn {
        Connection::Handshaking => {
            if event == Event::HandshakeDone && hub.has_room() {
                let (snapshot, handle) = hub.subscribe();
                (Connection::Streaming { handle }, Action::Send(frame(&snapshot)))
            } else {
                (Connection::Closed, Action::Close)
            }
        },
        Connection::Streaming { handle } => {
            if event == Event::SendFailed {
                hub.unsubscribe(handle);
                (Connection::Closed, Action::Close)
            } else {
                match hub.next(handle) {
                    Some(row) => (conn, Action::Send(frame(&row))),
                    None => (conn, Action::Wait),
                }
            }
        },
        Connection::Closed => (Connection::Closed, Action::Close),
    }
}

} // verus!
