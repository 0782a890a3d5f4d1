//! The live event stream to the UI: what to do with each thing that happens
//! on a WebSocket connection. The connection and the broadcast channel live
//! outside the library.

use vstd::prelude::*;

verus! {

/// Something that happened on a UI connection.
pub enum SocketInput {
    /// An engine event arrived, serialized to JSON text (`None` where it could
    /// not be serialized).
    Event(Option<String>),
    /// This client fell behind and some events were dropped.
    Lagged,
    /// The event channel closed.
    ChannelClosed,
    /// The client sent a ping with this payload.
    Ping(Vec<u8>),
    /// The client closed the connection (or it ended).
    Close,
    /// Anything else the client sent.
    Other,
}

/// What to do next on the connection.
pub enum SocketAction {
    /// Send this text; stop if sending fails.
    Send(String),
    /// Answer with a pong carrying this payload.
    Pong(Vec<u8>),
    /// Nothing to send; keep going.
    Continue,
    /// End the connection.
    Stop,
}

/// Forward every event, answer pings, keep going after a lag, and stop when
/// the channel or the client closes.
pub fn socket_step(input: SocketInput) -> (a: SocketAction)
    ensures
        match input {
            SocketInput::Event(Some(text)) => a matches SocketAction::Send(t) && t@ == text@,
            SocketInput::Event(None) => a is Continue,
            SocketInput::Lagged => a is Continue,
            SocketInput::ChannelClosed => a is Stop,
            SocketInput::Ping(p) => a matches SocketAction::Pong(q) && q@ == p@,
            SocketInput::Close => a is Stop,
            SocketInput::Other => a is Continue,
        },
{
    match input {
        SocketInput::Event(Some(text)) => SocketAction::Send(text),
        SocketInput::Event(None) => SocketAction::Continue,
        SocketInput::Lagged => SocketAction::Continue,
        SocketInput::ChannelClosed => SocketAction::Stop,
        SocketInput::Ping(p) => SocketAction::Pong(p),
        SocketInput::Close => SocketAction::Stop,
        SocketInput::Other => SocketAction::Continue,
    }
}

} // verus!
