//! Decisions of the websocket echo: what each incoming message leads to.
use vstd::prelude::*;

verus! {

/// What arrived on a websocket.
pub enum SocketEvent {
    /// A text message.
    Text(String),
    /// The peer closed the socket.
    Close,
    /// Any other kind of message (binary, ping, pong).
    Other,
    /// Receiving failed: the peer is gone.
    Failed,
}

/// What the server does next.
pub enum SocketAction {
    /// Sends this text to every connected user.
    Broadcast(String),
    /// Forgets the user and stops serving the socket.
    Disconnect,
    /// Stops serving the socket, keeping the user.
    Stop,
}

/// The text echoed for an incoming text message.
pub open spec fn echo_text(text: Seq<char>) -> Seq<char> {
    text + " + text"@
}

/// The next step after an incoming event: a text is echoed to everyone with
/// ` + text` added; a close or a failed receive disconnects the user; any
/// other message ends the socket.
pub fn socket_step(event: SocketEvent) -> (r: SocketAction)
    ensures
        match event {
            SocketEvent::Text(t) => r matches SocketAction::Broadcast(s) && s@ == echo_text(t@),
            SocketEvent::Close => r is Disconnect,
            SocketEvent::Failed => r is Disconnect,
            SocketEvent::Other => r is Stop,
        },
{
    match event {
        SocketEvent::Text(t) => SocketAction::Broadcast(t.concat(" + text")),
        SocketEvent::Close => SocketAction::Disconnect,
        SocketEvent::Failed => SocketAction::Disconnect,
        SocketEvent::Other => SocketAction::Stop,
    }
}

} // verus!
