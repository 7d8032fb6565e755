//! The two wire envelopes of the relay protocol.

use vstd::prelude::*;

verus! {

/// A chat message as it travels over the wire in both directions:
/// `{"user": <string>, "msg": <string>}`.
pub struct ClientMessage {
    /// Identity the sending client claims for itself.
    pub user: String,
    /// The chat text.
    pub msg: String,
}

/// An error report sent from the server to a single client, never broadcast:
/// `{"code": <uint16>, "error": <string>}`.
pub struct ServerErrorMessage {
    /// Numeric error code.
    pub code: u16,
    /// Human-readable description.
    pub error: String,
}

impl ClientMessage {
    /// Builds an envelope from a sender identity and a chat text.
    pub fn new(user: String, msg: String) -> (r: ClientMessage)
        ensures
            r.user@ == user@,
            r.msg@ == msg@,
    {
        ClientMessage { user, msg }
    }
}

impl ServerErrorMessage {
    /// Builds an error report from a code and a description.
    pub fn new(code: u16, error: String) -> (r: ServerErrorMessage)
        ensures
            r.code == code,
            r.error@ == error@,
    {
        ServerErrorMessage { code, error }
    }
}

} // verus!
