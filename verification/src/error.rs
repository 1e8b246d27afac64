//! The engine's error taxonomy.

use vstd::prelude::*;

verus! {

/// What can go wrong inside the protocol engine.
///
/// Transport timeouts are fatal during the handshake and tolerated
/// during steady polling; a malformed command rejects the whole inbound
/// line; an unexpected reply aborts the exchange it answered; a
/// persistence failure is surfaced by the write that hit it.
#[derive(Debug, Clone, Copy, PartialEq, Eq, Structural)]
pub enum Error {
    /// The peer did not deliver a full reply line in time.
    Timeout,
    /// A reply was outside the protocol's expected shape.
    UnexpectedReply,
    /// A recognized command whose arguments do not parse.
    Malformed,
    /// The persistence collaborator failed a read or write.
    Persist,
}

impl Error {
    /// A short diagnostic name for the error.
    pub fn describe(&self) -> (s: &'static str)
        ensures
            s@ == match self {
                Error::Timeout => "timeout"@,
                Error::UnexpectedReply => "unexpected reply"@,
                Error::Malformed => "malformed command"@,
                Error::Persist => "persistence failure"@,
            },
    {
        match self {
            Error::Timeout => "timeout",
            Error::UnexpectedReply => "unexpected reply",
            Error::Malformed => "malformed command",
            Error::Persist => "persistence failure",
        }
    }
}

} // verus!
