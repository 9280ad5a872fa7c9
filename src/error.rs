use vstd::prelude::*;
use crate::code::CodeFormatError;

verus! {

/// The kinds of failure a handshake or a channel reports.
#[derive(Debug, Clone, Copy, PartialEq, Eq, Structural)]
pub enum ErrorKind {
    /// The transport to the relay failed or was refused.
    Connect,
    /// The nameplate is already held by two parties.
    NameplateUnavailable,
    /// The caller expected a peer on a nameplate that nobody holds.
    UnexpectedNameplateState,
    /// The code is not `nameplate-word-...`.
    CodeFormat(CodeFormatError),
    /// The peer's PAKE message is malformed or the key exchange failed.
    Pake,
    /// A message did not decrypt: a wrong code or tampering.
    Authentication,
    /// The relay reported an error of its own.
    Rendezvous,
    /// The relay or the peer broke the message protocol.
    Protocol,
}

/// A failure of a handshake or a channel: its kind and a readable message.
#[derive(Debug)]
pub struct WormholeError {
    kind: ErrorKind,
    message: String,
}

impl WormholeError {
    pub closed spec fn spec_kind(&self) -> ErrorKind {
        self.kind
    }

    pub closed spec fn spec_message(&self) -> Seq<char> {
        self.message@
    }

    pub fn new(kind: ErrorKind, message: String) -> (r: Self)
        ensures
            r.spec_kind() == kind,
            r.spec_message() == message@,
    {
        WormholeError { kind, message }
    }

    pub fn kind(&self) -> (r: ErrorKind)
        ensures
            r == self.spec_kind(),
    {
        self.kind
    }

    /// The text of the error, as it is shown to a user.
    pub fn message(&self) -> (r: String)
        ensures
            r@ == self.spec_message(),
    {
        self.message.clone()
    }
}

} // verus!
