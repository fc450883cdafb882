//! How a call fails: a message for a person, and whether trying again may
//! help.
use vstd::prelude::*;

verus! {

/// A failure of a call, with whether it is worth repeating.
#[derive(Clone, Debug, PartialEq, Eq)]
pub struct TransportError {
    pub message: String,
    pub retryable: bool,
}

/// A failure of the protocol itself: not worth repeating.
pub fn protocol_error(message: &str) -> (e: TransportError)
    ensures
        e.message@ == message@,
        !e.retryable,
{
    TransportError { message: message.to_string(), retryable: false }
}

} // verus!
