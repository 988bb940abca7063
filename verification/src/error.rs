//! What can go wrong.

use vstd::prelude::*;

verus! {

/// An error of the router or of a service behind it.
#[derive(Clone, Copy, PartialEq, Eq, Structural, Debug)]
pub enum Error {
    /// A message has come through as many hops as a message may.
    MaxHops,
    /// A byte string is not the message it should be.
    Protobuf,
    /// A socket operation failed.
    Zmq(SocketError),
}

/// The failures of a socket that make a difference.
#[derive(Clone, Copy, PartialEq, Eq, Structural, Debug)]
pub enum SocketError {
    /// Nothing to be had without waiting.
    Again,
    /// Interrupted by a signal.
    Interrupted,
    /// The context of the socket was terminated.
    Terminated,
    /// The items to poll were not valid.
    Fault,
    /// Any other failure, by its number.
    Other(i32),
}

} // verus!
