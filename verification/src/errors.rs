//! What can go wrong in a mesh client.
use vstd::prelude::*;

verus! {

/// An error of a mesh client.
#[derive(Debug)]
pub enum KaboodleError {
    /// An operation on a socket failed; the text says how.
    IoError(String),
    /// No network interface can be used.
    NoAvailableInterfaces,
    /// The network interface has no number, which IPv6 multicast needs.
    UnableToFindInterfaceNumber,
    /// The client could not be stopped; the text says why.
    StoppingFailed(String),
    /// The client is not running.
    NotRunning,
    /// The client does not allow this now; the text says why.
    InvalidOperation(String),
}

/// `a`, then `b`.
fn joined(a: &str, b: &String) -> (r: String)
    ensures
        r@ == a@ + b@,
{
    let mut r: String = a.to_owned();
    r.append(b.as_str());
    r
}

impl KaboodleError {
    /// What `to_string` returns.
    pub open spec fn text(&self) -> Seq<char> {
        match self {
            KaboodleError::IoError(detail) => "std::io::Error: "@ + detail@,
            KaboodleError::NoAvailableInterfaces =>
                "No available interfaces meet our requirements"@,
            KaboodleError::UnableToFindInterfaceNumber =>
                "Unable to find interface number for the given networking interface"@,
            KaboodleError::StoppingFailed(detail) => "Unable to stop: "@ + detail@,
            KaboodleError::NotRunning =>
                "Functionality unavailable because the mesh is not currently running"@,
            KaboodleError::InvalidOperation(detail) => "Invalid operation: "@ + detail@,
        }
    }

    /// The error in words.
    pub fn to_string(&self) -> (r: String)
        ensures
            r@ == self.text(),
    {
        match self {
            KaboodleError::IoError(detail) => joined("std::io::Error: ", detail),
            KaboodleError::NoAvailableInterfaces =>
                "No available interfaces meet our requirements".to_owned(),
            KaboodleError::UnableToFindInterfaceNumber =>
                "Unable to find interface number for the given networking interface".to_owned(),
            KaboodleError::StoppingFailed(detail) => joined("Unable to stop: ", detail),
            KaboodleError::NotRunning =>
                "Functionality unavailable because the mesh is not currently running".to_owned(),
            KaboodleError::InvalidOperation(detail) => joined("Invalid operation: ", detail),
        }
    }
}

} // verus!
