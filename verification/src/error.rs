//! The errors of talking to the cache daemon and to the `op` CLI.

use vstd::prelude::*;

verus! {

/// `std::io::Error`, carried through as an opaque value.
#[verifier::external_type_specification]
#[verifier::external_body]
pub struct ExIoError(std::io::Error);

/// What can go wrong when reading a secret through the cache.
#[derive(Debug)]
pub enum Error {
    /// The daemon's socket could not be reached.
    ConnectionFailed(std::io::Error),
    /// The daemon could not be started.
    SpawnFailed(String),
    /// The daemon did not come up in time.
    DaemonStartTimeout,
    /// The `op` CLI failed.
    OpFailed(String),
    /// A secret reference was not valid.
    InvalidReference(String),
    /// The daemon answered something unexpected.
    Protocol(String),
    /// Anything else.
    Internal(String),
}

} // verus!
