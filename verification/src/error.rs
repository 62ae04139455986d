//! Error types of the cache and of the store.
use vstd::prelude::*;
use vstd::std_specs::convert::FromSpecImpl;

verus! {

/// Why a cache could not be built.
#[derive(Debug, Clone, Copy, PartialEq, Eq, Structural)]
pub enum CacheError {
    /// A cache must be able to hold at least one entry.
    InvalidCapacity,
}

/// `std::io::Error`, carried as an opaque value: nothing is claimed of what
/// it holds.
#[verifier::external_type_specification]
#[verifier::external_body]
pub struct ExIoError(std::io::Error);

/// `serde_json::Error`, carried as an opaque value: nothing is claimed of
/// what it holds.
#[verifier::external_type_specification]
#[verifier::external_body]
pub struct ExJsonError(serde_json::Error);

/// What can go wrong in the key-value store.
#[derive(Debug)]
pub enum KvsError {
    /// Reading or writing the store's files failed.
    Io(std::io::Error),
    /// A record could not be encoded or decoded.
    Serde(serde_json::Error),
    /// The key to remove is not in the store.
    KeyNotFound,
    /// A record of an unexpected kind was met.
    UnexpectedCommandType,
}

impl From<std::io::Error> for KvsError {
    fn from(e: std::io::Error) -> (r: KvsError) {
        KvsError::Io(e)
    }
}

impl FromSpecImpl<std::io::Error> for KvsError {
    open spec fn obeys_from_spec() -> bool {
        true
    }

    open spec fn from_spec(e: std::io::Error) -> KvsError {
        KvsError::Io(e)
    }
}

impl From<serde_json::Error> for KvsError {
    fn from(e: serde_json::Error) -> (r: KvsError) {
        KvsError::Serde(e)
    }
}

impl FromSpecImpl<serde_json::Error> for KvsError {
    open spec fn obeys_from_spec() -> bool {
        true
    }

    open spec fn from_spec(e: serde_json::Error) -> KvsError {
        KvsError::Serde(e)
    }
}

} // verus!
