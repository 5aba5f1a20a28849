//! The error taxonomy shared by the codec and the storage engine.

use vstd::prelude::*;

verus! {

/// Everything that can go wrong in the store or on the wire.
///
/// - `Encoding`: a malformed persisted record or wire frame.
/// - `Io`: a filesystem or network failure; never produced by the verified
///   code in this crate, but callers that do the actual file and socket
///   handling report their failures with it.
/// - `KeyNotFound`: removing a key that is not in the index.
#[derive(Debug, Clone, Copy, PartialEq, Eq)]
pub enum KvsError {
    Encoding,
    Io,
    KeyNotFound,
}

} // verus!
