//! The failure taxonomy of the store.

use vstd::prelude::*;

verus! {

/// Everything that can go wrong in the core.
///
/// - `NotFound`: a path with no index association, or a key that is absent.
/// - `IoFailure`: a create, open, read, write or remove that failed; raised
///   by the surrounding binary, never by the verified core itself.
/// - `SerializationFailure`: a malformed index, key or entry encoding.
/// - `AuthenticationFailure`: a ciphertext whose tag did not verify.
/// - `AlreadyExists`: a key generation request when a key is already held.
#[derive(Clone, Copy, Debug, PartialEq, Eq, Structural)]
pub enum Error {
    NotFound,
    IoFailure,
    SerializationFailure,
    AuthenticationFailure,
    AlreadyExists,
}

} // verus!
