//! The operating-system entropy source.
//!
//! The generator treats the entropy source as an external collaborator:
//! it either fills a buffer of a requested length completely with
//! high-quality random bytes, or fails. A failure is fatal for the whole
//! run — entropy unavailability is assumed non-transient within one
//! process lifetime, so there are no retries.

use vstd::prelude::*;

verus! {

/// getrandom's error type, carried through but opaque to the library.
#[verifier::external_type_specification]
#[verifier::external_body]
pub struct ExEntropyError(getrandom::Error);

/// Relies on getrandom::getrandom: on success the buffer has been filled
/// completely with bytes from the operating system's entropy source.
/// Nothing is assumed about the bytes' values — they are random.
#[verifier::external_body]
pub(crate) fn os_entropy(n: usize) -> (r: Result<Vec<u8>, getrandom::Error>)
    ensures
        r matches Ok(b) ==> b@.len() == n,
{
    let mut buf = vec![0u8; n];
    match getrandom::getrandom(&mut buf) {
        Ok(()) => Ok(buf),
        Err(e) => Err(e),
    }
}

} // verus!
