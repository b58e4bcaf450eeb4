//! A continuous pseudorandom byte-stream generator.
//!
//! The generator seeds itself periodically from the operating system's
//! entropy source and emits an unbounded stream of statistically uniform
//! (but predictable, non-cryptographic) bytes to a downstream sink, until
//! the sink reports that its consumer has disconnected.

pub mod encoding;
pub mod entropy;
pub mod runner;
pub mod sink;
pub mod xorshift;
