//! A cryptographic composition core: block-cipher chaining modes, keyed
//! message-authentication codes and EAX authenticated encryption, built
//! generically over a small catalog of primitives (block ciphers, hash
//! functions, random generators) supplied by outside crates.
//!
//! The composition layer itself — chaining, counter handling, tag
//! derivation, constant-time comparison and the catalog lookups — is
//! verified; only the raw primitive operations (a single block through a
//! cipher, a message through a hash, bytes from the system generator) are
//! trusted at their boundary.

use vstd::prelude::*;

pub mod aead;
pub mod error;
pub mod hash;
pub mod mac;
pub mod rand;
mod schedule;
pub mod symmetric;
pub mod util;

pub use error::Error;

verus! {

/// Initialize the library.
///
/// The catalog of built-in algorithms is a static table, so there is
/// nothing to set up at run time: calling this any number of times has no
/// effect, and every lookup behaves the same whether or not it was called.
/// It is kept so that callers written against registry-style libraries can
/// keep their bootstrap sequence.
pub fn init()
    ensures
        true,
{
}

} // verus!
