//! A secure, persistent configuration store for a small device, with an
//! interactive line-oriented provisioning menu.
//!
//! Named configuration values are kept encrypted at rest: each entry owns a
//! fixed span of 16-byte blocks in a block-addressed storage medium, and every
//! block is enciphered independently with one AES-128 key derived from an
//! operator passphrase. A finite-state menu consumes operator input one line
//! at a time, queries and mutates the store, and emits structured output
//! effects; a bounded line reader turns raw bytes into lines with plain or
//! masked echo.

use vstd::prelude::*;

pub mod bounded;
pub mod cipher;
pub mod configs;
pub mod key;
pub mod line;
pub mod medium;
pub mod menu;

verus! {

/// Size in bytes of one storage and cipher block: the atomic unit of
/// encryption and of storage access.
pub const BLOCK_SIZE: usize = 16;

/// Suggested size in bytes for a transport's receive buffer.
pub const READ_BUF_SIZE: usize = 64;

} // verus!
