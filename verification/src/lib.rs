//! A content-addressed, multi-key record store layered on a byte-oriented
//! key/value ledger.
//!
//! Callers hold natural keys of one, two, or three strings. An [`addresser`]
//! turns such a key into a fixed-length 70-character hexadecimal radix
//! address and a human-readable normalized key. The [`context`] module
//! implements get/set/delete of named, typed values on top of a raw store
//! that only understands bytes at addresses; records whose keys collide at
//! one address coexist in a bucket ([`protocol`]), serialized through a
//! verified wire codec ([`codec`]).

use vstd::prelude::*;

pub mod addresser;
pub mod codec;
pub mod context;
pub mod error;
pub mod intkey;
pub mod protocol;
pub mod state;
pub mod store;
pub mod submit;

verus! {

/// The number of hexadecimal characters in every radix address.
pub const ADDRESS_LENGTH: usize = 70;

} // verus!
