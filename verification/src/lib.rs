//! A DNS wire codec and the decision core of a recursive resolver.
//!
//! The codec decodes and encodes DNS messages in the RFC 1035 binary
//! format, including compressed domain names, and the resolver core
//! chooses the next step of an iterative delegation walk.

use vstd::prelude::*;

pub mod laws;
pub mod name;
pub mod parser;
pub mod resolver;
pub mod types;
pub mod utils;
pub mod writer;

verus! {

/// Largest DNS message carried over UDP here, in octets.
pub const MAX_PACKET_SIZE: usize = 512;

} // verus!
