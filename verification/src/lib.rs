//! Generation of random, distinct IPv4 addresses from CIDR blocks.
//!
//! The library parses CIDR notation (`"A.B.C.D/N"`) into an inclusive
//! address range, samples a requested number of distinct addresses from
//! such a range, and renders addresses back to dotted-quad text.

pub mod addrfmt;
pub mod batch;
pub mod cidr;
pub mod errors;
pub mod lines;
pub mod numerals;
pub mod sampler;
pub mod text;
