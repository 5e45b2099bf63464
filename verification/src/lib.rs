use vstd::prelude::*;

pub mod key;
pub mod lookup;
pub mod metric;
pub mod network;
pub mod node;
pub mod protocol;
pub mod routing;
pub mod store;
pub mod transport;

verus! {

/// Identifiers are 256 bits long: 32 bytes.
pub const KEY_LEN: usize = 32;

/// One k-bucket per bit of an identifier.
pub const N_BUCKETS: usize = 256;

/// Capacity of a single k-bucket.
pub const K_PARAM: usize = 20;

/// Parallelism of the iterative lookup.
pub const ALPHA: usize = 3;

/// Largest datagram the transport will read.
pub const BUF_SIZE: usize = 4096;

} // verus!
