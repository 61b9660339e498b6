//! IPv4 subnetting: dotted-quad addresses, CIDR network descriptors and the
//! quantities derived from them (mask, network, broadcast, host bounds,
//! wildcard), and the division of a network into longer-prefix subnets.
use vstd::prelude::*;

pub mod address;
pub mod error;
pub mod ip;
pub mod text;

pub use address::Address;
pub use error::IPError;
pub use ip::IP;

verus! {

/// The width of a prefix, in leading one-bits of the mask.
pub type Prefix = u8;

} // verus!
