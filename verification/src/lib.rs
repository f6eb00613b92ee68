//! Variable Length Subnet Mask (VLSM) allocation over IPv4.
//!
//! Given a base network and a list of requested sub-networks, the allocator
//! carves the base block into contiguous, non-overlapping subnets, the largest
//! first. Every function carries a contract stated over the 32-bit value of an
//! address and over the text of its dotted-decimal rendering.

pub mod allocator;
pub mod codec;
pub mod mask;
pub mod order;
pub mod text;
pub mod types;

pub use allocator::subnet_calculator;
pub use types::{ComputedSubnet, NetworkInfo, VlsmError};
