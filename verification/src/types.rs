//! The data that crosses the library's boundary: requests, results, errors.

use vstd::prelude::*;

verus! {

/// One requested sub-network.
#[derive(Clone, Debug, PartialEq, Eq)]
pub struct NetworkInfo {
    /// The caller's name for the network. Names need not be unique.
    pub name: String,
    /// How many host addresses the network needs.
    pub num_hosts: u128,
    /// Whether the default gateway is already counted among `num_hosts`.
    pub contains_default_gateway: bool,
}

/// One allocated block, rendered for display.
#[derive(Clone, Debug, PartialEq, Eq)]
pub struct ComputedSubnet {
    /// The name of the request that the block serves.
    pub network_name: String,
    /// The block's prefix length.
    pub prefix_mask: u32,
    /// The block's mask in dotted decimal.
    pub decimal_mask: String,
    /// The block's first address.
    pub ip_network: String,
    /// The assignable range, as `first - last`.
    pub assignable_ips: String,
    /// The block's last address.
    pub ip_broadcast: String,
}

/// Why a call was rejected.
#[derive(Clone, Debug, PartialEq, Eq)]
pub enum VlsmError {
    /// The address text is not four decimal octets separated by dots.
    FormatError {
        /// The text that was rejected.
        input: String,
    },
    /// The prefix length is above 32.
    RangeError {
        /// The prefix length that was rejected.
        prefix: u32,
    },
    /// A request needs more addresses than a block can hold, or the requests
    /// together need more than the base block holds.
    AllocationError,
}

} // verus!
