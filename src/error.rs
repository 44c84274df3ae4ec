use vstd::prelude::*;

verus! {

/// Why a calculation was refused.
#[derive(Debug, Clone, Copy, PartialEq, Eq, Structural)]
pub enum SubnetError {
    /// The prefix length is not a number (`None`) or is above 32 (`Some`).
    InvalidPrefix(Option<u32>),
    /// The address does not have four dot-separated components, or has an
    /// empty component where none is allowed.
    InvalidAddress,
    /// An address component is not a number (`None`) or is above 255 (`Some`).
    InvalidOctet(Option<u32>),
    /// A host requirement needs a block larger than the base network.
    /// `vlan_id` names the VLAN that asked for it, where there is one.
    AllocationTooLarge { vlan_id: Option<u32>, required_hosts: u32, base_cidr: u32 },
    /// The end of the address space was reached before this requirement got
    /// a block.
    AddressSpaceExhausted { vlan_id: Option<u32>, required_hosts: u32 },
}

} // verus!
