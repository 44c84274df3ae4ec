pub mod addr;
pub mod error;
pub mod netinfo;
pub mod order;
pub mod plan;
pub mod reference;
pub mod text;
pub mod vlan;
pub mod vlsm;
