use vstd::prelude::*;
use vstd::arithmetic::power2::{pow2, lemma2_to64, lemma_pow2_strictly_increases};
use vstd::bits::{lemma_u32_shl_is_mul, lemma_u32_pow2_no_overflow};
use crate::addr::{ip_text, netmask_from_prefix, format_ip};
use crate::netinfo::mask_word;
use crate::text::{dec, push_decimal};

verus! {

/// One row of the table of common prefixes.
pub struct SubnetMaskReference {
    pub cidr: String,
    pub total_hosts: u32,
    pub usable_hosts: u32,
    pub subnet_mask: String,
}

/// Addresses in a block of prefix `p`.
pub open spec fn block_size(p: nat) -> nat {
    pow2((32 - p) as nat)
}

/// `row` is the table's row for prefix `p`: "/p", the block size, the usable
/// host count (the whole block for /31 and /32, else two fewer) and the mask.
pub open spec fn is_reference_row(row: SubnetMaskReference, p: u32) -> bool {
    &&& row.cidr@ == "/"@ + dec(p as nat)
    &&& row.total_hosts == block_size(p as nat)
    &&& row.usable_hosts == if p >= 31 { block_size(p as nat) as int } else { block_size(p as nat) - 2 }
    &&& row.subnet_mask@ == ip_text(mask_word(p))
}

/// The rows for prefixes /31 down to /16, in that order.
pub fn generate_subnet_references() -> (r: Vec<SubnetMaskReference>)
    ensures
        r@.len() == 16,
        forall|i: int| 0 <= i < 16 ==> is_reference_row(#[trigger] r@[i], (31 - i) as u32),
{
    let mut rows: Vec<SubnetMaskReference> = Vec::new();
    let mut i: u32 = 0;
    while i < 16
        invariant
            i <= 16,
            rows@.len() == i,
            forall|j: int| 0 <= j < i ==> is_reference_row(#[trigger] rows@[j], (31 - j) as u32),
        decreases 16 - i,
    {
        let prefix: u32 = 31 - i;
        let k: u32 = 32 - prefix;
        proof {
            lemma2_to64();
            lemma_u32_pow2_no_overflow(k as nat);
            lemma_u32_shl_is_mul(1u32, k);
            if k > 1 {
                lemma_pow2_strictly_increases(1, k as nat);
            }
        }
        let total_hosts: u32 = 1u32 << k;
        let usable_hosts: u32 = if prefix >= 31 { total_hosts } else { total_hosts - 2 };
        let mut cidr = "/".to_owned();
        push_decimal(&mut cidr, prefix);
        let row = SubnetMaskReference {
            cidr,
            total_hosts,
            usable_hosts,
            subnet_mask: format_ip(netmask_from_prefix(prefix)),
        };
        rows.push(row);
        i = i + 1;
    }
    rows
}

} // verus!
