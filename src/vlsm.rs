use vstd::prelude::*;
use vstd::arithmetic::power2::{pow2, lemma2_to64, lemma2_to64_rest};
use crate::addr::{ip_text, address_value, netmask_from_prefix, format_ip, parse_ip, MAX_PREFIX};
use crate::error::SubnetError;
use crate::netinfo::mask_word;
use crate::order::{is_descending_order, permuted, descending_order};
use crate::plan::{
    Block, PlanFailure, plan, allocate, block_fits, host_bits_for, lemma_plan_shape,
    lemma_greedy_allocation,
};

verus! {

broadcast use vstd::string::group_string_axioms;

/// One subnet handed out by the VLSM allocator.
pub struct VlsmSubnet {
    pub network: String,
    pub cidr: u32,
    pub subnet_mask: String,
    pub first_host: String,
    pub last_host: String,
    pub broadcast: String,
    pub required_hosts: u32,
    pub usable_hosts: u32,
}

/// `row` describes block `b`, allocated for `required` hosts.
pub open spec fn is_vlsm_row(row: VlsmSubnet, b: Block, required: u32) -> bool {
    let size = pow2(b.host_bits as nat);
    &&& row.network@ == ip_text(b.network)
    &&& row.cidr == 32 - b.host_bits
    &&& row.subnet_mask@ == ip_text(mask_word(row.cidr))
    &&& row.first_host@ == ip_text((b.network + 1) as u32)
    &&& row.last_host@ == ip_text((b.network + size - 2) as u32)
    &&& row.broadcast@ == ip_text((b.network + size - 1) as u32)
    &&& row.required_hosts == required
    &&& row.usable_hosts == size - 2
}

/// What the VLSM allocator returns for requirements already in allocation
/// order, from a parsed base address.
pub open spec fn vlsm_outcome(
    r: Result<Vec<VlsmSubnet>, SubnetError>,
    base: u32,
    base_cidr: u32,
    sorted: Seq<u32>,
) -> bool {
    match plan(base, sorted, base_cidr) {
        Ok(bs) => r is Ok && r->Ok_0@.len() == bs.len() && forall|i: int|
            0 <= i < bs.len() ==> is_vlsm_row(#[trigger] r->Ok_0@[i], bs[i], sorted[i]),
        Err(PlanFailure::TooLarge(i)) => r == Err::<Vec<VlsmSubnet>, SubnetError>(
            SubnetError::AllocationTooLarge {
                vlan_id: None,
                required_hosts: sorted[i as int],
                base_cidr,
            },
        ),
        Err(PlanFailure::Exhausted(i)) => r == Err::<Vec<VlsmSubnet>, SubnetError>(
            SubnetError::AddressSpaceExhausted { vlan_id: None, required_hosts: sorted[i as int] },
        ),
    }
}

/// Block size and derived addresses of a fitting block, in 32 bits.
fn block_bounds(b: Block) -> (r: (u32, u32, u32, u32))
    requires
        exists|req: u32| block_fits(b, req),
    ensures
        r.0 == 32 - b.host_bits,
        r.1 == b.network + pow2(b.host_bits as nat) - 2,
        r.2 == b.network + pow2(b.host_bits as nat) - 1,
        r.3 == pow2(b.host_bits as nat) - 2,
{
    proof {
        lemma2_to64();
        lemma2_to64_rest();
        vstd::bits::lemma_u64_pow2_no_overflow(b.host_bits as nat);
        vstd::bits::lemma_u64_shl_is_mul(1u64, b.host_bits as u64);
        vstd::arithmetic::power2::lemma_pow2_strictly_increases(1, b.host_bits as nat);
    }
    let size: u64 = 1u64 << (b.host_bits as u64);
    let end: u64 = b.network as u64 + size;
    ((32 - b.host_bits), (end - 2) as u32, (end - 1) as u32, (size - 2) as u32)
}

fn vlsm_row(b: Block, required: u32) -> (row: VlsmSubnet)
    requires
        block_fits(b, required),
    ensures
        is_vlsm_row(row, b, required),
{
    let (cidr, last, broadcast, usable) = block_bounds(b);
    VlsmSubnet {
        network: format_ip(b.network),
        cidr,
        subnet_mask: format_ip(netmask_from_prefix(cidr)),
        first_host: format_ip(b.network + 1),
        last_host: format_ip(last),
        broadcast: format_ip(broadcast),
        required_hosts: required,
        usable_hosts: usable,
    }
}

/// The keys in the given order.
fn take_in_order(keys: &[u32], order: &Vec<usize>) -> (r: Vec<u32>)
    requires
        is_descending_order(keys@, order@),
    ensures
        r@ == permuted(keys@, order@),
{
    let mut r: Vec<u32> = Vec::new();
    let mut j: usize = 0;
    while j < order.len()
        invariant
            is_descending_order(keys@, order@),
            j <= order@.len(),
            r@ == permuted(keys@, order@).take(j as int),
        decreases order@.len() - j,
    {
        r.push(keys[order[j]]);
        j = j + 1;
        assert(r@ =~= permuted(keys@, order@).take(j as int));
    }
    assert(r@ =~= permuted(keys@, order@));
    r
}

/// Allocates one subnet per host requirement inside `base_network`/`base_cidr`:
/// largest requirement first, each the smallest block (at least a /30) that
/// holds it, placed at the next free boundary of its size. The result is in
/// allocation order.
pub fn calculate_vlsm_subnets(base_network: &str, base_cidr: u32, host_requirements: &[u32]) -> (r:
    Result<Vec<VlsmSubnet>, SubnetError>)
    ensures
        base_cidr > 32 ==> r == Err::<Vec<VlsmSubnet>, SubnetError>(
            SubnetError::InvalidPrefix(Some(base_cidr)),
        ),
        base_cidr <= 32 ==> match address_value(base_network@, false) {
            Err(e) => r == Err::<Vec<VlsmSubnet>, SubnetError>(e),
            Ok(a) => exists|o: Seq<usize>|
                is_descending_order(host_requirements@, o) && vlsm_outcome(
                    r,
                    a,
                    base_cidr,
                    permuted(host_requirements@, o),
                ),
        },
{
    if base_cidr > MAX_PREFIX {
        return Err(SubnetError::InvalidPrefix(Some(base_cidr)));
    }
    let base = parse_ip(base_network)?;
    let order = descending_order(host_requirements);
    let sorted = take_in_order(host_requirements, &order);
    proof {
        lemma_plan_shape(base as nat, sorted@, base_cidr, 0);
    }
    let r = match allocate(base, &sorted, base_cidr) {
        Err(PlanFailure::TooLarge(i)) => Err(
            SubnetError::AllocationTooLarge { vlan_id: None, required_hosts: sorted[i], base_cidr },
        ),
        Err(PlanFailure::Exhausted(i)) => Err(
            SubnetError::AddressSpaceExhausted { vlan_id: None, required_hosts: sorted[i] },
        ),
        Ok(blocks) => {
            let mut rows: Vec<VlsmSubnet> = Vec::new();
            let mut j: usize = 0;
            while j < blocks.len()
                invariant
                    plan(base, sorted@, base_cidr) == Ok::<Seq<Block>, PlanFailure>(blocks@),
                    blocks@.len() == sorted@.len(),
                    forall|q: int| 0 <= q < blocks@.len() ==> block_fits(#[trigger] blocks@[q], sorted@[q]),
                    j <= blocks@.len(),
                    rows@.len() == j,
                    forall|q: int| 0 <= q < j ==> is_vlsm_row(#[trigger] rows@[q], blocks@[q], sorted@[q]),
                decreases blocks@.len() - j,
            {
                rows.push(vlsm_row(blocks[j], sorted[j]));
                j = j + 1;
            }
            Ok(rows)
        },
    };
    assert(vlsm_outcome(r, base, base_cidr, permuted(host_requirements@, order@)));
    r
}

/// When every requirement fits the base prefix, the VLSM allocator succeeds
/// unless the address space runs out. On success there is one row per
/// requirement, rows come by descending requirement, each row has at least
/// the hosts it was asked for, and the rows' blocks are pairwise disjoint
/// (each starts at or after the end of every earlier one).
pub proof fn lemma_vlsm_result(
    r: Result<Vec<VlsmSubnet>, SubnetError>,
    base: u32,
    base_cidr: u32,
    reqs: Seq<u32>,
    o: Seq<usize>,
)
    requires
        reqs.len() <= usize::MAX,
        is_descending_order(reqs, o),
        forall|x: int| 0 <= x < reqs.len() ==> 32 - host_bits_for(#[trigger] reqs[x]) >= base_cidr,
        vlsm_outcome(r, base, base_cidr, permuted(reqs, o)),
    ensures
        r is Ok || r->Err_0 is AddressSpaceExhausted,
        r is Ok ==> {
            let rows = r->Ok_0@;
            let bs = plan(base, permuted(reqs, o), base_cidr)->Ok_0;
            &&& rows.len() == reqs.len()
            &&& forall|i: int| 0 <= i < rows.len() ==> #[trigger] rows[i].usable_hosts >= rows[i].required_hosts
            &&& forall|i: int, j: int|
                0 <= i < j < rows.len() ==> #[trigger] rows[i].required_hosts >= #[trigger] rows[j].required_hosts
            &&& forall|i: int| 0 <= i < rows.len() ==> is_vlsm_row(#[trigger] rows[i], bs[i], rows[i].required_hosts)
            &&& forall|i: int, j: int|
                0 <= i < j < rows.len() ==> #[trigger] bs[i].network + pow2(bs[i].host_bits as nat)
                    <= #[trigger] bs[j].network
        },
{
    let sorted = permuted(reqs, o);
    assert forall|x: int, y: int| 0 <= x < y < sorted.len() implies sorted[x] >= sorted[y] by {
        assert(crate::order::ranks_before(reqs, o[x] as int, o[y] as int));
    }
    assert forall|x: int| 0 <= x < sorted.len() implies 32 - host_bits_for(#[trigger] sorted[x]) >= base_cidr by {
        assert(sorted[x] == reqs[o[x] as int]);
    }
    lemma_greedy_allocation(base, sorted, base_cidr);
    if r is Ok {
        let rows = r->Ok_0@;
        let bs = plan(base, sorted, base_cidr)->Ok_0;
        assert forall|i: int, j: int|
            0 <= i < j < rows.len() implies #[trigger] rows[i].required_hosts >= #[trigger] rows[j].required_hosts by {
            assert(is_vlsm_row(rows[i], bs[i], sorted[i]));
            assert(is_vlsm_row(rows[j], bs[j], sorted[j]));
        }
        assert forall|i: int| 0 <= i < rows.len() implies #[trigger] rows[i].usable_hosts >= rows[i].required_hosts by {
            assert(is_vlsm_row(rows[i], bs[i], sorted[i]));
        }
    }
}

} // verus!
