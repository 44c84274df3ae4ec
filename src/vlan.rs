use vstd::prelude::*;
use vstd::arithmetic::power2::pow2;
use crate::addr::{ip_text, address_value, netmask_from_prefix, format_ip, parse_ip, MAX_PREFIX};
use crate::error::SubnetError;
use crate::netinfo::mask_word;
use crate::order::{is_descending_order, descending_order};
use crate::plan::{
    Block, PlanFailure, plan, allocate, block_fits, lemma_plan_shape, lemma_block_addresses,
};
use crate::text::{dec, push_decimal};

verus! {

broadcast use vstd::string::group_string_axioms;

/// A VLAN to place: its id, its name and the hosts it needs.
pub struct VlanConfig {
    pub vlan_id: u32,
    pub vlan_name: String,
    pub required_hosts: u32,
}

/// One VLAN's subnet: the first usable address is its gateway.
pub struct VlanAllocation {
    pub vlan_id: u32,
    pub vlan_name: String,
    pub network: String,
    pub cidr: u32,
    pub subnet_mask: String,
    pub gateway: String,
    pub first_host: String,
    pub last_host: String,
    pub broadcast: String,
    pub usable_hosts: u32,
}

/// The configs taken in the given order.
pub open spec fn configs_in(configs: Seq<VlanConfig>, order: Seq<usize>) -> Seq<VlanConfig> {
    Seq::new(order.len(), |i: int| configs[order[i] as int])
}

/// The host requirements of the configs.
pub open spec fn requirements(configs: Seq<VlanConfig>) -> Seq<u32> {
    Seq::new(configs.len(), |i: int| configs[i].required_hosts)
}

/// `row` places `cfg` in block `b`.
pub open spec fn is_vlan_row(row: VlanAllocation, b: Block, cfg: VlanConfig) -> bool {
    let size = pow2(b.host_bits as nat);
    &&& row.vlan_id == cfg.vlan_id
    &&& row.vlan_name@ == cfg.vlan_name@
    &&& row.network@ == ip_text(b.network)
    &&& row.cidr == 32 - b.host_bits
    &&& row.subnet_mask@ == ip_text(mask_word(row.cidr))
    &&& row.gateway@ == ip_text((b.network + 1) as u32)
    &&& row.first_host@ == ip_text((b.network + 2) as u32)
    &&& row.last_host@ == ip_text((b.network + size - 2) as u32)
    &&& row.broadcast@ == ip_text((b.network + size - 1) as u32)
    &&& row.usable_hosts == size - 2
}

/// The commands that create the VLAN and name it.
pub open spec fn vlan_header_text(id: u32, name: Seq<char>) -> Seq<char> {
    "! Configuration for VLAN "@ + dec(id as nat) + " - "@ + name + "\n"@ + "enable\n"@
        + "configure terminal\n"@ + "vlan "@ + dec(id as nat) + "\n"@ + "name "@ + name + "\n"@
        + "exit\n"@
}

/// The commands that give the VLAN's interface its gateway address.
pub open spec fn vlan_interface_text(id: u32, gateway: u32, mask: u32) -> Seq<char> {
    "interface vlan "@ + dec(id as nat) + "\n"@ + "ip address "@ + ip_text(gateway) + " "@
        + ip_text(mask) + "\n"@ + "no shutdown\n"@ + "exit\n"@ + "exit\n"@ + "\n"@
}

/// The switch commands that set up one VLAN with its gateway, followed by a
/// blank line.
#[verifier::opaque]
pub open spec fn vlan_block_text(id: u32, name: Seq<char>, gateway: u32, mask: u32) -> Seq<char> {
    vlan_header_text(id, name) + vlan_interface_text(id, gateway, mask)
}

/// The commands for every VLAN, in allocation order.
pub open spec fn vlan_commands(cfgs: Seq<VlanConfig>, bs: Seq<Block>) -> Seq<char>
    decreases bs.len(),
{
    if bs.len() == 0 {
        Seq::empty()
    } else {
        let i = bs.len() - 1;
        vlan_commands(cfgs, bs.drop_last()) + vlan_block_text(
            cfgs[i].vlan_id,
            cfgs[i].vlan_name@,
            (bs[i].network + 1) as u32,
            mask_word((32 - bs[i].host_bits) as u32),
        )
    }
}

/// What the VLAN allocator returns for configs already in allocation order,
/// from a parsed base address.
pub open spec fn vlan_outcome(
    r: Result<(Vec<VlanAllocation>, String), SubnetError>,
    base: u32,
    base_cidr: u32,
    sorted: Seq<VlanConfig>,
) -> bool {
    match plan(base, requirements(sorted), base_cidr) {
        Ok(bs) => r is Ok && r->Ok_0.0@.len() == bs.len() && (forall|i: int|
            0 <= i < bs.len() ==> is_vlan_row(#[trigger] r->Ok_0.0@[i], bs[i], sorted[i]))
            && r->Ok_0.1@ == vlan_commands(sorted, bs),
        Err(PlanFailure::TooLarge(i)) => r == Err::<(Vec<VlanAllocation>, String), SubnetError>(
            SubnetError::AllocationTooLarge {
                vlan_id: Some(sorted[i as int].vlan_id),
                required_hosts: sorted[i as int].required_hosts,
                base_cidr,
            },
        ),
        Err(PlanFailure::Exhausted(i)) => r == Err::<(Vec<VlanAllocation>, String), SubnetError>(
            SubnetError::AddressSpaceExhausted {
                vlan_id: Some(sorted[i as int].vlan_id),
                required_hosts: sorted[i as int].required_hosts,
            },
        ),
    }
}

fn push_vlan_header(s: &mut String, id: u32, name: &str)
    ensures
        final(s)@ == old(s)@ + vlan_header_text(id, name@),
{
    let ghost start = s@;
    s.append("! Configuration for VLAN ");
    let ghost t = "! Configuration for VLAN "@;
    push_decimal(s, id);
    proof { t = t + dec(id as nat); }
    assert(s@ =~= start + t);
    s.append(" - ");
    proof { t = t + " - "@; }
    assert(s@ =~= start + t);
    s.append(name);
    proof { t = t + name@; }
    assert(s@ =~= start + t);
    s.append("\n");
    proof { t = t + "\n"@; }
    assert(s@ =~= start + t);
    s.append("enable\n");
    proof { t = t + "enable\n"@; }
    assert(s@ =~= start + t);
    s.append("configure terminal\n");
    proof { t = t + "configure terminal\n"@; }
    assert(s@ =~= start + t);
    s.append("vlan ");
    proof { t = t + "vlan "@; }
    assert(s@ =~= start + t);
    push_decimal(s, id);
    proof { t = t + dec(id as nat); }
    assert(s@ =~= start + t);
    s.append("\n");
    proof { t = t + "\n"@; }
    assert(s@ =~= start + t);
    s.append("name ");
    proof { t = t + "name "@; }
    assert(s@ =~= start + t);
    s.append(name);
    proof { t = t + name@; }
    assert(s@ =~= start + t);
    s.append("\n");
    proof { t = t + "\n"@; }
    assert(s@ =~= start + t);
    s.append("exit\n");
    proof { t = t + "exit\n"@; }
    assert(s@ =~= start + t);
}

fn push_vlan_interface(s: &mut String, id: u32, gateway: u32, mask: u32)
    ensures
        final(s)@ == old(s)@ + vlan_interface_text(id, gateway, mask),
{
    let ghost start = s@;
    s.append("interface vlan ");
    let ghost t = "interface vlan "@;
    push_decimal(s, id);
    proof { t = t + dec(id as nat); }
    assert(s@ =~= start + t);
    s.append("\n");
    proof { t = t + "\n"@; }
    assert(s@ =~= start + t);
    s.append("ip address ");
    proof { t = t + "ip address "@; }
    assert(s@ =~= start + t);
    s.append(format_ip(gateway).as_str());
    proof { t = t + ip_text(gateway); }
    assert(s@ =~= start + t);
    s.append(" ");
    proof { t = t + " "@; }
    assert(s@ =~= start + t);
    s.append(format_ip(mask).as_str());
    proof { t = t + ip_text(mask); }
    assert(s@ =~= start + t);
    s.append("\n");
    proof { t = t + "\n"@; }
    assert(s@ =~= start + t);
    s.append("no shutdown\n");
    proof { t = t + "no shutdown\n"@; }
    assert(s@ =~= start + t);
    s.append("exit\n");
    proof { t = t + "exit\n"@; }
    assert(s@ =~= start + t);
    s.append("exit\n");
    proof { t = t + "exit\n"@; }
    assert(s@ =~= start + t);
    s.append("\n");
    proof { t = t + "\n"@; }
    assert(s@ =~= start + t);
}

fn push_vlan_block(s: &mut String, id: u32, name: &str, gateway: u32, mask: u32)
    ensures
        final(s)@ == old(s)@ + vlan_block_text(id, name@, gateway, mask),
{
    let ghost start = s@;
    push_vlan_header(s, id, name);
    push_vlan_interface(s, id, gateway, mask);
    reveal(vlan_block_text);
    assert(s@ =~= start + vlan_block_text(id, name@, gateway, mask));
}

fn vlan_row(b: Block, cfg: &VlanConfig) -> (row: VlanAllocation)
    requires
        block_fits(b, cfg.required_hosts),
    ensures
        is_vlan_row(row, b, *cfg),
{
    proof {
        vstd::arithmetic::power2::lemma2_to64();
        vstd::arithmetic::power2::lemma2_to64_rest();
        vstd::bits::lemma_u64_pow2_no_overflow(b.host_bits as nat);
        vstd::bits::lemma_u64_shl_is_mul(1u64, b.host_bits as u64);
        vstd::arithmetic::power2::lemma_pow2_strictly_increases(1, b.host_bits as nat);
    }
    let size: u64 = 1u64 << (b.host_bits as u64);
    let end: u64 = b.network as u64 + size;
    let cidr: u32 = 32 - b.host_bits;
    VlanAllocation {
        vlan_id: cfg.vlan_id,
        vlan_name: cfg.vlan_name.clone(),
        network: format_ip(b.network),
        cidr,
        subnet_mask: format_ip(netmask_from_prefix(cidr)),
        gateway: format_ip(b.network + 1),
        first_host: format_ip(b.network + 2),
        last_host: format_ip((end - 2) as u32),
        broadcast: format_ip((end - 1) as u32),
        usable_hosts: (size - 2) as u32,
    }
}

/// Rows and commands for configs placed, in the given order, in `blocks`.
fn place_vlans(vlan_configs: &[VlanConfig], order: &Vec<usize>, blocks: &Vec<Block>) -> (r: (
    Vec<VlanAllocation>,
    String,
))
    requires
        order@.len() == blocks@.len(),
        forall|q: int| 0 <= q < order@.len() ==> #[trigger] order@[q] < vlan_configs@.len(),
        forall|q: int|
            0 <= q < blocks@.len() ==> block_fits(
                #[trigger] blocks@[q],
                configs_in(vlan_configs@, order@)[q].required_hosts,
            ),
    ensures
        r.0@.len() == blocks@.len(),
        forall|q: int|
            0 <= q < blocks@.len() ==> is_vlan_row(
                #[trigger] r.0@[q],
                blocks@[q],
                configs_in(vlan_configs@, order@)[q],
            ),
        r.1@ == vlan_commands(configs_in(vlan_configs@, order@), blocks@),
{
    let ghost sorted = configs_in(vlan_configs@, order@);
    let mut rows: Vec<VlanAllocation> = Vec::new();
    let mut commands = String::new();
    let mut j: usize = 0;
    while j < blocks.len()
        invariant
            sorted == configs_in(vlan_configs@, order@),
            order@.len() == blocks@.len(),
            forall|q: int| 0 <= q < order@.len() ==> #[trigger] order@[q] < vlan_configs@.len(),
            forall|q: int| 0 <= q < blocks@.len() ==> block_fits(#[trigger] blocks@[q], sorted[q].required_hosts),
            j <= blocks@.len(),
            rows@.len() == j,
            forall|q: int| 0 <= q < j ==> is_vlan_row(#[trigger] rows@[q], blocks@[q], sorted[q]),
            commands@ == vlan_commands(sorted, blocks@.take(j as int)),
        decreases blocks@.len() - j,
    {
        let cfg = &vlan_configs[order[j]];
        let b = blocks[j];
        assert(*cfg == sorted[j as int]);
        rows.push(vlan_row(b, cfg));
        proof {
            vstd::arithmetic::power2::lemma2_to64();
            vstd::arithmetic::power2::lemma_pow2_pos(b.host_bits as nat);
        }
        let gateway = b.network + 1;
        let mask = netmask_from_prefix(32 - b.host_bits);
        push_vlan_block(&mut commands, cfg.vlan_id, cfg.vlan_name.as_str(), gateway, mask);
        proof {
            let bs = blocks@.take(j + 1);
            assert(bs.drop_last() =~= blocks@.take(j as int));
            assert(bs[j as int] == b);
        }
        j = j + 1;
    }
    assert(blocks@.take(j as int) =~= blocks@);
    (rows, commands)
}

/// Places each VLAN in its own subnet inside `base_network`/`base_cidr`, as
/// the VLSM allocator does (largest requirement first, equal requirements in
/// their given order), with the first usable address as gateway and the
/// second as first host; also returns the switch commands for all VLANs in
/// allocation order.
pub fn calculate_vlans(base_network: &str, base_cidr: u32, vlan_configs: &[VlanConfig]) -> (r:
    Result<(Vec<VlanAllocation>, String), SubnetError>)
    ensures
        base_cidr > 32 ==> r == Err::<(Vec<VlanAllocation>, String), SubnetError>(
            SubnetError::InvalidPrefix(Some(base_cidr)),
        ),
        base_cidr <= 32 ==> match address_value(base_network@, false) {
            Err(e) => r == Err::<(Vec<VlanAllocation>, String), SubnetError>(e),
            Ok(a) => exists|o: Seq<usize>|
                is_descending_order(requirements(vlan_configs@), o) && vlan_outcome(
                    r,
                    a,
                    base_cidr,
                    configs_in(vlan_configs@, o),
                ),
        },
{
    if base_cidr > MAX_PREFIX {
        return Err(SubnetError::InvalidPrefix(Some(base_cidr)));
    }
    let base = parse_ip(base_network)?;
    let mut keys: Vec<u32> = Vec::new();
    let mut j: usize = 0;
    while j < vlan_configs.len()
        invariant
            j <= vlan_configs@.len(),
            keys@ == requirements(vlan_configs@).take(j as int),
        decreases vlan_configs@.len() - j,
    {
        keys.push(vlan_configs[j].required_hosts);
        j = j + 1;
        assert(keys@ =~= requirements(vlan_configs@).take(j as int));
    }
    assert(keys@ =~= requirements(vlan_configs@));
    let order = descending_order(keys.as_slice());
    let ghost sorted = configs_in(vlan_configs@, order@);
    let mut sorted_keys: Vec<u32> = Vec::new();
    let mut j: usize = 0;
    while j < order.len()
        invariant
            is_descending_order(keys@, order@),
            keys@ == requirements(vlan_configs@),
            sorted == configs_in(vlan_configs@, order@),
            j <= order@.len(),
            sorted_keys@ == requirements(sorted).take(j as int),
        decreases order@.len() - j,
    {
        sorted_keys.push(keys[order[j]]);
        j = j + 1;
        assert(sorted_keys@ =~= requirements(sorted).take(j as int));
    }
    assert(sorted_keys@ =~= requirements(sorted));
    proof {
        lemma_plan_shape(base as nat, sorted_keys@, base_cidr, 0);
    }
    let r = match allocate(base, &sorted_keys, base_cidr) {
        Err(PlanFailure::TooLarge(i)) => {
            let cfg = &vlan_configs[order[i]];
            Err(
                SubnetError::AllocationTooLarge {
                    vlan_id: Some(cfg.vlan_id),
                    required_hosts: cfg.required_hosts,
                    base_cidr,
                },
            )
        },
        Err(PlanFailure::Exhausted(i)) => {
            let cfg = &vlan_configs[order[i]];
            Err(
                SubnetError::AddressSpaceExhausted {
                    vlan_id: Some(cfg.vlan_id),
                    required_hosts: cfg.required_hosts,
                },
            )
        },
        Ok(blocks) => Ok(place_vlans(vlan_configs, &order, &blocks)),
    };
    assert(vlan_outcome(r, base, base_cidr, sorted));
    r
}

/// In every VLAN allocation the gateway is the network address plus one and
/// the first host the network address plus two, and
/// `gateway < first_host <= last_host < broadcast`, all inside the address
/// space (the texts are of these numbers).
pub proof fn lemma_vlan_result(
    r: Result<(Vec<VlanAllocation>, String), SubnetError>,
    base: u32,
    base_cidr: u32,
    sorted: Seq<VlanConfig>,
)
    requires
        sorted.len() <= usize::MAX,
        vlan_outcome(r, base, base_cidr, sorted),
        r is Ok,
    ensures
        forall|i: int| 0 <= i < r->Ok_0.0@.len() ==> {
            let row = #[trigger] r->Ok_0.0@[i];
            let b = plan(base, requirements(sorted), base_cidr)->Ok_0[i];
            let network = b.network as int;
            let gateway = network + 1;
            let first = network + 2;
            let last = network + pow2(b.host_bits as nat) - 2;
            let broadcast = network + pow2(b.host_bits as nat) - 1;
            &&& row.network@ == ip_text(network as u32)
            &&& row.gateway@ == ip_text(gateway as u32)
            &&& row.first_host@ == ip_text(first as u32)
            &&& row.last_host@ == ip_text(last as u32)
            &&& row.broadcast@ == ip_text(broadcast as u32)
            &&& gateway < first <= last < broadcast < pow2(32)
        },
{
    lemma_block_addresses(base, requirements(sorted), base_cidr);
    let bs = plan(base, requirements(sorted), base_cidr)->Ok_0;
    assert forall|i: int| 0 <= i < r->Ok_0.0@.len() implies {
        let row = #[trigger] r->Ok_0.0@[i];
        let b = bs[i];
        let network = b.network as int;
        let gateway = network + 1;
        let first = network + 2;
        let last = network + pow2(b.host_bits as nat) - 2;
        let broadcast = network + pow2(b.host_bits as nat) - 1;
        &&& row.network@ == ip_text(network as u32)
        &&& row.gateway@ == ip_text(gateway as u32)
        &&& row.first_host@ == ip_text(first as u32)
        &&& row.last_host@ == ip_text(last as u32)
        &&& row.broadcast@ == ip_text(broadcast as u32)
        &&& gateway < first <= last < broadcast < pow2(32)
    } by {
        assert(is_vlan_row(r->Ok_0.0@[i], bs[i], sorted[i]));
        assert(bs[i] == plan(base, requirements(sorted), base_cidr)->Ok_0[i]);
    }
}

} // verus!
