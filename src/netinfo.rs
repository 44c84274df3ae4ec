use vstd::prelude::*;
use vstd::arithmetic::power2::{pow2, lemma2_to64, lemma_pow2_pos, lemma_pow2_strictly_increases};
use vstd::bits::{lemma_u32_shl_is_mul, lemma_u32_pow2_no_overflow};
use crate::addr::{
    mask_value, ip_text, address_value, prefix_value, netmask_from_prefix, format_ip,
    parse_ip, parse_ip_lenient, parse_prefix, MAX_PREFIX,
};
use crate::error::SubnetError;
use crate::addr::lemma_low_ones;

verus! {

/// The netmask of prefix `p` as a 32-bit word.
pub open spec fn mask_word(p: u32) -> u32 {
    mask_value(p as nat) as u32
}

/// Network address of `a` under prefix `p`: `a & netmask`.
pub open spec fn network_of(a: u32, p: u32) -> u32 {
    a & mask_word(p)
}

/// Broadcast address of `a` under prefix `p`: `network | !netmask`.
pub open spec fn broadcast_of(a: u32, p: u32) -> u32 {
    network_of(a, p) | !mask_word(p)
}

/// Usable host count that the inspector reports for prefix `p`.
pub open spec fn usable_host_count(p: u32) -> int {
    if p > 30 {
        0
    } else {
        pow2((32 - p) as nat) - 2
    }
}

/// Address class by the first octet.
pub open spec fn class_name(first: nat) -> Seq<char> {
    if first <= 127 {
        "A"@
    } else if first <= 191 {
        "B"@
    } else if first <= 223 {
        "C"@
    } else if first <= 239 {
        "D"@
    } else {
        "E"@
    }
}

/// Whether `a` lies in 10.0.0.0/8, 172.16.0.0/12 or 192.168.0.0/16.
pub open spec fn is_private_addr(a: u32) -> bool {
    let first = a / 0x100_0000;
    let second = (a / 0x1_0000) % 0x100;
    first == 10 || (first == 172 && 16 <= second <= 31) || (first == 192 && second == 168)
}

/// `texts` lists, in ascending order, every address strictly between `low`
/// and `high`.
pub open spec fn lists_between(texts: Seq<String>, low: u32, high: u32) -> bool {
    &&& texts.len() == if high > low + 1 { high - low - 1 } else { 0 }
    &&& forall|i: int| 0 <= i < texts.len() ==> #[trigger] texts[i]@ == ip_text((low + 1 + i) as u32)
}

/// The mask word is the arithmetic netmask, and the block of a prefix spans
/// `2^(32 - p)` addresses from network to broadcast.
pub proof fn lemma_block_span(a: u32, p: u32)
    requires
        p <= 32,
    ensures
        mask_word(p) as int == mask_value(p as nat),
        broadcast_of(a, p) as int == network_of(a, p) + pow2((32 - p) as nat) - 1,
{
    lemma2_to64();
    lemma_pow2_pos((32 - p) as nat);
    if p > 0 {
        lemma_u32_pow2_no_overflow((32 - p) as nat);
    }
    let m = mask_word(p);
    assert((a & m) | !m == (a & m) + !m) by (bit_vector);
    assert(!m == 0xFFFF_FFFFu32 - m) by (bit_vector);
}

/// Lists every usable host address of the subnet of `ip_address` under the
/// prefix written in `subnet_mask`: the addresses strictly between network and
/// broadcast, ascending. Empty address components read as 0.
pub fn calculate_ips(ip_address: &str, subnet_mask: &str) -> (r: Result<Vec<String>, SubnetError>)
    ensures
        match prefix_value(subnet_mask@) {
            Err(e) => r == Err::<Vec<String>, SubnetError>(e),
            Ok(p) => match address_value(ip_address@, true) {
                Err(e) => r == Err::<Vec<String>, SubnetError>(e),
                Ok(a) => r is Ok && lists_between(
                    r->Ok_0@,
                    network_of(a, p),
                    broadcast_of(a, p),
                ),
            },
        },
{
    let p = parse_prefix(subnet_mask)?;
    let a = parse_ip_lenient(ip_address)?;
    let mask = netmask_from_prefix(p);
    let network = a & mask;
    let broadcast = network | !mask;
    assert(network | !mask >= network) by (bit_vector);
    let mut hosts: Vec<String> = Vec::new();
    if broadcast > network {
        let mut ip: u32 = network + 1;
        while ip < broadcast
            invariant
                network < ip <= broadcast,
                hosts@.len() == ip - network - 1,
                forall|i: int| 0 <= i < hosts@.len() ==> #[trigger] hosts@[i]@ == ip_text(
                    (network + 1 + i) as u32,
                ),
            decreases broadcast - ip,
        {
            hosts.push(format_ip(ip));
            ip = ip + 1;
        }
    }
    Ok(hosts)
}

/// Everything the inspector derives for one address and prefix.
pub struct NetworkInfo {
    pub address: String,
    pub netmask: String,
    pub wildcard: String,
    pub network: String,
    pub broadcast: String,
    pub hostmin: String,
    pub hostmax: String,
    pub hosts: u32,
    pub ip_class: String,
    pub is_private: bool,
}

/// `info` is what the inspector reports for address `a` under prefix `p`.
pub open spec fn describes(info: NetworkInfo, a: u32, p: u32) -> bool {
    let network = network_of(a, p);
    let broadcast = broadcast_of(a, p);
    &&& info.address@ == ip_text(a)
    &&& info.netmask@ == ip_text(mask_word(p))
    &&& info.wildcard@ == ip_text(!mask_word(p))
    &&& info.network@ == ip_text(network)
    &&& info.broadcast@ == ip_text(broadcast)
    &&& info.hostmin@ == ip_text(network.wrapping_add(1))
    &&& info.hostmax@ == ip_text(broadcast.wrapping_sub(1))
    &&& info.hosts == usable_host_count(p)
    &&& info.ip_class@ == class_name((a / 0x100_0000) as nat)
    &&& info.is_private == is_private_addr(a)
}

fn host_count(p: u32) -> (n: u32)
    requires
        p <= MAX_PREFIX,
    ensures
        n == usable_host_count(p),
{
    proof {
        lemma2_to64();
    }
    if p > 30 {
        0
    } else if p == 0 {
        0xFFFF_FFFE
    } else {
        let k: u32 = 32 - p;
        proof {
            lemma_u32_pow2_no_overflow(k as nat);
            lemma_u32_shl_is_mul(1u32, k);
            lemma_pow2_strictly_increases(1, k as nat);
        }
        (1u32 << k) - 2
    }
}

fn class_of(first: u32) -> (r: String)
    ensures
        r@ == class_name(first as nat),
{
    if first <= 127 {
        "A".to_owned()
    } else if first <= 191 {
        "B".to_owned()
    } else if first <= 223 {
        "C".to_owned()
    } else if first <= 239 {
        "D".to_owned()
    } else {
        "E".to_owned()
    }
}

/// Derives netmask, wildcard, network, broadcast, host range, usable host
/// count, class and private-range membership of `ip` under the prefix written
/// in `bits`. Every address component must be a number.
pub fn calculate_ip_info(ip: &str, bits: &str) -> (r: Result<NetworkInfo, SubnetError>)
    ensures
        match prefix_value(bits@) {
            Err(e) => r == Err::<NetworkInfo, SubnetError>(e),
            Ok(p) => match address_value(ip@, false) {
                Err(e) => r == Err::<NetworkInfo, SubnetError>(e),
                Ok(a) => r is Ok && describes(r->Ok_0, a, p),
            },
        },
{
    let p = parse_prefix(bits)?;
    let a = parse_ip(ip)?;
    let netmask = netmask_from_prefix(p);
    let wildcard = !netmask;
    let network = a & netmask;
    let broadcast = network | wildcard;
    let first = a / 0x100_0000;
    let second = (a / 0x1_0000) % 0x100;
    let is_private = first == 10 || (first == 172 && 16 <= second && second <= 31) || (first
        == 192 && second == 168);
    Ok(NetworkInfo {
        address: format_ip(a),
        netmask: format_ip(netmask),
        wildcard: format_ip(wildcard),
        network: format_ip(network),
        broadcast: format_ip(broadcast),
        hostmin: format_ip(network.wrapping_add(1)),
        hostmax: format_ip(broadcast.wrapping_sub(1)),
        hosts: host_count(p),
        ip_class: class_of(first),
        is_private,
    })
}

/// The netmask of prefix `p` has exactly `p` leading one-bits and `32 - p`
/// trailing zero-bits: bit `i` (counted from the least significant) is set
/// exactly when `i >= 32 - p`.
pub proof fn lemma_netmask_bits(p: u32)
    requires
        p <= 32,
    ensures
        forall|i: u32| i < 32 ==> ((#[trigger] (mask_word(p) >> i) & 1u32) == 1u32 <==> i >= 32 - p),
{
    lemma2_to64();
    if p == 0 {
        lemma_pow2_pos(32);
        assert(mask_word(p) == 0);
        assert forall|i: u32| i < 32 implies ((#[trigger] (mask_word(p) >> i) & 1u32) == 1u32 <==> i >= 32 - p) by {
            assert((0u32 >> i) & 1u32 == 0u32) by (bit_vector);
        }
    } else {
        let k: u32 = (32 - p) as u32;
        lemma_low_ones(k);
        lemma_u32_pow2_no_overflow(k as nat);
        let m: u32 = !(((1u32 << k) - 1) as u32);
        assert(mask_word(p) == m);
        assert forall|i: u32| i < 32 implies ((#[trigger] (mask_word(p) >> i) & 1u32) == 1u32 <==> i >= 32 - p) by {
            assert(((!(((1u32 << k) - 1) as u32) >> i) & 1u32) == 1u32 <==> i >= k) by (bit_vector)
                requires
                    k < 32,
                    i < 32,
            ;
        }
    }
}

/// The network address of `a` is at most `a`, and `a` is at most its
/// broadcast address.
pub proof fn lemma_network_bounds(a: u32, p: u32)
    requires
        p <= 32,
    ensures
        network_of(a, p) <= a <= broadcast_of(a, p),
{
    let m = mask_word(p);
    assert(a & m <= a) by (bit_vector);
    assert(a <= (a & m) | !m) by (bit_vector);
}

/// The enumerator lists as many addresses as the inspector counts usable
/// hosts: `2^(32 - p) - 2` below /31, none for /31 and /32.
pub proof fn lemma_enumeration_count(a: u32, p: u32, texts: Seq<String>)
    requires
        p <= 32,
        lists_between(texts, network_of(a, p), broadcast_of(a, p)),
    ensures
        texts.len() == usable_host_count(p),
        texts.len() == if p < 31 { pow2((32 - p) as nat) - 2 } else { 0 },
{
    lemma_block_span(a, p);
    lemma2_to64();
    if p < 31 {
        lemma_pow2_strictly_increases(1, (32 - p) as nat);
    }
}

} // verus!
