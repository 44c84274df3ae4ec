use subnet_calc::addr::{format_ip, netmask_from_prefix, parse_ip, parse_ip_lenient, parse_prefix};
use subnet_calc::error::SubnetError;
use subnet_calc::netinfo::{calculate_ip_info, calculate_ips};
use subnet_calc::order::descending_order;
use subnet_calc::reference::generate_subnet_references;
use subnet_calc::text::decimal_text;
use subnet_calc::vlan::{calculate_vlans, VlanConfig};
use subnet_calc::vlsm::calculate_vlsm_subnets;

fn vlan(id: u32, name: &str, hosts: u32) -> VlanConfig {
    VlanConfig { vlan_id: id, vlan_name: name.to_string(), required_hosts: hosts }
}

#[test]
fn inspect_class_c_private_network() {
    let info = calculate_ip_info("192.168.1.10", "24").unwrap();
    assert_eq!(info.address, "192.168.1.10");
    assert_eq!(info.netmask, "255.255.255.0");
    assert_eq!(info.wildcard, "0.0.0.255");
    assert_eq!(info.network, "192.168.1.0");
    assert_eq!(info.broadcast, "192.168.1.255");
    assert_eq!(info.hostmin, "192.168.1.1");
    assert_eq!(info.hostmax, "192.168.1.254");
    assert_eq!(info.hosts, 254);
    assert_eq!(info.ip_class, "C");
    assert!(info.is_private);
}

#[test]
fn enumerate_slash_30() {
    let ips = calculate_ips("10.0.0.0", "30").unwrap();
    assert_eq!(ips, vec!["10.0.0.1".to_string(), "10.0.0.2".to_string()]);
}

#[test]
fn vlsm_three_requirements() {
    let subnets = calculate_vlsm_subnets("192.168.1.0", 24, &[50, 20, 10]).unwrap();
    assert_eq!(subnets.len(), 3);
    assert_eq!(subnets[0].required_hosts, 50);
    assert_eq!(subnets[0].cidr, 26);
    assert_eq!(subnets[0].usable_hosts, 62);
    assert_eq!(subnets[0].network, "192.168.1.0");
    assert_eq!(subnets[0].subnet_mask, "255.255.255.192");
    assert_eq!(subnets[0].first_host, "192.168.1.1");
    assert_eq!(subnets[0].last_host, "192.168.1.62");
    assert_eq!(subnets[0].broadcast, "192.168.1.63");
    assert_eq!(subnets[1].required_hosts, 20);
    assert_eq!(subnets[1].cidr, 27);
    assert_eq!(subnets[1].usable_hosts, 30);
    assert_eq!(subnets[1].network, "192.168.1.64");
    assert_eq!(subnets[1].broadcast, "192.168.1.95");
    assert_eq!(subnets[2].required_hosts, 10);
    assert_eq!(subnets[2].cidr, 28);
    assert_eq!(subnets[2].usable_hosts, 14);
    assert_eq!(subnets[2].network, "192.168.1.96");
    assert_eq!(subnets[2].broadcast, "192.168.1.111");
}

#[test]
fn reference_table_ends() {
    let rows = generate_subnet_references();
    assert_eq!(rows.len(), 16);
    assert_eq!(rows[0].cidr, "/31");
    assert_eq!(rows[0].total_hosts, 2);
    assert_eq!(rows[0].usable_hosts, 2);
    assert_eq!(rows[0].subnet_mask, "255.255.255.254");
    assert_eq!(rows[1].cidr, "/30");
    assert_eq!(rows[1].total_hosts, 4);
    assert_eq!(rows[1].usable_hosts, 2);
    assert_eq!(rows[15].cidr, "/16");
    assert_eq!(rows[15].total_hosts, 65536);
    assert_eq!(rows[15].usable_hosts, 65534);
    assert_eq!(rows[15].subnet_mask, "255.255.0.0");
}

#[test]
fn inspect_rejects_large_octet() {
    assert_eq!(calculate_ip_info("300.1.1.1", "24").err(), Some(SubnetError::InvalidOctet(Some(300))));
}

#[test]
fn parse_then_format_gives_text_back() {
    for text in ["0.0.0.0", "10.20.30.40", "255.255.255.255", "192.168.100.7"] {
        let a = parse_ip(text).unwrap();
        assert_eq!(format_ip(a), text);
    }
    assert_eq!(parse_ip("10.20.30.40"), Ok(0x0A14_1E28));
}

#[test]
fn netmask_has_prefix_leading_ones() {
    assert_eq!(netmask_from_prefix(0), 0);
    assert_eq!(netmask_from_prefix(1), 0x8000_0000);
    assert_eq!(netmask_from_prefix(24), 0xFFFF_FF00);
    assert_eq!(netmask_from_prefix(31), 0xFFFF_FFFE);
    assert_eq!(netmask_from_prefix(32), 0xFFFF_FFFF);
    for p in 0..=32u32 {
        let m = netmask_from_prefix(p);
        assert_eq!(m.leading_ones(), p);
        assert_eq!(m.trailing_zeros(), 32 - p);
    }
}

#[test]
fn address_lies_between_network_and_broadcast() {
    let info = calculate_ip_info("172.20.5.77", "12").unwrap();
    assert_eq!(info.network, "172.16.0.0");
    assert_eq!(info.broadcast, "172.31.255.255");
    assert_eq!(info.ip_class, "B");
    assert!(info.is_private);
    let info = calculate_ip_info("8.8.8.8", "32").unwrap();
    assert_eq!(info.network, "8.8.8.8");
    assert_eq!(info.broadcast, "8.8.8.8");
    assert_eq!(info.hosts, 0);
}

#[test]
fn enumeration_count_matches_host_count() {
    assert_eq!(calculate_ips("192.168.0.77", "28").unwrap().len(), 14);
    assert_eq!(calculate_ip_info("192.168.0.77", "28").unwrap().hosts, 14);
    assert_eq!(calculate_ips("192.168.0.77", "24").unwrap().len(), 254);
    assert_eq!(calculate_ips("192.168.0.77", "31").unwrap().len(), 0);
    assert_eq!(calculate_ips("192.168.0.77", "32").unwrap().len(), 0);
    assert_eq!(calculate_ips("255.255.255.255", "32").unwrap().len(), 0);
    let ips = calculate_ips("192.168.0.77", "28").unwrap();
    assert_eq!(ips[0], "192.168.0.65");
    assert_eq!(ips[13], "192.168.0.78");
}

#[test]
fn vlsm_sorts_and_keeps_blocks_apart() {
    let subnets = calculate_vlsm_subnets("10.0.0.0", 16, &[10, 500, 2, 60]).unwrap();
    let required: Vec<u32> = subnets.iter().map(|s| s.required_hosts).collect();
    assert_eq!(required, vec![500, 60, 10, 2]);
    let networks: Vec<&str> = subnets.iter().map(|s| s.network.as_str()).collect();
    assert_eq!(networks, vec!["10.0.0.0", "10.0.2.0", "10.0.2.64", "10.0.2.80"]);
    let cidrs: Vec<u32> = subnets.iter().map(|s| s.cidr).collect();
    assert_eq!(cidrs, vec![23, 26, 28, 30]);
    for s in &subnets {
        assert!(s.usable_hosts >= s.required_hosts);
    }
    assert_eq!(subnets[3].broadcast, "10.0.2.83");
}

#[test]
fn vlsm_unaligned_base_rounds_down() {
    let subnets = calculate_vlsm_subnets("192.168.1.10", 24, &[50, 20]).unwrap();
    assert_eq!(subnets[0].network, "192.168.1.0");
    assert_eq!(subnets[1].network, "192.168.1.64");
}

#[test]
fn vlsm_smallest_block_is_slash_30() {
    let subnets = calculate_vlsm_subnets("10.1.1.0", 24, &[1, 0]).unwrap();
    assert_eq!(subnets[0].cidr, 30);
    assert_eq!(subnets[0].usable_hosts, 2);
    assert_eq!(subnets[1].cidr, 30);
    assert_eq!(subnets[1].network, "10.1.1.4");
}

#[test]
fn vlsm_errors() {
    assert_eq!(
        calculate_vlsm_subnets("192.168.1.0", 24, &[300]).err(),
        Some(SubnetError::AllocationTooLarge { vlan_id: None, required_hosts: 300, base_cidr: 24 })
    );
    assert_eq!(
        calculate_vlsm_subnets("192.168.1.0", 33, &[3]).err(),
        Some(SubnetError::InvalidPrefix(Some(33)))
    );
    assert_eq!(
        calculate_vlsm_subnets("192.168.1", 24, &[3]).err(),
        Some(SubnetError::InvalidAddress)
    );
    assert_eq!(
        calculate_vlsm_subnets("192.168..0", 24, &[3]).err(),
        Some(SubnetError::InvalidAddress)
    );
    assert_eq!(
        calculate_vlsm_subnets("255.255.255.0", 24, &[100, 100, 100]).err(),
        Some(SubnetError::AddressSpaceExhausted { vlan_id: None, required_hosts: 100 })
    );
    assert_eq!(
        calculate_vlsm_subnets("0.0.0.0", 0, &[u32::MAX]).err(),
        Some(SubnetError::AllocationTooLarge { vlan_id: None, required_hosts: u32::MAX, base_cidr: 0 })
    );
    assert!(calculate_vlsm_subnets("10.0.0.0", 8, &[]).unwrap().is_empty());
}

#[test]
fn vlsm_whole_address_space() {
    let subnets = calculate_vlsm_subnets("1.2.3.4", 0, &[4_000_000_000]).unwrap();
    assert_eq!(subnets[0].cidr, 0);
    assert_eq!(subnets[0].network, "0.0.0.0");
    assert_eq!(subnets[0].broadcast, "255.255.255.255");
    assert_eq!(subnets[0].usable_hosts, 4_294_967_294);
    assert_eq!(subnets[0].subnet_mask, "0.0.0.0");
}

#[test]
fn vlan_gateway_and_hosts() {
    let configs = vec![vlan(10, "Sales", 20), vlan(20, "Engineering", 100), vlan(30, "Guests", 20)];
    let (allocs, commands) = calculate_vlans("10.0.0.0", 24, &configs).unwrap();
    let ids: Vec<u32> = allocs.iter().map(|a| a.vlan_id).collect();
    assert_eq!(ids, vec![20, 10, 30]);
    assert_eq!(allocs[0].vlan_name, "Engineering");
    assert_eq!(allocs[0].network, "10.0.0.0");
    assert_eq!(allocs[0].cidr, 25);
    assert_eq!(allocs[0].gateway, "10.0.0.1");
    assert_eq!(allocs[0].first_host, "10.0.0.2");
    assert_eq!(allocs[0].last_host, "10.0.0.126");
    assert_eq!(allocs[0].broadcast, "10.0.0.127");
    assert_eq!(allocs[0].usable_hosts, 126);
    assert_eq!(allocs[1].network, "10.0.0.128");
    assert_eq!(allocs[1].gateway, "10.0.0.129");
    assert_eq!(allocs[1].first_host, "10.0.0.130");
    assert_eq!(allocs[2].network, "10.0.0.160");
    assert_eq!(allocs[2].subnet_mask, "255.255.255.224");
    let first_block = "! Configuration for VLAN 20 - Engineering\nenable\nconfigure terminal\nvlan 20\nname Engineering\nexit\ninterface vlan 20\nip address 10.0.0.1 255.255.255.128\nno shutdown\nexit\nexit\n\n";
    assert!(commands.starts_with(first_block));
    let second_block = "! Configuration for VLAN 10 - Sales\nenable\nconfigure terminal\nvlan 10\nname Sales\nexit\ninterface vlan 10\nip address 10.0.0.129 255.255.255.224\nno shutdown\nexit\nexit\n\n";
    assert_eq!(&commands[first_block.len()..first_block.len() + second_block.len()], second_block);
    assert!(commands.ends_with("ip address 10.0.0.161 255.255.255.224\nno shutdown\nexit\nexit\n\n"));
}

#[test]
fn vlan_errors() {
    let configs = vec![vlan(7, "Big", 1000)];
    assert_eq!(
        calculate_vlans("10.0.0.0", 24, &configs).err(),
        Some(SubnetError::AllocationTooLarge { vlan_id: Some(7), required_hosts: 1000, base_cidr: 24 })
    );
    assert_eq!(
        calculate_vlans("10.0.0.x", 24, &configs).err(),
        Some(SubnetError::InvalidOctet(None))
    );
    let (allocs, commands) = calculate_vlans("10.0.0.0", 24, &[]).unwrap();
    assert!(allocs.is_empty());
    assert_eq!(commands, "");
}

#[test]
fn enumerator_is_lenient_inspector_is_not() {
    assert_eq!(calculate_ips("10.0.0.", "30").unwrap(), vec!["10.0.0.1", "10.0.0.2"]);
    assert_eq!(parse_ip_lenient("10..0."), Ok(0x0A00_0000));
    assert_eq!(calculate_ip_info("10.0.0.", "30").err(), Some(SubnetError::InvalidAddress));
    assert_eq!(parse_ip("10..0.1"), Err(SubnetError::InvalidAddress));
}

#[test]
fn input_errors() {
    assert_eq!(calculate_ips("10.0.0.1", "abc").err(), Some(SubnetError::InvalidPrefix(None)));
    assert_eq!(calculate_ips("10.0.0.1", "33").err(), Some(SubnetError::InvalidPrefix(Some(33))));
    assert_eq!(calculate_ips("10.0.0", "24").err(), Some(SubnetError::InvalidAddress));
    assert_eq!(calculate_ips("10.0.0.0.1", "24").err(), Some(SubnetError::InvalidAddress));
    assert_eq!(calculate_ips("10.0.0.256", "24").err(), Some(SubnetError::InvalidOctet(Some(256))));
    assert_eq!(calculate_ips("10.0.-1.0", "24").err(), Some(SubnetError::InvalidOctet(None)));
    assert_eq!(calculate_ip_info("1.2.3.4", "").err(), Some(SubnetError::InvalidPrefix(None)));
    assert_eq!(calculate_ip_info("1.2.3.99999999999", "8").err(), Some(SubnetError::InvalidOctet(None)));
    assert_eq!(calculate_ip_info("1.2.3.4294967295", "8").err(), Some(SubnetError::InvalidOctet(Some(4294967295))));
    assert_eq!(calculate_ip_info("bad", "99").err(), Some(SubnetError::InvalidPrefix(Some(99))));
    assert_eq!(calculate_ip_info("1.2.3.é", "8").err(), Some(SubnetError::InvalidOctet(None)));
}

#[test]
fn numbers_read_like_u32_text() {
    assert_eq!(parse_prefix("+24"), Ok(24));
    assert_eq!(parse_prefix("024"), Ok(24));
    assert_eq!(parse_prefix("+"), Err(SubnetError::InvalidPrefix(None)));
    assert_eq!(parse_prefix(" 24"), Err(SubnetError::InvalidPrefix(None)));
    assert_eq!(parse_prefix("4294967296"), Err(SubnetError::InvalidPrefix(None)));
    assert_eq!(parse_ip("+1.02.3.4"), Ok(0x0102_0304));
}

#[test]
fn inspector_edges() {
    let info = calculate_ip_info("255.255.255.255", "32").unwrap();
    assert_eq!(info.hostmin, "0.0.0.0");
    assert_eq!(info.hostmax, "255.255.255.254");
    let info = calculate_ip_info("0.0.0.0", "32").unwrap();
    assert_eq!(info.hostmax, "255.255.255.255");
    let info = calculate_ip_info("77.1.2.3", "0").unwrap();
    assert_eq!(info.netmask, "0.0.0.0");
    assert_eq!(info.wildcard, "255.255.255.255");
    assert_eq!(info.network, "0.0.0.0");
    assert_eq!(info.broadcast, "255.255.255.255");
    assert_eq!(info.hosts, 4_294_967_294);
    assert_eq!(info.ip_class, "A");
    assert!(!info.is_private);
    assert_eq!(calculate_ip_info("10.1.1.1", "8").unwrap().hosts, 16_777_214);
    assert_eq!(calculate_ip_info("172.15.0.1", "16").unwrap().is_private, false);
    assert_eq!(calculate_ip_info("172.32.0.1", "16").unwrap().is_private, false);
    assert_eq!(calculate_ip_info("192.169.0.1", "16").unwrap().is_private, false);
    assert_eq!(calculate_ip_info("224.0.0.1", "4").unwrap().ip_class, "D");
    assert_eq!(calculate_ip_info("240.0.0.1", "4").unwrap().ip_class, "E");
    assert_eq!(calculate_ip_info("223.255.0.1", "4").unwrap().ip_class, "C");
    assert_eq!(calculate_ip_info("128.0.0.1", "4").unwrap().ip_class, "B");
}

#[test]
fn descending_order_is_stable() {
    assert_eq!(descending_order(&[3, 9, 3, 1, 9]), vec![1, 4, 0, 2, 3]);
    assert!(descending_order(&[]).is_empty());
}

#[test]
fn decimal_text_digits() {
    assert_eq!(decimal_text(0), "0");
    assert_eq!(decimal_text(123), "123");
    assert_eq!(decimal_text(u32::MAX), "4294967295");
}
