use infrabase::ip::{IpAddress, Ipv4Address, Ipv6Address};
use infrabase::links::{get_network_links_priority_map, get_wireguard_keepalive_map, PairMap};
use infrabase::models::{get_sorted_machines, sort_addresses, Machine, MachineAddress, NetworkLink, WireguardKeepalive};
use infrabase::natural::compare_hostnames;
use infrabase::paths::get_network_to_network;
use infrabase::peers::{
    get_ssh_targets, get_wireguard_interface, get_wireguard_peers, sort_wireguard_peers,
    InventoryError, SshTarget, WireguardPeer,
};
use std::cmp::Ordering;

fn s(x: &str) -> String {
    x.to_string()
}

fn v4(a: u8, b: u8, c: u8, d: u8) -> Ipv4Address {
    Ipv4Address::new(a, b, c, d)
}

fn v6(last: u16) -> Ipv6Address {
    Ipv6Address::new(0xfd00, 0, 0, 0, 0, 0, 0, last)
}

fn address(host: &str, network: &str, ip: Ipv4Address, ssh: Option<i32>, wg: Option<i32>) -> MachineAddress {
    MachineAddress {
        hostname: s(host),
        network: s(network),
        address: IpAddress::V4(ip),
        ssh_port: ssh,
        wireguard_port: wg,
    }
}

fn machine(host: &str, n: u8, networks: &[&str], addresses: Vec<MachineAddress>) -> Machine {
    Machine {
        hostname: s(host),
        wireguard_ipv4_address: Some(v4(10, 0, 0, n)),
        wireguard_ipv6_address: Some(v6(n as u16)),
        wireguard_port: Some(51820),
        wireguard_privkey: Some(format!("priv-{}", host)),
        wireguard_pubkey: Some(format!("pub-{}", host)),
        ssh_port: Some(22),
        ssh_user: Some(s("root")),
        owner: s("ops"),
        provider_id: None,
        provider_reference: None,
        networks: networks.iter().map(|x| s(x)).collect(),
        addresses,
    }
}

fn link(a: &str, b: &str, priority: i32) -> NetworkLink {
    NetworkLink { name: s(a), other_network: s(b), priority }
}

fn pairs(v: &[(&str, &str)]) -> Vec<(String, String)> {
    v.iter().map(|(a, b)| (s(a), s(b))).collect()
}

fn two_machines() -> Vec<Machine> {
    vec![
        machine("a", 1, &["public"], vec![address("a", "public", v4(203, 0, 113, 1), Some(22), Some(51820))]),
        machine("b", 2, &["vpn"], vec![address("b", "vpn", v4(172, 16, 0, 2), Some(2222), Some(51820))]),
    ]
}

#[test]
fn public_to_vpn_link_gives_endpoint() {
    let links = get_network_links_priority_map(&vec![link("public", "vpn", 1)]);
    let machines = two_machines();
    let resolved = get_network_to_network(&links, &machines[0].networks, &machines[1].addresses);
    assert_eq!(resolved, pairs(&[("public", "vpn")]));

    let keepalives = get_wireguard_keepalive_map(&vec![]);
    let peers = get_wireguard_peers(&machines, &links, &keepalives, &s("a")).unwrap();
    assert_eq!(peers.len(), 1);
    assert_eq!(peers[0].hostname, "b");
    assert_eq!(peers[0].endpoint, Some((IpAddress::V4(v4(172, 16, 0, 2)), 51820)));
    assert_eq!(peers[0].keepalive, None);
    assert_eq!(peers[0].wireguard_pubkey, "pub-b");
}

#[test]
fn ssh_falls_back_to_wireguard_address_without_link() {
    let links = get_network_links_priority_map(&vec![link("public", "other", 1)]);
    let machines = two_machines();
    let resolved = get_network_to_network(&links, &machines[0].networks, &machines[1].addresses);
    assert!(resolved.is_empty());
    let targets = get_ssh_targets(&machines, &links, &s("a")).unwrap();
    let b = targets.iter().find(|t| t.hostname == "b").unwrap();
    assert_eq!(b.address, IpAddress::V4(v4(10, 0, 0, 2)));
    assert_eq!(b.port, 22);
}

#[test]
fn ssh_prefers_resolved_address_and_its_port() {
    let links = get_network_links_priority_map(&vec![link("public", "vpn", 1), link("public", "public", 5)]);
    let machines = two_machines();
    let targets = get_ssh_targets(&machines, &links, &s("a")).unwrap();
    assert_eq!(
        targets,
        vec![SshTarget { hostname: s("b"), owner: s("ops"), address: IpAddress::V4(v4(172, 16, 0, 2)), port: 2222 }]
    );
}

#[test]
fn ssh_leaves_out_machine_without_port() {
    let links = get_network_links_priority_map(&vec![]);
    let mut machines = two_machines();
    machines[1].ssh_port = None;
    let targets = get_ssh_targets(&machines, &links, &s("a")).unwrap();
    assert!(targets.is_empty());
    let targets = get_ssh_targets(&machines, &links, &s("b")).unwrap();
    assert_eq!(targets.len(), 1);
    assert_eq!(targets[0].hostname, "a");
}

#[test]
fn ssh_targets_leave_out_the_requester() {
    let links = get_network_links_priority_map(&vec![]);
    let machines = vec![machine("a", 1, &["public"], vec![])];
    assert_eq!(get_ssh_targets(&machines, &links, &s("a")), Ok(vec![]));
}

#[test]
fn machine_without_public_key_is_no_peer() {
    let links = get_network_links_priority_map(&vec![link("public", "vpn", 1)]);
    let mut machines = two_machines();
    let mut c = machine("c", 3, &["vpn"], vec![address("c", "vpn", v4(172, 16, 0, 3), None, Some(51820))]);
    c.wireguard_pubkey = None;
    machines.push(c);
    let keepalives = get_wireguard_keepalive_map(&vec![]);
    let peers = get_wireguard_peers(&machines, &links, &keepalives, &s("a")).unwrap();
    let names: Vec<&str> = peers.iter().map(|p| p.hostname.as_str()).collect();
    assert_eq!(names, vec!["b"]);
    let peers = get_wireguard_peers(&machines, &links, &keepalives, &s("b")).unwrap();
    let names: Vec<&str> = peers.iter().map(|p| p.hostname.as_str()).collect();
    assert_eq!(names, vec!["a"]);
}

#[test]
fn resolve_sorts_by_priority_and_keeps_ties_in_order() {
    let links = get_network_links_priority_map(&vec![
        link("a", "x", 2),
        link("a", "y", 1),
        link("b", "x", 1),
        link("b", "y", 0),
        link("c", "z", 0),
    ]);
    let dest = vec![
        address("d", "x", v4(1, 1, 1, 1), None, None),
        address("d", "y", v4(1, 1, 1, 2), None, None),
        address("d", "x", v4(1, 1, 1, 3), None, None),
    ];
    let resolved = get_network_to_network(&links, &vec![s("a"), s("b"), s("c")], &dest);
    assert_eq!(resolved, pairs(&[("b", "y"), ("a", "y"), ("b", "x"), ("a", "x")]));
    // The same input gives the same answer.
    assert_eq!(get_network_to_network(&links, &vec![s("a"), s("b"), s("c")], &dest), resolved);
}

#[test]
fn resolve_is_empty_without_networks() {
    let links = get_network_links_priority_map(&vec![link("a", "x", 2)]);
    let dest = vec![address("d", "x", v4(1, 1, 1, 1), None, None)];
    assert!(get_network_to_network(&links, &vec![], &dest).is_empty());
    assert!(get_network_to_network(&links, &vec![s("a")], &vec![]).is_empty());
}

#[test]
fn later_link_row_overrides_earlier() {
    let links = get_network_links_priority_map(&vec![link("a", "x", 2), link("a", "x", 7)]);
    assert_eq!(links.get(&s("a"), &s("x")), Some(7));
    assert_eq!(links.get(&s("x"), &s("a")), None);
    let m = PairMap::from_rows(vec![(s("p"), s("q"), 3)]);
    assert_eq!(m.get(&s("p"), &s("q")), Some(3));
}

#[test]
fn keepalive_is_attached_in_its_direction() {
    let links = get_network_links_priority_map(&vec![]);
    let machines = two_machines();
    let keepalives = get_wireguard_keepalive_map(&vec![WireguardKeepalive {
        source_machine: s("a"),
        target_machine: s("b"),
        interval_sec: 25,
    }]);
    let peers = get_wireguard_peers(&machines, &links, &keepalives, &s("a")).unwrap();
    assert_eq!(peers[0].keepalive, Some(25));
    assert_eq!(peers[0].endpoint, None);
    let peers = get_wireguard_peers(&machines, &links, &keepalives, &s("b")).unwrap();
    assert_eq!(peers[0].keepalive, None);
}

#[test]
fn endpoint_needs_a_wireguard_port() {
    let links = get_network_links_priority_map(&vec![link("public", "vpn", 1)]);
    let mut machines = two_machines();
    machines[1].addresses[0].wireguard_port = None;
    let keepalives = get_wireguard_keepalive_map(&vec![]);
    let peers = get_wireguard_peers(&machines, &links, &keepalives, &s("a")).unwrap();
    assert_eq!(peers.len(), 1);
    assert_eq!(peers[0].endpoint, None);
}

#[test]
fn unknown_machine_is_an_error() {
    let links = get_network_links_priority_map(&vec![]);
    let keepalives = get_wireguard_keepalive_map(&vec![]);
    let machines = two_machines();
    assert_eq!(
        get_wireguard_peers(&machines, &links, &keepalives, &s("zz")),
        Err(InventoryError::NoSuchMachine)
    );
    assert_eq!(get_ssh_targets(&machines, &links, &s("zz")), Err(InventoryError::NoSuchMachine));
    assert_eq!(get_wireguard_interface(&machines, &s("zz")), Err(InventoryError::NoSuchMachine));
}

#[test]
fn endpoint_port_out_of_range_is_an_error() {
    let links = get_network_links_priority_map(&vec![link("public", "vpn", 1)]);
    let mut machines = two_machines();
    machines[1].addresses[0].wireguard_port = Some(70000);
    let keepalives = get_wireguard_keepalive_map(&vec![]);
    assert_eq!(
        get_wireguard_peers(&machines, &links, &keepalives, &s("a")),
        Err(InventoryError::PortOutOfRange)
    );
}

#[test]
fn interface_needs_wireguard() {
    let mut machines = two_machines();
    let iface = get_wireguard_interface(&machines, &s("a")).unwrap();
    assert_eq!(iface.wireguard_ipv4_address, v4(10, 0, 0, 1));
    assert_eq!(iface.wireguard_ipv6_address, v6(1));
    assert_eq!(iface.wireguard_privkey, "priv-a");
    assert_eq!(iface.wireguard_port, 51820);
    machines[0].wireguard_ipv6_address = None;
    assert_eq!(get_wireguard_interface(&machines, &s("a")), Err(InventoryError::MachineHasNoWireguard));
}

fn peer(host: &str) -> WireguardPeer {
    WireguardPeer {
        hostname: s(host),
        wireguard_pubkey: s("k"),
        wireguard_ipv4_address: v4(10, 0, 0, 1),
        wireguard_ipv6_address: v6(1),
        endpoint: None,
        keepalive: None,
    }
}

#[test]
fn peers_sort_naturally_and_sorting_again_changes_nothing() {
    let mut peers = vec![peer("host10"), peer("host2"), peer("host1"), peer("alpha")];
    sort_wireguard_peers(&mut peers);
    let names: Vec<&str> = peers.iter().map(|p| p.hostname.as_str()).collect();
    assert_eq!(names, vec!["alpha", "host1", "host2", "host10"]);
    let once: Vec<String> = peers.iter().map(|p| p.hostname.clone()).collect();
    sort_wireguard_peers(&mut peers);
    let twice: Vec<String> = peers.iter().map(|p| p.hostname.clone()).collect();
    assert_eq!(once, twice);
}

#[test]
fn natural_order_of_hostnames() {
    assert_eq!(compare_hostnames(&s("host2"), &s("host10")), Ordering::Less);
    assert_eq!(compare_hostnames(&s("host10"), &s("host2")), Ordering::Greater);
    // Naturally equal names are told apart by plain text order.
    assert_eq!(compare_hostnames(&s("host02"), &s("host2")), Ordering::Less);
    assert_eq!(compare_hostnames(&s("host2"), &s("host02")), Ordering::Greater);
    assert_eq!(compare_hostnames(&s("a1b"), &s("a1c")), Ordering::Less);
    assert_eq!(compare_hostnames(&s("a1"), &s("a1b")), Ordering::Less);
    // A number against text goes where plain text order puts it.
    assert_eq!(compare_hostnames(&s("10"), &s("9a")), Ordering::Greater);
    assert_eq!(compare_hostnames(&s("-x"), &s("1")), Ordering::Less);
    assert_eq!(compare_hostnames(&s("1abc"), &s("abc")), Ordering::Less);
    assert_eq!(compare_hostnames(&s("abc"), &s("1abc")), Ordering::Greater);
    assert_eq!(compare_hostnames(&s("x"), &s("x")), Ordering::Equal);
}

#[test]
fn machines_and_addresses_sort_by_hostname() {
    let machines = vec![machine("web10", 1, &[], vec![]), machine("web9", 2, &[], vec![])];
    let sorted = get_sorted_machines(machines);
    assert_eq!(sorted[0].hostname, "web9");
    assert_eq!(sorted[1].hostname, "web10");
    let mut addrs = vec![
        address("n20", "x", v4(1, 1, 1, 1), None, None),
        address("n3", "x", v4(1, 1, 1, 2), None, None),
    ];
    sort_addresses(&mut addrs);
    assert_eq!(addrs[0].hostname, "n3");
}
