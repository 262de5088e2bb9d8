//! WireGuard peer lists and SSH routes between the machines of the inventory.
use vstd::prelude::*;
use crate::ip::{IpAddress, Ipv4Address, Ipv6Address};
use crate::links::{NamePair, NetworkLinksPriorityMap, WireguardKeepaliveIntervalMap};
use crate::models::{Machine, MachineAddress};
use crate::natural::{sort_by_hostname, sorted_by_hostname, Hostnamed};
use crate::paths::{best_pair, candidate_pairs, get_network_to_network, names, pairs_view};

verus! {

/// Why a command on the inventory cannot be carried out.
#[derive(Clone, Copy, Debug, PartialEq, Eq)]
pub enum InventoryError {
    /// The requested hostname is not in the inventory.
    NoSuchMachine,
    /// The machine lacks a WireGuard address, key or port.
    MachineHasNoWireguard,
    /// Every address of the configured range is taken.
    NoAddressAvailable,
    /// A stored port does not fit in 0..=65535.
    PortOutOfRange,
    /// The address to remove is not in the inventory.
    NoSuchAddress,
}

/// One `[Peer]` of a machine's WireGuard configuration.
#[derive(Debug, PartialEq, Eq)]
pub struct WireguardPeer {
    pub hostname: String,
    pub wireguard_pubkey: String,
    pub wireguard_ipv4_address: Ipv4Address,
    pub wireguard_ipv6_address: Ipv6Address,
    pub endpoint: Option<(IpAddress, u16)>,
    pub keepalive: Option<i32>,
}

/// Where to reach a machine over SSH.
#[derive(Debug, PartialEq, Eq)]
pub struct SshTarget {
    pub hostname: String,
    pub owner: String,
    pub address: IpAddress,
    pub port: i32,
}

/// The `[Interface]` part of a machine's WireGuard configuration.
#[derive(Debug, PartialEq, Eq)]
pub struct WireguardInterface {
    pub wireguard_ipv4_address: Ipv4Address,
    pub wireguard_ipv6_address: Ipv6Address,
    pub wireguard_privkey: String,
    pub wireguard_port: i32,
}

/// The index of the first machine named `h`.
pub open spec fn find_machine(machines: Seq<Machine>, h: Seq<char>) -> Option<int>
    decreases machines.len(),
{
    if machines.len() == 0 {
        None
    } else {
        match find_machine(machines.drop_last(), h) {
            Some(i) => Some(i),
            None => if machines.last().hostname@ == h {
                Some(machines.len() - 1)
            } else {
                None
            },
        }
    }
}

/// The index of the first address of `addrs` on network `net`.
pub open spec fn first_on_network(addrs: Seq<MachineAddress>, net: Seq<char>) -> Option<int>
    decreases addrs.len(),
{
    if addrs.len() == 0 {
        None
    } else {
        match first_on_network(addrs.drop_last(), net) {
            Some(i) => Some(i),
            None => if addrs.last().network@ == net {
                Some(addrs.len() - 1)
            } else {
                None
            },
        }
    }
}

/// The address of `c` on the destination network of the best path from the
/// networks `src`; `None` when no path is admitted.
pub open spec fn path_address(m: Map<NamePair, i32>, src: Seq<Seq<char>>, c: Machine) -> Option<
    MachineAddress,
> {
    match best_pair(candidate_pairs(m, src, c.addresses@), m) {
        None => None,
        Some(pair) => match first_on_network(c.addresses@, pair.1) {
            Some(i) => Some(c.addresses@[i]),
            None => None,
        },
    }
}

/// A port number that fits the protocol range.
pub open spec fn port_fits(p: i32) -> bool {
    0 <= p <= 65535
}

/// The WireGuard endpoint of `c` as seen from the networks `src`: the address
/// on the best path and its WireGuard port, when it has one.
pub open spec fn endpoint_of(m: Map<NamePair, i32>, src: Seq<Seq<char>>, c: Machine) -> Option<
    (IpAddress, u16),
> {
    match path_address(m, src, c) {
        Some(a) => match a.wireguard_port {
            Some(p) => Some((a.address, p as u16)),
            None => None,
        },
        None => None,
    }
}

/// The endpoint of `c` would carry a port outside 0..=65535.
pub open spec fn endpoint_port_bad(m: Map<NamePair, i32>, src: Seq<Seq<char>>, c: Machine) -> bool {
    match path_address(m, src, c) {
        Some(a) => match a.wireguard_port {
            Some(p) => !port_fits(p),
            None => false,
        },
        None => false,
    }
}

/// `c` has the WireGuard addresses and public key that a peer needs.
pub open spec fn has_wireguard(c: Machine) -> bool {
    &&& c.wireguard_ipv4_address is Some
    &&& c.wireguard_ipv6_address is Some
    &&& c.wireguard_pubkey is Some
}

/// The peer that `c` is for machine `me`, whose networks are `src`.
pub open spec fn peer_of(
    m: Map<NamePair, i32>,
    k: Map<NamePair, i32>,
    me: Seq<char>,
    src: Seq<Seq<char>>,
    c: Machine,
) -> WireguardPeer {
    WireguardPeer {
        hostname: c.hostname,
        wireguard_pubkey: c.wireguard_pubkey.unwrap(),
        wireguard_ipv4_address: c.wireguard_ipv4_address.unwrap(),
        wireguard_ipv6_address: c.wireguard_ipv6_address.unwrap(),
        endpoint: endpoint_of(m, src, c),
        keepalive: if k.contains_key((me, c.hostname@)) {
            Some(k[(me, c.hostname@)])
        } else {
            None
        },
    }
}

/// The peers of machine `me` among `machines`, in their order: every other
/// machine that has WireGuard.
pub open spec fn expected_peers(
    machines: Seq<Machine>,
    m: Map<NamePair, i32>,
    k: Map<NamePair, i32>,
    me: Seq<char>,
    src: Seq<Seq<char>>,
) -> Seq<WireguardPeer>
    decreases machines.len(),
{
    if machines.len() == 0 {
        Seq::empty()
    } else {
        let p = expected_peers(machines.drop_last(), m, k, me, src);
        let c = machines.last();
        if c.hostname@ != me && has_wireguard(c) {
            p.push(peer_of(m, k, me, src, c))
        } else {
            p
        }
    }
}

/// A machine without a WireGuard public key is in no peer list: when no
/// machine named `h` has a public key, no peer is named `h`.
pub proof fn lemma_no_public_key_no_peer(
    machines: Seq<Machine>,
    m: Map<NamePair, i32>,
    k: Map<NamePair, i32>,
    me: Seq<char>,
    src: Seq<Seq<char>>,
    h: Seq<char>,
)
    requires
        forall|j: int|
            0 <= j < machines.len() && (#[trigger] machines[j]).hostname@ == h
                ==> machines[j].wireguard_pubkey is None,
    ensures
        forall|t: int|
            0 <= t < expected_peers(machines, m, k, me, src).len()
                ==> (#[trigger] expected_peers(machines, m, k, me, src)[t]).hostname@ != h,
    decreases machines.len(),
{
    if machines.len() > 0 {
        let p = machines.drop_last();
        assert forall|j: int| 0 <= j < p.len() && (#[trigger] p[j]).hostname@ == h
            implies p[j].wireguard_pubkey is None by {
            assert(p[j] == machines[j]);
        }
        lemma_no_public_key_no_peer(p, m, k, me, src, h);
        assert(machines.last() == machines[machines.len() - 1]);
    }
}

/// Some machine other than `me` has an endpoint port outside 0..=65535.
pub open spec fn some_port_bad(
    machines: Seq<Machine>,
    m: Map<NamePair, i32>,
    me: Seq<char>,
    src: Seq<Seq<char>>,
) -> bool {
    exists|j: int|
        0 <= j < machines.len() && machines[j].hostname@ != me && #[trigger] endpoint_port_bad(
            m,
            src,
            machines[j],
        )
}

/// The SSH address and port of `c` as seen from the networks `src`: the
/// address on the best path with its SSH port, or else the WireGuard IPv4
/// address with the machine's SSH port.
pub open spec fn ssh_route(m: Map<NamePair, i32>, src: Seq<Seq<char>>, c: Machine) -> (
    Option<IpAddress>,
    Option<i32>,
) {
    match path_address(m, src, c) {
        Some(a) => (Some(a.address), a.ssh_port),
        None => (
            match c.wireguard_ipv4_address {
                Some(v4) => Some(IpAddress::V4(v4)),
                None => None,
            },
            c.ssh_port,
        ),
    }
}

/// The SSH targets of machine `me` among `machines`, in their order: every
/// other machine, leaving out those with no address or no port.
pub open spec fn expected_ssh_targets(
    machines: Seq<Machine>,
    m: Map<NamePair, i32>,
    me: Seq<char>,
    src: Seq<Seq<char>>,
) -> Seq<SshTarget>
    decreases machines.len(),
{
    if machines.len() == 0 {
        Seq::empty()
    } else {
        let p = expected_ssh_targets(machines.drop_last(), m, me, src);
        let c = machines.last();
        if c.hostname@ == me {
            p
        } else {
            match ssh_route(m, src, c) {
                (Some(address), Some(port)) => p.push(
                    SshTarget { hostname: c.hostname, owner: c.owner, address, port },
                ),
                _ => p,
            }
        }
    }
}

/// The index of the first machine named `hostname`.
pub fn find_machine_index(machines: &Vec<Machine>, hostname: &String) -> (r: Option<usize>)
    ensures
        match r {
            Some(i) => find_machine(machines@, hostname@) == Some(i as int),
            None => find_machine(machines@, hostname@) is None,
        },
{
    let mut i: usize = 0;
    while i < machines.len()
        invariant
            i <= machines.len(),
            find_machine(machines@.take(i as int), hostname@) is None,
        decreases machines.len() - i,
    {
        proof {
            assert(machines@.take(i + 1).drop_last() =~= machines@.take(i as int));
        }
        if machines[i].hostname.eq(hostname) {
            proof {
                lemma_find_machine_prefix(machines@, hostname@, i + 1);
            }
            return Some(i);
        }
        i += 1;
    }
    proof {
        assert(machines@.take(machines.len() as int) =~= machines@);
    }
    None
}

/// A hit in a prefix is the hit in the whole list.
proof fn lemma_find_machine_prefix(machines: Seq<Machine>, h: Seq<char>, n: int)
    requires
        0 <= n <= machines.len(),
        find_machine(machines.take(n), h) is Some,
    ensures
        find_machine(machines, h) == find_machine(machines.take(n), h),
    decreases machines.len(),
{
    if n < machines.len() {
        assert(machines.drop_last().take(n) =~= machines.take(n));
        lemma_find_machine_prefix(machines.drop_last(), h, n);
    } else {
        assert(machines.take(n) =~= machines);
    }
}

/// A hit in a prefix is the hit in the whole list.
proof fn lemma_first_on_network_prefix(addrs: Seq<MachineAddress>, net: Seq<char>, n: int)
    requires
        0 <= n <= addrs.len(),
        first_on_network(addrs.take(n), net) is Some,
    ensures
        first_on_network(addrs, net) == first_on_network(addrs.take(n), net),
    decreases addrs.len(),
{
    if n < addrs.len() {
        assert(addrs.drop_last().take(n) =~= addrs.take(n));
        lemma_first_on_network_prefix(addrs.drop_last(), net, n);
    } else {
        assert(addrs.take(n) =~= addrs);
    }
}

/// The index of the first address of `addrs` on network `net`.
fn address_on_network(addrs: &Vec<MachineAddress>, net: &String) -> (r: Option<usize>)
    ensures
        match r {
            Some(i) => first_on_network(addrs@, net@) == Some(i as int),
            None => first_on_network(addrs@, net@) is None,
        },
{
    let mut i: usize = 0;
    while i < addrs.len()
        invariant
            i <= addrs.len(),
            first_on_network(addrs@.take(i as int), net@) is None,
        decreases addrs.len() - i,
    {
        proof {
            assert(addrs@.take(i + 1).drop_last() =~= addrs@.take(i as int));
        }
        if addrs[i].network.eq(net) {
            proof {
                lemma_first_on_network_prefix(addrs@, net@, i + 1);
            }
            return Some(i);
        }
        i += 1;
    }
    proof {
        assert(addrs@.take(addrs.len() as int) =~= addrs@);
    }
    None
}

/// The index, among the addresses of `c`, of the address on the best path
/// from the networks `source_networks`.
fn get_path_address(
    network_links_priority_map: &NetworkLinksPriorityMap,
    source_networks: &Vec<String>,
    c: &Machine,
) -> (r: Option<usize>)
    ensures
        match r {
            Some(i) => i < c.addresses@.len() && path_address(
                network_links_priority_map@,
                names(source_networks@),
                *c,
            ) == Some(c.addresses@[i as int]),
            None => path_address(network_links_priority_map@, names(source_networks@), *c) is None,
        },
{
    let pairs = get_network_to_network(network_links_priority_map, source_networks, &c.addresses);
    if pairs.len() == 0 {
        None
    } else {
        let r = address_on_network(&c.addresses, &pairs[0].1);
        proof {
            assert(pairs_view(pairs@)[0] == (pairs@[0].0@, pairs@[0].1@));
            if let Some(i) = r {
                lemma_first_on_network_bound(c.addresses@, pairs@[0].1@);
            }
        }
        r
    }
}

proof fn lemma_first_on_network_bound(addrs: Seq<MachineAddress>, net: Seq<char>)
    ensures
        first_on_network(addrs, net) matches Some(i) ==> 0 <= i < addrs.len() && addrs[i].network@
            == net,
    decreases addrs.len(),
{
    if addrs.len() > 0 {
        lemma_first_on_network_bound(addrs.drop_last(), net);
    }
}

/// The WireGuard peers of machine `for_machine`, in the order of `machines`:
/// every other machine that has both WireGuard addresses and a public key.
/// Paths are resolved from the networks of `for_machine`; the keepalive is
/// the one configured from `for_machine` to the peer.
///
/// Fails with `NoSuchMachine` when no machine has that hostname, and with
/// `PortOutOfRange` when an endpoint port of another machine does not fit
/// in 0..=65535.
pub fn get_wireguard_peers(
    machines: &Vec<Machine>,
    network_links_priority_map: &NetworkLinksPriorityMap,
    keepalives_map: &WireguardKeepaliveIntervalMap,
    for_machine: &String,
) -> (r: Result<Vec<WireguardPeer>, InventoryError>)
    ensures
        match find_machine(machines@, for_machine@) {
            None => r == Err::<Vec<WireguardPeer>, InventoryError>(InventoryError::NoSuchMachine),
            Some(s) => {
                let src = names(machines@[s].networks@);
                &&& some_port_bad(machines@, network_links_priority_map@, for_machine@, src) ==> r
                    == Err::<Vec<WireguardPeer>, InventoryError>(InventoryError::PortOutOfRange)
                &&& !some_port_bad(machines@, network_links_priority_map@, for_machine@, src) ==> (
                r matches Ok(peers) && peers@ == expected_peers(
                    machines@,
                    network_links_priority_map@,
                    keepalives_map@,
                    for_machine@,
                    src,
                ))
            },
        },
{
    let si = match find_machine_index(machines, for_machine) {
        Some(si) => si,
        None => {
            return Err(InventoryError::NoSuchMachine);
        },
    };
    proof {
        lemma_find_machine_bound(machines@, for_machine@);
    }
    let source_networks = &machines[si].networks;
    let ghost src = names(source_networks@);
    let mut peers: Vec<WireguardPeer> = Vec::new();
    let mut i: usize = 0;
    while i < machines.len()
        invariant
            i <= machines.len(),
            si < machines.len(),
            find_machine(machines@, for_machine@) == Some(si as int),
            source_networks == machines@[si as int].networks,
            src == names(source_networks@),
            peers@ == expected_peers(machines@.take(i as int), network_links_priority_map@, keepalives_map@, for_machine@, src),
            forall|j: int|
                0 <= j < i && machines@[j].hostname@ != for_machine@ ==> !#[trigger] endpoint_port_bad(
                    network_links_priority_map@,
                    src,
                    machines@[j],
                ),
        decreases machines.len() - i,
    {
        proof {
            assert(machines@.take(i + 1).drop_last() =~= machines@.take(i as int));
        }
        let c = &machines[i];
        if !c.hostname.eq(for_machine) {
            let mut endpoint: Option<(IpAddress, u16)> = None;
            if let Some(ai) = get_path_address(network_links_priority_map, source_networks, c) {
                let a = &c.addresses[ai];
                if let Some(port) = a.wireguard_port {
                    if 0 <= port && port <= 65535 {
                        endpoint = Some((a.address, port as u16));
                    } else {
                        proof {
                            assert(machines@[i as int].hostname@ != for_machine@);
                            assert(endpoint_port_bad(network_links_priority_map@, src, machines@[i as int]));
                            assert(some_port_bad(machines@, network_links_priority_map@, for_machine@, src));
                        }
                        return Err(InventoryError::PortOutOfRange);
                    }
                }
            }
            assert(endpoint == endpoint_of(network_links_priority_map@, src, *c));
            match (&c.wireguard_ipv4_address, &c.wireguard_ipv6_address, &c.wireguard_pubkey) {
                (Some(v4), Some(v6), Some(pubkey)) => {
                    let keepalive = keepalives_map.get(for_machine, &c.hostname);
                    peers.push(
                        WireguardPeer {
                            hostname: c.hostname.clone(),
                            wireguard_pubkey: pubkey.clone(),
                            wireguard_ipv4_address: *v4,
                            wireguard_ipv6_address: *v6,
                            endpoint,
                            keepalive,
                        },
                    );
                },
                _ => {},
            }
        }
        i += 1;
    }
    proof {
        assert(machines@.take(machines.len() as int) =~= machines@);
    }
    Ok(peers)
}

proof fn lemma_find_machine_bound(machines: Seq<Machine>, h: Seq<char>)
    ensures
        find_machine(machines, h) matches Some(i) ==> 0 <= i < machines.len()
            && machines[i].hostname@ == h,
    decreases machines.len(),
{
    if machines.len() > 0 {
        lemma_find_machine_bound(machines.drop_last(), h);
    }
}

/// Where `for_machine` reaches each other machine of `machines` over SSH, in the order of `machines`. The address on the best path from
/// the networks of `for_machine` is preferred, with its SSH port; when no path
/// is admitted, the WireGuard IPv4 address with the machine's SSH port. A
/// machine left without address or port is left out.
///
/// Fails with `NoSuchMachine` when no machine has that hostname.
pub fn get_ssh_targets(
    machines: &Vec<Machine>,
    network_links_priority_map: &NetworkLinksPriorityMap,
    for_machine: &String,
) -> (r: Result<Vec<SshTarget>, InventoryError>)
    ensures
        match find_machine(machines@, for_machine@) {
            None => r == Err::<Vec<SshTarget>, InventoryError>(InventoryError::NoSuchMachine),
            Some(s) => r matches Ok(targets) && targets@ == expected_ssh_targets(
                machines@,
                network_links_priority_map@,
                for_machine@,
                names(machines@[s].networks@),
            ),
        },
{
    let si = match find_machine_index(machines, for_machine) {
        Some(si) => si,
        None => {
            return Err(InventoryError::NoSuchMachine);
        },
    };
    proof {
        lemma_find_machine_bound(machines@, for_machine@);
    }
    let source_networks = &machines[si].networks;
    let ghost src = names(source_networks@);
    let mut targets: Vec<SshTarget> = Vec::new();
    let mut i: usize = 0;
    while i < machines.len()
        invariant
            i <= machines.len(),
            si < machines.len(),
            source_networks == machines@[si as int].networks,
            src == names(source_networks@),
            targets@ == expected_ssh_targets(
                machines@.take(i as int),
                network_links_priority_map@,
                for_machine@,
                src,
            ),
        decreases machines.len() - i,
    {
        proof {
            assert(machines@.take(i + 1).drop_last() =~= machines@.take(i as int));
        }
        let c = &machines[i];
        if !c.hostname.eq(for_machine) {
            let (address, port) = match get_path_address(network_links_priority_map, source_networks, c) {
                Some(ai) => {
                    let a = &c.addresses[ai];
                    (Some(a.address), a.ssh_port)
                },
                None => (
                    match c.wireguard_ipv4_address {
                        Some(v4) => Some(IpAddress::V4(v4)),
                        None => None,
                    },
                    c.ssh_port,
                ),
            };
            assert((address, port) == ssh_route(network_links_priority_map@, src, *c));
            match (address, port) {
                (Some(address), Some(port)) => {
                    targets.push(
                        SshTarget {
                            hostname: c.hostname.clone(),
                            owner: c.owner.clone(),
                            address,
                            port,
                        },
                    );
                },
                _ => {},
            }
        }
        i += 1;
    }
    proof {
        assert(machines@.take(machines.len() as int) =~= machines@);
    }
    Ok(targets)
}

/// The `[Interface]` settings of machine `for_machine`.
///
/// Fails with `NoSuchMachine` when no machine has that hostname, and with
/// `MachineHasNoWireguard` when it lacks a WireGuard IPv4 or IPv6 address, a
/// private key or a port.
pub fn get_wireguard_interface(machines: &Vec<Machine>, for_machine: &String) -> (r: Result<
    WireguardInterface,
    InventoryError,
>)
    ensures
        match find_machine(machines@, for_machine@) {
            None => r == Err::<WireguardInterface, InventoryError>(InventoryError::NoSuchMachine),
            Some(s) => {
                let c = machines@[s];
                match (
                    c.wireguard_ipv4_address,
                    c.wireguard_ipv6_address,
                    c.wireguard_privkey,
                    c.wireguard_port,
                ) {
                    (Some(v4), Some(v6), Some(privkey), Some(port)) => r == Ok::<
                        WireguardInterface,
                        InventoryError,
                    >(
                        WireguardInterface {
                            wireguard_ipv4_address: v4,
                            wireguard_ipv6_address: v6,
                            wireguard_privkey: privkey,
                            wireguard_port: port,
                        },
                    ),
                    _ => r == Err::<WireguardInterface, InventoryError>(
                        InventoryError::MachineHasNoWireguard,
                    ),
                }
            },
        },
{
    let si = match find_machine_index(machines, for_machine) {
        Some(si) => si,
        None => {
            return Err(InventoryError::NoSuchMachine);
        },
    };
    proof {
        lemma_find_machine_bound(machines@, for_machine@);
    }
    let c = &machines[si];
    match (&c.wireguard_ipv4_address, &c.wireguard_ipv6_address, &c.wireguard_privkey, c.wireguard_port) {
        (Some(v4), Some(v6), Some(privkey), Some(port)) => Ok(
            WireguardInterface {
                wireguard_ipv4_address: *v4,
                wireguard_ipv6_address: *v6,
                wireguard_privkey: privkey.clone(),
                wireguard_port: port,
            },
        ),
        _ => Err(InventoryError::MachineHasNoWireguard),
    }
}

impl Hostnamed for WireguardPeer {
    open spec fn host(&self) -> Seq<char> {
        self.hostname@
    }

    fn hostname(&self) -> (r: &String) {
        &self.hostname
    }
}

/// Sorts `peers` in natural order of hostname (`host2` before `host10`). A
/// list already in that order is left as it is, so sorting is idempotent.
pub fn sort_wireguard_peers(peers: &mut Vec<WireguardPeer>)
    ensures
        final(peers)@.to_multiset() == old(peers)@.to_multiset(),
        sorted_by_hostname(final(peers)@),
        sorted_by_hostname(old(peers)@) ==> final(peers)@ == old(peers)@,
{
    sort_by_hostname(peers);
}

} // verus!
