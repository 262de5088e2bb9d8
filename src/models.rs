//! The inventory records that the core reads.
use vstd::prelude::*;
use crate::ip::{IpAddress, Ipv4Address, Ipv6Address};
use crate::natural::{sort_by_hostname, sorted_by_hostname, Hostnamed};

verus! {

/// An address of a machine on one network.
#[derive(Debug, PartialEq, Eq)]
pub struct MachineAddress {
    pub hostname: String,
    pub network: String,
    pub address: IpAddress,
    pub ssh_port: Option<i32>,
    pub wireguard_port: Option<i32>,
}

/// A host of the inventory, with the addresses it has on each network.
#[derive(Debug, PartialEq, Eq)]
pub struct Machine {
    pub hostname: String,
    pub wireguard_ipv4_address: Option<Ipv4Address>,
    pub wireguard_ipv6_address: Option<Ipv6Address>,
    pub wireguard_port: Option<i32>,
    pub wireguard_privkey: Option<String>,
    pub wireguard_pubkey: Option<String>,
    pub ssh_port: Option<i32>,
    pub ssh_user: Option<String>,
    pub owner: String,
    pub provider_id: Option<i32>,
    pub provider_reference: Option<String>,
    pub networks: Vec<String>,
    pub addresses: Vec<MachineAddress>,
}

/// A persistent-keepalive interval that `source_machine` uses towards
/// `target_machine`.
#[derive(Debug, PartialEq, Eq)]
pub struct WireguardKeepalive {
    pub source_machine: String,
    pub target_machine: String,
    pub interval_sec: i32,
}

/// A named network segment.
#[derive(Debug, PartialEq, Eq)]
pub struct Network {
    pub name: String,
}

/// A permitted path from network `name` to `other_network`; a lower
/// `priority` is preferred.
#[derive(Debug, PartialEq, Eq)]
pub struct NetworkLink {
    pub name: String,
    pub other_network: String,
    pub priority: i32,
}

/// A hosting provider.
#[derive(Debug, PartialEq, Eq)]
pub struct Provider {
    pub id: i32,
    pub name: String,
    pub email: String,
}

impl Hostnamed for Machine {
    open spec fn host(&self) -> Seq<char> {
        self.hostname@
    }

    fn hostname(&self) -> (r: &String) {
        &self.hostname
    }
}

impl Hostnamed for MachineAddress {
    open spec fn host(&self) -> Seq<char> {
        self.hostname@
    }

    fn hostname(&self) -> (r: &String) {
        &self.hostname
    }
}

/// `machines` in natural order of hostname.
pub fn get_sorted_machines(machines: Vec<Machine>) -> (r: Vec<Machine>)
    ensures
        r@.to_multiset() == machines@.to_multiset(),
        sorted_by_hostname(r@),
        sorted_by_hostname(machines@) ==> r@ == machines@,
{
    let mut r = machines;
    sort_by_hostname(&mut r);
    r
}

/// Sorts `addresses` in natural order of hostname.
pub fn sort_addresses(addresses: &mut Vec<MachineAddress>)
    ensures
        final(addresses)@.to_multiset() == old(addresses)@.to_multiset(),
        sorted_by_hostname(final(addresses)@),
        sorted_by_hostname(old(addresses)@) ==> final(addresses)@ == old(addresses)@,
{
    sort_by_hostname(addresses);
}

} // verus!
