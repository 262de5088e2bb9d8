//! Lookups keyed by a pair of names: network-link priorities and keepalive
//! intervals.
use vstd::prelude::*;
use crate::models::{NetworkLink, WireguardKeepalive};

verus! {

/// A pair of names, as text.
pub type NamePair = (Seq<char>, Seq<char>);

/// The map that a list of `(a, b, value)` rows describes; where a pair occurs
/// more than once, the last row wins.
pub open spec fn rows_map(rows: Seq<(String, String, i32)>) -> Map<NamePair, i32>
    decreases rows.len(),
{
    if rows.len() == 0 {
        Map::empty()
    } else {
        let last = rows.last();
        rows_map(rows.drop_last()).insert((last.0@, last.1@), last.2)
    }
}

/// A lookup from a pair of names to an `i32`, built once from rows.
pub struct PairMap {
    rows: Vec<(String, String, i32)>,
}

/// `(network, other_network) -> priority`; a pair that is absent is no path.
pub type NetworkLinksPriorityMap = PairMap;

/// `(source_machine, target_machine) -> interval in seconds`.
pub type WireguardKeepaliveIntervalMap = PairMap;

impl View for PairMap {
    type V = Map<NamePair, i32>;

    closed spec fn view(&self) -> Map<NamePair, i32> {
        rows_map(self.rows@)
    }
}

impl PairMap {
    /// The map of `rows`, later rows overriding earlier ones.
    pub fn from_rows(rows: Vec<(String, String, i32)>) -> (r: PairMap)
        ensures
            r@ == rows_map(rows@),
    {
        PairMap { rows }
    }

    /// The value stored for `(a, b)`, if any.
    pub fn get(&self, a: &String, b: &String) -> (r: Option<i32>)
        ensures
            r == (if self@.contains_key((a@, b@)) {
                Some(self@[(a@, b@)])
            } else {
                None
            }),
    {
        let ghost key = (a@, b@);
        let mut i: usize = self.rows.len();
        proof {
            assert(self.rows@.take(i as int) =~= self.rows@);
        }
        while i > 0
            invariant
                i <= self.rows.len(),
                key == (a@, b@),
                rows_map(self.rows@.take(i as int)).contains_key(key) == self@.contains_key(key),
                self@.contains_key(key) ==> rows_map(self.rows@.take(i as int))[key]
                    == self@[key],
            decreases i,
        {
            let ghost prefix = self.rows@.take(i as int);
            proof {
                assert(prefix.drop_last() =~= self.rows@.take(i - 1));
                assert(prefix.last() == self.rows@[i - 1]);
            }
            i -= 1;
            let row = &self.rows[i];
            if row.0.eq(a) && row.1.eq(b) {
                proof {
                    assert((row.0@, row.1@) == key);
                    assert(rows_map(prefix) == rows_map(self.rows@.take(i as int)).insert(key, row.2));
                }
                return Some(row.2);
            }
            proof {
                assert((row.0@, row.1@) != key);
                assert(rows_map(prefix) == rows_map(self.rows@.take(i as int)).insert(
                    (row.0@, row.1@),
                    row.2,
                ));
            }
        }
        None
    }
}

/// The priority map of the configured network links.
pub fn get_network_links_priority_map(links: &Vec<NetworkLink>) -> (r: NetworkLinksPriorityMap)
    ensures
        r@ == rows_map(links@.map_values(|l: NetworkLink| (l.name, l.other_network, l.priority))),
{
    let mut rows: Vec<(String, String, i32)> = Vec::new();
    let mut i: usize = 0;
    while i < links.len()
        invariant
            i <= links.len(),
            rows@ == links@.take(i as int).map_values(
                |l: NetworkLink| (l.name, l.other_network, l.priority),
            ),
        decreases links.len() - i,
    {
        let l = &links[i];
        rows.push((l.name.clone(), l.other_network.clone(), l.priority));
        proof {
            assert(links@.take(i + 1).map_values(
                |l: NetworkLink| (l.name, l.other_network, l.priority),
            ) =~= links@.take(i as int).map_values(
                |l: NetworkLink| (l.name, l.other_network, l.priority),
            ).push((links@[i as int].name, links@[i as int].other_network, links@[i as int].priority)));
        }
        i += 1;
    }
    proof {
        assert(links@.take(links.len() as int) =~= links@);
    }
    PairMap::from_rows(rows)
}

/// The keepalive map of the configured keepalive settings.
pub fn get_wireguard_keepalive_map(keepalives: &Vec<WireguardKeepalive>) -> (r:
    WireguardKeepaliveIntervalMap)
    ensures
        r@ == rows_map(
            keepalives@.map_values(
                |k: WireguardKeepalive| (k.source_machine, k.target_machine, k.interval_sec),
            ),
        ),
{
    let mut rows: Vec<(String, String, i32)> = Vec::new();
    let mut i: usize = 0;
    while i < keepalives.len()
        invariant
            i <= keepalives.len(),
            rows@ == keepalives@.take(i as int).map_values(
                |k: WireguardKeepalive| (k.source_machine, k.target_machine, k.interval_sec),
            ),
        decreases keepalives.len() - i,
    {
        let k = &keepalives[i];
        rows.push((k.source_machine.clone(), k.target_machine.clone(), k.interval_sec));
        proof {
            assert(keepalives@.take(i + 1).map_values(
                |k: WireguardKeepalive| (k.source_machine, k.target_machine, k.interval_sec),
            ) =~= keepalives@.take(i as int).map_values(
                |k: WireguardKeepalive| (k.source_machine, k.target_machine, k.interval_sec),
            ).push(
                (
                    keepalives@[i as int].source_machine,
                    keepalives@[i as int].target_machine,
                    keepalives@[i as int].interval_sec,
                ),
            ));
        }
        i += 1;
    }
    proof {
        assert(keepalives@.take(keepalives.len() as int) =~= keepalives@);
    }
    PairMap::from_rows(rows)
}

} // verus!
