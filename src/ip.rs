//! IPv4 / IPv6 addresses as fixed-width digit arrays, their successor, and the
//! allocator that picks the first free address of a range.
use vstd::prelude::*;
use crate::digits::{
    digits_in_range, digits_value, lemma_digits_bound, lemma_digits_take_succ, lemma_digits_update,
    lemma_digits_zero, place,
};

verus! {

/// Octets read as base-256 digits.
pub open spec fn octet_digits(o: Seq<u8>) -> Seq<int> {
    o.map_values(|x: u8| x as int)
}

/// Segments read as base-65536 digits.
pub open spec fn segment_digits(s: Seq<u16>) -> Seq<int> {
    s.map_values(|x: u16| x as int)
}

/// The largest IPv4 address, 255.255.255.255, as a number.
pub open spec fn ipv4_max() -> int {
    0xffff_ffff
}

/// The largest IPv6 address, all segments 0xffff, as a number.
pub open spec fn ipv6_max() -> int {
    0xffff_ffff_ffff_ffff_ffff_ffff_ffff_ffff
}

proof fn lemma_places()
    ensures
        place(256, 4) == ipv4_max() + 1,
        place(65536, 8) == ipv6_max() + 1,
{
    reveal_with_fuel(place, 9);
}

/// An IPv4 address, most significant octet first.
#[derive(Clone, Copy, Debug, PartialEq, Eq, Hash)]
pub struct Ipv4Address {
    pub octets: [u8; 4],
}

/// An IPv6 address, most significant segment first.
#[derive(Clone, Copy, Debug, PartialEq, Eq, Hash)]
pub struct Ipv6Address {
    pub segments: [u16; 8],
}

/// An address of either family.
#[derive(Clone, Copy, Debug, PartialEq, Eq, Hash)]
pub enum IpAddress {
    V4(Ipv4Address),
    V6(Ipv6Address),
}

impl View for Ipv4Address {
    /// The address as an unsigned number.
    type V = int;

    open spec fn view(&self) -> int {
        digits_value(octet_digits(self.octets@), 256)
    }
}

impl View for Ipv6Address {
    /// The address as an unsigned number.
    type V = int;

    open spec fn view(&self) -> int {
        digits_value(segment_digits(self.segments@), 65536)
    }
}

proof fn lemma_ipv4_range(a: Ipv4Address)
    ensures
        0 <= a@ <= ipv4_max(),
{
    let d = octet_digits(a.octets@);
    assert(digits_in_range(d, 256));
    lemma_digits_bound(d, 256);
    lemma_places();
}

proof fn lemma_ipv6_range(a: Ipv6Address)
    ensures
        0 <= a@ <= ipv6_max(),
{
    let d = segment_digits(a.segments@);
    assert(digits_in_range(d, 65536));
    lemma_digits_bound(d, 65536);
    lemma_places();
}

impl Ipv4Address {
    /// The address `a.b.c.d`.
    pub fn new(a: u8, b: u8, c: u8, d: u8) -> (r: Ipv4Address)
        ensures
            r.octets@ == seq![a, b, c, d],
            r@ == a * 16777216 + b * 65536 + c * 256 + d,
    {
        let r = Ipv4Address { octets: [a, b, c, d] };
        proof {
            assert(r.octets@ =~= seq![a, b, c, d]);
            let dd = octet_digits(r.octets@);
            lemma_digits_take_succ(dd, 256, 0);
            lemma_digits_take_succ(dd, 256, 1);
            lemma_digits_take_succ(dd, 256, 2);
            lemma_digits_take_succ(dd, 256, 3);
            assert(dd.take(4) =~= dd);
            assert(dd.take(0).len() == 0);
        }
        r
    }

    /// The address as a 32-bit number.
    pub fn to_bits(&self) -> (r: u32)
        ensures
            r as int == self@,
    {
        let o = self.octets;
        proof {
            let dd = octet_digits(o@);
            lemma_digits_take_succ(dd, 256, 0);
            lemma_digits_take_succ(dd, 256, 1);
            lemma_digits_take_succ(dd, 256, 2);
            lemma_digits_take_succ(dd, 256, 3);
            assert(dd.take(4) =~= dd);
            assert(dd.take(0).len() == 0);
        }
        ((o[0] as u32 * 256 + o[1] as u32) * 256 + o[2] as u32) * 256 + o[3] as u32
    }
}

impl Ipv6Address {
    /// The address with these eight segments.
    pub fn new(a: u16, b: u16, c: u16, d: u16, e: u16, f: u16, g: u16, h: u16) -> (r:
        Ipv6Address)
        ensures
            r.segments@ == seq![a, b, c, d, e, f, g, h],
    {
        let r = Ipv6Address { segments: [a, b, c, d, e, f, g, h] };
        assert(r.segments@ =~= seq![a, b, c, d, e, f, g, h]);
        r
    }

    /// The address as a 128-bit number.
    pub fn to_bits(&self) -> (r: u128)
        ensures
            r as int == self@,
    {
        let s = self.segments;
        proof {
            let dd = segment_digits(s@);
            lemma_digits_take_succ(dd, 65536, 0);
            lemma_digits_take_succ(dd, 65536, 1);
            lemma_digits_take_succ(dd, 65536, 2);
            lemma_digits_take_succ(dd, 65536, 3);
            lemma_digits_take_succ(dd, 65536, 4);
            lemma_digits_take_succ(dd, 65536, 5);
            lemma_digits_take_succ(dd, 65536, 6);
            lemma_digits_take_succ(dd, 65536, 7);
            assert(dd.take(8) =~= dd);
            assert(dd.take(0).len() == 0);
        }
        let mut acc: u128 = s[0] as u128;
        acc = acc * 65536 + s[1] as u128;
        acc = acc * 65536 + s[2] as u128;
        acc = acc * 65536 + s[3] as u128;
        acc = acc * 65536 + s[4] as u128;
        acc = acc * 65536 + s[5] as u128;
        acc = acc * 65536 + s[6] as u128;
        acc = acc * 65536 + s[7] as u128;
        acc
    }
}

/// The numerically next IPv4 address, carrying from octet to octet; `None`
/// for 255.255.255.255, which has no successor.
pub fn increment_ipv4_address(ip: &Ipv4Address) -> (r: Option<Ipv4Address>)
    ensures
        ip@ == ipv4_max() <==> r is None,
        r matches Some(n) ==> n@ == ip@ + 1,
{
    let mut octets = ip.octets;
    let mut i: usize = 4;
    let mut carry = true;
    proof {
        lemma_places();
    }
    while carry && i > 0
        invariant
            i <= 4,
            carry ==> forall|k: int| i <= k < 4 ==> octets[k] == 0 && ip.octets[k] == 255,
            carry ==> forall|k: int| 0 <= k < i ==> octets[k] == ip.octets[k],
            carry ==> digits_value(octet_digits(octets@), 256) == ip@ - place(
                256,
                (4 - i) as nat,
            ) + 1,
            !carry ==> digits_value(octet_digits(octets@), 256) == ip@ + 1,
        decreases i,
    {
        i -= 1;
        let ghost before = octets;
        if octets[i] < 255 {
            octets[i] = octets[i] + 1;
            carry = false;
        } else {
            octets[i] = 0;
        }
        proof {
            let db = octet_digits(before@);
            assert(octet_digits(octets@) =~= db.update(i as int, octets[i as int] as int));
            lemma_digits_update(db, 256, i as int, octets[i as int] as int);
            let p = place(256, (3 - i) as nat);
            assert(db[i as int] == before[i as int] as int);
            assert(place(256, (4 - i) as nat) == 256 * p);
            if carry {
                let delta = octets[i as int] as int - db[i as int];
                assert(delta == -255);
                assert(delta * p == -255 * p) by (nonlinear_arith)
                    requires
                        delta == -255,
                ;
                assert(digits_value(db, 256) + delta * p == ip@ - 256 * p + 1);
            } else {
                let delta = octets[i as int] as int - db[i as int];
                assert(delta == 1);
                assert(delta * p == p) by (nonlinear_arith)
                    requires
                        delta == 1,
                ;
            }
        }
    }
    proof {
        lemma_ipv4_range(Ipv4Address { octets });
    }
    if carry {
        proof {
            lemma_digits_zero(octet_digits(octets@), 256);
        }
        None
    } else {
        Some(Ipv4Address { octets })
    }
}

/// The numerically next IPv6 address, carrying from segment to segment;
/// `None` for the all-ones address, which has no successor.
pub fn increment_ipv6_address(ip: &Ipv6Address) -> (r: Option<Ipv6Address>)
    ensures
        ip@ == ipv6_max() <==> r is None,
        r matches Some(n) ==> n@ == ip@ + 1,
{
    let mut segments = ip.segments;
    let mut i: usize = 8;
    let mut carry = true;
    proof {
        lemma_places();
    }
    while carry && i > 0
        invariant
            i <= 8,
            carry ==> forall|k: int| i <= k < 8 ==> segments[k] == 0 && ip.segments[k] == 0xffff,
            carry ==> forall|k: int| 0 <= k < i ==> segments[k] == ip.segments[k],
            carry ==> digits_value(segment_digits(segments@), 65536) == ip@ - place(
                65536,
                (8 - i) as nat,
            ) + 1,
            !carry ==> digits_value(segment_digits(segments@), 65536) == ip@ + 1,
        decreases i,
    {
        i -= 1;
        let ghost before = segments;
        if segments[i] < 0xffff {
            segments[i] = segments[i] + 1;
            carry = false;
        } else {
            segments[i] = 0;
        }
        proof {
            let db = segment_digits(before@);
            assert(segment_digits(segments@) =~= db.update(i as int, segments[i as int] as int));
            lemma_digits_update(db, 65536, i as int, segments[i as int] as int);
            let p = place(65536, (7 - i) as nat);
            assert(db[i as int] == before[i as int] as int);
            assert(place(65536, (8 - i) as nat) == 65536 * p);
            if carry {
                let delta = segments[i as int] as int - db[i as int];
                assert(delta == -65535);
                assert(delta * p == -65535 * p) by (nonlinear_arith)
                    requires
                        delta == -65535,
                ;
                assert(digits_value(db, 65536) + delta * p == ip@ - 65536 * p + 1);
            } else {
                let delta = segments[i as int] as int - db[i as int];
                assert(delta == 1);
                assert(delta * p == p) by (nonlinear_arith)
                    requires
                        delta == 1,
                ;
            }
        }
    }
    proof {
        lemma_ipv6_range(Ipv6Address { segments });
    }
    if carry {
        proof {
            lemma_digits_zero(segment_digits(segments@), 65536);
        }
        None
    } else {
        Some(Ipv6Address { segments })
    }
}

/// Some address of `existing` has the number `v`.
pub open spec fn ipv4_in_use(existing: Seq<Ipv4Address>, v: int) -> bool {
    exists|k: int| 0 <= k < existing.len() && (#[trigger] existing[k])@ == v
}

/// Whether an address of `existing` has the number `bits`.
fn ipv4_address_in_use(existing: &Vec<Ipv4Address>, bits: u32) -> (r: bool)
    ensures
        r == ipv4_in_use(existing@, bits as int),
{
    let mut i: usize = 0;
    while i < existing.len()
        invariant
            i <= existing.len(),
            forall|k: int| 0 <= k < i ==> (#[trigger] existing@[k])@ != bits as int,
        decreases existing.len() - i,
    {
        if existing[i].to_bits() == bits {
            return true;
        }
        i += 1;
    }
    false
}

/// The first address from `start_ip` to `end_ip`, both included, that no
/// address of `existing` takes; `None` when all of them are taken (or the
/// range is empty).
pub fn get_unused_wireguard_ipv4_address(
    existing: &Vec<Ipv4Address>,
    start_ip: Ipv4Address,
    end_ip: Ipv4Address,
) -> (r: Option<Ipv4Address>)
    ensures
        match r {
            Some(a) => {
                &&& start_ip@ <= a@ <= end_ip@
                &&& !ipv4_in_use(existing@, a@)
                &&& forall|v: int| start_ip@ <= v < a@ ==> #[trigger] ipv4_in_use(existing@, v)
            },
            None => forall|v: int|
                start_ip@ <= v <= end_ip@ ==> #[trigger] ipv4_in_use(existing@, v),
        },
{
    let end_bits = end_ip.to_bits();
    if start_ip.to_bits() > end_bits {
        return None;
    }
    let mut proposed = start_ip;
    loop
        invariant
            start_ip@ <= proposed@ <= end_ip@,
            end_bits as int == end_ip@,
            forall|v: int| start_ip@ <= v < proposed@ ==> #[trigger] ipv4_in_use(existing@, v),
        decreases end_ip@ - proposed@,
    {
        let bits = proposed.to_bits();
        if !ipv4_address_in_use(existing, bits) {
            return Some(proposed);
        }
        if bits == end_bits {
            return None;
        }
        proof {
            lemma_ipv4_range(end_ip);
        }
        match increment_ipv4_address(&proposed) {
            Some(next) => {
                proposed = next;
            },
            None => {
                return None;
            },
        }
    }
}

/// Some address of `existing` has the number `v`.
pub open spec fn ipv6_in_use(existing: Seq<Ipv6Address>, v: int) -> bool {
    exists|k: int| 0 <= k < existing.len() && (#[trigger] existing[k])@ == v
}

/// Whether an address of `existing` has the number `bits`.
fn ipv6_address_in_use(existing: &Vec<Ipv6Address>, bits: u128) -> (r: bool)
    ensures
        r == ipv6_in_use(existing@, bits as int),
{
    let mut i: usize = 0;
    while i < existing.len()
        invariant
            i <= existing.len(),
            forall|k: int| 0 <= k < i ==> (#[trigger] existing@[k])@ != bits as int,
        decreases existing.len() - i,
    {
        if existing[i].to_bits() == bits {
            return true;
        }
        i += 1;
    }
    false
}

/// The first address from `start_ip` to `end_ip`, both included, that no
/// address of `existing` takes; `None` when all of them are taken (or the
/// range is empty).
pub fn get_unused_wireguard_ipv6_address(
    existing: &Vec<Ipv6Address>,
    start_ip: Ipv6Address,
    end_ip: Ipv6Address,
) -> (r: Option<Ipv6Address>)
    ensures
        match r {
            Some(a) => {
                &&& start_ip@ <= a@ <= end_ip@
                &&& !ipv6_in_use(existing@, a@)
                &&& forall|v: int| start_ip@ <= v < a@ ==> #[trigger] ipv6_in_use(existing@, v)
            },
            None => forall|v: int|
                start_ip@ <= v <= end_ip@ ==> #[trigger] ipv6_in_use(existing@, v),
        },
{
    let end_bits = end_ip.to_bits();
    if start_ip.to_bits() > end_bits {
        return None;
    }
    let mut proposed = start_ip;
    loop
        invariant
            start_ip@ <= proposed@ <= end_ip@,
            end_bits as int == end_ip@,
            forall|v: int| start_ip@ <= v < proposed@ ==> #[trigger] ipv6_in_use(existing@, v),
        decreases end_ip@ - proposed@,
    {
        let bits = proposed.to_bits();
        if !ipv6_address_in_use(existing, bits) {
            return Some(proposed);
        }
        if bits == end_bits {
            return None;
        }
        proof {
            lemma_ipv6_range(end_ip);
        }
        match increment_ipv6_address(&proposed) {
            Some(next) => {
                proposed = next;
            },
            None => {
                return None;
            },
        }
    }
}

} // verus!
