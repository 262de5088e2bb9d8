use infrabase::ip::{
    get_unused_wireguard_ipv4_address, get_unused_wireguard_ipv6_address, increment_ipv4_address,
    increment_ipv6_address, Ipv4Address, Ipv6Address,
};

fn v4(a: u8, b: u8, c: u8, d: u8) -> Ipv4Address {
    Ipv4Address::new(a, b, c, d)
}

fn v6(s: [u16; 8]) -> Ipv6Address {
    Ipv6Address::new(s[0], s[1], s[2], s[3], s[4], s[5], s[6], s[7])
}

#[test]
fn test_increment_ipv4_address() {
    assert_eq!(increment_ipv4_address(&v4(0, 0, 0, 0)), Some(v4(0, 0, 0, 1)));
    assert_eq!(increment_ipv4_address(&v4(0, 0, 0, 1)), Some(v4(0, 0, 0, 2)));
    assert_eq!(increment_ipv4_address(&v4(0, 0, 1, 255)), Some(v4(0, 0, 2, 0)));
    assert_eq!(increment_ipv4_address(&v4(0, 0, 255, 0)), Some(v4(0, 0, 255, 1)));
    assert_eq!(increment_ipv4_address(&v4(0, 2, 255, 255)), Some(v4(0, 3, 0, 0)));
    assert_eq!(increment_ipv4_address(&v4(3, 255, 255, 255)), Some(v4(4, 0, 0, 0)));
    assert_eq!(increment_ipv4_address(&v4(255, 255, 255, 255)), None);
}

#[test]
fn test_increment_ipv6_address() {
    // "0:0:0:0:0:0:0:0" and so on, written as segments.
    let cases: [([u16; 8], Option<[u16; 8]>); 7] = [
        ([0, 0, 0, 0, 0, 0, 0, 0], Some([0, 0, 0, 0, 0, 0, 0, 1])),
        ([0, 0, 0, 0, 0, 0, 0, 1], Some([0, 0, 0, 0, 0, 0, 0, 2])),
        ([0, 0, 0, 0, 0, 0, 1, 0xffff], Some([0, 0, 0, 0, 0, 0, 2, 0])),
        ([0, 0, 0, 0, 0, 0, 0xffff, 0], Some([0, 0, 0, 0, 0, 0, 0xffff, 1])),
        ([0, 0, 0, 0, 0, 2, 0xffff, 0xffff], Some([0, 0, 0, 0, 0, 3, 0, 0])),
        ([0, 0, 0, 0, 3, 0xffff, 0xffff, 0xffff], Some([0, 0, 0, 0, 4, 0, 0, 0])),
        ([0xffff; 8], None),
    ];
    for (input, expected) in cases.iter() {
        assert_eq!(increment_ipv6_address(&v6(*input)), expected.map(v6));
    }
}

#[test]
fn increment_is_numeric_successor() {
    for bits in [0u32, 1, 255, 256, 65535, 0x00ff_ffff, 0x7fff_ffff, 0xffff_fffe] {
        let a = v4((bits >> 24) as u8, (bits >> 16) as u8, (bits >> 8) as u8, bits as u8);
        assert_eq!(a.to_bits(), bits);
        let n = increment_ipv4_address(&a).unwrap();
        assert_eq!(n.to_bits(), bits + 1);
    }
    let a = v6([0x2001, 0xdb8, 0, 0, 0, 0, 0xffff, 0xffff]);
    let n = increment_ipv6_address(&a).unwrap();
    assert_eq!(n.to_bits(), a.to_bits() + 1);
    assert_eq!(n, v6([0x2001, 0xdb8, 0, 0, 0, 1, 0, 0]));
}

#[test]
fn unused_ipv4_takes_first_free() {
    let existing = vec![v4(10, 0, 0, 1)];
    assert_eq!(
        get_unused_wireguard_ipv4_address(&existing, v4(10, 0, 0, 1), v4(10, 0, 0, 2)),
        Some(v4(10, 0, 0, 2))
    );
}

#[test]
fn unused_ipv4_exhausted() {
    let existing = vec![v4(10, 0, 0, 1), v4(10, 0, 0, 2)];
    assert_eq!(
        get_unused_wireguard_ipv4_address(&existing, v4(10, 0, 0, 1), v4(10, 0, 0, 2)),
        None
    );
}

#[test]
fn unused_ipv4_crosses_octet_and_skips_taken() {
    let existing = vec![v4(10, 0, 0, 255), v4(10, 0, 1, 0), v4(10, 0, 2, 0)];
    assert_eq!(
        get_unused_wireguard_ipv4_address(&existing, v4(10, 0, 0, 255), v4(10, 0, 3, 0)),
        Some(v4(10, 0, 1, 1))
    );
}

#[test]
fn unused_ipv4_start_free_and_single_address_range() {
    assert_eq!(
        get_unused_wireguard_ipv4_address(&vec![], v4(192, 168, 1, 5), v4(192, 168, 1, 5)),
        Some(v4(192, 168, 1, 5))
    );
    assert_eq!(
        get_unused_wireguard_ipv4_address(&vec![v4(192, 168, 1, 5)], v4(192, 168, 1, 5), v4(192, 168, 1, 5)),
        None
    );
}

#[test]
fn unused_ipv4_empty_range_when_start_after_end() {
    assert_eq!(
        get_unused_wireguard_ipv4_address(&vec![], v4(10, 0, 0, 9), v4(10, 0, 0, 1)),
        None
    );
}

#[test]
fn unused_ipv4_reaches_the_largest_address() {
    let existing = vec![v4(255, 255, 255, 254)];
    assert_eq!(
        get_unused_wireguard_ipv4_address(&existing, v4(255, 255, 255, 254), v4(255, 255, 255, 255)),
        Some(v4(255, 255, 255, 255))
    );
    let existing = vec![v4(255, 255, 255, 254), v4(255, 255, 255, 255)];
    assert_eq!(
        get_unused_wireguard_ipv4_address(&existing, v4(255, 255, 255, 254), v4(255, 255, 255, 255)),
        None
    );
}

#[test]
fn unused_ipv6_takes_first_free() {
    let base = [0xfd00, 0, 0, 0, 0, 0, 0, 1];
    let existing = vec![v6(base), v6([0xfd00, 0, 0, 0, 0, 0, 0, 2])];
    assert_eq!(
        get_unused_wireguard_ipv6_address(&existing, v6(base), v6([0xfd00, 0, 0, 0, 0, 0, 0, 9])),
        Some(v6([0xfd00, 0, 0, 0, 0, 0, 0, 3]))
    );
    assert_eq!(
        get_unused_wireguard_ipv6_address(&existing, v6(base), v6([0xfd00, 0, 0, 0, 0, 0, 0, 2])),
        None
    );
}

#[test]
fn unused_ipv6_at_the_top_of_the_space() {
    let top = v6([0xffff; 8]);
    let below = v6([0xffff, 0xffff, 0xffff, 0xffff, 0xffff, 0xffff, 0xffff, 0xfffe]);
    assert_eq!(get_unused_wireguard_ipv6_address(&vec![below], below, top), Some(top));
    assert_eq!(get_unused_wireguard_ipv6_address(&vec![below, top], below, top), None);
}
