use miniutils::{
    cidr_to_range, AddressError, Cidr, CidrIterator, IpAddress, IpFam, IpRange, IpRangeIterator,
    Range, IPV4_BITS,
};

const TEST_V4: &str = "192.168.1.0/30";
const TEST_V6: &str = "::/126";
const TEST_LEN: &str = "10.0.0.0/8";

fn v4(a: u8, b: u8, c: u8, d: u8) -> IpAddress {
    IpAddress::V4(u32::from_be_bytes([a, b, c, d]))
}

fn all_of(mut it: CidrIterator) -> Vec<IpAddress> {
    let mut v = Vec::new();
    while let Some(a) = it.next() {
        v.push(a);
    }
    v
}

fn all_in(mut it: IpRangeIterator) -> Vec<IpAddress> {
    let mut v = Vec::new();
    while let Some(a) = it.next() {
        v.push(a);
    }
    v
}

#[test]
fn test_cidr_parse_v4() {
    let cidr = TEST_V4.parse::<Cidr>();
    assert!(cidr.is_ok());
    let cidr = cidr.unwrap();
    assert_eq!(cidr.addr, v4(192, 168, 1, 0));
    assert_eq!(cidr.prefix, 30);
    assert_eq!(cidr.to_string(), TEST_V4);
}

#[test]
fn test_cidr_parse_v6() {
    let cidr = TEST_V6.parse::<Cidr>();
    assert!(cidr.is_ok());
    let cidr = cidr.unwrap();
    assert_eq!(cidr.addr, IpAddress::V6(0u128));
    assert_eq!(cidr.prefix, 126);
    assert_eq!(cidr.to_string(), TEST_V6);
}

#[test]
fn test_lengths_agree() {
    let cidr: Cidr = TEST_LEN.parse().unwrap();
    let range: Range = cidr_to_range(cidr);
    assert_eq!(range.len(), cidr.len());
    assert_eq!(range.len(), 2u128.pow((IPV4_BITS - cidr.prefix) as u32));
}

#[test]
fn structs_test_cidr_iter_v4() {
    let cidr: Cidr = TEST_V4.parse().unwrap();
    let ips: Vec<IpAddress> = all_of(cidr.iter());
    let expected: Vec<IpAddress> = vec![
        v4(192, 168, 1, 0),
        v4(192, 168, 1, 1),
        v4(192, 168, 1, 2),
        v4(192, 168, 1, 3),
    ];
    assert_eq!(ips, expected);
}

#[test]
fn structs_test_cidr_iter_v6() {
    let cidr: Cidr = TEST_V6.parse().unwrap();
    let ips: Vec<IpAddress> = all_of(cidr.iter());
    let expected: Vec<IpAddress> = vec![
        IpAddress::V6(0u128),
        IpAddress::V6(1u128),
        IpAddress::V6(2u128),
        IpAddress::V6(3u128),
    ];
    assert_eq!(ips, expected);
}

#[test]
fn test_iprange_iter_v4() {
    let ip_range: IpRange = IpRange::new(v4(10, 0, 0, 1), v4(10, 0, 0, 5)).unwrap();
    let ips: Vec<IpAddress> = all_in(ip_range.iter());
    let expected: Vec<IpAddress> = vec![
        v4(10, 0, 0, 1),
        v4(10, 0, 0, 2),
        v4(10, 0, 0, 3),
        v4(10, 0, 0, 4),
        v4(10, 0, 0, 5),
    ];
    assert_eq!(ips, expected);
}

#[test]
fn test_iprange_iter_v6() {
    let ip_range: IpRange = IpRange::new(IpAddress::V6(1u128), IpAddress::V6(5u128)).unwrap();
    let ips: Vec<IpAddress> = all_in(ip_range.iter());
    let expected: Vec<IpAddress> = vec![
        IpAddress::V6(1u128),
        IpAddress::V6(2u128),
        IpAddress::V6(3u128),
        IpAddress::V6(4u128),
        IpAddress::V6(5u128),
    ];
    assert_eq!(ips, expected);
}

#[test]
fn iteration_ends_at_the_top_of_the_address_space() {
    let top = Cidr { addr: IpAddress::V6(u128::MAX), prefix: 127 };
    assert_eq!(all_of(top.iter()), vec![IpAddress::V6(u128::MAX - 1), IpAddress::V6(u128::MAX)]);
    let top4 = Cidr { addr: v4(255, 255, 255, 255), prefix: 31 };
    assert_eq!(all_of(top4.iter()), vec![v4(255, 255, 255, 254), v4(255, 255, 255, 255)]);
    let r = IpRange::new(IpAddress::V6(u128::MAX), IpAddress::V6(u128::MAX)).unwrap();
    assert_eq!(all_in(r.iter()), vec![IpAddress::V6(u128::MAX)]);
}

#[test]
fn iteration_starts_anew_each_time() {
    let cidr: Cidr = TEST_V4.parse().unwrap();
    assert_eq!(all_of(cidr.iter()), all_of(cidr.iter()));
    let mut it = cidr.iter();
    assert_eq!(it.next(), Some(v4(192, 168, 1, 0)));
    assert_eq!(all_of(CidrIterator::new(cidr)).len(), 4);
    let mut done = cidr.iter();
    for _ in 0..4 {
        assert!(done.next().is_some());
    }
    assert_eq!(done.next(), None);
    assert_eq!(done.next(), None);
}

#[test]
fn iteration_starts_at_the_network_address() {
    let cidr = Cidr { addr: v4(192, 168, 1, 2), prefix: 30 };
    assert_eq!(all_of(cidr.iter())[0], v4(192, 168, 1, 0));
}

#[test]
fn cidr_lengths() {
    assert_eq!(Cidr { addr: v4(10, 0, 0, 0), prefix: 8 }.len(), 1 << 24);
    assert_eq!(Cidr { addr: v4(10, 0, 0, 0), prefix: 32 }.len(), 1);
    assert_eq!(Cidr { addr: v4(10, 0, 0, 0), prefix: 0 }.len(), 1 << 32);
    assert_eq!(Cidr { addr: v4(10, 0, 0, 0), prefix: 40 }.len(), 1);
    assert_eq!(Cidr { addr: IpAddress::V6(0), prefix: 0 }.len(), u128::MAX);
    assert_eq!(Cidr { addr: IpAddress::V6(0), prefix: 1 }.len(), 1 << 127);
    assert_eq!(Cidr { addr: IpAddress::V6(0), prefix: 128 }.len(), 1);
    assert_eq!(Cidr { addr: v4(10, 0, 0, 0), prefix: 8 }.len_v4(), Some(1 << 24));
    assert_eq!(Cidr { addr: v4(10, 0, 0, 0), prefix: 0 }.len_v4(), Some(1 << 32));
    assert_eq!(Cidr { addr: IpAddress::V6(0), prefix: 8 }.len_v4(), None);
}

#[test]
fn cidr_kinds() {
    let host = Cidr { addr: v4(10, 0, 0, 1), prefix: 32 };
    let net = Cidr { addr: v4(10, 0, 0, 0), prefix: 24 };
    let host6 = Cidr { addr: IpAddress::V6(1), prefix: 128 };
    assert!(host.is_host() && !net.is_host() && host6.is_host());
    assert!(host.is_ipv4() && !host.is_ipv6());
    assert!(host6.is_ipv6() && !host6.is_ipv4());
    assert!(!Cidr { addr: IpAddress::V6(1), prefix: 32 }.is_host());
}

#[test]
fn range_lengths_and_keys() {
    let r = Range { fam: IpFam::V4, beg: 10, end: 19 };
    assert_eq!(r.len(), 10);
    assert_eq!(r.cmp_key(), (0, 10, 19));
    let whole = Range { fam: IpFam::V6, beg: 0, end: u128::MAX };
    assert_eq!(whole.len(), u128::MAX);
    assert_eq!(whole.cmp_key(), (1, 0, u128::MAX));
    assert_eq!(Range { fam: IpFam::V6, beg: 1, end: u128::MAX }.len(), u128::MAX);
    assert_eq!(Range { fam: IpFam::V6, beg: 7, end: 7 }.len(), 1);
    assert_eq!(Range { fam: IpFam::V6, beg: 9, end: 7 }.len(), 1);
}

#[test]
fn lengths_agree_at_every_prefix() {
    for prefix in 0..=32u8 {
        let c = Cidr { addr: v4(203, 0, 113, 77), prefix };
        assert_eq!(c.len(), cidr_to_range(c).len());
        assert_eq!(c.len(), 1u128 << (32 - prefix));
    }
    for prefix in 0..=128u8 {
        let c = Cidr { addr: IpAddress::V6(0x2001_0db8_0000_0000_dead_beef_0000_0001), prefix };
        assert_eq!(c.len(), cidr_to_range(c).len());
    }
}

#[test]
fn cidr_to_range_masks_the_host_bits() {
    let r = cidr_to_range(Cidr { addr: v4(192, 168, 1, 77), prefix: 24 });
    assert_eq!(r, Range { fam: IpFam::V4, beg: 0xC0A8_0100, end: 0xC0A8_01FF });
    let all = cidr_to_range(Cidr { addr: v4(192, 168, 1, 77), prefix: 0 });
    assert_eq!(all, Range { fam: IpFam::V4, beg: 0, end: 0xFFFF_FFFF });
    let one = cidr_to_range(Cidr { addr: v4(192, 168, 1, 77), prefix: 32 });
    assert_eq!(one, Range { fam: IpFam::V4, beg: 0xC0A8_014D, end: 0xC0A8_014D });
    let over = cidr_to_range(Cidr { addr: v4(192, 168, 1, 77), prefix: 99 });
    assert_eq!(over, one);
    let six = cidr_to_range(Cidr { addr: IpAddress::V6(u128::MAX), prefix: 64 });
    assert_eq!(six, Range { fam: IpFam::V6, beg: u128::MAX << 64, end: u128::MAX });
    let six_all = cidr_to_range(Cidr { addr: IpAddress::V6(12345), prefix: 0 });
    assert_eq!(six_all, Range { fam: IpFam::V6, beg: 0, end: u128::MAX });
}

#[test]
fn address_and_integer_round_trip() {
    let a = v4(1, 2, 3, 4);
    assert_eq!(a.to_int(), 0x0102_0304);
    assert_eq!(IpAddress::from_int(IpFam::V4, 0x0102_0304), a);
    assert_eq!(IpAddress::from_int(a.fam(), a.to_int()), a);
    let b = IpAddress::V6(u128::MAX);
    assert_eq!(IpAddress::from_int(b.fam(), b.to_int()), b);
    assert_eq!(IpFam::V4.bits(), 32);
    assert_eq!(IpFam::V6.bits(), 128);
    assert_eq!(IpFam::V4.max_value(), 0xFFFF_FFFF);
    assert_eq!(IpFam::V6.max_value(), u128::MAX);
}

#[test]
fn range_construction_is_validated() {
    assert_eq!(
        IpRange::new(v4(10, 0, 0, 5), v4(10, 0, 0, 1)),
        Err(AddressError::RangeOrder(v4(10, 0, 0, 5), v4(10, 0, 0, 1)))
    );
    assert_eq!(
        IpRange::new(v4(10, 0, 0, 5), IpAddress::V6(1)),
        Err(AddressError::Mismatch(v4(10, 0, 0, 5), IpAddress::V6(1)))
    );
    assert_eq!(
        IpRange::new(IpAddress::V6(1), v4(10, 0, 0, 5)),
        Err(AddressError::Mismatch(v4(10, 0, 0, 5), IpAddress::V6(1)))
    );
    let r = IpRange::new(v4(10, 0, 0, 1), v4(10, 0, 0, 5)).unwrap();
    assert_eq!(r.len(), 5);
    let one = IpRange::new(v4(10, 0, 0, 1), v4(10, 0, 0, 1)).unwrap();
    assert_eq!(one.len(), 1);
    let whole = IpRange::new(IpAddress::V6(0), IpAddress::V6(u128::MAX)).unwrap();
    assert_eq!(whole.len(), u128::MAX);
    let whole4 = IpRange::new(v4(0, 0, 0, 0), v4(255, 255, 255, 255)).unwrap();
    assert_eq!(whole4.len(), 1 << 32);
}

#[test]
fn cidr_text_forms() {
    assert_eq!("10.1.2.3".parse::<Cidr>(), Ok(Cidr { addr: v4(10, 1, 2, 3), prefix: 32 }));
    assert_eq!(" 10.1.2.3 ".parse::<Cidr>(), Ok(Cidr { addr: v4(10, 1, 2, 3), prefix: 32 }));
    assert_eq!("::1".parse::<Cidr>(), Ok(Cidr { addr: IpAddress::V6(1), prefix: 128 }));
    assert_eq!(" 10.1.2.3 / 8 ".parse::<Cidr>(), Ok(Cidr { addr: v4(10, 1, 2, 3), prefix: 8 }));
    assert_eq!("10.1.2.3/+08".parse::<Cidr>(), Ok(Cidr { addr: v4(10, 1, 2, 3), prefix: 8 }));
    assert_eq!("10.1.2.3/0".parse::<Cidr>(), Ok(Cidr { addr: v4(10, 1, 2, 3), prefix: 0 }));
    assert_eq!(Cidr::from_str("::/128"), Ok(Cidr { addr: IpAddress::V6(0), prefix: 128 }));
    // the address is kept as given, host bits and all
    assert_eq!(Cidr { addr: v4(10, 1, 2, 3), prefix: 8 }.to_string(), "10.1.2.3/8");
    assert_eq!(Cidr::from_str("nope"), Err("invalid IP address: 'nope'".to_string()));
    assert_eq!(
        Cidr::from_str("1.2.3.4/5/6"),
        Err("invalid CIDR format (too many slashes): '1.2.3.4/5/6'".to_string())
    );
    assert_eq!(
        Cidr::from_str(" 1.2.3 /5"),
        Err("invalid IP address in CIDR: '1.2.3'".to_string())
    );
    assert_eq!(Cidr::from_str("1.2.3.4/ x "), Err("invalid prefix in CIDR: 'x'".to_string()));
    assert_eq!(Cidr::from_str("1.2.3.4/"), Err("invalid prefix in CIDR: ''".to_string()));
    assert_eq!(Cidr::from_str("1.2.3.4/256"), Err("invalid prefix in CIDR: '256'".to_string()));
    assert_eq!(Cidr::from_str("1.2.3.4/-1"), Err("invalid prefix in CIDR: '-1'".to_string()));
    assert_eq!(
        Cidr::from_str("1.2.3.4/033"),
        Err("invalid IPv4 prefix in CIDR: '33'".to_string())
    );
    assert_eq!(Cidr::from_str("::/129"), Err("invalid IPv6 prefix in CIDR: '129'".to_string()));
}

#[test]
fn cidr_text_round_trip() {
    for text in [
        "192.168.1.0/30", "::/126", "10.0.0.0/8", "0.0.0.0/0", "255.255.255.255/32", "::/0",
        "2001:db8::/64", "2001:db8::4/126", "::ffff:1.2.3.4/128", "1:2:3:4:5:6:7:8/127",
        "10.1.2.3/8",
    ] {
        assert_eq!(Cidr::from_str(text).unwrap().to_string(), text);
    }
    let mut x: u128 = 0x9e37_79b9_7f4a_7c15_f39c_c060_5ced_c834;
    for i in 0..500u32 {
        x = x.wrapping_mul(6364136223846793005).wrapping_add(1442695040888963407);
        let c4 = Cidr { addr: IpAddress::V4(x as u32), prefix: (i % 33) as u8 };
        assert_eq!(Cidr::from_str(&c4.to_string()), Ok(c4));
        let c6 = Cidr { addr: IpAddress::V6(x & (x >> 9)), prefix: (i % 129) as u8 };
        assert_eq!(Cidr::from_str(&c6.to_string()), Ok(c6));
    }
}
