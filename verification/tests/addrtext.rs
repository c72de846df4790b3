use miniutils::IpAddress;

fn v4(a: u8, b: u8, c: u8, d: u8) -> IpAddress {
    IpAddress::V4(u32::from_be_bytes([a, b, c, d]))
}

fn v6(segs: [u16; 8]) -> IpAddress {
    let mut v: u128 = 0;
    for s in segs {
        v = (v << 16) | s as u128;
    }
    IpAddress::V6(v)
}

#[test]
fn parse_v4_literals() {
    assert_eq!(IpAddress::parse("0.0.0.0"), Some(v4(0, 0, 0, 0)));
    assert_eq!(IpAddress::parse("1.2.3.4"), Some(v4(1, 2, 3, 4)));
    assert_eq!(IpAddress::parse("255.255.255.255"), Some(v4(255, 255, 255, 255)));
    assert_eq!(IpAddress::parse("192.168.1.1"), Some(IpAddress::V4(0xC0A8_0101)));
}

#[test]
fn parse_v4_refuses_what_is_no_dotted_quad() {
    for s in [
        "", "256.0.0.1", "1.2.3", "1.2.3.4.5", "01.2.3.4", "1.2.3.04", "1.2.3.4 ", " 1.2.3.4",
        "1..2.3", "1.2.3.", ".1.2.3", "1.2.3.4x", "0000.0.0.0", "00.0.0.0", "+1.2.3.4",
        "1.2.3.4/24", "1.2.3.1000", "a.b.c.d",
    ] {
        assert_eq!(IpAddress::parse(s), None, "parsing '{s}'");
    }
}

#[test]
fn parse_v6_literals() {
    assert_eq!(IpAddress::parse("::"), Some(IpAddress::V6(0)));
    assert_eq!(IpAddress::parse("::1"), Some(IpAddress::V6(1)));
    assert_eq!(IpAddress::parse("::0"), Some(IpAddress::V6(0)));
    assert_eq!(IpAddress::parse("0::0"), Some(IpAddress::V6(0)));
    assert_eq!(IpAddress::parse("1::"), Some(v6([1, 0, 0, 0, 0, 0, 0, 0])));
    assert_eq!(IpAddress::parse("2001:db8::"), Some(v6([0x2001, 0xdb8, 0, 0, 0, 0, 0, 0])));
    assert_eq!(IpAddress::parse("2001:DB8::A"), Some(v6([0x2001, 0xdb8, 0, 0, 0, 0, 0, 10])));
    assert_eq!(IpAddress::parse("1:2:3:4:5:6:7:8"), Some(v6([1, 2, 3, 4, 5, 6, 7, 8])));
    assert_eq!(IpAddress::parse("1:2:3:4:5:6:7::"), Some(v6([1, 2, 3, 4, 5, 6, 7, 0])));
    assert_eq!(IpAddress::parse("::2:3:4:5:6:7:8"), Some(v6([0, 2, 3, 4, 5, 6, 7, 8])));
    assert_eq!(IpAddress::parse("1::0:0:2"), Some(v6([1, 0, 0, 0, 0, 0, 0, 2])));
    assert_eq!(
        IpAddress::parse("2001:db8:0:0:8000::"),
        Some(v6([0x2001, 0xdb8, 0, 0, 0x8000, 0, 0, 0]))
    );
    assert_eq!(
        IpAddress::parse("ffff:ffff:ffff:ffff:ffff:ffff:ffff:ffff"),
        Some(IpAddress::V6(u128::MAX))
    );
    assert_eq!(IpAddress::parse("0001:002:03:4::"), Some(v6([1, 2, 3, 4, 0, 0, 0, 0])));
}

#[test]
fn parse_v6_with_dotted_quad() {
    assert_eq!(
        IpAddress::parse("::ffff:1.2.3.4"),
        Some(v6([0, 0, 0, 0, 0, 0xffff, 0x0102, 0x0304]))
    );
    assert_eq!(IpAddress::parse("::1.2.3.4"), Some(v6([0, 0, 0, 0, 0, 0, 0x0102, 0x0304])));
    assert_eq!(IpAddress::parse("1::1.2.3.4"), Some(v6([1, 0, 0, 0, 0, 0, 0x0102, 0x0304])));
    assert_eq!(
        IpAddress::parse("1:2:3:4:5:6:1.2.3.4"),
        Some(v6([1, 2, 3, 4, 5, 6, 0x0102, 0x0304]))
    );
    for s in ["1:2:3:4:5:1.2.3.4", "1.2.3.4::", "1:2:3:4:5:6:7:1.2.3.4", "::1.2.3.4:5", "::01.2.3.4"] {
        assert_eq!(IpAddress::parse(s), None, "parsing '{s}'");
    }
}

#[test]
fn parse_v6_refuses_what_is_no_literal() {
    for s in [
        "1:2:3:4:5:6:7", "1:2:3:4:5:6:7:8:9", "1::2::3", ":::", ":", "::g", "12345::",
        "fe80::1%eth0", "1:2:3:4:5:6:7:", ":1:2:3:4:5:6:7", "::1:2:3:4:5:6:7:8", "1:2:3:4:5:6:7:8::",
        "::1 ", " ::1", "[::1]", "::1/128",
    ] {
        assert_eq!(IpAddress::parse(s), None, "parsing '{s}'");
    }
}

#[test]
fn format_v4() {
    assert_eq!(v4(0, 0, 0, 0).to_string(), "0.0.0.0");
    assert_eq!(v4(192, 168, 1, 10).to_string(), "192.168.1.10");
    assert_eq!(v4(255, 255, 255, 255).to_string(), "255.255.255.255");
    assert_eq!(v4(10, 0, 100, 7).to_string(), "10.0.100.7");
}

#[test]
fn format_v6() {
    assert_eq!(IpAddress::V6(0).to_string(), "::");
    assert_eq!(IpAddress::V6(1).to_string(), "::1");
    assert_eq!(v6([1, 0, 0, 0, 0, 0, 0, 0]).to_string(), "1::");
    assert_eq!(v6([0x2001, 0xdb8, 0, 0, 0, 0, 0, 0]).to_string(), "2001:db8::");
    assert_eq!(v6([0x2001, 0xdb8, 0, 0, 0, 0, 0, 4]).to_string(), "2001:db8::4");
    assert_eq!(v6([1, 2, 3, 4, 5, 6, 7, 8]).to_string(), "1:2:3:4:5:6:7:8");
    // a single zero group is not compressed
    assert_eq!(v6([1, 0, 3, 4, 5, 6, 7, 8]).to_string(), "1:0:3:4:5:6:7:8");
    // the longest run is compressed
    assert_eq!(v6([1, 0, 0, 2, 0, 0, 0, 3]).to_string(), "1:0:0:2::3");
    // of two runs of the same length, the first
    assert_eq!(v6([0, 0, 1, 0, 0, 1, 0, 1]).to_string(), "::1:0:0:1:0:1");
    assert_eq!(v6([1, 0, 0, 1, 0, 0, 1, 1]).to_string(), "1::1:0:0:1:1");
    assert_eq!(v6([1, 2, 3, 4, 5, 6, 0, 0]).to_string(), "1:2:3:4:5:6::");
    assert_eq!(v6([0xabcd, 0xef01, 0x10, 0x100, 0x1000, 0xf, 0xa0, 0xb00]).to_string(),
        "abcd:ef01:10:100:1000:f:a0:b00");
    assert_eq!(IpAddress::V6(u128::MAX).to_string(), "ffff:ffff:ffff:ffff:ffff:ffff:ffff:ffff");
}

#[test]
fn format_v4_mapped() {
    assert_eq!(v6([0, 0, 0, 0, 0, 0xffff, 0x0102, 0x0304]).to_string(), "::ffff:1.2.3.4");
    assert_eq!(v6([0, 0, 0, 0, 0, 0xffff, 0, 0]).to_string(), "::ffff:0.0.0.0");
    // not mapped: written in groups
    assert_eq!(v6([0, 0, 0, 0, 0, 0, 0x0102, 0x0304]).to_string(), "::102:304");
    assert_eq!(v6([0, 0, 0, 0, 1, 0xffff, 0x0102, 0x0304]).to_string(), "::1:ffff:102:304");
}

#[test]
fn text_round_trip_on_many_addresses() {
    let mut x: u128 = 0x0123_4567_89ab_cdef_0011_2233_4455_6677;
    for _ in 0..2000 {
        x = x.wrapping_mul(6364136223846793005).wrapping_add(1442695040888963407);
        let masked = x & (x >> 17) & (x << 29);
        for v in [x, masked, masked & 0xffff_0000_ffff_0000_ffff_0000_ffff_0000, x >> 96, x >> 32] {
            let a = IpAddress::V6(v);
            assert_eq!(IpAddress::parse(&a.to_string()), Some(a), "{}", a.to_string());
            let b = IpAddress::V4(v as u32);
            assert_eq!(IpAddress::parse(&b.to_string()), Some(b), "{}", b.to_string());
        }
    }
}
