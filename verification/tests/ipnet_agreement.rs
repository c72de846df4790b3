use ipnet::{IpNet, Ipv4Net, Ipv6Net};
use miniutils::{cidr_to_range, parse_ip_or_range, Cidr, IpAddress};

fn numbers() -> Vec<u128> {
    let mut out = vec![
        0,
        1,
        u128::MAX,
        0xffff_0000_0000,
        0xffff_0102_0304,
        0xffff_ffff_ffff,
        0x0102_0304,
        1 << 127,
        0x2001_0db8_0000_0000_0000_0000_0000_0000,
        0x0001_0000_0000_0001_0000_0000_0000_0001,
        0x0000_0000_0001_0000_0000_0001_0000_0001,
        0x0001_0000_0000_0001_0000_0000_0001_0001,
    ];
    let mut x: u128 = 0x0123_4567_89ab_cdef_0011_2233_4455_6677;
    for _ in 0..1500 {
        x = x.wrapping_mul(6364136223846793005).wrapping_add(1442695040888963407);
        let masked = x & (x >> 17) & (x << 29);
        out.push(x);
        out.push(masked);
        out.push(masked & 0xffff_0000_ffff_0000_ffff_0000_ffff_0000);
        out.push(masked & 0x0000_ffff_0000_0000_ffff_ffff_0000_ffff);
        out.push(x >> 80);
        out.push(x << 80);
    }
    out
}

#[test]
fn block_text_agrees_with_ipnet() {
    for (i, v) in numbers().into_iter().enumerate() {
        let p6 = (i % 129) as u8;
        let ours = Cidr { addr: IpAddress::V6(v), prefix: p6 };
        let theirs = Ipv6Net::new(v.into(), p6).unwrap();
        assert_eq!(ours.to_string(), theirs.to_string());
        let p4 = (i % 33) as u8;
        let ours = Cidr { addr: IpAddress::V4(v as u32), prefix: p4 };
        let theirs = Ipv4Net::new((v as u32).into(), p4).unwrap();
        assert_eq!(ours.to_string(), theirs.to_string());
    }
}

#[test]
fn block_parsing_agrees_with_ipnet_on_written_blocks() {
    for (i, v) in numbers().into_iter().enumerate() {
        let block = Cidr { addr: IpAddress::V6(v), prefix: (i % 129) as u8 };
        let text = block.to_string();
        match text.parse::<IpNet>() {
            Ok(IpNet::V6(n)) => {
                assert_eq!(u128::from(n.addr()), v);
                assert_eq!(n.prefix_len(), block.prefix);
            }
            _ => panic!("ipnet does not read '{text}'"),
        }
        assert_eq!(Cidr::from_str(&text), Ok(block));
    }
}

#[test]
fn block_bounds_agree_with_ipnet() {
    for (i, v) in numbers().into_iter().enumerate() {
        let p6 = (i % 129) as u8;
        let r = cidr_to_range(Cidr { addr: IpAddress::V6(v), prefix: p6 });
        let n = Ipv6Net::new(v.into(), p6).unwrap();
        assert_eq!(r.beg, u128::from(n.network()));
        assert_eq!(r.end, u128::from(n.broadcast()));
        let p4 = (i % 33) as u8;
        let r = cidr_to_range(Cidr { addr: IpAddress::V4(v as u32), prefix: p4 });
        let n = Ipv4Net::new((v as u32).into(), p4).unwrap();
        assert_eq!(r.beg, u32::from(n.network()) as u128);
        assert_eq!(r.end, u32::from(n.broadcast()) as u128);
    }
}

#[test]
fn expansion_lists_what_ipnet_lists() {
    for text in ["10.1.2.3/24", "10.1.2.3/30", "10.1.2.3/31", "10.1.2.3/32", "fd00::5/120", "::/128"] {
        let ours: Vec<String> =
            parse_ip_or_range(text).unwrap().iter().map(|a| a.to_string()).collect();
        let theirs: Vec<String> =
            text.parse::<IpNet>().unwrap().hosts().map(|a| a.to_string()).collect();
        assert_eq!(ours, theirs, "expanding '{text}'");
    }
}

#[test]
fn address_parsing_agrees_with_ipnet() {
    // texts on which the two grammars agree: ipnet alone accepts a leading zero in a
    // dotted quad, and a `::` that stands for no group
    let texts = [
        "::", "::1", "1::", "::0", "0::0", "1::0:0:2", "2001:db8::", "2001:DB8::A", "1:2:3:4:5:6:7:8",
        "1:2:3:4:5:6:7", "1:2:3:4:5:6:7:8:9", "1:2:3:4:5:6:7::", "::2:3:4:5:6:7:8", "1::2::3",
        ":::", ":", "::g", "12345::", "0:0:0:0:0:0:0:0", "1:0:0:2:0:0:0:3", "fe80::1%eth0",
        "1:2:3:4:5:6:7:", ":1:2:3:4:5:6:7", "1:2:3:4:5:6:7:8::", "::ffff:1.2.3.4",
        "::1.2.3.4", "1::1.2.3.4", "1:2:3:4:5:6:1.2.3.4", "1:2:3:4:5:1.2.3.4", "1.2.3.4::",
        "1:2:3:4:5:6:7:1.2.3.4", "::1.2.3.4:5", "::1.2.3", "::1.2.3.256", "::1.2.3.4.5", "1:2:3:4::5:6:7",
        "a:b:c:d:e:f:0:1", "A:B:C:D:E:F:0:1", "0001:0002:0003:0004:0005:0006:0007:0008",
        "00001::", "::00001", "1:::2", "1:2::3:4::", "", " ", "::1 ", " ::1", "1::2 ", "1: :2", "::-1",
        "::+1", "1:2:3:4:5:6::7", "1:2:3:4:5::6:7", "::ffff", "ffff::", "::ffff:ffff", "f::f",
    ];
    for s in texts {
        let ours = IpAddress::parse(s);
        let theirs = [s, "/128"].concat().parse::<Ipv6Net>().ok().map(|n| IpAddress::V6(n.addr().into()));
        assert_eq!(ours, theirs, "parsing '{s}'");
    }
    for s in ["::1:2:3:4:5:6:7:8", "1:2:3:4::5:6:7:8", "1:2:3:4:5:6:7::8", "::01.2.3.4", "01.2.3.4"] {
        assert_eq!(IpAddress::parse(s), None, "parsing '{s}'");
    }
    let quads = [
        "0.0.0.0", "1.2.3.4", "255.255.255.255", "256.1.1.1", "1.2.3", "1.2.3.4.5", "1..2.3", "1.2.3.",
        ".1.2.3", "1.2.3.4x", "1.2.3.4 ", "a.b.c.d", "1.2.3.1000", "", "1,2,3,4", "1.2.3.-4",
        "10.20.30.40", "192.168.1.1", "9.9.9.9", "100.100.100.100", "199.200.201.202",
    ];
    for s in quads {
        let ours = IpAddress::parse(s);
        let theirs = [s, "/32"].concat().parse::<Ipv4Net>().ok().map(|n| IpAddress::V4(n.addr().into()));
        assert_eq!(ours, theirs, "parsing '{s}'");
    }
}
