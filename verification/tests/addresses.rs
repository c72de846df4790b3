use miniutils::{
    expand_net, generate_ip_range, parse_ip_or_range, parse_ip_range, parse_short_range_end,
    AddressError, Cidr, IpAddress, IpRange,
};

const TEST_1: &str = "192.168.1.1";
const TEST_2: &str = "192.168.1.2";
const TEST_3: &str = "10.0.0.1";
const TEST_4: &str = "10.0.0.5";
const CIDR_1: &str = "192.168.1.0/30";
const RANGE_1: &str = "10.0.0.1-5";
const RANGE_2: &str = "10.0.0.1-10.0.0.5";
const BAD_RANGE: &str = "10.0.0.5-10.0.0.1";
const BIG_RANGE_V4: &str = "10.0.0.0/16";

const TEST_V6_1: &str = "::1";
const TEST_V6_2: &str = "::5";
const TEST_V6_3: &str = "::ffff";
const RANGE_V6: &str = "::1-5";
const BAD_RANGE_V6: &str = "::5-1";
const BIG_RANGE_V6: &str = "::1-::ffff";
const TOOBIG_V6: &str = "::1-::ffff:ffff"; // 4B addresses

fn ip(s: &str) -> IpAddress {
    IpAddress::parse(s).unwrap()
}

#[test]
fn test_parse_single_ip() {
    let result: Vec<IpAddress> = parse_ip_or_range(TEST_1).unwrap();
    assert_eq!(result.len(), 1);
    assert_eq!(result[0], IpAddress::parse(TEST_1).unwrap());
}

#[test]
fn test_parse_cidr() {
    let result: Vec<IpAddress> = parse_ip_or_range(CIDR_1).unwrap();
    assert_eq!(result.len(), 2); // .1 and .2 (hosts only)
    assert!(result.contains(&IpAddress::parse(TEST_1).unwrap()));
    assert!(result.contains(&IpAddress::parse(TEST_2).unwrap()));
}

#[test]
fn test_parse_short_range() {
    let result: Vec<IpAddress> = parse_ip_or_range(RANGE_1).unwrap();
    assert_eq!(result.len(), 5);
    assert_eq!(result[0], IpAddress::parse(TEST_3).unwrap());
    assert_eq!(result[4], IpAddress::parse(TEST_4).unwrap());
}

#[test]
fn test_parse_full_range() {
    let result: Vec<IpAddress> = parse_ip_or_range(RANGE_2).unwrap();
    assert_eq!(result.len(), 5);
    assert_eq!(result[0], IpAddress::parse(TEST_3).unwrap());
    assert_eq!(result[4], IpAddress::parse(TEST_4).unwrap());
}

#[test]
fn test_big_v4() {
    let result: Result<Vec<IpAddress>, AddressError> = parse_ip_or_range(BIG_RANGE_V4);
    assert!(result.is_ok());
    assert_eq!(result.unwrap().len(), 2u64.pow(16) as usize - 2);
}

#[test]
fn test_ipv6_short_range() {
    let result: Vec<IpAddress> = parse_ip_or_range(RANGE_V6).unwrap();
    assert_eq!(result.len(), 5);
    assert_eq!(result[0], IpAddress::parse(TEST_V6_1).unwrap());
    assert_eq!(result[4], IpAddress::parse(TEST_V6_2).unwrap());
}

#[test]
fn test_ipv6_large_range() {
    let result: Vec<IpAddress> = parse_ip_or_range(BIG_RANGE_V6).unwrap();
    assert_eq!(result.len(), 65535);
    assert_eq!(result[0], IpAddress::parse(TEST_V6_1).unwrap());
    assert_eq!(result[65534], IpAddress::parse(TEST_V6_3).unwrap());
}

#[test]
fn test_invalid_range() {
    let result: Result<Vec<IpAddress>, AddressError> = parse_ip_or_range(BAD_RANGE);
    assert!(result.is_err());
}

#[test]
fn test_invalid_range_v6() {
    let result: Result<Vec<IpAddress>, AddressError> = parse_ip_or_range(BAD_RANGE_V6);
    assert!(result.is_err());
}

#[test]
fn test_toobig_v6() {
    let result: Result<Vec<IpAddress>, AddressError> = parse_ip_or_range(TOOBIG_V6);
    assert!(result.is_err());
}

#[test]
fn cidr_expands_to_its_two_usable_hosts() {
    assert_eq!(parse_ip_or_range("192.168.1.0/30"), Ok(vec![ip("192.168.1.1"), ip("192.168.1.2")]));
}

#[test]
fn short_range_lists_each_address() {
    assert_eq!(
        parse_ip_or_range("10.0.0.1-5"),
        Ok(vec![ip("10.0.0.1"), ip("10.0.0.2"), ip("10.0.0.3"), ip("10.0.0.4"), ip("10.0.0.5")])
    );
}

#[test]
fn full_prefix_expands_to_the_address_itself() {
    assert_eq!(parse_ip_or_range("10.1.2.3/32"), Ok(vec![ip("10.1.2.3")]));
    assert_eq!(parse_ip_or_range("2001:db8::7/128"), Ok(vec![ip("2001:db8::7")]));
}

#[test]
fn prefix_31_expands_to_both_addresses() {
    assert_eq!(parse_ip_or_range("10.0.0.4/31"), Ok(vec![ip("10.0.0.4"), ip("10.0.0.5")]));
}

#[test]
fn cidr_with_host_bits_expands_from_its_network() {
    assert_eq!(parse_ip_or_range("192.168.1.2/30"), Ok(vec![ip("192.168.1.1"), ip("192.168.1.2")]));
}

#[test]
fn v6_cidr_expands_to_all_its_addresses() {
    assert_eq!(
        parse_ip_or_range("fd00::/126"),
        Ok(vec![ip("fd00::"), ip("fd00::1"), ip("fd00::2"), ip("fd00::3")])
    );
}

#[test]
fn expansion_above_the_limit_is_refused() {
    // 65536 addresses are within the limit, 131072 are not
    assert_eq!(parse_ip_or_range("10.0.0.0/16").map(|v| v.len()), Ok(65534));
    assert_eq!(parse_ip_or_range("10.0.0.0/15"), Err(AddressError::RangeTooLarge(131072)));
    assert_eq!(parse_ip_or_range("10.0.0.0/0"), Err(AddressError::RangeTooLarge(1 << 32)));
    assert_eq!(parse_ip_or_range("::/0"), Err(AddressError::RangeTooLarge(u128::MAX)));
    assert_eq!(parse_ip_or_range("::/1"), Err(AddressError::RangeTooLarge(1 << 127)));
    assert_eq!(
        parse_ip_or_range("10.0.0.0-10.1.0.0"),
        Err(AddressError::RangeTooLarge(65537))
    );
    assert_eq!(parse_ip_or_range("10.0.0.0-10.0.255.255").map(|v| v.len()), Ok(65536));
    assert_eq!(
        parse_ip_or_range("::-ffff:ffff:ffff:ffff:ffff:ffff:ffff:ffff"),
        Err(AddressError::RangeTooLarge(u128::MAX))
    );
}

#[test]
fn expand_net_takes_the_parsed_block() {
    let net = Cidr { addr: ip("192.168.1.0"), prefix: 30 };
    assert_eq!(expand_net(net), Ok(vec![ip("192.168.1.1"), ip("192.168.1.2")]));
    let big = Cidr { addr: ip("10.0.0.0"), prefix: 8 };
    assert_eq!(expand_net(big), Err(AddressError::RangeTooLarge(1 << 24)));
}

#[test]
fn token_that_is_nothing_is_invalid() {
    assert_eq!(parse_ip_or_range("hello"), Err(AddressError::Invalid("hello".to_string())));
    assert_eq!(parse_ip_or_range(""), Err(AddressError::Invalid("".to_string())));
    assert_eq!(parse_ip_or_range("10.0.0.0/33"), Err(AddressError::Invalid("10.0.0.0/33".to_string())));
}

#[test]
fn range_format_errors() {
    assert_eq!(
        parse_ip_range("10.0.0.1"),
        Err(AddressError::InvalidRangeFmt("10.0.0.1".to_string()))
    );
    assert_eq!(
        parse_ip_range("10.0.0.1-2-3"),
        Err(AddressError::InvalidRangeFmt("10.0.0.1-2-3".to_string()))
    );
    assert_eq!(
        parse_ip_or_range("10.0.0.1-2-3"),
        Err(AddressError::InvalidRangeFmt("10.0.0.1-2-3".to_string()))
    );
    assert_eq!(
        parse_ip_range("10.0.0.x - 5"),
        Err(AddressError::InvalidRangeBegIp { beg: "10.0.0.x".to_string() })
    );
    assert_eq!(
        parse_ip_range("10.0.0.1-10.0.0"),
        Err(AddressError::InvalidRangeEndIp { end: "10.0.0".to_string() })
    );
    assert_eq!(
        parse_ip_range("10.0.0.1-abc"),
        Err(AddressError::InvalidRangeEndVal { val: "abc".to_string() })
    );
    assert_eq!(
        parse_ip_range("10.0.0.1-"),
        Err(AddressError::InvalidRangeEndVal { val: "".to_string() })
    );
    assert_eq!(
        parse_ip_range("10.0.0.1-99999999999"),
        Err(AddressError::InvalidRangeEndVal { val: "99999999999".to_string() })
    );
    assert_eq!(parse_ip_range("10.0.0.1-256"), Err(AddressError::InvalidV4Octet(256)));
    assert_eq!(parse_ip_range("::1-65536"), Err(AddressError::InvalidV6Hextet(65536)));
    assert_eq!(
        parse_ip_range("10.0.0.5-10.0.0.1"),
        Err(AddressError::RangeOrder(ip("10.0.0.5"), ip("10.0.0.1")))
    );
    assert_eq!(
        parse_ip_range("10.0.0.5-1"),
        Err(AddressError::RangeOrder(ip("10.0.0.5"), ip("10.0.0.1")))
    );
    assert_eq!(
        parse_ip_range("10.0.0.5-::1"),
        Err(AddressError::Mismatch(ip("10.0.0.5"), ip("::1")))
    );
    assert_eq!(
        parse_ip_range("::1-10.0.0.5"),
        Err(AddressError::Mismatch(ip("10.0.0.5"), ip("::1")))
    );
}

#[test]
fn ranges_parse_with_white_space_around_the_parts() {
    let expected = IpRange { beg: ip("10.0.0.1"), end: ip("10.0.0.5") };
    assert_eq!(parse_ip_range(" 10.0.0.1 - 5 "), Ok(expected));
    assert_eq!(parse_ip_range("10.0.0.1\t-\t10.0.0.5"), Ok(expected));
    assert_eq!(parse_ip_range("10.0.0.1-+5"), Ok(expected));
    assert_eq!(parse_ip_range("10.0.0.1-005"), Ok(expected));
}

#[test]
fn short_form_replaces_the_last_unit_only() {
    assert_eq!(parse_short_range_end(&ip("192.168.1.7"), "10"), Ok(ip("192.168.1.10")));
    assert_eq!(parse_short_range_end(&ip("192.168.1.7"), "0"), Ok(ip("192.168.1.0")));
    assert_eq!(parse_short_range_end(&ip("192.168.1.7"), "255"), Ok(ip("192.168.1.255")));
    assert_eq!(parse_short_range_end(&ip("2001:db8::abcd"), "65535"), Ok(ip("2001:db8::ffff")));
    assert_eq!(parse_short_range_end(&ip("2001:db8::abcd"), "16"), Ok(ip("2001:db8::10")));
    assert_eq!(
        parse_short_range_end(&ip("1.2.3.4"), "1.5"),
        Err(AddressError::InvalidRangeEndVal { val: "1.5".to_string() })
    );
}

#[test]
fn generate_lists_or_refuses() {
    assert_eq!(
        generate_ip_range(ip("10.0.0.254"), ip("10.0.1.1")),
        Ok(vec![ip("10.0.0.254"), ip("10.0.0.255"), ip("10.0.1.0"), ip("10.0.1.1")])
    );
    assert_eq!(generate_ip_range(ip("::5"), ip("::5")), Ok(vec![ip("::5")]));
    assert_eq!(
        generate_ip_range(ip("255.255.255.254"), ip("255.255.255.255")),
        Ok(vec![ip("255.255.255.254"), ip("255.255.255.255")])
    );
    assert_eq!(
        generate_ip_range(ip("10.0.0.2"), ip("10.0.0.1")),
        Err(AddressError::RangeOrder(ip("10.0.0.2"), ip("10.0.0.1")))
    );
    assert_eq!(
        generate_ip_range(ip("::1"), ip("10.0.0.1")),
        Err(AddressError::Mismatch(ip("::1"), ip("10.0.0.1")))
    );
    assert_eq!(
        generate_ip_range(ip("0.0.0.0"), ip("255.255.255.255")),
        Err(AddressError::RangeTooLarge(1 << 32))
    );
}

#[test]
fn error_messages() {
    assert_eq!(
        AddressError::Invalid("x".to_string()).to_string(),
        "invalid IP address, CIDR, or range: 'x'"
    );
    assert_eq!(
        AddressError::InvalidRangeFmt("a-b-c".to_string()).to_string(),
        "invalid range format: 'a-b-c'"
    );
    assert_eq!(
        AddressError::InvalidRangeBegIp { beg: "q".to_string() }.to_string(),
        "invalid start IP in range: 'q': invalid IP address syntax"
    );
    assert_eq!(
        AddressError::InvalidRangeEndIp { end: "q".to_string() }.to_string(),
        "invalid end IP in range: 'q': invalid IP address syntax"
    );
    assert_eq!(
        AddressError::InvalidRangeEndVal { val: "q".to_string() }.to_string(),
        "invalid range end value: 'q'"
    );
    assert_eq!(AddressError::InvalidV4Octet(300).to_string(), "IPv4 octet must be <= 255, got 300");
    assert_eq!(
        AddressError::InvalidV6Hextet(70000).to_string(),
        "IPv6 hextet must be <= 65535, got 70000"
    );
    assert_eq!(
        AddressError::RangeTooLarge(131072).to_string(),
        "range too large - addresses: 131072 (max 65536)"
    );
    assert_eq!(
        AddressError::RangeTooLarge(u128::MAX).to_string(),
        "range too large - addresses: 340282366920938463463374607431768211455 (max 65536)"
    );
    assert_eq!(
        AddressError::RangeOrder(ip("10.0.0.5"), ip("10.0.0.1")).to_string(),
        "start IP is greater than end IP (10.0.0.5 > 10.0.0.1)"
    );
    assert_eq!(
        AddressError::Mismatch(ip("10.0.0.5"), ip("::1")).to_string(),
        "cannot mix IPv4 and IPv6 in range: 10.0.0.5 - ::1"
    );
}
