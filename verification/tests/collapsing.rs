use miniutils::{
    cidr_to_range, collapse_cidrs, collapse_ips, collapse_ranges, collapse_ranges_fuzzy,
    collapse_ranges_tuples, collapse_spans, collapse_strings, ip_to_host_cidr, iprange_to_range,
    merge_ranges, merge_ranges_fuzzy, range_to_cidrs, AddressError, Cidr, CidrIterator, IpAddress,
    IpFam, IpRange, Range,
};

const TST_A_1: &str = "192.168.0.0";
const TST_A_2: &str = "192.168.1.0";
const RES_T_A: &str = "192.168.0.0/23";

const TST_B_1: &str = "10.0.0.0";
const TST_B_2: &str = "10.1.2.0";
const RES_T_B: &str = "10.0.0.0/8";

const TST_C_1: &str = "2001:db8::";
const TST_C_2: &str = "2001:db8:0:0:8000::";
const RES_T_C: &str = "2001:db8::/64";

const TST_D_V4: [&str; 4] = ["172.16.0.4", "172.16.0.5", "172.16.0.6", "172.16.0.7"];
const RES_D_V4: &str = "172.16.0.4/30";

const TST_D_V6: [&str; 4] = ["2001:db8::4", "2001:db8::5", "2001:db8::6", "2001:db8::7"];
const RES_D_V6: &str = "2001:db8::4/126";

const TST_E_V4: [&str; 4] = ["172.16.0.8", "172.16.0.11", "172.16.0.13", "172.16.0.15"];
const RES_E_V4: &str = "172.16.0.8/29";

const TST_E_V6: [&str; 4] = ["2001:db8::0", "2001:db8::3", "2001:db8::5", "2001:db8::7"];
const RES_E_V6: &str = "2001:db8::/125";

fn ip(s: &str) -> IpAddress {
    IpAddress::parse(s).unwrap()
}

fn cidr(s: &str) -> Cidr {
    Cidr::from_str(s).unwrap()
}

fn texts(cidrs: &[Cidr]) -> Vec<String> {
    cidrs.iter().map(|c| c.to_string()).collect()
}

fn all_of(mut it: CidrIterator) -> Vec<IpAddress> {
    let mut v = Vec::new();
    while let Some(a) = it.next() {
        v.push(a);
    }
    v
}

#[test]
fn test_merges_adjacent_v4() {
    let input = [
        Cidr { addr: IpAddress::parse(TST_A_1).unwrap(), prefix: 24 },
        Cidr { addr: IpAddress::parse(TST_A_2).unwrap(), prefix: 24 },
    ];
    let out = collapse_cidrs(&input, 0);
    assert_eq!(out.len(), 1);
    assert_eq!(out[0].to_string(), RES_T_A);
}

#[test]
fn test_removes_redundant() {
    let input = [
        Cidr { addr: IpAddress::parse(TST_B_1).unwrap(), prefix: 8 },
        Cidr { addr: IpAddress::parse(TST_B_2).unwrap(), prefix: 24 },
    ];
    let out = collapse_cidrs(&input, 0);
    assert_eq!(out.len(), 1);
    assert_eq!(out[0].to_string(), RES_T_B);
}

#[test]
fn test_handles_ipv6_merge() {
    let input = [
        Cidr { addr: IpAddress::parse(TST_C_1).unwrap(), prefix: 65 },
        Cidr { addr: IpAddress::parse(TST_C_2).unwrap(), prefix: 65 },
    ];
    let out = collapse_cidrs(&input, 0);
    assert_eq!(out.len(), 1);
    assert_eq!(out[0].to_string(), RES_T_C);
}

#[test]
fn test_range_to_cidr() {
    let r = Range {
        fam: IpFam::V4,
        beg: 172u128 << 24 | 16u128 << 16 | 0u128 << 8 | 4u128,
        end: 172u128 << 24 | 16u128 << 16 | 0u128 << 8 | 7u128,
    };
    let cidrs = range_to_cidrs(r);
    let cidr_strs: Vec<String> = cidrs.iter().map(|c| c.to_string()).collect();
    assert_eq!(cidr_strs[0], RES_D_V4.to_string());
}

#[test]
fn test_ip_to_host_cidr_v4() {
    let input: Vec<Cidr> =
        TST_D_V4.iter().map(|s| ip_to_host_cidr(IpAddress::parse(s).unwrap())).collect();
    let out = collapse_cidrs(&input, 0);
    assert_eq!(out.len(), 1);
    assert_eq!(out[0].to_string(), RES_D_V4);
}

#[test]
fn test_ip_to_host_cidr_v6() {
    let input: Vec<Cidr> =
        TST_D_V6.iter().map(|s| ip_to_host_cidr(IpAddress::parse(s).unwrap())).collect();
    let out = collapse_cidrs(&input, 0);
    assert_eq!(out.len(), 1);
    assert_eq!(out[0].to_string(), RES_D_V6);
}

#[test]
fn collapsing_test_cidr_iter_v4() {
    let cidr = collapse_strings(
        TST_D_V4.iter().map(|s| s.to_string()).collect::<Vec<String>>().as_slice(),
        0,
    )[0];
    let ip_strs: Vec<String> = all_of(cidr.iter()).iter().map(|c| c.to_string()).collect();
    let expected: Vec<String> = TST_D_V4.iter().map(|s| s.to_string()).collect();
    assert_eq!(ip_strs, expected);
}

#[test]
fn collapsing_test_cidr_iter_v6() {
    let cidr = collapse_strings(
        TST_D_V6.iter().map(|s| s.to_string()).collect::<Vec<String>>().as_slice(),
        0,
    )[0];
    let ip_strs: Vec<String> = all_of(cidr.iter()).iter().map(|c| c.to_string()).collect();
    let expected: Vec<String> = TST_D_V6.iter().map(|s| s.to_string()).collect();
    assert_eq!(ip_strs, expected);
}

#[test]
fn test_fuzz_v4() {
    let input: Vec<Cidr> =
        TST_E_V4.iter().map(|s| ip_to_host_cidr(IpAddress::parse(s).unwrap())).collect();
    let out = collapse_cidrs(&input, 2);
    println!("{:?}", out);
    assert_eq!(out.len(), 1);
    assert_eq!(out[0].to_string(), RES_E_V4);
}

#[test]
fn test_fuzz_v6() {
    let input: Vec<Cidr> =
        TST_E_V6.iter().map(|s| ip_to_host_cidr(IpAddress::parse(s).unwrap())).collect();
    let out = collapse_cidrs(&input, 2);
    println!("{:?}", out);
    assert_eq!(out.len(), 1);
    assert_eq!(out[0].to_string(), RES_E_V6);
}

#[test]
fn collapse_two_adjacent_blocks() {
    let out = collapse_cidrs(&[cidr("192.168.0.0/24"), cidr("192.168.1.0/24")], 0);
    assert_eq!(out, vec![cidr("192.168.0.0/23")]);
}

#[test]
fn collapse_absorbs_a_redundant_block() {
    let out = collapse_cidrs(&[cidr("10.0.0.0/8"), cidr("10.1.2.0/24")], 0);
    assert_eq!(out, vec![cidr("10.0.0.0/8")]);
}

#[test]
fn collapse_with_gap_two_swallows_the_gaps() {
    let input = [
        cidr("172.16.0.8/32"),
        cidr("172.16.0.11/32"),
        cidr("172.16.0.13/32"),
        cidr("172.16.0.15/32"),
    ];
    assert_eq!(collapse_cidrs(&input, 2), vec![cidr("172.16.0.8/29")]);
    // one less and the first gap stays open
    assert_eq!(
        texts(&collapse_cidrs(&input, 1)),
        ["172.16.0.8/32", "172.16.0.11/32", "172.16.0.12/30"]
    );
    assert_eq!(
        texts(&collapse_cidrs(&input, 0)),
        ["172.16.0.8/32", "172.16.0.11/32", "172.16.0.13/32", "172.16.0.15/32"]
    );
}

#[test]
fn collapse_sorts_its_input() {
    let input =
        [cidr("10.0.3.0/24"), cidr("::2/128"), cidr("10.0.1.0/24"), cidr("::3/128"), cidr("10.0.2.0/24"), cidr("10.0.0.0/24")];
    assert_eq!(texts(&collapse_cidrs(&input, 0)), ["10.0.0.0/22", "::2/127"]);
}

#[test]
fn collapse_lists_ipv4_before_ipv6() {
    let input = [cidr("::1/128"), cidr("255.255.255.255/32"), cidr("::/128"), cidr("0.0.0.0/32")];
    assert_eq!(
        texts(&collapse_cidrs(&input, 0)),
        ["0.0.0.0/32", "255.255.255.255/32", "::/127"]
    );
    // the families are never merged, whatever the gap
    assert_eq!(
        texts(&collapse_cidrs(&input, u128::MAX)),
        ["0.0.0.0/0", "::/127"]
    );
}

#[test]
fn collapse_normalizes_host_addresses() {
    let out = collapse_cidrs(&[cidr("192.168.1.77/24")], 0);
    assert_eq!(texts(&out), ["192.168.1.0/24"]);
}

#[test]
fn collapse_of_nothing_is_nothing() {
    assert_eq!(collapse_cidrs(&[], 0), vec![]);
    assert_eq!(collapse_ips(&[], 5), vec![]);
    assert_eq!(collapse_ranges(&[]), Ok(vec![]));
    assert_eq!(collapse_spans(vec![], 0), vec![]);
}

#[test]
fn collapse_the_whole_space() {
    assert_eq!(texts(&collapse_cidrs(&[cidr("::/1"), cidr("8000::/1")], 0)), ["::/0"]);
    assert_eq!(texts(&collapse_cidrs(&[cidr("0.0.0.0/1"), cidr("128.0.0.0/1")], 0)), ["0.0.0.0/0"]);
}

#[test]
fn collapse_ips_merges_neighbours() {
    let ips = [ip("10.0.0.3"), ip("10.0.0.1"), ip("10.0.0.2"), ip("10.0.0.0"), ip("10.0.0.2")];
    assert_eq!(texts(&collapse_ips(&ips, 0)), ["10.0.0.0/30"]);
}

#[test]
fn collapse_strings_skips_what_it_cannot_parse() {
    let input: Vec<String> = ["10.0.0.0/25", "junk", "10.0.0.128/25", "1.2.3.4/99", " 9.9.9.9", "10.0.1.0"]
        .iter()
        .map(|s| s.to_string())
        .collect();
    assert_eq!(texts(&collapse_strings(&input, 0)), ["10.0.0.0/24", "10.0.1.0/32"]);
}

#[test]
fn decomposition_of_a_ragged_range() {
    let r = Range { fam: IpFam::V4, beg: 1, end: 14 };
    assert_eq!(
        texts(&range_to_cidrs(r)),
        ["0.0.0.1/32", "0.0.0.2/31", "0.0.0.4/30", "0.0.0.8/30", "0.0.0.12/31", "0.0.0.14/32"]
    );
}

#[test]
fn decomposition_at_the_edges_of_the_space() {
    let whole4 = Range { fam: IpFam::V4, beg: 0, end: 0xFFFF_FFFF };
    assert_eq!(texts(&range_to_cidrs(whole4)), ["0.0.0.0/0"]);
    let whole6 = Range { fam: IpFam::V6, beg: 0, end: u128::MAX };
    assert_eq!(texts(&range_to_cidrs(whole6)), ["::/0"]);
    let top6 = Range { fam: IpFam::V6, beg: u128::MAX, end: u128::MAX };
    assert_eq!(texts(&range_to_cidrs(top6)), ["ffff:ffff:ffff:ffff:ffff:ffff:ffff:ffff/128"]);
    let upper6 = Range { fam: IpFam::V6, beg: 1 << 127, end: u128::MAX };
    assert_eq!(texts(&range_to_cidrs(upper6)), ["8000::/1"]);
    let almost6 = Range { fam: IpFam::V6, beg: 1, end: u128::MAX };
    let blocks = range_to_cidrs(almost6);
    assert_eq!(blocks.len(), 128);
    assert_eq!(blocks[0].to_string(), "::1/128");
    assert_eq!(blocks[127].to_string(), "8000::/1");
    let top4 = Range { fam: IpFam::V4, beg: 0xFFFF_FFFE, end: 0xFFFF_FFFF };
    assert_eq!(texts(&range_to_cidrs(top4)), ["255.255.255.254/31"]);
    let low6 = Range { fam: IpFam::V6, beg: 0, end: u128::MAX - 1 };
    let blocks = range_to_cidrs(low6);
    assert_eq!(blocks.len(), 128);
    assert_eq!(blocks[0].to_string(), "::/1");
}

#[test]
fn decomposition_covers_the_range_exactly() {
    let mut x: u64 = 0x2545_F491_4F6C_DD1D;
    for _ in 0..300 {
        x ^= x << 13;
        x ^= x >> 7;
        x ^= x << 17;
        let a = (x as u32) as u128;
        let b = ((x >> 32) as u32) as u128;
        let (beg, end) = if a <= b { (a, b) } else { (b, a) };
        let blocks = range_to_cidrs(Range { fam: IpFam::V4, beg, end });
        let mut next = beg;
        for c in &blocks {
            let r = cidr_to_range(*c);
            // each block starts where the last one ended, at its own network address
            assert_eq!(r.beg, next);
            assert_eq!(c.addr.to_int(), r.beg);
            assert!(r.end <= end);
            next = r.end + 1;
        }
        assert_eq!(next, end + 1);
    }
}

#[test]
fn merging_joins_what_overlaps_or_touches() {
    let r = |beg: u128, end: u128| Range { fam: IpFam::V4, beg, end };
    let sorted = [r(0, 5), r(3, 4), r(6, 9), r(11, 12), r(12, 20)];
    assert_eq!(merge_ranges(&sorted), vec![r(0, 9), r(11, 20)]);
    let mixed = [r(0, 5), Range { fam: IpFam::V6, beg: 0, end: 5 }];
    assert_eq!(merge_ranges(&mixed), mixed.to_vec());
    let top = [
        Range { fam: IpFam::V6, beg: 5, end: u128::MAX },
        Range { fam: IpFam::V6, beg: u128::MAX, end: u128::MAX },
    ];
    assert_eq!(merge_ranges(&top), vec![top[0]]);
}

#[test]
fn merging_canonical_ranges_changes_nothing() {
    let r = |beg: u128, end: u128| Range { fam: IpFam::V4, beg, end };
    let canonical = [r(0, 5), r(7, 9), r(11, 20), Range { fam: IpFam::V6, beg: 0, end: 0 }];
    assert_eq!(merge_ranges(&canonical), canonical.to_vec());
    assert_eq!(merge_ranges_fuzzy(&canonical, 0), canonical.to_vec());
}

#[test]
fn fuzzy_merging_bridges_gaps_up_to_the_tolerance() {
    let r = |beg: u128, end: u128| Range { fam: IpFam::V4, beg, end };
    let merged = [r(0, 5), r(7, 9), r(13, 20), r(100, 200)];
    assert_eq!(merge_ranges_fuzzy(&merged, 1), vec![r(0, 9), r(13, 20), r(100, 200)]);
    assert_eq!(merge_ranges_fuzzy(&merged, 2), vec![r(0, 9), r(13, 20), r(100, 200)]);
    assert_eq!(merge_ranges_fuzzy(&merged, 3), vec![r(0, 20), r(100, 200)]);
    assert_eq!(merge_ranges_fuzzy(&merged, 79), vec![r(0, 200)]);
    assert_eq!(merge_ranges_fuzzy(&merged, u128::MAX), vec![r(0, 200)]);
}

#[test]
fn a_larger_tolerance_covers_no_less() {
    let input: Vec<Cidr> = ["10.0.0.1/32", "10.0.0.4/31", "10.0.0.9/32", "10.0.0.20/30", "10.0.1.0/24"]
        .iter()
        .map(|s| cidr(s))
        .collect();
    let mut covered_before: u128 = 0;
    let exact = collapse_cidrs(&input, 0);
    for gap in [0u128, 1, 2, 3, 4, 10, 100, 1000] {
        let out = collapse_cidrs(&input, gap);
        let covered: u128 = out.iter().map(|c| c.len()).sum();
        assert!(covered >= covered_before);
        covered_before = covered;
        // every exact block lies within some block of the fuzzy result
        for e in &exact {
            let er = cidr_to_range(*e);
            assert!(out.iter().any(|c| {
                let r = cidr_to_range(*c);
                r.beg <= er.beg && er.end <= r.end
            }));
        }
    }
}

#[test]
fn collapsing_a_collapsed_list_changes_nothing() {
    let input: Vec<Cidr> = [
        "10.0.0.1/32", "10.0.0.4/31", "10.0.0.9/32", "10.0.0.20/30", "10.0.1.0/24", "2001:db8::/33",
        "10.0.0.2/31", "2001:db8:8000::/33", "::1/128",
    ]
    .iter()
    .map(|s| cidr(s))
    .collect();
    for gap in [0u128, 1, 5] {
        let once = collapse_cidrs(&input, gap);
        assert_eq!(collapse_cidrs(&once, 0), once);
    }
    let minimal = [cidr("10.0.0.0/24"), cidr("10.0.2.0/23"), cidr("2001:db8::/32")];
    assert_eq!(collapse_cidrs(&minimal, 0), minimal.to_vec());
}

#[test]
fn ranges_given_in_reverse_are_swapped_by_the_collapser() {
    let reversed = IpRange { beg: ip("10.0.0.5"), end: ip("10.0.0.1") };
    assert_eq!(
        iprange_to_range(reversed),
        Ok(Range { fam: IpFam::V4, beg: 0x0A00_0001, end: 0x0A00_0005 })
    );
    assert_eq!(
        collapse_ranges(&[reversed]).map(|v| texts(&v)),
        Ok(vec!["10.0.0.1/32".to_string(), "10.0.0.2/31".to_string(), "10.0.0.4/31".to_string()])
    );
}

#[test]
fn tuples_in_reverse_order_are_refused() {
    assert_eq!(
        collapse_ranges_tuples(&[(ip("10.0.0.5"), ip("10.0.0.1"))]),
        Err(AddressError::RangeOrder(ip("10.0.0.5"), ip("10.0.0.1")))
    );
    assert_eq!(
        collapse_ranges_tuples(&[(ip("10.0.0.1"), ip("10.0.0.2")), (ip("::1"), ip("10.0.0.1"))]),
        Err(AddressError::Mismatch(ip("10.0.0.1"), ip("::1")))
    );
    assert_eq!(
        collapse_ranges_tuples(&[(ip("10.0.0.0"), ip("10.0.0.127")), (ip("10.0.0.128"), ip("10.0.0.255"))])
            .map(|v| texts(&v)),
        Ok(vec!["10.0.0.0/24".to_string()])
    );
}

#[test]
fn ranges_of_mixed_families_are_refused() {
    let mixed = IpRange { beg: ip("::1"), end: ip("10.0.0.1") };
    let fine = IpRange { beg: ip("10.0.0.1"), end: ip("10.0.0.1") };
    assert_eq!(iprange_to_range(mixed), Err(AddressError::Mismatch(ip("::1"), ip("10.0.0.1"))));
    assert_eq!(
        collapse_ranges(&[fine, mixed]),
        Err(AddressError::Mismatch(ip("::1"), ip("10.0.0.1")))
    );
    assert_eq!(
        collapse_ranges_fuzzy(&[fine, mixed], 3),
        Err(AddressError::Mismatch(ip("::1"), ip("10.0.0.1")))
    );
}

#[test]
fn large_spans_collapse_without_listing_addresses() {
    // the span of 10.0.0.0/15 is too large to list, but not to collapse
    let span = IpRange::new(ip("10.0.0.0"), ip("10.1.255.255")).unwrap();
    assert_eq!(collapse_ranges(&[span]).map(|v| texts(&v)), Ok(vec!["10.0.0.0/15".to_string()]));
    let whole = IpRange::new(ip("::"), ip("ffff:ffff:ffff:ffff:ffff:ffff:ffff:ffff")).unwrap();
    assert_eq!(collapse_ranges(&[whole]).map(|v| texts(&v)), Ok(vec!["::/0".to_string()]));
    assert_eq!(texts(&collapse_cidrs(&[cidr("10.0.0.0/16")], 0)), ["10.0.0.0/16"]);
}

#[test]
fn fuzzy_range_collapse() {
    let a = IpRange::new(ip("10.0.0.0"), ip("10.0.0.9")).unwrap();
    let b = IpRange::new(ip("10.0.0.12"), ip("10.0.0.15")).unwrap();
    assert_eq!(
        collapse_ranges_fuzzy(&[b, a], 2).map(|v| texts(&v)),
        Ok(vec!["10.0.0.0/28".to_string()])
    );
    assert_eq!(
        collapse_ranges_fuzzy(&[b, a], 1).map(|v| texts(&v)),
        Ok(vec!["10.0.0.0/29".to_string(), "10.0.0.8/31".to_string(), "10.0.0.12/30".to_string()])
    );
    assert_eq!(collapse_ranges_fuzzy(&[b, a], 0), collapse_ranges(&[a, b]));
}

#[test]
fn host_cidr_has_the_full_prefix() {
    assert_eq!(ip_to_host_cidr(ip("10.0.0.1")), Cidr { addr: ip("10.0.0.1"), prefix: 32 });
    assert_eq!(ip_to_host_cidr(ip("::1")), Cidr { addr: ip("::1"), prefix: 128 });
}
