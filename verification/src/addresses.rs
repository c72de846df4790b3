//! Parsing of one token into addresses: a single address, a CIDR block, or
//! a range in short form (`a.b.c.d-N`) or full form (`a.b.c.d-w.x.y.z`).

use crate::addrtext::{addr_of_text, parse_addr};
use crate::cidr::lemma_count_zero;
use crate::iterators::addresses;
use crate::structs::{AddressError, Cidr, Failure, IpAddress, IpFam, IpRange, MAX_RANGE_SIZE};
use crate::text::{
    copy_range, count_char, count_of, find_char, from_chars, index_of, parse_uint, to_chars,
    trim_chars, trimmed, uint_of_text,
};
use vstd::prelude::*;

verus! {

/// The result of parsing, with its values as sequences.
pub open spec fn listed(r: Result<Vec<IpAddress>, AddressError>) -> Result<
    Seq<IpAddress>,
    Failure,
> {
    match r {
        Ok(v) => Ok(v@),
        Err(e) => Err(e@),
    }
}

/// The result of parsing one value.
pub open spec fn single<T>(r: Result<T, AddressError>) -> Result<T, Failure> {
    match r {
        Ok(v) => Ok(v),
        Err(e) => Err(e@),
    }
}

/// The end of a short-form range: the start address with its last octet
/// (IPv4, up to 255) or its last 16-bit group (IPv6, up to 65535) replaced by
/// the number that `text` denotes.
pub open spec fn short_end(beg: IpAddress, text: Seq<char>) -> Result<IpAddress, Failure> {
    match uint_of_text(text, u32::MAX as int) {
        None => Err(Failure::InvalidRangeEndVal(text)),
        Some(n) => match beg {
            IpAddress::V4(v) => if n > 255 {
                Err(Failure::InvalidV4Octet(n as u32))
            } else {
                Ok(IpAddress::V4((v - v % 0x100 + n) as u32))
            },
            IpAddress::V6(v) => if n > 65535 {
                Err(Failure::InvalidV6Hextet(n as u32))
            } else {
                Ok(IpAddress::V6((v - v % 0x1_0000 + n) as u128))
            },
        },
    }
}

/// Parse short-form range end (e.g., "10" in "192.168.1.1-10")
pub fn parse_short_range_end(beg_ip: &IpAddress, end_str: &str) -> (r: Result<
    IpAddress,
    AddressError,
>)
    ensures
        single(r) == short_end(*beg_ip, end_str@),
{
    let chars: Vec<char> = to_chars(end_str);
    short_range_end(beg_ip, chars.as_slice())
}

fn short_range_end(beg_ip: &IpAddress, end_str: &[char]) -> (r: Result<IpAddress, AddressError>)
    ensures
        single(r) == short_end(*beg_ip, end_str@),
{
    let end_val: u32 = match parse_uint(end_str, u32::MAX) {
        Some(n) => n,
        None => {
            return Err(AddressError::InvalidRangeEndVal { val: from_chars(end_str) });
        },
    };
    match beg_ip {
        IpAddress::V4(start_v4) => {
            if end_val > 255 {
                return Err(AddressError::InvalidV4Octet(end_val));
            }
            Ok(IpAddress::V4(*start_v4 - *start_v4 % 0x100 + end_val))
        },
        IpAddress::V6(start_v6) => {
            if end_val > 65535 {
                return Err(AddressError::InvalidV6Hextet(end_val));
            }
            Ok(IpAddress::V6(*start_v6 - *start_v6 % 0x1_0000 + end_val as u128))
        },
    }
}

/// The range checked as `IpRange::new` checks it.
pub open spec fn checked_range(beg: IpAddress, end: IpAddress) -> Result<IpRange, Failure> {
    if beg.family() != end.family() {
        if beg.family() == IpFam::V4 {
            Err(Failure::Mismatch(beg, end))
        } else {
            Err(Failure::Mismatch(end, beg))
        }
    } else if beg.value() > end.value() {
        Err(Failure::RangeOrder(beg, end))
    } else {
        Ok(IpRange { beg, end })
    }
}

/// `text` holds a dot or a colon, as the full form of an address does.
pub open spec fn has_delimiter(text: Seq<char>) -> bool {
    count_of(text, '.') > 0 || count_of(text, ':') > 0
}

/// The range that `s` denotes. `s` must hold exactly one dash; the parts
/// before and after it, with white space around them removed, are the start
/// and the end. The start is an address. The end is an address if it holds
/// a dot or a colon, else the short form. The two must be of one family and
/// in order.
pub open spec fn range_of_text(s: Seq<char>) -> Result<IpRange, Failure> {
    if count_of(s, '-') != 1 {
        Err(Failure::InvalidRangeFmt(s))
    } else {
        let i = index_of(s, '-', 0);
        let beg_text = trimmed(s.subrange(0, i));
        let end_text = trimmed(s.subrange(i + 1, s.len() as int));
        match addr_of_text(beg_text) {
            None => Err(Failure::InvalidRangeBegIp(beg_text)),
            Some(beg) => if has_delimiter(end_text) {
                match addr_of_text(end_text) {
                    None => Err(Failure::InvalidRangeEndIp(end_text)),
                    Some(end) => checked_range(beg, end),
                }
            } else {
                match short_end(beg, end_text) {
                    Err(e) => Err(e),
                    Ok(end) => checked_range(beg, end),
                }
            },
        }
    }
}

/**
Parse an IP range in the format:
- 10.10.10.1-10 (short form, last octet only)
- 10.10.10.1-10.10.10.10 (full form)

### Returns
- [IpRange] struct with start and end IP addresses (inclusive).
*/
pub fn parse_ip_range(arg: &str) -> (r: Result<IpRange, AddressError>)
    ensures
        single(r) == range_of_text(arg@),
        r matches Ok(x) ==> x.wf(),
{
    let chars: Vec<char> = to_chars(arg);
    let dashes: usize = count_char(chars.as_slice(), '-');
    if dashes != 1 {
        return Err(AddressError::InvalidRangeFmt(from_chars(chars.as_slice())));
    }
    let i: usize = find_char(chars.as_slice(), '-');
    proof {
        if i == chars.len() {
            lemma_count_zero(chars@, '-');
        }
    }
    let left: Vec<char> = copy_range(chars.as_slice(), 0, i);
    let right: Vec<char> = copy_range(chars.as_slice(), i + 1, chars.len());
    let beg_str: Vec<char> = trim_chars(left.as_slice());
    let end_str: Vec<char> = trim_chars(right.as_slice());

    // Parse the start IP
    let beg_ip: IpAddress = match parse_addr(beg_str.as_slice()) {
        Some(a) => a,
        None => {
            return Err(AddressError::InvalidRangeBegIp { beg: from_chars(beg_str.as_slice()) });
        },
    };

    // Determine if this is short form (just a number) or full IP
    let full: bool = count_char(end_str.as_slice(), '.') > 0 || count_char(end_str.as_slice(), ':')
        > 0;
    let end_ip: IpAddress = if full {
        match parse_addr(end_str.as_slice()) {
            Some(a) => a,
            None => {
                return Err(
                    AddressError::InvalidRangeEndIp { end: from_chars(end_str.as_slice()) },
                );
            },
        }
    } else {
        // Short form - parse as last octet/hextet
        match short_range_end(&beg_ip, end_str.as_slice()) {
            Ok(a) => a,
            Err(e) => {
                return Err(e);
            },
        }
    };
    IpRange::new(beg_ip, end_ip)
}

/// Number of addresses from `start` to `end`, where `u128::MAX` stands for
/// the one count that does not fit.
pub open spec fn span_count(start: int, end: int) -> int {
    if end - start >= u128::MAX {
        u128::MAX as int
    } else {
        end - start + 1
    }
}

/// The addresses from `start` to `end`: fails with `Mismatch` if the
/// families differ, with `RangeOrder` if `start` lies above `end`, and with
/// `RangeTooLarge`, which holds the count, if there are more than 65536.
pub open spec fn generated(start: IpAddress, end: IpAddress) -> Result<Seq<IpAddress>, Failure> {
    if start.family() != end.family() {
        Err(Failure::Mismatch(start, end))
    } else if start.value() > end.value() {
        Err(Failure::RangeOrder(start, end))
    } else if span_count(start.value(), end.value()) > 65536 {
        Err(Failure::RangeTooLarge(span_count(start.value(), end.value()) as u128))
    } else {
        Ok(addresses(start.family(), start.value(), end.value()))
    }
}

/// The addresses of family `fam` with the numbers `lo..=hi`.
fn list_addresses(fam: IpFam, lo: u128, hi: u128) -> (v: Vec<IpAddress>)
    requires
        lo <= hi <= fam.top(),
        hi - lo < 65536,
    ensures
        v@ == addresses(fam, lo as int, hi as int),
{
    let mut v: Vec<IpAddress> = Vec::new();
    let n: u128 = hi - lo;
    let mut i: u128 = 0;
    while i <= n
        invariant
            lo <= hi <= fam.top(),
            n == hi - lo,
            n < 65536,
            i <= n + 1,
            v@.len() == i,
            forall|k: int| 0 <= k < i ==> v@[k] == IpAddress::of(fam, lo + k),
        decreases n + 1 - i,
    {
        v.push(IpAddress::from_int(fam, lo + i));
        i += 1;
    }
    proof {
        assert(v@ =~= addresses(fam, lo as int, hi as int));
    }
    v
}

/**
Generate all IPs between start and end (inclusive).

If the range holds more than [MAX_RANGE_SIZE] addresses, returns an error.
This should guard against an obvious footgun scenario, especially with
IPv6. If you really desire to generate larger ranges, consider
[IpRange::iter] instead.
*/
pub fn generate_ip_range(start: IpAddress, end: IpAddress) -> (r: Result<
    Vec<IpAddress>,
    AddressError,
>)
    ensures
        listed(r) == generated(start, end),
{
    match (start, end) {
        (IpAddress::V4(start_num), IpAddress::V4(end_num)) => {
            if start_num > end_num {
                return Err(AddressError::RangeOrder(start, end));
            }
            let count: u128 = (end_num - start_num) as u128 + 1;
            if count > MAX_RANGE_SIZE as u128 {
                return Err(AddressError::RangeTooLarge(count));
            }
            Ok(list_addresses(IpFam::V4, start_num as u128, end_num as u128))
        },
        (IpAddress::V6(start_num), IpAddress::V6(end_num)) => {
            if start_num > end_num {
                return Err(AddressError::RangeOrder(start, end));
            }
            let count: u128 = end_num.saturating_sub(start_num).saturating_add(1);
            if count > MAX_RANGE_SIZE as u128 {
                return Err(AddressError::RangeTooLarge(count));
            }
            Ok(list_addresses(IpFam::V6, start_num, end_num))
        },
        _ => Err(AddressError::Mismatch(start, end)),
    }
}

/// The CIDR block that the ipnet crate reads from a text, if it reads one.
pub uninterp spec fn net_of_text(s: Seq<char>) -> Option<Cidr>;

/// `FromStr` of `ipnet::IpNet`: the network that ipnet parses from `s`, as
/// its address and prefix length. The contract names the result and claims
/// that the prefix length fits the family, which the constructors of
/// `Ipv4Net` and `Ipv6Net` check. Not proved here.
#[verifier::external_body]
fn parse_net(s: &str) -> (r: Option<Cidr>)
    ensures
        r == net_of_text(s@),
        r matches Some(c) ==> c.wf(),
{
    match s.parse::<ipnet::IpNet>() {
        Ok(ipnet::IpNet::V4(n)) => Some(
            Cidr { addr: IpAddress::V4(n.addr().into()), prefix: n.prefix_len() },
        ),
        Ok(ipnet::IpNet::V6(n)) => Some(
            Cidr { addr: IpAddress::V6(n.addr().into()), prefix: n.prefix_len() },
        ),
        Err(_) => None,
    }
}

/// The host addresses of a network as ipnet lists them: for IPv4 with a
/// prefix shorter than 31, all addresses but the first and the last of the
/// block; else all addresses of the block.
pub open spec fn hosts_spec(net: Cidr) -> Seq<IpAddress> {
    if net.addr.family() == IpFam::V4 && net.prefix < 31 {
        addresses(IpFam::V4, net.first() + 1, net.last() - 1)
    } else {
        addresses(net.addr.family(), net.first(), net.last())
    }
}

/// `hosts` of `ipnet::Ipv4Net` and `ipnet::Ipv6Net`, collected: the host
/// addresses of the network in ascending order. The contract claims what
/// ipnet's source shows: the iterator runs from the network address to the
/// broadcast address, and for IPv4 with a prefix shorter than 31 leaves out
/// both. Not proved here.
#[verifier::external_body]
fn net_hosts(net: Cidr) -> (hosts: Vec<IpAddress>)
    requires
        net.wf(),
        net.count() <= 65536,
    ensures
        hosts@ == hosts_spec(net),
{
    match net.addr {
        IpAddress::V4(v) => ipnet::Ipv4Net::new(v.into(), net.prefix).unwrap().hosts().map(
            |a| IpAddress::V4(a.into()),
        ).collect(),
        IpAddress::V6(v) => ipnet::Ipv6Net::new(v.into(), net.prefix).unwrap().hosts().map(
            |a| IpAddress::V6(a.into()),
        ).collect(),
    }
}

/// The addresses that a CIDR block expands to: its host addresses, or its
/// own address where it has no host address; `RangeTooLarge` with the
/// number of its addresses if that is above 65536.
pub open spec fn expanded(net: Cidr) -> Result<Seq<IpAddress>, Failure> {
    if net.count() > 65536 {
        Err(Failure::RangeTooLarge(net.count() as u128))
    } else if hosts_spec(net).len() == 0 {
        Ok(seq![net.addr])
    } else {
        Ok(hosts_spec(net))
    }
}

/// Expand a CIDR block into its host addresses, unless it holds more than
/// [MAX_RANGE_SIZE] addresses.
pub fn expand_net(net: Cidr) -> (r: Result<Vec<IpAddress>, AddressError>)
    requires
        net.wf(),
    ensures
        listed(r) == expanded(net),
{
    let num_addrs: u128 = net.len();
    if num_addrs > MAX_RANGE_SIZE as u128 {
        return Err(AddressError::RangeTooLarge(num_addrs));
    }
    let hosts: Vec<IpAddress> = net_hosts(net);
    if hosts.len() == 0 {
        // no host address: use the address itself
        let mut v: Vec<IpAddress> = Vec::new();
        v.push(net.addr);
        return Ok(v);
    }
    Ok(hosts)
}

/// What parsing a token gives: the address, if it is one; else the
/// expansion of the CIDR block, if it is one; else, if it holds a dash, the
/// addresses of the range; else `Invalid` with the token.
pub open spec fn parsed(s: Seq<char>) -> Result<Seq<IpAddress>, Failure> {
    match addr_of_text(s) {
        Some(ip) => Ok(seq![ip]),
        None => match net_of_text(s) {
            Some(net) => expanded(net),
            None => if count_of(s, '-') > 0 {
                match range_of_text(s) {
                    Err(e) => Err(e),
                    Ok(range) => generated(range.beg, range.end),
                }
            } else {
                Err(Failure::Invalid(s))
            },
        },
    }
}

/**
Parse an IP address, CIDR, or IP range from a string and return all individual IPs.

Supported formats:
- Single IP: 10.10.10.1
- CIDR: 10.10.10.0/28
- Short range: 10.10.10.1-10 (last octet range)
- Full range: 10.10.10.1-10.10.10.10

NOTE: refuses to generate ranges larger than [MAX_RANGE_SIZE] to guard
against an obvious footgun scenario, especially with IPv6.
*/
pub fn parse_ip_or_range(arg: &str) -> (r: Result<Vec<IpAddress>, AddressError>)
    ensures
        listed(r) == parsed(arg@),
{
    let chars: Vec<char> = to_chars(arg);

    // Try single IP first
    if let Some(ip) = parse_addr(chars.as_slice()) {
        let mut v: Vec<IpAddress> = Vec::new();
        v.push(ip);
        proof {
            assert(v@ =~= seq![ip]);
        }
        return Ok(v);
    }
    // Try CIDR notation

    if let Some(network) = parse_net(arg) {
        return expand_net(network);
    }
    // Try range notation (10.10.10.1-10 or 10.10.10.1-10.10.10.10)

    if count_char(chars.as_slice(), '-') > 0 {
        let range: IpRange = match parse_ip_range(arg) {
            Ok(r) => r,
            Err(e) => {
                return Err(e);
            },
        };
        return generate_ip_range(range.beg, range.end);
    }
    Err(AddressError::Invalid(from_chars(chars.as_slice())))
}

} // verus!
