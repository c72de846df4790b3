//! The value types of the toolkit: address family, address, inclusive range,
//! CIDR block, and the closed set of errors.

use crate::bits::{lemma_pow2_bounds, lemma_pow2_monotonic};
use vstd::arithmetic::power2::pow2;
use vstd::prelude::*;

verus! {

/// Width of an IPv4 address in bits.
pub const IPV4_BITS: u8 = 32;

/// Width of an IPv6 address in bits.
pub const IPV6_BITS: u8 = 128;

/// The largest number of addresses that an expanding function will list.
pub const MAX_RANGE_SIZE: usize = 65536;

/// IP address family.
#[derive(Clone, Copy, Debug, PartialEq, Eq, Structural)]
pub enum IpFam {
    V4,
    V6,
}

impl IpFam {
    /// Number of bits of an address of this family.
    pub open spec fn width(self) -> nat {
        match self {
            IpFam::V4 => 32,
            IpFam::V6 => 128,
        }
    }

    /// The highest address of this family, as a number.
    pub open spec fn top(self) -> int {
        match self {
            IpFam::V4 => 0xffff_ffff,
            IpFam::V6 => 0xffff_ffff_ffff_ffff_ffff_ffff_ffff_ffff,
        }
    }

    /// Position of the family in the order in which families are listed:
    /// IPv4 before IPv6.
    pub open spec fn rank(self) -> int {
        match self {
            IpFam::V4 => 0,
            IpFam::V6 => 1,
        }
    }

    /// Number of bits of an address of this family.
    pub fn bits(self) -> (b: u8)
        ensures
            b == self.width(),
    {
        match self {
            IpFam::V4 => IPV4_BITS,
            IpFam::V6 => IPV6_BITS,
        }
    }

    /// The highest address of this family.
    pub fn max_value(self) -> (m: u128)
        ensures
            m == self.top(),
    {
        match self {
            IpFam::V4 => 0xffff_ffffu128,
            IpFam::V6 => u128::MAX,
        }
    }
}

/// The highest address of a family is one less than two to its width.
pub proof fn lemma_top_is_pow2(fam: IpFam)
    ensures
        fam.top() == pow2(fam.width()) - 1,
{
    lemma_pow2_bounds(fam.width());
}

/// An IP address, held as the big-endian number of its bytes.
#[derive(Clone, Copy, Debug, PartialEq, Eq, Structural)]
pub enum IpAddress {
    V4(u32),
    V6(u128),
}

impl IpAddress {
    /// The family of the address.
    pub open spec fn family(self) -> IpFam {
        match self {
            IpAddress::V4(_) => IpFam::V4,
            IpAddress::V6(_) => IpFam::V6,
        }
    }

    /// The address as a number.
    pub open spec fn value(self) -> int {
        match self {
            IpAddress::V4(v) => v as int,
            IpAddress::V6(v) => v as int,
        }
    }

    /// The address of family `fam` whose number is `v`.
    pub open spec fn of(fam: IpFam, v: int) -> IpAddress {
        match fam {
            IpFam::V4 => IpAddress::V4(v as u32),
            IpFam::V6 => IpAddress::V6(v as u128),
        }
    }

    /// The family of the address.
    pub fn fam(&self) -> (f: IpFam)
        ensures
            f == self.family(),
    {
        match self {
            IpAddress::V4(_) => IpFam::V4,
            IpAddress::V6(_) => IpFam::V6,
        }
    }

    pub fn is_ipv4(&self) -> (b: bool)
        ensures
            b == (self.family() == IpFam::V4),
    {
        match self {
            IpAddress::V4(_) => true,
            IpAddress::V6(_) => false,
        }
    }

    pub fn is_ipv6(&self) -> (b: bool)
        ensures
            b == (self.family() == IpFam::V6),
    {
        match self {
            IpAddress::V4(_) => false,
            IpAddress::V6(_) => true,
        }
    }

    /// The address as an unsigned integer; an IPv4 address is widened.
    pub fn to_int(&self) -> (v: u128)
        ensures
            v == self.value(),
            v <= self.family().top(),
    {
        match self {
            IpAddress::V4(v) => *v as u128,
            IpAddress::V6(v) => *v,
        }
    }

    /// The address of family `fam` with the number `v`.
    pub fn from_int(fam: IpFam, v: u128) -> (a: IpAddress)
        requires
            v <= fam.top(),
        ensures
            a == IpAddress::of(fam, v as int),
            a.family() == fam,
            a.value() == v,
    {
        match fam {
            IpFam::V4 => IpAddress::V4(v as u32),
            IpFam::V6 => IpAddress::V6(v),
        }
    }
}

/// Converting an address to its number and back gives the same address, and
/// converting an in-range number to an address and back gives the same
/// number.
pub proof fn lemma_integer_round_trip(a: IpAddress, fam: IpFam, v: int)
    ensures
        IpAddress::of(a.family(), a.value()) == a,
        0 <= a.value() <= a.family().top(),
        0 <= v <= fam.top() ==> IpAddress::of(fam, v).value() == v && IpAddress::of(
            fam,
            v,
        ).family() == fam,
{
}

/// Inclusive range of addresses of one family, as numbers.
#[derive(Clone, Copy, Debug, PartialEq, Eq, Structural)]
pub struct Range {
    pub fam: IpFam,
    pub beg: u128,
    /// inclusive
    pub end: u128,
}

impl Range {
    /// The range is in order and lies within its family's address space.
    pub open spec fn wf(self) -> bool {
        self.beg <= self.end && self.end <= self.fam.top()
    }

    /// The address `x` of family `fam` lies in the range.
    pub open spec fn contains(self, fam: IpFam, x: int) -> bool {
        self.fam == fam && self.beg <= x <= self.end
    }

    /// The key by which ranges are ordered: family, then start, then end.
    pub open spec fn sort_key(self) -> (u8, u128, u128) {
        (
            match self.fam {
                IpFam::V4 => 0u8,
                IpFam::V6 => 1u8,
            },
            self.beg,
            self.end,
        )
    }

    /// Number of addresses in the range; `u128::MAX` stands for the one count
    /// that does not fit, that of the whole IPv6 space. A range whose start
    /// lies above its end counts as one address.
    pub open spec fn count(self) -> int {
        if self.end < self.beg {
            1
        } else if self.end - self.beg == u128::MAX {
            u128::MAX as int
        } else {
            self.end - self.beg + 1
        }
    }

    pub fn cmp_key(&self) -> (k: (u8, u128, u128))
        ensures
            k == self.sort_key(),
    {
        let fam_key = match self.fam {
            IpFam::V4 => 0u8,
            IpFam::V6 => 1u8,
        };
        (fam_key, self.beg, self.end)
    }

    /// The length of the range, saturating.
    pub fn len(&self) -> (n: u128)
        ensures
            n == self.count(),
    {
        let diff: u128 = self.end.saturating_sub(self.beg);
        if diff == u128::MAX {
            return u128::MAX;
        }
        diff.saturating_add(1)
    }
}

/// A CIDR block: an address and a prefix length. The address need not be
/// the network address of the block.
#[derive(Clone, Copy, Debug, PartialEq, Eq, Structural)]
pub struct Cidr {
    pub addr: IpAddress,
    /// **v4**: `0..=32`, **v6**: `0..=128`
    pub prefix: u8,
}

impl Cidr {
    /// The prefix length fits the family of the address.
    pub open spec fn wf(self) -> bool {
        self.prefix <= self.addr.family().width()
    }

    /// Number of bits left to the hosts; a prefix longer than the address
    /// leaves none.
    pub open spec fn host_bits(self) -> nat {
        if self.prefix >= self.addr.family().width() {
            0
        } else {
            (self.addr.family().width() - self.prefix) as nat
        }
    }

    /// Number of addresses of the block.
    pub open spec fn size(self) -> int {
        pow2(self.host_bits()) as int
    }

    /// The network address of the block, as a number.
    pub open spec fn first(self) -> int {
        self.addr.value() - self.addr.value() % self.size()
    }

    /// The last address of the block, as a number.
    pub open spec fn last(self) -> int {
        self.first() + self.size() - 1
    }

    /// The address `x` of family `fam` lies in the block.
    pub open spec fn contains(self, fam: IpFam, x: int) -> bool {
        self.addr.family() == fam && self.first() <= x <= self.last()
    }

    /// The host bits of the address are zero.
    pub open spec fn is_network(self) -> bool {
        self.addr.value() % self.size() == 0
    }

    /// The inclusive range that the block covers.
    pub open spec fn span(self) -> Range {
        Range { fam: self.addr.family(), beg: self.first() as u128, end: self.last() as u128 }
    }

    /// Number of addresses of the block, where `u128::MAX` stands for the one
    /// count that does not fit, that of the whole IPv6 space.
    pub open spec fn count(self) -> int {
        if self.size() > u128::MAX {
            u128::MAX as int
        } else {
            self.size()
        }
    }
}

/// The block of a CIDR lies within its family's address space, holds its
/// address, and starts at a multiple of its size.
pub proof fn lemma_cidr_block(c: Cidr)
    ensures
        0 <= c.first() <= c.addr.value() <= c.last() <= c.addr.family().top(),
        c.size() >= 1,
        c.first() % c.size() == 0,
        c.span().wf(),
        c.span().beg == c.first(),
        c.span().end == c.last(),
{
    let w = c.addr.family().width();
    let h = c.host_bits();
    let v = c.addr.value();
    let b = c.size();
    lemma_pow2_monotonic(h, w);
    lemma_top_is_pow2(c.addr.family());
    vstd::arithmetic::div_mod::lemma_fundamental_div_mod(v, b);
    vstd::arithmetic::div_mod::lemma_mod_bound(v, b);
    let q = v / b;
    let t = pow2(w) as int;
    // first = b * q; the block [b*q, b*q + b - 1] lies below t because b divides t
    assert(c.first() == b * q);
    vstd::arithmetic::div_mod::lemma_mod_multiples_basic(q, b);
    assert((q * b) % b == 0);
    assert(b * q == q * b) by (nonlinear_arith);
    // t is a multiple of b
    vstd::arithmetic::power2::lemma_pow2_adds(h, (w - h) as nat);
    let k = pow2((w - h) as nat) as int;
    assert(t == b * k);
    assert(q < k) by (nonlinear_arith)
        requires
            b * q <= v,
            v < t,
            t == b * k,
            b >= 1,
    ;
    assert(b * q + b <= b * k) by (nonlinear_arith)
        requires
            q < k,
            b >= 1,
    ;
}

/// The closed set of parse and validation failures.
#[derive(Clone, Debug, PartialEq, Eq)]
pub enum AddressError {
    /// invalid IP/range/CIDR
    Invalid(String),
    /// range format is invalid
    InvalidRangeFmt(String),
    /// the start of a range is no address
    InvalidRangeBegIp { beg: String },
    /// the end of a range is no address
    InvalidRangeEndIp { end: String },
    /// the short-form end of a range is no number
    InvalidRangeEndVal { val: String },
    /// the short-form end of an IPv4 range is above 255
    InvalidV4Octet(u32),
    /// the short-form end of an IPv6 range is above 65535
    InvalidV6Hextet(u32),
    /// more addresses than an expanding function will list; holds the count
    RangeTooLarge(u128),
    /// the start of a range lies above its end
    RangeOrder(IpAddress, IpAddress),
    /// start and end are not the same IP family (v4 vs v6).
    Mismatch(IpAddress, IpAddress),
}

/// What an error holds, with its texts as sequences of characters.
pub enum Failure {
    Invalid(Seq<char>),
    InvalidRangeFmt(Seq<char>),
    InvalidRangeBegIp(Seq<char>),
    InvalidRangeEndIp(Seq<char>),
    InvalidRangeEndVal(Seq<char>),
    InvalidV4Octet(u32),
    InvalidV6Hextet(u32),
    RangeTooLarge(u128),
    RangeOrder(IpAddress, IpAddress),
    Mismatch(IpAddress, IpAddress),
}

impl View for AddressError {
    type V = Failure;

    open spec fn view(&self) -> Failure {
        match self {
            AddressError::Invalid(t) => Failure::Invalid(t@),
            AddressError::InvalidRangeFmt(t) => Failure::InvalidRangeFmt(t@),
            AddressError::InvalidRangeBegIp { beg } => Failure::InvalidRangeBegIp(beg@),
            AddressError::InvalidRangeEndIp { end } => Failure::InvalidRangeEndIp(end@),
            AddressError::InvalidRangeEndVal { val } => Failure::InvalidRangeEndVal(val@),
            AddressError::InvalidV4Octet(v) => Failure::InvalidV4Octet(*v),
            AddressError::InvalidV6Hextet(v) => Failure::InvalidV6Hextet(*v),
            AddressError::RangeTooLarge(n) => Failure::RangeTooLarge(*n),
            AddressError::RangeOrder(a, b) => Failure::RangeOrder(*a, *b),
            AddressError::Mismatch(a, b) => Failure::Mismatch(*a, *b),
        }
    }
}

/// Inclusive range of IP addresses (endpoints are included).
#[derive(Debug, Clone, Copy, PartialEq, Eq, Structural)]
pub struct IpRange {
    pub beg: IpAddress,
    pub end: IpAddress,
}

impl IpRange {
    /// Both ends are of one family, and in order.
    pub open spec fn wf(self) -> bool {
        self.beg.family() == self.end.family() && self.beg.value() <= self.end.value()
    }

    /// The range as numbers.
    pub open spec fn span(self) -> Range {
        Range {
            fam: self.beg.family(),
            beg: self.beg.value() as u128,
            end: self.end.value() as u128,
        }
    }

    /// What `new` returns for the two ends.
    pub open spec fn checked(beg: IpAddress, end: IpAddress) -> Result<IpRange, AddressError> {
        match (beg, end) {
            (IpAddress::V4(_), IpAddress::V6(_)) => Err(AddressError::Mismatch(beg, end)),
            (IpAddress::V6(_), IpAddress::V4(_)) => Err(AddressError::Mismatch(end, beg)),
            _ => if beg.value() > end.value() {
                Err(AddressError::RangeOrder(beg, end))
            } else {
                Ok(IpRange { beg, end })
            },
        }
    }

    /// Create a new [IpRange]. Fails with `Mismatch`, which names the IPv4
    /// address first, if the families differ, and with `RangeOrder` if `beg`
    /// lies above `end`.
    pub fn new(beg: IpAddress, end: IpAddress) -> (r: Result<Self, AddressError>)
        ensures
            r == IpRange::checked(beg, end),
            r is Ok <==> (IpRange { beg, end }).wf(),
    {
        match (beg, end) {
            (IpAddress::V4(_), IpAddress::V6(_)) => {
                return Err(AddressError::Mismatch(beg, end));
            },
            (IpAddress::V6(_), IpAddress::V4(_)) => {
                return Err(AddressError::Mismatch(end, beg));
            },
            _ => {},
        }
        if beg.to_int() > end.to_int() {
            return Err(AddressError::RangeOrder(beg, end));
        }
        Ok(IpRange { beg, end })
    }

    /// Number of addresses in the range, saturating.
    pub fn len(&self) -> (n: u128)
        requires
            self.wf(),
        ensures
            n == self.span().count(),
    {
        let beg: u128 = self.beg.to_int();
        let end: u128 = self.end.to_int();
        end.saturating_sub(beg).saturating_add(1)
    }
}

} // verus!
