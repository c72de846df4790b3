//! The methods of a CIDR block: its size, its kind, and its textual form
//! `address/prefix`.

use crate::addrtext::{addr_of_text, addr_text, parse_addr, push_addr};
use crate::bits::{lemma_pow2_bounds, lemma_pow2_monotonic, lemma_shl_is_pow2};
use crate::cidrtrip::lemma_cidr_round_trip;
use crate::collapsing::host_cidr;
use crate::laws::lemma_lengths_agree;
use crate::structs::{Cidr, IpAddress, IpFam, IPV4_BITS, IPV6_BITS};
use crate::text::{
    copy_range, count_char, count_of, find_char, from_chars, index_of, number_text, parse_uint,
    push_chars, push_number, push_text, to_chars, trim_chars, trimmed, uint_of_text,
};
use vstd::prelude::*;

verus! {

/// The text of a CIDR block: its address as stored, a slash, and its prefix
/// length in decimal notation.
pub open spec fn cidr_text(c: Cidr) -> Seq<char> {
    addr_text(c.addr) + seq!['/'] + number_text(c.prefix as int, 10)
}

/// An error message: what is wrong, then the offending text in quotes.
pub open spec fn complaint(what: Seq<char>, subject: Seq<char>) -> Seq<char> {
    what + seq![':', ' ', '\''] + subject + seq!['\'']
}

/// What parsing `s` as a CIDR block gives. Without a slash, `s` is an
/// address, and the block is that of the address alone. With one slash, the
/// parts before and after it are the address and the prefix length, each
/// with white space around it removed; the prefix length must be a number
/// that fits the family. Each failure has its own message.
pub open spec fn cidr_of_text(s: Seq<char>) -> Result<Cidr, Seq<char>> {
    if count_of(s, '/') == 0 {
        match addr_of_text(trimmed(s)) {
            Some(a) => Ok(host_cidr(a)),
            None => Err(complaint("invalid IP address"@, s)),
        }
    } else if count_of(s, '/') != 1 {
        Err(complaint("invalid CIDR format (too many slashes)"@, s))
    } else {
        let i = index_of(s, '/', 0);
        let addr = trimmed(s.subrange(0, i));
        let prefix = trimmed(s.subrange(i + 1, s.len() as int));
        match addr_of_text(addr) {
            None => Err(complaint("invalid IP address in CIDR"@, addr)),
            Some(a) => match uint_of_text(prefix, 255) {
                None => Err(complaint("invalid prefix in CIDR"@, prefix)),
                Some(p) => if p > a.family().width() {
                    Err(
                        complaint(
                            if a.family() == IpFam::V4 {
                                "invalid IPv4 prefix in CIDR"@
                            } else {
                                "invalid IPv6 prefix in CIDR"@
                            },
                            number_text(p, 10),
                        ),
                    )
                } else {
                    Ok(Cidr { addr: a, prefix: p as u8 })
                },
            },
        }
    }
}

/// The message for `subject`.
fn complain(what: &str, subject: &[char]) -> (msg: String)
    ensures
        msg@ == complaint(what@, subject@),
{
    let mut out: Vec<char> = Vec::new();
    push_text(&mut out, what);
    out.push(':');
    out.push(' ');
    out.push('\'');
    push_chars(&mut out, subject);
    out.push('\'');
    proof {
        assert(out@ =~= complaint(what@, subject@));
    }
    from_chars(out.as_slice())
}

/// A character that stands nowhere in a text is counted zero times.
pub proof fn lemma_count_zero(s: Seq<char>, c: char)
    requires
        forall|j: int| 0 <= j < s.len() ==> s[j] != c,
    ensures
        count_of(s, c) == 0,
    decreases s.len(),
{
    if s.len() > 0 {
        let p = s.drop_last();
        assert forall|j: int| 0 <= j < p.len() implies p[j] != c by {
            assert(p[j] == s[j]);
        }
        lemma_count_zero(p, c);
    }
}

impl Cidr {
    /// Number of IP addresses contained by this [Cidr]. Saturating: the
    /// whole IPv6 space counts as `u128::MAX`. This is the length of the range
    /// that the block covers.
    pub fn len(&self) -> (n: u128)
        ensures
            n == self.count(),
            n == self.span().count(),
    {
        proof {
            lemma_lengths_agree(*self);
        }
        let bits: u8 = match self.addr {
            IpAddress::V4(_) => IPV4_BITS,
            IpAddress::V6(_) => IPV6_BITS,
        };
        let host_bits: u8 = bits.saturating_sub(self.prefix);
        proof {
            lemma_pow2_bounds(self.host_bits());
        }

        // 2^128 does not fit in u128
        if bits == IPV6_BITS && host_bits == IPV6_BITS {
            return u128::MAX;
        }
        proof {
            lemma_shl_is_pow2(host_bits as u32);
        }
        1u128 << host_bits
    }

    /// Number of IP addresses contained by this [Cidr] if IPv4, else None.
    pub fn len_v4(&self) -> (n: Option<usize>)
        requires
            self.addr.family() == IpFam::V4 ==> self.count() <= usize::MAX,
        ensures
            self.addr.family() == IpFam::V4 ==> n == Some(self.count() as usize),
            self.addr.family() == IpFam::V6 ==> n is None,
    {
        if self.is_ipv4() {
            let host_bits: u8 = IPV4_BITS.saturating_sub(self.prefix);
            proof {
                lemma_pow2_bounds(self.host_bits());
                lemma_shl_is_pow2(host_bits as u32);
                lemma_pow2_monotonic(host_bits as nat, 32);
                lemma_pow2_bounds(32);
            }
            let n: u128 = 1u128 << host_bits;
            Some(n as usize)
        } else {
            None
        }
    }

    /// Returns true if the CIDR represents a single host address.
    pub fn is_host(&self) -> (b: bool)
        ensures
            b == (self.prefix == self.addr.family().width()),
    {
        match self.addr {
            IpAddress::V4(_) => self.prefix == IPV4_BITS,
            IpAddress::V6(_) => self.prefix == IPV6_BITS,
        }
    }

    pub fn is_ipv4(&self) -> (b: bool)
        ensures
            b == (self.addr.family() == IpFam::V4),
    {
        self.addr.is_ipv4()
    }

    pub fn is_ipv6(&self) -> (b: bool)
        ensures
            b == (self.addr.family() == IpFam::V6),
    {
        self.addr.is_ipv6()
    }

    /// The text `address/prefix`, with the address exactly as stored. The
    /// text of a well-formed block parses to the block.
    pub fn to_string(&self) -> (s: String)
        ensures
            s@ == cidr_text(*self),
            self.wf() ==> cidr_of_text(s@) == Ok::<Cidr, Seq<char>>(*self),
    {
        proof {
            if self.wf() {
                lemma_cidr_round_trip(*self);
            }
        }
        let mut out: Vec<char> = Vec::new();
        push_addr(&mut out, self.addr);
        out.push('/');
        push_number(&mut out, self.prefix as u128, 10);
        proof {
            assert(out@ =~= cidr_text(*self));
        }
        from_chars(out.as_slice())
    }

    /// Parse a CIDR block from `address/prefix`, or from an address alone,
    /// which gives the block of that address.
    pub fn from_str(s: &str) -> (r: Result<Cidr, String>)
        ensures
            match r {
                Ok(c) => cidr_of_text(s@) == Ok::<Cidr, Seq<char>>(c) && c.wf(),
                Err(e) => cidr_of_text(s@) == Err::<Cidr, Seq<char>>(e@),
            },
    {
        let chars: Vec<char> = to_chars(s);
        let slashes: usize = count_char(chars.as_slice(), '/');
        if slashes == 0 {
            let t: Vec<char> = trim_chars(chars.as_slice());
            return match parse_addr(t.as_slice()) {
                Some(addr) => Ok(
                    Cidr {
                        addr,
                        prefix: match addr {
                            IpAddress::V4(_) => IPV4_BITS,
                            IpAddress::V6(_) => IPV6_BITS,
                        },
                    },
                ),
                None => Err(complain("invalid IP address", chars.as_slice())),
            };
        }
        if slashes != 1 {
            return Err(complain("invalid CIDR format (too many slashes)", chars.as_slice()));
        }
        let i: usize = find_char(chars.as_slice(), '/');
        proof {
            if i == chars.len() {
                lemma_count_zero(chars@, '/');
            }
        }
        let left: Vec<char> = copy_range(chars.as_slice(), 0, i);
        let right: Vec<char> = copy_range(chars.as_slice(), i + 1, chars.len());
        let addr_text: Vec<char> = trim_chars(left.as_slice());
        let prefix_text: Vec<char> = trim_chars(right.as_slice());

        let addr: IpAddress = match parse_addr(addr_text.as_slice()) {
            Some(a) => a,
            None => {
                return Err(complain("invalid IP address in CIDR", addr_text.as_slice()));
            },
        };
        let prefix: u8 = match parse_uint(prefix_text.as_slice(), 255) {
            Some(p) => p as u8,
            None => {
                return Err(complain("invalid prefix in CIDR", prefix_text.as_slice()));
            },
        };
        match addr {
            IpAddress::V4(_) => {
                if prefix > IPV4_BITS {
                    let mut num: Vec<char> = Vec::new();
                    push_number(&mut num, prefix as u128, 10);
                    return Err(complain("invalid IPv4 prefix in CIDR", num.as_slice()));
                }
            },
            IpAddress::V6(_) => {
                if prefix > IPV6_BITS {
                    let mut num: Vec<char> = Vec::new();
                    push_number(&mut num, prefix as u128, 10);
                    return Err(complain("invalid IPv6 prefix in CIDR", num.as_slice()));
                }
            },
        }
        Ok(Cidr { addr, prefix })
    }
}

impl std::str::FromStr for Cidr {
    type Err = String;

    /// Parse a CIDR block from `address/prefix`, or from an address alone,
    /// which gives the block of that address.
    fn from_str(s: &str) -> (r: Result<Self, String>)
        ensures
            match r {
                Ok(c) => cidr_of_text(s@) == Ok::<Cidr, Seq<char>>(c) && c.wf(),
                Err(e) => cidr_of_text(s@) == Err::<Cidr, Seq<char>>(e@),
            },
    {
        Cidr::from_str(s)
    }
}

} // verus!
