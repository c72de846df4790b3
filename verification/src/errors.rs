//! The messages of the errors.

use crate::addrtext::{addr_text, push_addr};
use crate::structs::AddressError;
use crate::text::{from_chars, number_text, push_number, push_text};
use vstd::prelude::*;

verus! {

/// `text` in single quotes.
pub open spec fn quoted(text: Seq<char>) -> Seq<char> {
    seq!['\''] + text + seq!['\'']
}

/// The message of an error.
pub open spec fn error_text(e: AddressError) -> Seq<char> {
    match e {
        AddressError::Invalid(ip) => "invalid IP address, CIDR, or range: "@ + quoted(ip@),
        AddressError::InvalidRangeFmt(rng) => "invalid range format: "@ + quoted(rng@),
        AddressError::InvalidRangeBegIp { beg } => "invalid start IP in range: "@ + quoted(beg@)
            + ": invalid IP address syntax"@,
        AddressError::InvalidRangeEndIp { end } => "invalid end IP in range: "@ + quoted(end@)
            + ": invalid IP address syntax"@,
        AddressError::InvalidRangeEndVal { val } => "invalid range end value: "@ + quoted(val@),
        AddressError::InvalidV4Octet(val) => "IPv4 octet must be <= 255, got "@ + number_text(
            val as int,
            10,
        ),
        AddressError::InvalidV6Hextet(val) => "IPv6 hextet must be <= 65535, got "@ + number_text(
            val as int,
            10,
        ),
        AddressError::RangeTooLarge(size) => "range too large - addresses: "@ + number_text(
            size as int,
            10,
        ) + " (max 65536)"@,
        AddressError::RangeOrder(beg, end) => "start IP is greater than end IP ("@ + addr_text(beg)
            + " > "@ + addr_text(end) + ")"@,
        AddressError::Mismatch(a, b) => "cannot mix IPv4 and IPv6 in range: "@ + addr_text(a)
            + " - "@ + addr_text(b),
    }
}

fn push_quoted(out: &mut Vec<char>, text: &str)
    ensures
        final(out)@ == old(out)@ + quoted(text@),
{
    out.push('\'');
    push_text(out, text);
    out.push('\'');
    proof {
        assert(out@ =~= old(out)@ + quoted(text@));
    }
}

impl AddressError {
    /// The message of the error.
    pub fn to_string(&self) -> (s: String)
        ensures
            s@ == error_text(*self),
    {
        let mut out: Vec<char> = Vec::new();
        match self {
            AddressError::Invalid(ip) => {
                push_text(&mut out, "invalid IP address, CIDR, or range: ");
                push_quoted(&mut out, ip.as_str());
            },
            AddressError::InvalidRangeFmt(rng) => {
                push_text(&mut out, "invalid range format: ");
                push_quoted(&mut out, rng.as_str());
            },
            AddressError::InvalidRangeBegIp { beg } => {
                push_text(&mut out, "invalid start IP in range: ");
                push_quoted(&mut out, beg.as_str());
                push_text(&mut out, ": invalid IP address syntax");
            },
            AddressError::InvalidRangeEndIp { end } => {
                push_text(&mut out, "invalid end IP in range: ");
                push_quoted(&mut out, end.as_str());
                push_text(&mut out, ": invalid IP address syntax");
            },
            AddressError::InvalidRangeEndVal { val } => {
                push_text(&mut out, "invalid range end value: ");
                push_quoted(&mut out, val.as_str());
            },
            AddressError::InvalidV4Octet(val) => {
                push_text(&mut out, "IPv4 octet must be <= 255, got ");
                push_number(&mut out, *val as u128, 10);
            },
            AddressError::InvalidV6Hextet(val) => {
                push_text(&mut out, "IPv6 hextet must be <= 65535, got ");
                push_number(&mut out, *val as u128, 10);
            },
            AddressError::RangeTooLarge(size) => {
                push_text(&mut out, "range too large - addresses: ");
                push_number(&mut out, *size, 10);
                push_text(&mut out, " (max 65536)");
            },
            AddressError::RangeOrder(beg, end) => {
                push_text(&mut out, "start IP is greater than end IP (");
                push_addr(&mut out, *beg);
                push_text(&mut out, " > ");
                push_addr(&mut out, *end);
                push_text(&mut out, ")");
            },
            AddressError::Mismatch(a, b) => {
                push_text(&mut out, "cannot mix IPv4 and IPv6 in range: ");
                push_addr(&mut out, *a);
                push_text(&mut out, " - ");
                push_addr(&mut out, *b);
            },
        }
        proof {
            assert(out@ =~= error_text(*self));
        }
        from_chars(out.as_slice())
    }
}

} // verus!
