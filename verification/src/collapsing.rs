//! Collapsing collections of addresses, ranges and CIDR blocks into minimal
//! sets of CIDR blocks.

use crate::bits::{lemma_low_bits_is_mod, lemma_pow2_bounds, lemma_pow2_monotonic, lemma_shl_is_pow2, mask_u128};
use crate::decompose::{cidrs_cover, decompose_spec, range_to_cidrs};
use crate::laws::{
    blocks_ascend, blocks_normal, lemma_collapse, lemma_spans_cover,
};
use crate::minimal::{covers_same, lemma_collapse_minimal};
use crate::merging::{
    all_wf, lemma_spaced_is_ordered, lemma_sweep_idempotent, merge_ranges, merge_ranges_fuzzy,
    ranges_cover, sweep,
};
use crate::addrtext::addr_of_text;
use crate::cidr::cidr_of_text;
use crate::sorting::{lemma_sort_spec, sort_ranges, sort_spec};
use crate::text::{count_char, count_of, texts_of, to_chars};
use crate::structs::{
    lemma_cidr_block, lemma_top_is_pow2, AddressError, Cidr, IpAddress, IpFam, IpRange, Range,
    IPV4_BITS, IPV6_BITS,
};
use vstd::arithmetic::power2::pow2;
use vstd::prelude::*;

verus! {

/// Masking with a prefix mask clears the low bits, and setting the host bits
/// adds the low mask.
proof fn lemma_mask_splits(ip: u128, h: u32, top: u128, mask: u128)
    by (bit_vector)
    requires
        0 < h < 128,
        top == 0xffff_ffffu128 || top == 0xffff_ffff_ffff_ffff_ffff_ffff_ffff_ffffu128,
        (1u128 << h) - 1 <= top,
        mask == top - ((1u128 << h) - 1),
        ip <= top,
    ensures
        (ip & mask) + (ip & (((1u128 << h) - 1) as u128)) == ip,
        (ip & mask) | (top & !mask) == (ip & mask) + ((1u128 << h) - 1),
{
}

/// Convert a CIDR to the inclusive range that it covers.
pub fn cidr_to_range(c: Cidr) -> (r: Range)
    ensures
        r == c.span(),
        r.wf(),
{
    let fam: IpFam = c.addr.fam();
    let bits: u8 = fam.bits();
    let top: u128 = fam.max_value();
    let pre: u8 = if c.prefix < bits { c.prefix } else { bits };
    let ip: u128 = c.addr.to_int();
    let mask: u128 = mask_u128(bits, pre);
    let net: u128 = ip & mask;
    let end: u128 = net | (top & !mask);
    proof {
        lemma_cidr_block(c);
        lemma_top_is_pow2(fam);
        let h: nat = c.host_bits();
        assert(h == bits - pre);
        if pre == 0 {
            assert(ip & 0u128 == 0) by (bit_vector);
            assert(0u128 | (top & !0u128) == top) by (bit_vector);
            vstd::arithmetic::div_mod::lemma_small_mod(ip as nat, pow2(h));
        } else if pre >= bits {
            assert(ip & 0xffff_ffff_ffff_ffff_ffff_ffff_ffff_ffffu128 == ip) by (bit_vector);
            assert(ip | (top & !0xffff_ffff_ffff_ffff_ffff_ffff_ffff_ffffu128) == ip)
                by (bit_vector);
            assert(pow2(0) == 1) by {
                vstd::arithmetic::power2::lemma2_to64();
            }
            assert((ip as int) % 1 == 0);
        } else {
            lemma_shl_is_pow2(h as u32);
            lemma_pow2_monotonic(h, bits as nat);
            lemma_pow2_bounds(bits as nat);
            lemma_mask_splits(ip, h as u32, top, mask);
            lemma_low_bits_is_mod(ip, h as u32);
        }
    }
    Range { fam, beg: net, end }
}

/// The ranges that the blocks of `cs` cover, in the order of `cs`.
pub open spec fn spans(cs: Seq<Cidr>) -> Seq<Range> {
    cs.map_values(|c: Cidr| c.span())
}

/// The blocks of the ranges of `m`, range after range.
pub open spec fn decompose_all(m: Seq<Range>) -> Seq<Cidr>
    decreases m.len(),
{
    if m.len() == 0 {
        Seq::empty()
    } else {
        decompose_all(m.drop_last()) + decompose_spec(
            m.last().fam,
            m.last().beg as int,
            m.last().end as int,
        )
    }
}

/// The ranges `s` sorted, merged where they overlap or touch, and then
/// merged where they lie at most `gap` addresses apart.
pub open spec fn merged_spec(s: Seq<Range>, gap: int) -> Seq<Range> {
    sweep(sweep(sort_spec(s), 0), gap)
}

/// The blocks that collapsing the ranges `s` with gap tolerance `gap`
/// gives.
pub open spec fn collapse_spec(s: Seq<Range>, gap: int) -> Seq<Cidr> {
    decompose_all(merged_spec(s, gap))
}

/// Collapse well-formed ranges into the blocks of their merged ranges. The
/// blocks are normalized, ascending and disjoint, and cover every address of
/// the ranges; with `max_gap == 0` they cover no other address, and no
/// other list of blocks that covers the same addresses is shorter.
pub fn collapse_spans(ranges: Vec<Range>, max_gap: u128) -> (out: Vec<Cidr>)
    requires
        all_wf(ranges@),
    ensures
        out@ == collapse_spec(ranges@, max_gap as int),
        blocks_normal(out@),
        blocks_ascend(out@),
        forall|f: IpFam, x: int| ranges_cover(ranges@, f, x) ==> cidrs_cover(out@, f, x),
        max_gap == 0 ==> forall|f: IpFam, x: int|
            cidrs_cover(out@, f, x) ==> ranges_cover(ranges@, f, x),
        max_gap == 0 ==> forall|other: Seq<Cidr>| #[trigger]
            covers_same(other, ranges@) ==> out@.len() <= other.len(),
{
    let mut ranges = ranges;
    let ghost input = ranges@;
    proof {
        lemma_collapse(input, max_gap as int);
        if max_gap == 0 {
            assert forall|other: Seq<Cidr>| #[trigger] covers_same(other, input) implies collapse_spec(
                input,
                0,
            ).len() <= other.len() by {
                lemma_collapse_minimal(input, other);
            }
        }
    }

    // 1) Sort ranges
    sort_ranges(&mut ranges);
    proof {
        lemma_sort_spec(input);
    }

    // 2) Merge overlaps/adjacent within each family
    let mut merged: Vec<Range> = merge_ranges(ranges.as_slice());
    proof {
        lemma_spaced_is_ordered(merged@, 0);
    }

    // 2b) Fuzzy merge nearby with gaps <= max_gap
    if max_gap > 0 {
        merged = merge_ranges_fuzzy(merged.as_slice(), max_gap);
    } else {
        proof {
            lemma_sweep_idempotent(merged@, 0);
        }
    }
    assert(merged@ == merged_spec(input, max_gap as int));
    assert(all_wf(merged@));

    // 3) Convert each merged range back into minimal CIDRs
    let mut out: Vec<Cidr> = Vec::new();
    let mut i: usize = 0;
    while i < merged.len()
        invariant
            i <= merged.len(),
            all_wf(merged@),
            out@ == decompose_all(merged@.take(i as int)),
        decreases merged.len() - i,
    {
        let r: Range = merged[i];
        assert(merged@[i as int].wf());
        let mut blocks: Vec<Cidr> = range_to_cidrs(r);
        proof {
            assert(merged@.take(i + 1).drop_last() =~= merged@.take(i as int));
            assert(merged@.take(i + 1).last() == r);
        }
        out.append(&mut blocks);
        i += 1;
    }
    proof {
        assert(merged@.take(merged.len() as int) =~= merged@);
    }
    out
}

/**
Collapse a list of CIDRs into an equivalent, minimal set of CIDRs.
- removes redundant sub-prefixes
- merges adjacent/overlapping ranges

Input CIDRs may be non-normalized host addresses; they will be normalized
to the network address.

If `max_gap` > 0, nearby ranges separated by <= `max_gap` IPs will be
fuzzily merged as well (over-approximation).
*/
pub fn collapse_cidrs(input: &[Cidr], max_gap: u128) -> (out: Vec<Cidr>)
    ensures
        out@ == collapse_spec(spans(input@), max_gap as int),
        blocks_normal(out@),
        blocks_ascend(out@),
        forall|f: IpFam, x: int| cidrs_cover(input@, f, x) ==> cidrs_cover(out@, f, x),
        max_gap == 0 ==> forall|f: IpFam, x: int|
            cidrs_cover(out@, f, x) ==> cidrs_cover(input@, f, x),
        max_gap == 0 ==> forall|other: Seq<Cidr>| #[trigger]
            covers_same(other, spans(input@)) ==> out@.len() <= other.len(),
{
    proof {
        lemma_spans_cover(input@);
    }
    let mut ranges: Vec<Range> = Vec::new();
    let mut i: usize = 0;
    while i < input.len()
        invariant
            i <= input.len(),
            ranges@ == spans(input@.take(i as int)),
            all_wf(ranges@),
        decreases input.len() - i,
    {
        let r: Range = cidr_to_range(input[i]);
        ranges.push(r);
        proof {
            assert(ranges@ =~= spans(input@.take(i + 1)));
        }
        i += 1;
    }
    proof {
        assert(input@.take(input.len() as int) =~= input@);
    }
    collapse_spans(ranges, max_gap)
}

/// The CIDR of full prefix length that holds `ip` alone.
pub open spec fn host_cidr(ip: IpAddress) -> Cidr {
    Cidr { addr: ip, prefix: ip.family().width() as u8 }
}

/// Convert a single IP (host) to an equivalent CIDR (/32 or /128).
pub fn ip_to_host_cidr(ip: IpAddress) -> (c: Cidr)
    ensures
        c == host_cidr(ip),
        c.wf(),
        c.first() == ip.value(),
        c.last() == ip.value(),
{
    proof {
        assert(pow2(0) == 1) by {
            vstd::arithmetic::power2::lemma2_to64();
        }
    }
    match ip {
        IpAddress::V4(_) => Cidr { addr: ip, prefix: IPV4_BITS },
        IpAddress::V6(_) => Cidr { addr: ip, prefix: IPV6_BITS },
    }
}

/**
Collapse a list of IPs into an equivalent, minimal set of CIDRs.

If `max_gap` > 0, nearby ranges separated by <= `max_gap` IPs will be
fuzzily merged as well (over-approximation).
*/
pub fn collapse_ips(input: &[IpAddress], max_gap: u128) -> (out: Vec<Cidr>)
    ensures
        out@ == collapse_spec(spans(input@.map_values(|ip: IpAddress| host_cidr(ip))), max_gap as int),
{
    let mut cidrs: Vec<Cidr> = Vec::new();
    let mut i: usize = 0;
    while i < input.len()
        invariant
            i <= input.len(),
            cidrs@ == input@.take(i as int).map_values(|ip: IpAddress| host_cidr(ip)),
        decreases input.len() - i,
    {
        cidrs.push(ip_to_host_cidr(input[i]));
        proof {
            assert(cidrs@ =~= input@.take(i + 1).map_values(|ip: IpAddress| host_cidr(ip)));
        }
        i += 1;
    }
    proof {
        assert(input@.take(input.len() as int) =~= input@);
    }
    collapse_cidrs(cidrs.as_slice(), max_gap)
}

/// The CIDR block that a token of a mixed list denotes: with a slash in it,
/// the block that it parses to; without one, the block of the address that
/// it is. `None` for a token that is neither.
pub open spec fn cidr_of_token(s: Seq<char>) -> Option<Cidr> {
    if count_of(s, '/') > 0 {
        match cidr_of_text(s) {
            Ok(c) => Some(c),
            Err(_) => None,
        }
    } else {
        match addr_of_text(s) {
            Some(a) => Some(host_cidr(a)),
            None => None,
        }
    }
}

/// The blocks of the tokens that denote one, in the order of the tokens.
pub open spec fn cidrs_of_tokens(t: Seq<Seq<char>>) -> Seq<Cidr>
    decreases t.len(),
{
    if t.len() == 0 {
        Seq::empty()
    } else {
        match cidr_of_token(t.last()) {
            Some(c) => cidrs_of_tokens(t.drop_last()).push(c),
            None => cidrs_of_tokens(t.drop_last()),
        }
    }
}

/**
Collapse a list of strings (CIDRs or IPs) into an equivalent, minimal set of CIDRs.
A string that is neither is skipped.

If `max_gap` > 0, nearby ranges separated by <= `max_gap` IPs will be
fuzzily merged as well (over-approximation).
*/
pub fn collapse_strings(input: &[String], max_gap: u128) -> (out: Vec<Cidr>)
    ensures
        out@ == collapse_spec(spans(cidrs_of_tokens(texts_of(input@))), max_gap as int),
        blocks_normal(out@),
        blocks_ascend(out@),
        forall|f: IpFam, x: int|
            cidrs_cover(cidrs_of_tokens(texts_of(input@)), f, x) ==> cidrs_cover(out@, f, x),
        max_gap == 0 ==> forall|f: IpFam, x: int|
            cidrs_cover(out@, f, x) ==> cidrs_cover(cidrs_of_tokens(texts_of(input@)), f, x),
{
    let ghost texts = texts_of(input@);
    let mut cidrs: Vec<Cidr> = Vec::new();
    let mut i: usize = 0;
    proof {
        assert(texts.take(0) =~= Seq::<Seq<char>>::empty());
    }
    while i < input.len()
        invariant
            i <= input.len(),
            texts == texts_of(input@),
            cidrs@ == cidrs_of_tokens(texts.take(i as int)),
        decreases input.len() - i,
    {
        let s: &str = input[i].as_str();
        proof {
            assert(texts.take(i + 1).drop_last() =~= texts.take(i as int));
            assert(texts.take(i + 1).last() == s@);
        }
        let chars: Vec<char> = to_chars(s);
        if count_char(chars.as_slice(), '/') > 0 {
            if let Ok(cidr) = Cidr::from_str(s) {
                cidrs.push(cidr);
            }
        } else if let Some(ip) = IpAddress::parse(s) {
            cidrs.push(ip_to_host_cidr(ip));
        }
        i += 1;
    }
    proof {
        assert(texts.take(input.len() as int) =~= texts);
    }
    collapse_cidrs(cidrs.as_slice(), max_gap)
}

/// What converting an address range to numbers gives: the two ends in
/// order, or `Mismatch` if they are of different families.
pub open spec fn iprange_span(r: IpRange) -> Result<Range, AddressError> {
    if r.beg.family() != r.end.family() {
        Err(AddressError::Mismatch(r.beg, r.end))
    } else if r.beg.value() <= r.end.value() {
        Ok(Range { fam: r.beg.family(), beg: r.beg.value() as u128, end: r.end.value() as u128 })
    } else {
        Ok(Range { fam: r.beg.family(), beg: r.end.value() as u128, end: r.beg.value() as u128 })
    }
}

/// Convert an [IpRange] to a [Range]. Ends in reverse order are swapped.
pub fn iprange_to_range(r: IpRange) -> (res: Result<Range, AddressError>)
    ensures
        res == iprange_span(r),
        res matches Ok(x) ==> x.wf(),
{
    match (r.beg, r.end) {
        (IpAddress::V4(a), IpAddress::V4(b)) => {
            let (beg, end) = if a <= b {
                (a, b)
            } else {
                (b, a)
            };
            Ok(Range { fam: IpFam::V4, beg: beg as u128, end: end as u128 })
        },
        (IpAddress::V6(a), IpAddress::V6(b)) => {
            let (beg, end) = if a <= b {
                (a, b)
            } else {
                (b, a)
            };
            Ok(Range { fam: IpFam::V6, beg, end })
        },
        (beg, end) => Err(AddressError::Mismatch(beg, end)),
    }
}

/// The numbers of an address range with its ends put in order.
pub open spec fn ordered_span(r: IpRange) -> Range {
    if r.beg.value() <= r.end.value() {
        Range { fam: r.beg.family(), beg: r.beg.value() as u128, end: r.end.value() as u128 }
    } else {
        Range { fam: r.beg.family(), beg: r.end.value() as u128, end: r.beg.value() as u128 }
    }
}

/// `k` is the first position of `s` at which the range mixes families.
pub open spec fn first_mixed(s: Seq<IpRange>, k: int) -> bool {
    &&& 0 <= k < s.len()
    &&& s[k].beg.family() != s[k].end.family()
    &&& forall|j: int| 0 <= j < k ==> (#[trigger] s[j]).beg.family() == s[j].end.family()
}

/// No range of `s` mixes families.
pub open spec fn none_mixed(s: Seq<IpRange>) -> bool {
    forall|j: int| 0 <= j < s.len() ==> (#[trigger] s[j]).beg.family() == s[j].end.family()
}

/// Convert address ranges to numbers, ends in order; fails at the first
/// range that mixes families.
fn ranges_to_spans(input: &[IpRange]) -> (res: Result<Vec<Range>, AddressError>)
    ensures
        match res {
            Ok(v) => none_mixed(input@) && v@ == input@.map_values(|r: IpRange| ordered_span(r))
                && all_wf(v@),
            Err(e) => exists|k: int|
                first_mixed(input@, k) && e == AddressError::Mismatch(
                    (#[trigger] input@[k]).beg,
                    input@[k].end,
                ),
        },
{
    let mut ranges: Vec<Range> = Vec::new();
    let mut i: usize = 0;
    while i < input.len()
        invariant
            i <= input.len(),
            none_mixed(input@.take(i as int)),
            ranges@ == input@.take(i as int).map_values(|r: IpRange| ordered_span(r)),
            all_wf(ranges@),
        decreases input.len() - i,
    {
        match iprange_to_range(input[i]) {
            Ok(rr) => {
                ranges.push(rr);
            },
            Err(e) => {
                proof {
                    assert forall|j: int| 0 <= j < i implies (#[trigger] input@[j]).beg.family()
                        == input@[j].end.family() by {
                        assert(input@.take(i as int)[j] == input@[j]);
                    }
                    assert(first_mixed(input@, i as int));
                }
                return Err(e);
            },
        }
        proof {
            assert(ranges@ =~= input@.take(i + 1).map_values(|r: IpRange| ordered_span(r)));
            assert forall|j: int| 0 <= j < i + 1 implies (#[trigger] input@.take(
                i + 1,
            )[j]).beg.family() == input@.take(i + 1)[j].end.family() by {
                if j < i {
                    assert(input@.take(i as int)[j] == input@[j]);
                }
            }
        }
        i += 1;
    }
    proof {
        assert(input@.take(input.len() as int) =~= input@);
    }
    Ok(ranges)
}

/// What collapsing address ranges gives: `Mismatch` for the first range
/// that mixes families, else the blocks of the merged ranges.
pub open spec fn collapse_ranges_result(
    input: Seq<IpRange>,
    gap: int,
    res: Result<Vec<Cidr>, AddressError>,
) -> bool {
    match res {
        Ok(out) => none_mixed(input) && out@ == collapse_spec(
            input.map_values(|r: IpRange| ordered_span(r)),
            gap,
        ),
        Err(e) => exists|k: int|
            first_mixed(input, k) && e == AddressError::Mismatch(
                (#[trigger] input[k]).beg,
                input[k].end,
            ),
    }
}

/**
Collapse a list of inclusive IP ranges into an equivalent, minimal set of CIDRs.

This does *not* enumerate IPs and hence scales to very large ranges.
*/
pub fn collapse_ranges(input: &[IpRange]) -> (res: Result<Vec<Cidr>, AddressError>)
    ensures
        collapse_ranges_result(input@, 0, res),
        res is Ok <==> none_mixed(input@),
{
    match ranges_to_spans(input) {
        Ok(ranges) => Ok(collapse_spans(ranges, 0)),
        Err(e) => {
            proof {
                let k = choose|k: int|
                    first_mixed(input@, k) && e == AddressError::Mismatch(
                        (#[trigger] input@[k]).beg,
                        input@[k].end,
                    );
                assert(input@[k].beg.family() != input@[k].end.family());
            }
            Err(e)
        },
    }
}

/**
Collapse a list of inclusive IP ranges into an equivalent, minimal set of CIDRs.

Fuzzily merges nearby ranges separated by <= `max_gap` IPs (over-approximation).
*/
pub fn collapse_ranges_fuzzy(input: &[IpRange], max_gap: u128) -> (res: Result<
    Vec<Cidr>,
    AddressError,
>)
    ensures
        collapse_ranges_result(input@, max_gap as int, res),
        res is Ok <==> none_mixed(input@),
{
    match ranges_to_spans(input) {
        Ok(ranges) => Ok(collapse_spans(ranges, max_gap)),
        Err(e) => {
            proof {
                let k = choose|k: int|
                    first_mixed(input@, k) && e == AddressError::Mismatch(
                        (#[trigger] input@[k]).beg,
                        input@[k].end,
                    );
                assert(input@[k].beg.family() != input@[k].end.family());
            }
            Err(e)
        },
    }
}

/// `k` is the first position of `s` at which the pair is no range: its
/// families differ or its ends are in reverse order.
pub open spec fn first_refused(s: Seq<(IpAddress, IpAddress)>, k: int) -> bool {
    &&& 0 <= k < s.len()
    &&& IpRange::checked(s[k].0, s[k].1) is Err
    &&& forall|j: int| 0 <= j < k ==> IpRange::checked((#[trigger] s[j]).0, s[j].1) is Ok
}

/// Every pair of `s` is a range.
pub open spec fn all_accepted(s: Seq<(IpAddress, IpAddress)>) -> bool {
    forall|j: int| 0 <= j < s.len() ==> IpRange::checked((#[trigger] s[j]).0, s[j].1) is Ok
}

/// Convenience overload for call sites which have tuples. Each pair must be
/// a range as `IpRange::new` accepts it: the error of the first pair that is
/// none is returned.
pub fn collapse_ranges_tuples(input: &[(IpAddress, IpAddress)]) -> (res: Result<
    Vec<Cidr>,
    AddressError,
>)
    ensures
        match res {
            Ok(out) => all_accepted(input@) && out@ == collapse_spec(
                input@.map_values(
                    |p: (IpAddress, IpAddress)| ordered_span(IpRange { beg: p.0, end: p.1 }),
                ),
                0,
            ),
            Err(e) => exists|k: int|
                first_refused(input@, k) && Err::<IpRange, AddressError>(e) == IpRange::checked(
                    (#[trigger] input@[k]).0,
                    input@[k].1,
                ),
        },
        res is Ok <==> all_accepted(input@),
{
    let mut v: Vec<IpRange> = Vec::new();
    let mut i: usize = 0;
    while i < input.len()
        invariant
            i <= input.len(),
            all_accepted(input@.take(i as int)),
            v@ == input@.take(i as int).map_values(
                |p: (IpAddress, IpAddress)| IpRange { beg: p.0, end: p.1 },
            ),
        decreases input.len() - i,
    {
        let (beg, end) = input[i];
        match IpRange::new(beg, end) {
            Ok(r) => {
                v.push(r);
            },
            Err(e) => {
                proof {
                    assert forall|j: int| 0 <= j < i implies IpRange::checked(
                        (#[trigger] input@[j]).0,
                        input@[j].1,
                    ) is Ok by {
                        assert(input@.take(i as int)[j] == input@[j]);
                    }
                    assert(first_refused(input@, i as int));
                }
                return Err(e);
            },
        }
        proof {
            assert(v@ =~= input@.take(i + 1).map_values(
                |p: (IpAddress, IpAddress)| IpRange { beg: p.0, end: p.1 },
            ));
            assert forall|j: int| 0 <= j < i + 1 implies IpRange::checked(
                (#[trigger] input@.take(i + 1)[j]).0,
                input@.take(i + 1)[j].1,
            ) is Ok by {
                if j < i {
                    assert(input@.take(i as int)[j] == input@[j]);
                }
            }
        }
        i += 1;
    }
    proof {
        assert(input@.take(input.len() as int) =~= input@);
        assert(v@.map_values(|r: IpRange| ordered_span(r)) =~= input@.map_values(
            |p: (IpAddress, IpAddress)| ordered_span(IpRange { beg: p.0, end: p.1 }),
        ));
        assert forall|j: int| 0 <= j < v@.len() implies (#[trigger] v@[j]).beg.family()
            == v@[j].end.family() by {
            assert(IpRange::checked(input@[j].0, input@[j].1) is Ok);
        }
    }
    let res = collapse_ranges(v.as_slice());
    res
}

} // verus!
