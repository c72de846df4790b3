//! IP address, range and CIDR toolkit: parsing of textual address
//! specifications and collapsing of address collections into minimal sets of
//! CIDR blocks; with a few helpers for paths and template strings.

pub mod addresses;
pub mod addrtext;
pub mod bits;
pub mod cidr;
pub mod cidrtrip;
pub mod collapsing;
pub mod decompose;
pub mod errors;
pub mod iterators;
pub mod laws;
pub mod merging;
pub mod minimal;
pub mod paths;
pub mod roundtrip;
pub mod sorting;
pub mod structs;
pub mod template;
pub mod text;

pub use addresses::{
    expand_net, generate_ip_range, parse_ip_or_range, parse_ip_range, parse_short_range_end,
};
pub use bits::{floor_log2_u128, mask_u128};
pub use collapsing::{
    cidr_to_range, collapse_cidrs, collapse_ips, collapse_ranges, collapse_ranges_fuzzy,
    collapse_ranges_tuples, collapse_spans, collapse_strings, ip_to_host_cidr, iprange_to_range,
};
pub use decompose::range_to_cidrs;
pub use iterators::{CidrIterator, IpRangeIterator};
pub use merging::{merge_ranges, merge_ranges_fuzzy};
pub use paths::{is_suspicious_char, is_suspicious_strict, normalize_path};
pub use sorting::sort_ranges;
pub use structs::{
    AddressError, Cidr, Failure, IpAddress, IpFam, IpRange, Range, IPV4_BITS, IPV6_BITS,
    MAX_RANGE_SIZE,
};
pub use template::inject;
