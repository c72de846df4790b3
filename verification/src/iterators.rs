//! Iteration over the addresses of a CIDR block and of an address range, in
//! ascending order.

use crate::collapsing::cidr_to_range;
use crate::structs::{lemma_cidr_block, Cidr, IpAddress, IpFam, IpRange, Range};
use vstd::prelude::*;

verus! {

/// The addresses of family `fam` with the numbers `lo..=hi`, ascending.
pub open spec fn addresses(fam: IpFam, lo: int, hi: int) -> Seq<IpAddress> {
    if hi < lo {
        Seq::empty()
    } else {
        Seq::new((hi - lo + 1) as nat, |i: int| IpAddress::of(fam, lo + i))
    }
}

/// Iterator over all addresses of a CIDR block.
pub struct CidrIterator {
    fam: IpFam,
    current: u128,
    end: u128,
    done: bool,
}

impl CidrIterator {
    #[verifier::type_invariant]
    spec fn inv(self) -> bool {
        !self.done ==> self.current <= self.end <= self.fam.top()
    }

    /// The addresses that the iterator has yet to give, in order.
    pub closed spec fn remaining(self) -> Seq<IpAddress> {
        if self.done {
            Seq::empty()
        } else {
            addresses(self.fam, self.current as int, self.end as int)
        }
    }

    /// An iterator over the addresses of `cidr`, from its network address to
    /// its last address.
    pub fn new(cidr: Cidr) -> (it: Self)
        ensures
            it.remaining() == addresses(cidr.addr.family(), cidr.first(), cidr.last()),
    {
        let range: Range = cidr_to_range(cidr);
        proof {
            lemma_cidr_block(cidr);
        }
        CidrIterator { fam: range.fam, current: range.beg, end: range.end, done: false }
    }

    /// The next address, if one is left.
    pub fn next(&mut self) -> (r: Option<IpAddress>)
        ensures
            match r {
                Some(a) => old(self).remaining().len() > 0 && a == old(self).remaining()[0]
                    && final(self).remaining() == old(self).remaining().skip(1),
                None => old(self).remaining().len() == 0 && final(self).remaining().len() == 0,
            },
    {
        proof {
            use_type_invariant(&*self);
        }
        if self.done {
            return None;
        }
        let ip: IpAddress = IpAddress::from_int(self.fam, self.current);
        if self.current == self.end {
            self.done = true;
            proof {
                assert(final(self).remaining() =~= old(self).remaining().skip(1));
            }
        } else {
            self.current = self.current + 1;
            proof {
                assert(final(self).remaining() =~= old(self).remaining().skip(1));
            }
        }
        Some(ip)
    }
}

/// Iterator over an IP range.
pub struct IpRangeIterator {
    fam: IpFam,
    current: u128,
    end: u128,
    done: bool,
}

impl IpRangeIterator {
    #[verifier::type_invariant]
    spec fn inv(self) -> bool {
        !self.done ==> self.current <= self.end <= self.fam.top()
    }

    /// The addresses that the iterator has yet to give, in order.
    pub closed spec fn remaining(self) -> Seq<IpAddress> {
        if self.done {
            Seq::empty()
        } else {
            addresses(self.fam, self.current as int, self.end as int)
        }
    }

    /// The next address, if one is left.
    pub fn next(&mut self) -> (r: Option<IpAddress>)
        ensures
            match r {
                Some(a) => old(self).remaining().len() > 0 && a == old(self).remaining()[0]
                    && final(self).remaining() == old(self).remaining().skip(1),
                None => old(self).remaining().len() == 0 && final(self).remaining().len() == 0,
            },
    {
        proof {
            use_type_invariant(&*self);
        }
        if self.done {
            return None;
        }
        let ip: IpAddress = IpAddress::from_int(self.fam, self.current);
        if self.current == self.end {
            self.done = true;
            proof {
                assert(final(self).remaining() =~= old(self).remaining().skip(1));
            }
        } else {
            self.current = self.current + 1;
            proof {
                assert(final(self).remaining() =~= old(self).remaining().skip(1));
            }
        }
        Some(ip)
    }
}

impl Cidr {
    /**
    Returns an iterator over all addresses in the CIDR range.

    NOTE: For large CIDRs (e.g., /0), this can produce a very large number of
    addresses, especially for IPv6. Use with caution. You have been warned.
    */
    pub fn iter(&self) -> (it: CidrIterator)
        ensures
            it.remaining() == addresses(self.addr.family(), self.first(), self.last()),
    {
        CidrIterator::new(*self)
    }
}

impl IpRange {
    /// Return an iterator over all addresses in the range.
    pub fn iter(&self) -> (it: IpRangeIterator)
        requires
            self.wf(),
        ensures
            it.remaining() == addresses(self.beg.family(), self.beg.value(), self.end.value()),
    {
        IpRangeIterator {
            fam: self.beg.fam(),
            current: self.beg.to_int(),
            end: self.end.to_int(),
            done: false,
        }
    }
}

} // verus!
