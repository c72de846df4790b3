//! Decomposition of an inclusive range into the ordered list of the largest
//! aligned CIDR blocks that tile it.

use crate::bits::{floor_log2_u128, lemma_pow2_bounds, lemma_pow2_monotonic, lemma_shl_is_pow2};
use crate::minimal::{lemma_decompose_minimal, partition};
use crate::structs::{Cidr, IpAddress, IpFam, Range};
use vstd::arithmetic::power2::{lemma_pow2_adds, lemma_pow2_pos, lemma_pow2_unfold, pow2};
use vstd::prelude::*;

verus! {

/// A block of `2^h` addresses can start at `s` and end no later than `e`:
/// `s` is a multiple of the block size and the block fits.
pub open spec fn block_fits(s: int, e: int, h: nat) -> bool {
    s % (pow2(h) as int) == 0 && s + pow2(h) - 1 <= e
}

/// The largest `k <= h` for which a block of `2^k` addresses fits at `s`;
/// zero if none does.
pub open spec fn largest_fit(s: int, e: int, h: nat) -> nat
    decreases h,
{
    if h == 0 {
        0
    } else if block_fits(s, e, h) {
        h
    } else {
        largest_fit(s, e, (h - 1) as nat)
    }
}

/// `h` is the size exponent of the largest block that fits at `s` in a
/// family of width `w`.
pub open spec fn is_largest_fit(w: nat, s: int, e: int, h: nat) -> bool {
    &&& h <= w
    &&& block_fits(s, e, h)
    &&& forall|k: nat| h < k <= w ==> !block_fits(s, e, k)
}

/// `largest_fit` finds the largest block that fits, and nothing else is one.
pub proof fn lemma_largest_fit(w: nat, s: int, e: int, h: nat)
    requires
        s <= e,
    ensures
        is_largest_fit(w, s, e, largest_fit(s, e, w)),
        is_largest_fit(w, s, e, h) ==> h == largest_fit(s, e, w),
    decreases w,
{
    if w == 0 {
        assert(pow2(0) == 1) by {
            vstd::arithmetic::power2::lemma2_to64();
        }
    } else if block_fits(s, e, w) {
    } else {
        lemma_largest_fit((w - 1) as nat, s, e, h);
        let f = largest_fit(s, e, (w - 1) as nat);
        assert forall|k: nat| f < k <= w implies !block_fits(s, e, k) by {}
    }
}

/// The block of `2^h` addresses of family `fam` that starts at `s`.
pub open spec fn block_at(fam: IpFam, s: int, h: nat) -> Cidr {
    Cidr { addr: IpAddress::of(fam, s), prefix: (fam.width() - h) as u8 }
}

/// The blocks that tile the addresses `s..=e` of family `fam`: at each
/// position the largest block that is aligned there and fits.
pub open spec fn decompose_spec(fam: IpFam, s: int, e: int) -> Seq<Cidr>
    decreases e - s + 1,
    via decompose_spec_decreases
{
    if s > e {
        Seq::empty()
    } else {
        let h = largest_fit(s, e, fam.width());
        seq![block_at(fam, s, h)] + decompose_spec(fam, s + pow2(h), e)
    }
}

#[via_fn]
proof fn decompose_spec_decreases(fam: IpFam, s: int, e: int) {
    if s <= e {
        lemma_pow2_pos(largest_fit(s, e, fam.width()));
        lemma_largest_fit(fam.width(), s, e, 0);
    }
}

/// Some block of `d` holds the address `x` of family `fam`.
pub open spec fn cidrs_cover(d: Seq<Cidr>, fam: IpFam, x: int) -> bool {
    exists|i: int| 0 <= i < d.len() && (#[trigger] d[i]).contains(fam, x)
}

/// The blocks of `d` are of family `fam`, start at their network address,
/// follow each other without gap or overlap from `s` to `e`, and each is the
/// largest block that fits at its start.
pub open spec fn tiles(d: Seq<Cidr>, fam: IpFam, s: int, e: int) -> bool {
    &&& d.len() > 0
    &&& d[0].first() == s
    &&& d.last().last() == e
    &&& forall|i: int|
        0 <= i < d.len() ==> {
            &&& (#[trigger] d[i]).wf()
            &&& d[i].addr.family() == fam
            &&& d[i].is_network()
            &&& s <= d[i].first() <= d[i].last() <= e
            &&& is_largest_fit(fam.width(), d[i].first(), e, d[i].host_bits())
        }
    &&& forall|i: int| 0 <= i < d.len() - 1 ==> (#[trigger] d[i]).last() + 1 == d[i + 1].first()
}

/// The block at `s` with size exponent `h <= width` is well formed, starts
/// at `s` and has `2^h` addresses.
pub proof fn lemma_block_at(fam: IpFam, s: int, h: nat)
    requires
        0 <= s <= fam.top(),
        h <= fam.width(),
    ensures
        block_at(fam, s, h).wf(),
        block_at(fam, s, h).addr.family() == fam,
        block_at(fam, s, h).addr.value() == s,
        block_at(fam, s, h).host_bits() == h,
        block_at(fam, s, h).size() == pow2(h),
{
}

/// Decomposition coverage: the blocks of a range tile it, so the addresses
/// that they cover are exactly those of the range, and no two blocks
/// overlap.
pub proof fn lemma_decompose(fam: IpFam, s: int, e: int)
    requires
        0 <= s <= e <= fam.top(),
    ensures
        tiles(decompose_spec(fam, s, e), fam, s, e),
    decreases e - s + 1,
{
    let w = fam.width();
    let h = largest_fit(s, e, w);
    lemma_largest_fit(w, s, e, h);
    lemma_pow2_pos(h);
    lemma_block_at(fam, s, h);
    let c = block_at(fam, s, h);
    let next = s + pow2(h);
    let rest = decompose_spec(fam, next, e);
    let d = decompose_spec(fam, s, e);
    assert(d == seq![c] + rest);
    assert(c.first() == s) by {
        assert(s % c.size() == 0);
    }
    assert(c.last() == next - 1);
    if next > e {
        assert(rest =~= Seq::<Cidr>::empty());
        assert(d =~= seq![c]);
    } else {
        lemma_decompose(fam, next, e);
        assert(d[0] == c);
        assert forall|i: int| 0 <= i < d.len() implies {
            &&& (#[trigger] d[i]).wf()
            &&& d[i].addr.family() == fam
            &&& d[i].is_network()
            &&& s <= d[i].first() <= d[i].last() <= e
            &&& is_largest_fit(fam.width(), d[i].first(), e, d[i].host_bits())
        } by {
            if i > 0 {
                assert(d[i] == rest[i - 1]);
            }
        }
        assert forall|i: int| 0 <= i < d.len() - 1 implies (#[trigger] d[i]).last() + 1 == d[i
            + 1].first() by {
            assert(d[i + 1] == rest[i]);
            if i > 0 {
                assert(d[i] == rest[i - 1]);
            }
        }
        assert(d.last() == rest.last());
    }
}

/// Blocks that tile a range are ascending and disjoint.
pub proof fn lemma_tiles_ascend(d: Seq<Cidr>, fam: IpFam, s: int, e: int, i: int, j: int)
    requires
        tiles(d, fam, s, e),
        0 <= i < j < d.len(),
    ensures
        d[i].last() < d[j].first(),
    decreases j - i,
{
    if j == i + 1 {
        assert(d[i].last() + 1 == d[i + 1].first());
    } else {
        lemma_tiles_ascend(d, fam, s, e, i, j - 1);
        assert(d[j - 1].last() + 1 == d[j - 1 + 1].first());
        assert(d[j - 1].wf());
    }
}

/// Blocks that tile a range cover exactly its addresses.
pub proof fn lemma_tiles_cover(d: Seq<Cidr>, fam: IpFam, s: int, e: int)
    requires
        tiles(d, fam, s, e),
    ensures
        forall|f: IpFam, x: int| cidrs_cover(d, f, x) <==> (f == fam && s <= x <= e),
{
    assert forall|f: IpFam, x: int| cidrs_cover(d, f, x) implies (f == fam && s <= x <= e) by {
        let i = choose|i: int| 0 <= i < d.len() && (#[trigger] d[i]).contains(f, x);
        assert(d[i].wf());
    }
    assert forall|f: IpFam, x: int| (f == fam && s <= x <= e) implies cidrs_cover(d, f, x) by {
        lemma_tiles_reach(d, fam, s, e, x, d.len() as int - 1);
    }
}

/// An address of the tiled range that lies no later than the end of block
/// `k` lies in one of the blocks up to `k`.
proof fn lemma_tiles_reach(d: Seq<Cidr>, fam: IpFam, s: int, e: int, x: int, k: int)
    requires
        tiles(d, fam, s, e),
        0 <= k < d.len(),
        s <= x <= d[k].last(),
    ensures
        cidrs_cover(d, fam, x),
    decreases k,
{
    assert(d[k].wf());
    if x >= d[k].first() {
        assert(d[k].contains(fam, x));
    } else {
        assert(k > 0);
        assert(d[k - 1].last() + 1 == d[k - 1 + 1].first());
        lemma_tiles_reach(d, fam, s, e, x, k - 1);
    }
}

/// A multiple of a power of two is a multiple of every smaller one.
pub proof fn lemma_divides_smaller(x: int, a: nat, b: nat)
    requires
        a <= b,
        x % (pow2(b) as int) == 0,
    ensures
        x % (pow2(a) as int) == 0,
{
    lemma_pow2_pos(a);
    lemma_pow2_pos((b - a) as nat);
    lemma_pow2_adds(a, (b - a) as nat);
    let pa = pow2(a) as int;
    let pc = pow2((b - a) as nat) as int;
    assert(a + (b - a) as nat == b);
    assert(pow2(b) as int == pa * pc);
    vstd::arithmetic::div_mod::lemma_mod_mod(x, pa, pc);
    assert(0int % pa == 0) by {
        vstd::arithmetic::div_mod::lemma_small_mod(0, pa as nat);
    }
}

/// A number whose quotient by `2^t` is odd is no multiple of a higher power
/// of two.
pub proof fn lemma_odd_quotient(x: int, t: nat, k: nat)
    requires
        x >= 0,
        (x / (pow2(t) as int)) % 2 == 1,
        t < k,
    ensures
        x % (pow2(k) as int) != 0,
{
    lemma_pow2_pos(t);
    let p = pow2(t) as int;
    if x % (pow2(k) as int) == 0 {
        lemma_divides_smaller(x, t + 1, k);
        lemma_pow2_unfold(t + 1);
        assert(pow2(t + 1) == p * 2) by (nonlinear_arith)
            requires
                pow2(t + 1) == 2 * pow2(t),
                p == pow2(t),
        ;
        vstd::arithmetic::div_mod::lemma_mod_breakdown(x, p, 2);
        vstd::arithmetic::div_mod::lemma_mod_bound(x, p);
        assert(p * ((x / p) % 2) == p) by (nonlinear_arith)
            requires
                (x / p) % 2 == 1,
        ;
    }
}

/// Decompose an inclusive range into its blocks: at each position the
/// largest CIDR block that is aligned there and does not pass the end. The
/// blocks cover exactly the addresses of the range, in ascending order and
/// without overlap, and no other list of aligned blocks that does so is
/// shorter.
pub fn range_to_cidrs(r: Range) -> (out: Vec<Cidr>)
    requires
        r.wf(),
    ensures
        out@ == decompose_spec(r.fam, r.beg as int, r.end as int),
        tiles(out@, r.fam, r.beg as int, r.end as int),
        forall|f: IpFam, x: int| cidrs_cover(out@, f, x) <==> r.contains(f, x),
        forall|other: Seq<Cidr>| #[trigger]
            partition(other, r.fam, r.beg as int, r.end as int) ==> out@.len() <= other.len(),
{
    let fam: IpFam = r.fam;
    let bits: u8 = fam.bits();
    let end: u128 = r.end;
    let ghost whole = decompose_spec(fam, r.beg as int, r.end as int);
    proof {
        lemma_decompose(fam, r.beg as int, r.end as int);
        lemma_tiles_cover(whole, fam, r.beg as int, r.end as int);
        lemma_pow2_bounds(128);
        lemma_pow2_bounds(32);
        assert forall|other: Seq<Cidr>| #[trigger]
            partition(other, r.fam, r.beg as int, r.end as int) implies whole.len()
            <= other.len() by {
            lemma_decompose_minimal(other, r.fam, r.beg as int, r.end as int);
        }
    }

    // Full address space special-case
    if bits == 128 && r.beg == 0 && r.end == u128::MAX {
        let mut out: Vec<Cidr> = Vec::new();
        out.push(Cidr { addr: IpAddress::V6(0), prefix: 0 });
        proof {
            assert(block_fits(0, end as int, 128));
            assert(largest_fit(0, end as int, 128) == 128);
            assert(decompose_spec(fam, pow2(128) as int, end as int) =~= Seq::<Cidr>::empty());
            assert(out@ =~= whole);
        }
        return out;
    }
    let mut start: u128 = r.beg;
    let mut out: Vec<Cidr> = Vec::new();
    let mut done: bool = false;
    let ghost mut next: int = r.beg as int;
    proof {
        assert(out@ + decompose_spec(fam, next, end as int) =~= whole);
    }

    while !done && start <= end
        invariant
            r.wf(),
            fam == r.fam,
            bits == fam.width(),
            end == r.end,
            r.beg <= next <= end + 1,
            !done ==> next == start,
            done ==> next > end,
            !done ==> end - start < u128::MAX,
            out@ + decompose_spec(fam, next, end as int) == whole,
            pow2(128) == u128::MAX + 1,
            pow2(32) == 0x1_0000_0000,
        decreases end + 1 - next,
    {
        // Largest block aligned at 'start': the count of trailing zero bits,
        // capped at the width.
        let tz: u32 = start.trailing_zeros();
        let tzb: u8 = if tz >= bits as u32 {
            bits
        } else {
            tz as u8
        };
        let max_align_prefix: u8 = bits - tzb;

        // largest block that fits in what is left of the range
        let remaining: u128 = (end - start).saturating_add(1);
        let fl: u8 = floor_log2_u128(remaining);
        proof {
            if fl as nat > bits as nat {
                lemma_pow2_monotonic(bits as nat + 1, fl as nat);
                lemma_pow2_unfold(bits as nat + 1);
            }
        }
        let max_fit_prefix: u8 = bits - fl;

        let prefix: u8 = if max_align_prefix > max_fit_prefix {
            max_align_prefix
        } else {
            max_fit_prefix
        };
        let h: u8 = bits - prefix;
        proof {
            let w = fam.width();
            let s = start as int;
            let e = end as int;
            lemma_pow2_pos(h as nat);
            lemma_pow2_monotonic(h as nat, fl as nat);
            // aligned
            if start != 0 {
                lemma_divides_smaller(s, h as nat, tz as nat);
            } else {
                vstd::arithmetic::div_mod::lemma_small_mod(0, pow2(h as nat));
            }
            assert(block_fits(s, e, h as nat));
            assert forall|k: nat| h < k <= w implies !block_fits(s, e, k) by {
                if h == fl {
                    lemma_pow2_monotonic(fl as nat + 1, k);
                } else {
                    lemma_odd_quotient(s, tz as nat, k);
                }
            }
            lemma_largest_fit(w, s, e, h as nat);
            lemma_shl_is_pow2(h as u32);
        }
        out.push(Cidr { addr: IpAddress::from_int(fam, start), prefix });

        let block: u128 = 1u128 << h;
        proof {
            let c = block_at(fam, start as int, h as nat);
            assert(out@.last() == c);
            assert(decompose_spec(fam, start as int, end as int) == seq![c] + decompose_spec(
                fam,
                start + pow2(h as nat),
                end as int,
            ));
            next = next + pow2(h as nat);
            assert(out@ + decompose_spec(fam, next, end as int) =~= whole);
        }
        match start.checked_add(block) {
            Some(n) => {
                start = n;
            },
            None => {
                done = true;
            },
        }
    }
    proof {
        assert(decompose_spec(fam, next, end as int) =~= Seq::<Cidr>::empty());
        assert(out@ =~= whole);
    }
    out
}

} // verus!
