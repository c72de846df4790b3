//! The decomposition of a range has the fewest blocks possible.

use crate::bits::lemma_pow2_monotonic;
use crate::decompose::{
    block_at, block_fits, decompose_spec, is_largest_fit, largest_fit, lemma_divides_smaller,
    lemma_largest_fit, tiles,
};
use crate::collapsing::{collapse_spec, decompose_all, merged_spec};
use crate::decompose::{cidrs_cover, lemma_decompose, lemma_tiles_ascend};
use crate::laws::{
    block_before, lemma_decompose_all, lemma_decompose_all_ascends, lemma_merged,
};
use crate::merging::{all_wf, apart, canonical, ranges_cover};
use crate::structs::{lemma_cidr_block, Cidr, IpFam, Range};
use vstd::arithmetic::power2::{lemma_pow2_adds, lemma_pow2_pos, pow2};
use vstd::prelude::*;

verus! {

/// The blocks of `d` are of family `fam`, start at their network address,
/// and follow each other without gap or overlap from `s` to `e`.
pub open spec fn partition(d: Seq<Cidr>, fam: IpFam, s: int, e: int) -> bool {
    &&& d.len() > 0
    &&& d[0].first() == s
    &&& d.last().last() == e
    &&& forall|i: int|
        0 <= i < d.len() ==> (#[trigger] d[i]).wf() && d[i].addr.family() == fam
            && d[i].is_network()
    &&& forall|i: int| 0 <= i < d.len() - 1 ==> (#[trigger] d[i]).last() + 1 == d[i + 1].first()
}

/// Of two multiples of `m`, the larger is at least `m` above the smaller.
proof fn lemma_multiples_apart(a: int, b: int, m: int)
    requires
        m > 0,
        a % m == 0,
        b % m == 0,
        a < b,
    ensures
        a + m <= b,
{
    vstd::arithmetic::div_mod::lemma_fundamental_div_mod(a, m);
    vstd::arithmetic::div_mod::lemma_fundamental_div_mod(b, m);
    let qa = a / m;
    let qb = b / m;
    assert(qa < qb) by (nonlinear_arith)
        requires
            m * qa < m * qb,
            m > 0,
    ;
    assert(m * qa + m <= m * qb) by (nonlinear_arith)
        requires
            qa < qb,
            m > 0,
    ;
}

/// A multiple of a power of two plus a larger power of two is a multiple
/// of the smaller one.
proof fn lemma_sum_of_multiples(s: int, small: nat, large: nat)
    requires
        small <= large,
        s % (pow2(large) as int) == 0,
    ensures
        s % (pow2(small) as int) == 0,
        (s + pow2(large)) % (pow2(small) as int) == 0,
{
    lemma_divides_smaller(s, small, large);
    lemma_pow2_pos(small);
    lemma_pow2_pos((large - small) as nat);
    lemma_pow2_adds(small, (large - small) as nat);
    let m = pow2(small) as int;
    let k = pow2((large - small) as nat) as int;
    assert(small + (large - small) as nat == large);
    assert(pow2(large) as int == m * k);
    vstd::arithmetic::div_mod::lemma_fundamental_div_mod(s, m);
    let q = s / m;
    assert(s + m * k == m * (q + k)) by (nonlinear_arith)
        requires
            s == m * q,
    ;
    vstd::arithmetic::div_mod::lemma_mod_multiples_basic(q + k, m);
    assert((q + k) * m == m * (q + k)) by (nonlinear_arith);
}

/// The blocks of a partition ascend: each ends before the next begins, and
/// all lie between `s` and `e`.
proof fn lemma_partition_bounds(d: Seq<Cidr>, fam: IpFam, s: int, e: int, i: int)
    requires
        partition(d, fam, s, e),
        0 <= i < d.len(),
    ensures
        s <= d[i].first() <= d[i].last() <= e,
        d[i].first() == d[i].addr.value(),
        d[i].last() == d[i].first() + pow2(d[i].host_bits()) - 1,
        d[i].first() % (pow2(d[i].host_bits()) as int) == 0,
        d[i].host_bits() <= fam.width(),
    decreases d.len() - i, i,
{
    lemma_cidr_block(d[i]);
    assert(d[i].wf());
    lemma_first_bound(d, fam, s, e, i);
    lemma_last_bound(d, fam, s, e, i);
}

proof fn lemma_first_bound(d: Seq<Cidr>, fam: IpFam, s: int, e: int, i: int)
    requires
        partition(d, fam, s, e),
        0 <= i < d.len(),
    ensures
        s <= d[i].first(),
    decreases i,
{
    if i > 0 {
        lemma_first_bound(d, fam, s, e, i - 1);
        lemma_cidr_block(d[i - 1]);
        assert(d[i - 1].last() + 1 == d[i - 1 + 1].first());
    }
}

proof fn lemma_last_bound(d: Seq<Cidr>, fam: IpFam, s: int, e: int, i: int)
    requires
        partition(d, fam, s, e),
        0 <= i < d.len(),
    ensures
        d[i].last() <= e,
    decreases d.len() - i,
{
    if i < d.len() - 1 {
        lemma_last_bound(d, fam, s, e, i + 1);
        lemma_cidr_block(d[i + 1]);
        assert(d[i].last() + 1 == d[i + 1].first());
    }
}

/// The first block of a partition that ends at `x` or later.
proof fn first_reaching(d: Seq<Cidr>, x: int, n: int) -> (k: int)
    requires
        0 < n <= d.len(),
        d[n - 1].last() >= x,
        forall|i: int| 0 <= i < d.len() - 1 ==> (#[trigger] d[i]).last() + 1 == d[i + 1].first(),
        forall|i: int| 0 <= i < d.len() ==> (#[trigger] d[i]).first() <= d[i].last(),
    ensures
        0 <= k < n,
        d[k].last() >= x,
        forall|j: int| 0 <= j < k ==> (#[trigger] d[j]).last() < x,
    decreases n,
{
    if n == 1 {
        0
    } else if d[n - 2].last() >= x {
        first_reaching(d, x, n - 1)
    } else {
        let k = n - 1;
        assert forall|j: int| 0 <= j < k implies (#[trigger] d[j]).last() < x by {
            lemma_prefix_below(d, x, n - 2, j);
        }
        k
    }
}

/// Where block `m` ends below `x`, so does every block before it, if the
/// blocks follow each other.
proof fn lemma_prefix_below(d: Seq<Cidr>, x: int, m: int, j: int)
    requires
        0 <= j <= m < d.len(),
        d[m].last() < x,
        forall|i: int| 0 <= i < d.len() - 1 ==> (#[trigger] d[i]).last() + 1 == d[i + 1].first(),
        forall|i: int| 0 <= i < d.len() ==> (#[trigger] d[i]).first() <= d[i].last(),
    ensures
        d[j].last() < x,
    decreases m - j,
{
    if j < m {
        lemma_prefix_below(d, x, m, j + 1);
        assert(d[j].last() + 1 == d[j + 1].first());
        assert(d[j + 1].first() <= d[j + 1].last());
    }
}

/// In a partition of `s..=e`, some block ends exactly where the largest
/// block that fits at `s` ends.
proof fn lemma_boundary(d: Seq<Cidr>, fam: IpFam, s: int, e: int) -> (k: int)
    requires
        0 <= s <= e,
        partition(d, fam, s, e),
    ensures
        0 <= k < d.len(),
        d[k].last() == s + pow2(largest_fit(s, e, fam.width())) - 1,
{
    let w = fam.width();
    let hg = largest_fit(s, e, w);
    lemma_largest_fit(w, s, e, hg);
    lemma_pow2_pos(hg);
    let g_end = s + pow2(hg) - 1;
    assert forall|i: int| 0 <= i < d.len() implies (#[trigger] d[i]).first() <= d[i].last() by {
        lemma_cidr_block(d[i]);
    }
    let k = first_reaching(d, g_end, d.len() as int);
    lemma_partition_bounds(d, fam, s, e, k);
    let f = d[k].first();
    let hk = d[k].host_bits();
    lemma_pow2_pos(hk);
    let size = pow2(hk) as int;
    // the block starts no later than the boundary
    if k > 0 {
        assert(d[k - 1].last() < g_end);
        assert(d[k - 1].last() + 1 == d[k - 1 + 1].first());
    }
    assert(f <= g_end);
    if f + size - 1 > g_end {
        if hk <= hg {
            // both `f` and the address after the boundary are multiples of the block size
            lemma_sum_of_multiples(s, hk, hg);
            lemma_multiples_apart(f, s + pow2(hg), size);
            assert(false);
        } else {
            if f == s {
                // a larger block would fit at `s`
                assert(block_fits(s, e, hk));
                assert(false);
            } else {
                // no multiple of the larger block size lies within the block at `s`
                lemma_divides_smaller(f, hg, hk);
                lemma_multiples_apart(s, f, pow2(hg) as int);
                assert(false);
            }
        }
    }
    k
}

/// Decomposition minimality: no list of aligned blocks that follow each
/// other from `s` to `e` has fewer blocks than the decomposition of
/// `s..=e`.
pub proof fn lemma_decompose_minimal(d: Seq<Cidr>, fam: IpFam, s: int, e: int)
    requires
        0 <= s <= e <= fam.top(),
        partition(d, fam, s, e),
    ensures
        decompose_spec(fam, s, e).len() <= d.len(),
    decreases e - s,
{
    let w = fam.width();
    let hg = largest_fit(s, e, w);
    lemma_largest_fit(w, s, e, hg);
    lemma_pow2_pos(hg);
    let next = s + pow2(hg);
    let k = lemma_boundary(d, fam, s, e);
    let rest = decompose_spec(fam, next, e);
    assert(decompose_spec(fam, s, e) == seq![block_at(fam, s, hg)] + rest);
    if next > e {
        assert(rest =~= Seq::<Cidr>::empty());
    } else {
        // the blocks after the boundary are a partition of what is left
        assert(k < d.len() - 1) by {
            if k == d.len() - 1 {
                assert(d[k].last() == e);
            }
        }
        let tail = d.skip(k + 1);
        assert(partition(tail, fam, next, e)) by {
            assert(tail[0] == d[k + 1]);
            assert(d[k].last() + 1 == d[k + 1].first());
            assert(tail.last() == d.last());
            assert forall|i: int| 0 <= i < tail.len() implies (#[trigger] tail[i]).wf()
                && tail[i].addr.family() == fam && tail[i].is_network() by {
                assert(tail[i] == d[i + k + 1]);
            }
            assert forall|i: int| 0 <= i < tail.len() - 1 implies (#[trigger] tail[i]).last() + 1
                == tail[i + 1].first() by {
                assert(tail[i] == d[i + k + 1]);
                assert(tail[i + 1] == d[i + k + 1 + 1]);
                assert(d[i + k + 1].last() + 1 == d[i + k + 1 + 1].first());
            }
        }
        lemma_decompose_minimal(tail, fam, next, e);
    }
}

/// Aligned blocks nest: where an aligned block of `2^hb` addresses starts
/// within an aligned block of `2^ha` addresses at `a`, it ends within it if
/// it is no larger, and starts at `a` if it is larger.
pub proof fn lemma_blocks_nest(a: int, ha: nat, b: int, hb: nat)
    requires
        a % (pow2(ha) as int) == 0,
        b % (pow2(hb) as int) == 0,
        a <= b < a + pow2(ha),
    ensures
        hb <= ha ==> b + pow2(hb) <= a + pow2(ha),
        hb > ha ==> b == a,
{
    lemma_pow2_pos(ha);
    lemma_pow2_pos(hb);
    if hb <= ha {
        lemma_sum_of_multiples(a, hb, ha);
        lemma_multiples_apart(b, a + pow2(ha), pow2(hb) as int);
    } else {
        if a < b {
            lemma_divides_smaller(b, ha, hb);
            lemma_multiples_apart(a, b, pow2(ha) as int);
        }
    }
}

/// Of canonical ranges, an earlier one lies before a later one: in an
/// earlier family, or in the same family with an address between them.
pub proof fn lemma_canonical_pair(m: Seq<Range>, j: int, r: int)
    requires
        canonical(m),
        0 <= j < r < m.len(),
    ensures
        apart(m[j], m[r], 0),
    decreases r - j,
{
    if r == j + 1 {
        assert(apart(m[j], m[j + 1], 0));
    } else {
        lemma_canonical_pair(m, j, r - 1);
        assert(apart(m[r - 1], m[r - 1 + 1], 0));
        assert(m[r - 1].wf());
    }
}

/// Pigeonhole: distinct numbers below `bound` are at most `bound` many.
pub proof fn lemma_pigeonhole(g: Seq<int>, bound: int)
    requires
        0 <= bound,
        forall|i: int| 0 <= i < g.len() ==> 0 <= #[trigger] g[i] < bound,
        forall|i: int, j: int| 0 <= i < j < g.len() ==> #[trigger] g[i] != #[trigger] g[j],
    ensures
        g.len() <= bound,
    decreases bound,
{
    if g.len() == 0 {
    } else if bound == 0 {
        assert(0 <= g[0] < bound);
    } else {
        let top = bound - 1;
        if exists|i: int| 0 <= i < g.len() && #[trigger] g[i] == top {
            let i0 = choose|i: int| 0 <= i < g.len() && #[trigger] g[i] == top;
            let h = g.remove(i0);
            assert(h.len() == g.len() - 1);
            assert forall|i: int| 0 <= i < h.len() implies 0 <= #[trigger] h[i] < top by {
                if i < i0 {
                    assert(h[i] == g[i]);
                } else {
                    assert(h[i] == g[i + 1]);
                }
            }
            assert forall|i: int, j: int| 0 <= i < j < h.len() implies #[trigger] h[i]
                != #[trigger] h[j] by {
                let a = if i < i0 {
                    i
                } else {
                    i + 1
                };
                let b = if j < i0 {
                    j
                } else {
                    j + 1
                };
                assert(h[i] == g[a]);
                assert(h[j] == g[b]);
            }
            lemma_pigeonhole(h, top);
        } else {
            assert forall|i: int| 0 <= i < g.len() implies 0 <= #[trigger] g[i] < top by {
                if g[i] == top {
                    assert(0 <= i < g.len() && g[i] == top);
                }
            }
            lemma_pigeonhole(g, top);
        }
    }
}

/// Every address of the block `o` is covered by the ranges `m`.
pub open spec fn block_within(o: Cidr, m: Seq<Range>) -> bool {
    forall|x: int| o.first() <= x <= o.last() ==> #[trigger] ranges_cover(m, o.addr.family(), x)
}

/// The range and the place in its decomposition from which block `i` of
/// the blocks of `m` comes.
proof fn locate(m: Seq<Range>, i: int) -> (rk: (int, int))
    requires
        0 <= i < decompose_all(m).len(),
    ensures
        0 <= rk.0 < m.len(),
        0 <= rk.1 < decompose_spec(m[rk.0].fam, m[rk.0].beg as int, m[rk.0].end as int).len(),
        decompose_all(m)[i] == decompose_spec(
            m[rk.0].fam,
            m[rk.0].beg as int,
            m[rk.0].end as int,
        )[rk.1],
    decreases m.len(),
{
    let p = m.drop_last();
    let dp = decompose_all(p);
    let t = decompose_spec(m.last().fam, m.last().beg as int, m.last().end as int);
    assert(decompose_all(m) == dp + t);
    if i < dp.len() {
        let rk = locate(p, i);
        assert(p[rk.0] == m[rk.0]);
        rk
    } else {
        (m.len() - 1, i - dp.len())
    }
}

/// A block that lies within canonical ranges and holds an address of one of
/// them lies within that range.
proof fn lemma_block_in_range(o: Cidr, m: Seq<Range>, r: int, x: int)
    requires
        canonical(m),
        0 <= r < m.len(),
        block_within(o, m),
        o.addr.family() == m[r].fam,
        o.first() <= x <= o.last(),
        m[r].beg <= x <= m[r].end,
    ensures
        m[r].beg <= o.first(),
        o.last() <= m[r].end,
{
    let fam = m[r].fam;
    assert(m[r].wf());
    if o.first() < m[r].beg {
        let y = m[r].beg - 1;
        assert(ranges_cover(m, fam, y));
        let j = choose|j: int| 0 <= j < m.len() && (#[trigger] m[j]).contains(fam, y);
        if j < r {
            lemma_canonical_pair(m, j, r);
        } else if j > r {
            lemma_canonical_pair(m, r, j);
        }
        assert(false);
    }
    if o.last() > m[r].end {
        let y = m[r].end + 1;
        assert(ranges_cover(m, fam, y));
        let j = choose|j: int| 0 <= j < m.len() && (#[trigger] m[j]).contains(fam, y);
        assert(m[j].wf());
        if j < r {
            lemma_canonical_pair(m, j, r);
        } else if j > r {
            lemma_canonical_pair(m, r, j);
        }
        assert(false);
    }
}

/// A block that lies within a tiled range and holds the first address of a
/// tile starts there and ends within the tile: the tiles are the largest
/// aligned blocks within the range.
proof fn lemma_block_in_tile(o: Cidr, t: Seq<Cidr>, fam: IpFam, s: int, e: int, k: int)
    requires
        tiles(t, fam, s, e),
        0 <= k < t.len(),
        o.addr.family() == fam,
        s <= o.first(),
        o.last() <= e,
        o.first() <= t[k].first() <= o.last(),
    ensures
        o.first() == t[k].first(),
        o.last() <= t[k].last(),
{
    let w = fam.width();
    lemma_cidr_block(o);
    lemma_tiles_partition(t, fam, s, e);
    let p = t[k].first();
    let f = o.first();
    let ho = o.host_bits();
    lemma_pow2_pos(ho);
    assert forall|i: int| 0 <= i < t.len() implies (#[trigger] t[i]).first() <= t[i].last() by {
        assert(t[i].wf());
    }
    if f < p {
        // the tile in which the block starts
        let k2 = first_reaching(t, f, t.len() as int);
        lemma_partition_bounds(t, fam, s, e, k2);
        if k2 > 0 {
            assert(t[k2 - 1].last() < f);
            assert(t[k2 - 1].last() + 1 == t[k2 - 1 + 1].first());
        }
        assert(t[k2].first() <= f);
        if k2 > k {
            lemma_tiles_ascend(t, fam, s, e, k, k2);
        }
        assert(k2 < k);
        lemma_tiles_ascend(t, fam, s, e, k2, k);
        let a = t[k2].first();
        let ha = t[k2].host_bits();
        lemma_blocks_nest(a, ha, f, ho);
        if ho > ha {
            assert(block_fits(a, e, ho));
            assert(is_largest_fit(w, a, e, ha));
        }
        assert(false);
    }
    lemma_partition_bounds(t, fam, s, e, k);
    let hb = t[k].host_bits();
    if ho > hb {
        assert(block_fits(p, e, ho));
        assert(is_largest_fit(w, p, e, hb));
        assert(false);
    }
    lemma_pow2_monotonic(ho, hb);
}

/// A block that lies within canonical ranges and holds the first address
/// of one of their blocks starts there and ends within that block.
pub proof fn lemma_block_inside(o: Cidr, m: Seq<Range>, i: int)
    requires
        canonical(m),
        0 <= i < decompose_all(m).len(),
        block_within(o, m),
        o.addr.family() == decompose_all(m)[i].addr.family(),
        o.first() <= decompose_all(m)[i].first() <= o.last(),
    ensures
        o.first() == decompose_all(m)[i].first(),
        o.last() <= decompose_all(m)[i].last(),
{
    let rk = locate(m, i);
    let r = rk.0;
    let k = rk.1;
    assert(m[r].wf());
    let t = decompose_spec(m[r].fam, m[r].beg as int, m[r].end as int);
    lemma_decompose(m[r].fam, m[r].beg as int, m[r].end as int);
    assert(t[k].wf());
    lemma_block_in_range(o, m, r, t[k].first());
    lemma_block_in_tile(o, t, m[r].fam, m[r].beg as int, m[r].end as int, k);
}

/// The position in `other` of a block that holds the first address of
/// block `i` of `d`.
pub open spec fn holder(d: Seq<Cidr>, other: Seq<Cidr>, i: int) -> int {
    choose|j: int|
        0 <= j < other.len() && (#[trigger] other[j]).contains(d[i].addr.family(), d[i].first())
}

/// Collapse minimality: blocks that cover exactly the addresses of
/// canonical ranges are no fewer than the blocks of those ranges.
pub proof fn lemma_cover_minimal(m: Seq<Range>, other: Seq<Cidr>)
    requires
        canonical(m),
        forall|f: IpFam, x: int| cidrs_cover(other, f, x) <==> ranges_cover(m, f, x),
    ensures
        decompose_all(m).len() <= other.len(),
{
    let d = decompose_all(m);
    lemma_decompose_all(m);
    lemma_decompose_all_ascends(m);
    let g = Seq::new(d.len(), |i: int| holder(d, other, i));
    assert forall|i: int| 0 <= i < d.len() implies {
        &&& 0 <= #[trigger] g[i] < other.len()
        &&& other[g[i]].addr.family() == d[i].addr.family()
        &&& other[g[i]].first() == d[i].first()
    } by {
        let fam = d[i].addr.family();
        let x = d[i].first();
        assert(d[i].wf());
        lemma_cidr_block(d[i]);
        assert(d[i].contains(fam, x));
        assert(cidrs_cover(d, fam, x));
        assert(ranges_cover(m, fam, x));
        assert(cidrs_cover(other, fam, x));
        let j = holder(d, other, i);
        assert(0 <= j < other.len() && other[j].contains(fam, x));
        assert(block_within(other[j], m)) by {
            assert forall|y: int| other[j].first() <= y <= other[j].last() implies #[trigger] ranges_cover(
                m,
                other[j].addr.family(),
                y,
            ) by {
                assert(other[j].contains(fam, y));
                assert(cidrs_cover(other, fam, y));
            }
        }
        lemma_block_inside(other[j], m, i);
    }
    assert forall|i: int, j: int| 0 <= i < j < g.len() implies #[trigger] g[i]
        != #[trigger] g[j] by {
        assert(block_before(d[i], d[j]));
        assert(d[i].wf());
        lemma_cidr_block(d[i]);
    }
    lemma_pigeonhole(g, other.len() as int);
}

/// The blocks `other` cover exactly the addresses that the ranges `s`
/// cover.
pub open spec fn covers_same(other: Seq<Cidr>, s: Seq<Range>) -> bool {
    forall|f: IpFam, x: int| cidrs_cover(other, f, x) <==> ranges_cover(s, f, x)
}

/// Collapsing with gap tolerance 0 gives the fewest blocks that cover
/// exactly the addresses of the input.
pub proof fn lemma_collapse_minimal(s: Seq<Range>, other: Seq<Cidr>)
    requires
        all_wf(s),
        covers_same(other, s),
    ensures
        collapse_spec(s, 0).len() <= other.len(),
{
    lemma_merged(s, 0);
    let m = merged_spec(s, 0);
    assert forall|f: IpFam, x: int| cidrs_cover(other, f, x) <==> ranges_cover(m, f, x) by {
        if ranges_cover(m, f, x) {
            assert(ranges_cover(s, f, x));
        }
        if ranges_cover(s, f, x) {
            assert(ranges_cover(m, f, x));
        }
    }
    lemma_cover_minimal(m, other);
}

/// Blocks that tile a range are a partition of it.
pub proof fn lemma_tiles_partition(d: Seq<Cidr>, fam: IpFam, s: int, e: int)
    requires
        tiles(d, fam, s, e),
    ensures
        partition(d, fam, s, e),
{
}

} // verus!
