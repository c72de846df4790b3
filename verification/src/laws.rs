//! What holds of collapsing as a whole: which addresses the blocks cover, in
//! what order they come, and how the result behaves when the gap tolerance
//! grows or when it is collapsed again.

use crate::bits::lemma_pow2_bounds;
use crate::collapsing::{collapse_spec, decompose_all, merged_spec, spans};
use crate::decompose::{
    cidrs_cover, decompose_spec, lemma_decompose, lemma_tiles_ascend, lemma_tiles_cover, tiles,
};
use crate::merging::{
    absorb, all_wf, apart, canonical, extend, joins, key_le, ordered, lemma_spaced_is_ordered, lemma_sweep, lemma_sweep_idempotent,
    lemma_sweep_monotonic, ranges_cover, spaced, sweep,
};
use crate::sorting::{lemma_sort_spec, sort_spec};
use crate::structs::{lemma_cidr_block, Cidr, IpFam, Range};
use vstd::prelude::*;

verus! {

/// Length agreement: a CIDR block has as many addresses as the range that
/// it covers, under the same convention for the count that does not fit.
pub proof fn lemma_lengths_agree(c: Cidr)
    ensures
        c.count() == c.span().count(),
{
    lemma_cidr_block(c);
    lemma_pow2_bounds(128);
}

/// `a` lies before `b`: in an earlier family, or in the same family with all
/// its addresses below those of `b`.
pub open spec fn block_before(a: Cidr, b: Cidr) -> bool {
    a.addr.family().rank() < b.addr.family().rank() || (a.addr.family() == b.addr.family()
        && a.last() < b.first())
}

/// The blocks of `d` are ascending and no two overlap.
pub open spec fn blocks_ascend(d: Seq<Cidr>) -> bool {
    forall|i: int, j: int| 0 <= i < j < d.len() ==> block_before(#[trigger] d[i], #[trigger] d[j])
}

/// Every block of `d` has a prefix that fits its family and an address
/// whose host bits are zero.
pub open spec fn blocks_normal(d: Seq<Cidr>) -> bool {
    forall|i: int| 0 <= i < d.len() ==> (#[trigger] d[i]).wf() && d[i].is_network()
}

/// No block of `d` reaches beyond the range `r`.
pub open spec fn blocks_upto(d: Seq<Cidr>, r: Range) -> bool {
    forall|i: int|
        0 <= i < d.len() ==> (#[trigger] d[i]).addr.family().rank() < r.fam.rank() || (
        d[i].addr.family() == r.fam && d[i].last() <= r.end)
}

/// What two lists of blocks cover together is what either covers.
pub proof fn lemma_cover_concat(a: Seq<Cidr>, b: Seq<Cidr>)
    ensures
        forall|f: IpFam, x: int|
            cidrs_cover(a + b, f, x) <==> (cidrs_cover(a, f, x) || cidrs_cover(b, f, x)),
{
    let d = a + b;
    let n = a.len() as int;
    assert forall|f: IpFam, x: int| cidrs_cover(d, f, x) implies (cidrs_cover(a, f, x)
        || cidrs_cover(b, f, x)) by {
        let i = choose|i: int| 0 <= i < d.len() && (#[trigger] d[i]).contains(f, x);
        if i < n {
            assert(a[i].contains(f, x));
        } else {
            assert(b[i - n].contains(f, x));
        }
    }
    assert forall|f: IpFam, x: int| (cidrs_cover(a, f, x) || cidrs_cover(b, f, x)) implies cidrs_cover(
        d,
        f,
        x,
    ) by {
        if cidrs_cover(a, f, x) {
            let i = choose|i: int| 0 <= i < a.len() && (#[trigger] a[i]).contains(f, x);
            assert(d[i].contains(f, x));
        } else {
            let i = choose|i: int| 0 <= i < b.len() && (#[trigger] b[i]).contains(f, x);
            assert(d[n + i] == b[i]);
            assert(d[n + i].contains(f, x));
        }
    }
}

/// What a list of ranges covers is what its last range and the others
/// cover.
pub proof fn lemma_ranges_cover_last(m: Seq<Range>)
    requires
        m.len() > 0,
    ensures
        forall|f: IpFam, x: int|
            ranges_cover(m, f, x) <==> (ranges_cover(m.drop_last(), f, x) || m.last().contains(
                f,
                x,
            )),
{
    let p = m.drop_last();
    assert forall|f: IpFam, x: int| ranges_cover(m, f, x) implies (ranges_cover(p, f, x)
        || m.last().contains(f, x)) by {
        let k = choose|k: int| 0 <= k < m.len() && (#[trigger] m[k]).contains(f, x);
        if k < p.len() {
            assert(p[k].contains(f, x));
        }
    }
    assert forall|f: IpFam, x: int| (ranges_cover(p, f, x) || m.last().contains(
        f,
        x,
    )) implies ranges_cover(m, f, x) by {
        if ranges_cover(p, f, x) {
            let k = choose|k: int| 0 <= k < p.len() && (#[trigger] p[k]).contains(f, x);
            assert(m[k].contains(f, x));
        } else {
            assert(m[m.len() - 1].contains(f, x));
        }
    }
}

/// A prefix of well-formed ranges is well formed, and a prefix of canonical
/// ranges is canonical.
pub proof fn lemma_drop_last(m: Seq<Range>)
    requires
        m.len() > 0,
    ensures
        all_wf(m) ==> all_wf(m.drop_last()) && m.last().wf(),
        canonical(m) ==> canonical(m.drop_last()),
        canonical(m) && m.len() > 1 ==> apart(m.drop_last().last(), m.last(), 0),
{
    let p = m.drop_last();
    if all_wf(m) {
        assert forall|i: int| 0 <= i < p.len() implies (#[trigger] p[i]).wf() by {
            assert(p[i] == m[i]);
        }
    }
    if canonical(m) {
        assert forall|i: int| 0 <= i < p.len() - 1 implies apart(#[trigger] p[i], p[i + 1], 0) by {
            assert(apart(m[i], m[i + 1], 0));
        }
        if m.len() > 1 {
            assert(apart(m[p.len() - 1], m[p.len() - 1 + 1], 0));
        }
    }
}

/// The blocks of well-formed ranges are normalized and cover exactly the
/// addresses of the ranges.
pub proof fn lemma_decompose_all(m: Seq<Range>)
    requires
        all_wf(m),
    ensures
        blocks_normal(decompose_all(m)),
        forall|f: IpFam, x: int| cidrs_cover(decompose_all(m), f, x) <==> ranges_cover(m, f, x),
    decreases m.len(),
{
    let d = decompose_all(m);
    if m.len() == 0 {
        return ;
    }
    let p = m.drop_last();
    let r = m.last();
    let dp = decompose_all(p);
    let t = decompose_spec(r.fam, r.beg as int, r.end as int);
    assert(d == dp + t);
    lemma_drop_last(m);
    lemma_decompose_all(p);
    lemma_decompose(r.fam, r.beg as int, r.end as int);
    lemma_tiles_cover(t, r.fam, r.beg as int, r.end as int);
    lemma_cover_concat(dp, t);
    lemma_ranges_cover_last(m);
    let n = dp.len() as int;
    assert forall|i: int| 0 <= i < d.len() implies (#[trigger] d[i]).wf() && d[i].is_network() by {
        if i < n {
            assert(d[i] == dp[i]);
        } else {
            assert(d[i] == t[i - n]);
        }
    }
}

/// The blocks of canonical ranges are ascending and disjoint, and none
/// reaches beyond the last range.
pub proof fn lemma_decompose_all_ascends(m: Seq<Range>)
    requires
        canonical(m),
    ensures
        blocks_ascend(decompose_all(m)),
        m.len() > 0 ==> blocks_upto(decompose_all(m), m.last()),
    decreases m.len(),
{
    let d = decompose_all(m);
    if m.len() == 0 {
        return ;
    }
    let p = m.drop_last();
    let r = m.last();
    let dp = decompose_all(p);
    let t = decompose_spec(r.fam, r.beg as int, r.end as int);
    assert(d == dp + t);
    lemma_drop_last(m);
    lemma_decompose_all_ascends(p);
    lemma_decompose(r.fam, r.beg as int, r.end as int);
    let n = dp.len() as int;
    assert forall|i: int| 0 <= i < d.len() implies (#[trigger] d[i]).addr.family().rank()
        < r.fam.rank() || (d[i].addr.family() == r.fam && d[i].last() <= r.end) by {
        if i < n {
            assert(d[i] == dp[i]);
            assert(p.last().wf());
        } else {
            assert(d[i] == t[i - n]);
        }
    }
    assert forall|i: int, j: int| 0 <= i < j < d.len() implies block_before(
        #[trigger] d[i],
        #[trigger] d[j],
    ) by {
        if j < n {
            assert(block_before(dp[i], dp[j]));
        } else if i >= n {
            lemma_tiles_ascend(t, r.fam, r.beg as int, r.end as int, i - n, j - n);
            assert(t[i - n].wf());
            assert(t[j - n].wf());
        } else {
            assert(d[i] == dp[i]);
            assert(d[j] == t[j - n]);
            assert(t[j - n].wf());
        }
    }
}

/// The blocks of `cs` and the ranges that they span cover the same
/// addresses.
pub proof fn lemma_spans_cover(cs: Seq<Cidr>)
    ensures
        all_wf(spans(cs)),
        forall|f: IpFam, x: int| cidrs_cover(cs, f, x) <==> ranges_cover(spans(cs), f, x),
{
    let s = spans(cs);
    assert forall|i: int| 0 <= i < s.len() implies (#[trigger] s[i]).wf() by {
        lemma_cidr_block(cs[i]);
    }
    assert forall|f: IpFam, x: int| cidrs_cover(cs, f, x) implies ranges_cover(s, f, x) by {
        let i = choose|i: int| 0 <= i < cs.len() && (#[trigger] cs[i]).contains(f, x);
        lemma_cidr_block(cs[i]);
        assert(s[i].contains(f, x));
    }
    assert forall|f: IpFam, x: int| ranges_cover(s, f, x) implies cidrs_cover(cs, f, x) by {
        let i = choose|i: int| 0 <= i < s.len() && (#[trigger] s[i]).contains(f, x);
        lemma_cidr_block(cs[i]);
        assert(cs[i].contains(f, x));
    }
}

/// Sorting and merging well-formed ranges gives ranges more than `gap` apart
/// that cover every address of the input; with no gap allowed they are
/// canonical and cover nothing else.
pub proof fn lemma_merged(s: Seq<Range>, gap: int)
    requires
        all_wf(s),
        gap >= 0,
    ensures
        spaced(merged_spec(s, gap), gap),
        canonical(merged_spec(s, gap)),
        canonical(merged_spec(s, 0)),
        merged_spec(s, gap).len() <= s.len(),
        forall|f: IpFam, x: int| ranges_cover(s, f, x) ==> ranges_cover(merged_spec(s, gap), f, x),
        forall|f: IpFam, x: int| ranges_cover(merged_spec(s, 0), f, x) ==> ranges_cover(s, f, x),
{
    let sorted = sort_spec(s);
    lemma_sort_spec(s);
    lemma_sweep(sorted, 0);
    let m = sweep(sorted, 0);
    lemma_spaced_is_ordered(m, 0);
    lemma_sweep(m, gap);
    lemma_sweep(m, 0);
    let g = sweep(m, gap);
    assert(canonical(g)) by {
        assert forall|i: int| 0 <= i < g.len() - 1 implies apart(#[trigger] g[i], g[i + 1], 0) by {
            assert(apart(g[i], g[i + 1], gap));
        }
    }
    assert forall|f: IpFam, x: int| ranges_cover(s, f, x) implies ranges_cover(g, f, x) by {
        assert(ranges_cover(sorted, f, x));
        assert(ranges_cover(m, f, x));
    }
    assert forall|f: IpFam, x: int| ranges_cover(merged_spec(s, 0), f, x) implies ranges_cover(
        s,
        f,
        x,
    ) by {
        assert(ranges_cover(m, f, x));
        assert(ranges_cover(sorted, f, x));
    }
}

/// Collapsing well-formed ranges gives blocks that are normalized,
/// ascending and disjoint, and that cover every address of the input. With
/// gap tolerance 0 they cover no other address.
pub proof fn lemma_collapse(s: Seq<Range>, gap: int)
    requires
        all_wf(s),
        gap >= 0,
    ensures
        blocks_normal(collapse_spec(s, gap)),
        blocks_ascend(collapse_spec(s, gap)),
        forall|f: IpFam, x: int| ranges_cover(s, f, x) ==> cidrs_cover(collapse_spec(s, gap), f, x),
        gap == 0 ==> forall|f: IpFam, x: int|
            cidrs_cover(collapse_spec(s, gap), f, x) ==> ranges_cover(s, f, x),
{
    lemma_merged(s, gap);
    let m = merged_spec(s, gap);
    lemma_decompose_all(m);
    lemma_decompose_all_ascends(m);
    assert forall|f: IpFam, x: int| ranges_cover(s, f, x) implies cidrs_cover(
        collapse_spec(s, gap),
        f,
        x,
    ) by {
        assert(ranges_cover(m, f, x));
    }
    if gap == 0 {
        assert forall|f: IpFam, x: int| cidrs_cover(collapse_spec(s, gap), f, x) implies ranges_cover(
            s,
            f,
            x,
        ) by {
            assert(ranges_cover(m, f, x));
        }
    }
}

/// Fuzzy merge monotonicity: with a larger gap tolerance the collapsed
/// blocks cover every address that they cover with a smaller one, and come
/// from no more merged ranges. In particular every tolerance covers what
/// tolerance 0, the exact merge, covers.
pub proof fn lemma_collapse_monotonic(s: Seq<Range>, g1: int, g2: int)
    requires
        all_wf(s),
        0 <= g1 <= g2,
    ensures
        forall|f: IpFam, x: int|
            cidrs_cover(collapse_spec(s, g1), f, x) ==> cidrs_cover(collapse_spec(s, g2), f, x),
        merged_spec(s, g2).len() <= merged_spec(s, g1).len(),
{
    lemma_merged(s, 0);
    lemma_merged(s, g1);
    lemma_merged(s, g2);
    let m = sweep(sort_spec(s), 0);
    lemma_sort_spec(s);
    lemma_sweep(sort_spec(s), 0);
    lemma_sweep_idempotent(m, 0);
    assert(m == merged_spec(s, 0));
    lemma_sweep_monotonic(m, g1, g2);
    let a = merged_spec(s, g1);
    let b = merged_spec(s, g2);
    lemma_decompose_all(a);
    lemma_decompose_all(b);
    assert forall|f: IpFam, x: int| cidrs_cover(collapse_spec(s, g1), f, x) implies cidrs_cover(
        collapse_spec(s, g2),
        f,
        x,
    ) by {
        assert(ranges_cover(a, f, x));
        assert(ranges_cover(b, f, x));
    }
}

/// The spans of ascending blocks are in order.
pub proof fn lemma_ascending_spans_ordered(d: Seq<Cidr>)
    requires
        blocks_ascend(d),
    ensures
        ordered(spans(d)),
{
    let s = spans(d);
    assert forall|i: int| 0 <= i < s.len() - 1 implies key_le(#[trigger] s[i], s[i + 1]) by {
        assert(block_before(d[i], d[i + 1]));
        lemma_cidr_block(d[i]);
        lemma_cidr_block(d[i + 1]);
    }
}

/// Sweeping the spans of the first `k` tiles of the range `r` after the
/// spans `x`, whose sweep gives `p`, gives `p` followed by the part of `r`
/// that those tiles cover.
proof fn lemma_sweep_tiles_prefix(x: Seq<Range>, p: Seq<Range>, r: Range, t: Seq<Cidr>, k: int)
    requires
        sweep(x, 0) == p,
        r.wf(),
        p.len() > 0 ==> apart(p.last(), r, 0),
        tiles(t, r.fam, r.beg as int, r.end as int),
        0 <= k <= t.len(),
    ensures
        sweep(x + spans(t.take(k)), 0) == if k == 0 {
            p
        } else {
            p.push(Range { fam: r.fam, beg: r.beg, end: t[k - 1].last() as u128 })
        },
    decreases k,
{
    if k == 0 {
        assert(x + spans(t.take(0)) =~= x);
    } else {
        lemma_sweep_tiles_prefix(x, p, r, t, k - 1);
        let before = x + spans(t.take(k - 1));
        let all = x + spans(t.take(k));
        let c = t[k - 1];
        lemma_cidr_block(c);
        assert(c.wf());
        assert(all.drop_last() =~= before);
        assert(all.last() == c.span());
        assert(sweep(all, 0) == absorb(sweep(before, 0), c.span(), 0));
        if k == 1 {
            assert(c.first() == r.beg);
            assert(!(p.len() > 0 && joins(p.last(), c.span(), 0)));
        } else {
            let prev = t[k - 2];
            lemma_cidr_block(prev);
            assert(prev.wf());
            assert(prev.last() + 1 == t[k - 2 + 1].first());
            let run = Range { fam: r.fam, beg: r.beg, end: prev.last() as u128 };
            let acc = p.push(run);
            assert(acc.last() == run);
            assert(joins(run, c.span(), 0));
            assert(extend(run, c.span()) == Range {
                fam: r.fam,
                beg: r.beg,
                end: c.last() as u128,
            });
            assert(acc.update(acc.len() - 1, extend(run, c.span())) =~= p.push(
                extend(run, c.span()),
            ));
        }
    }
}

/// Merging the spans of the blocks of canonical ranges gives the ranges
/// back.
pub proof fn lemma_sweep_of_blocks(m: Seq<Range>)
    requires
        canonical(m),
    ensures
        sweep(spans(decompose_all(m)), 0) == m,
    decreases m.len(),
{
    if m.len() == 0 {
        assert(spans(decompose_all(m)) =~= Seq::<Range>::empty());
        assert(sweep(spans(decompose_all(m)), 0) =~= m);
        return ;
    }
    let p = m.drop_last();
    let r = m.last();
    let dp = decompose_all(p);
    let t = decompose_spec(r.fam, r.beg as int, r.end as int);
    lemma_drop_last(m);
    lemma_sweep_of_blocks(p);
    lemma_decompose(r.fam, r.beg as int, r.end as int);
    lemma_sweep_tiles_prefix(spans(dp), p, r, t, t.len() as int);
    assert(t.take(t.len() as int) =~= t);
    assert(spans(dp + t) =~= spans(dp) + spans(t));
    assert(p.push(r) =~= m);
}

/// Merge idempotence: blocks that are the blocks of canonical ranges, which
/// is what collapsing gives, collapse with gap tolerance 0 to themselves, in
/// the same order.
pub proof fn lemma_collapse_fixed(cs: Seq<Cidr>, m: Seq<Range>)
    requires
        canonical(m),
        cs == decompose_all(m),
    ensures
        collapse_spec(spans(cs), 0) == cs,
{
    lemma_decompose_all_ascends(m);
    lemma_ascending_spans_ordered(cs);
    lemma_sort_spec(spans(cs));
    lemma_sweep_of_blocks(m);
    lemma_sweep_idempotent(m, 0);
}

/// Collapsing what a collapse gave, with gap tolerance 0, changes nothing.
pub proof fn lemma_collapse_idempotent(s: Seq<Range>, gap: int)
    requires
        all_wf(s),
        gap >= 0,
    ensures
        collapse_spec(spans(collapse_spec(s, gap)), 0) == collapse_spec(s, gap),
{
    lemma_merged(s, gap);
    lemma_collapse_fixed(collapse_spec(s, gap), merged_spec(s, gap));
}

} // verus!
