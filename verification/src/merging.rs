//! Merging of sorted ranges: the exact sweep, which joins overlapping and
//! adjacent ranges, and the gap-tolerant sweep, which also joins ranges that
//! lie at most a given number of addresses apart.

use crate::structs::{IpFam, Range};
use vstd::prelude::*;

verus! {

/// `a` comes no later than `b` in the order by family, start and end.
pub open spec fn key_le(a: Range, b: Range) -> bool {
    a.fam.rank() < b.fam.rank() || (a.fam == b.fam && (a.beg < b.beg || (a.beg == b.beg && a.end
        <= b.end)))
}

/// Every range of `s` is well formed.
pub open spec fn all_wf(s: Seq<Range>) -> bool {
    forall|i: int| 0 <= i < s.len() ==> (#[trigger] s[i]).wf()
}

/// Each range of `s` comes no later than its successor.
pub open spec fn ordered(s: Seq<Range>) -> bool {
    forall|i: int| 0 <= i < s.len() - 1 ==> key_le(#[trigger] s[i], s[i + 1])
}

/// Some range of `s` holds the address `x` of family `fam`.
pub open spec fn ranges_cover(s: Seq<Range>, fam: IpFam, x: int) -> bool {
    exists|i: int| 0 <= i < s.len() && (#[trigger] s[i]).contains(fam, x)
}

/// `b` lies after `a` with more than `gap` addresses between them, or in a
/// later family.
pub open spec fn apart(a: Range, b: Range, gap: int) -> bool {
    a.fam.rank() < b.fam.rank() || (a.fam == b.fam && a.end + 1 + gap < b.beg)
}

/// The ranges of `s` are well formed, ascending, and more than `gap`
/// addresses apart from each other.
pub open spec fn spaced(s: Seq<Range>, gap: int) -> bool {
    all_wf(s) && forall|i: int| 0 <= i < s.len() - 1 ==> apart(#[trigger] s[i], s[i + 1], gap)
}

/// The ranges of `s` are well formed, ascending, disjoint and not adjacent:
/// the one way to write a set of addresses as ranges.
pub open spec fn canonical(s: Seq<Range>) -> bool {
    spaced(s, 0)
}

/// `r` starts within `gap` addresses after the end of `last`, or before it,
/// in the same family.
pub open spec fn joins(last: Range, r: Range, gap: int) -> bool {
    last.fam == r.fam && r.beg <= last.end + 1 + gap
}

/// `last` extended to hold `r`.
pub open spec fn extend(last: Range, r: Range) -> Range {
    Range {
        fam: last.fam,
        beg: last.beg,
        end: if r.end > last.end {
            r.end
        } else {
            last.end
        },
    }
}

/// One step of the sweep: `r` joins the last range of `acc` or starts a new
/// one.
pub open spec fn absorb(acc: Seq<Range>, r: Range, gap: int) -> Seq<Range> {
    if acc.len() > 0 && joins(acc.last(), r, gap) {
        acc.update(acc.len() - 1, extend(acc.last(), r))
    } else {
        acc.push(r)
    }
}

/// The left-to-right sweep over `s` that joins each range to the running
/// one when it starts at most `gap` addresses after its end.
pub open spec fn sweep(s: Seq<Range>, gap: int) -> Seq<Range>
    decreases s.len(),
{
    if s.len() == 0 {
        Seq::empty()
    } else {
        absorb(sweep(s.drop_last(), gap), s.last(), gap)
    }
}

/// What the sweep of well-formed, ordered ranges `s` gives.
pub open spec fn sweep_result(s: Seq<Range>, gap: int, m: Seq<Range>) -> bool {
    &&& spaced(m, gap)
    &&& m.len() <= s.len()
    &&& s.len() > 0 ==> m.len() > 0 && m.last().fam == s.last().fam && m.last().beg
        <= s.last().beg && s.last().end <= m.last().end
    &&& forall|fam: IpFam, x: int| ranges_cover(s, fam, x) ==> ranges_cover(m, fam, x)
    &&& gap == 0 ==> forall|fam: IpFam, x: int| ranges_cover(m, fam, x) ==> ranges_cover(s, fam, x)
}

/// The sweep of well-formed, ordered ranges gives well-formed ranges more
/// than `gap` apart that cover every input address; with no gap allowed they
/// cover nothing else.
pub proof fn lemma_sweep(s: Seq<Range>, gap: int)
    requires
        all_wf(s),
        ordered(s),
        gap >= 0,
    ensures
        sweep_result(s, gap, sweep(s, gap)),
    decreases s.len(),
{
    if s.len() == 0 {
        return ;
    }
    let p = s.drop_last();
    let r = s.last();
    let m = sweep(p, gap);
    let out = absorb(m, r, gap);
    assert(all_wf(p)) by {
        assert forall|i: int| 0 <= i < p.len() implies (#[trigger] p[i]).wf() by {
            assert(p[i] == s[i]);
        }
    }
    assert(ordered(p)) by {
        assert forall|i: int| 0 <= i < p.len() - 1 implies key_le(#[trigger] p[i], p[i + 1]) by {
            assert(p[i] == s[i]);
            assert(p[i + 1] == s[i + 1]);
        }
    }
    lemma_sweep(p, gap);
    assert(r.wf());
    if p.len() > 0 {
        assert(key_le(s[p.len() - 1], s[p.len() - 1 + 1]));
        assert(p.last() == s[p.len() - 1]);
        assert(key_le(p.last(), r));
    }
    let joined = m.len() > 0 && joins(m.last(), r, gap);
    let n = m.len() as int;
    if joined {
        let e = extend(m.last(), r);
        assert(out == m.update(n - 1, e));
        assert(e.wf());
        assert(spaced(out, gap)) by {
            assert forall|i: int| 0 <= i < out.len() implies (#[trigger] out[i]).wf() by {
                if i < n - 1 {
                    assert(out[i] == m[i]);
                    assert(m[i].wf());
                }
            }
            assert forall|i: int| 0 <= i < out.len() - 1 implies apart(
                #[trigger] out[i],
                out[i + 1],
                gap,
            ) by {
                assert(apart(m[i], m[i + 1], gap));
            }
        }
        assert forall|fam: IpFam, x: int| ranges_cover(s, fam, x) implies ranges_cover(
            out,
            fam,
            x,
        ) by {
            let i = choose|i: int| 0 <= i < s.len() && (#[trigger] s[i]).contains(fam, x);
            if i < p.len() {
                assert(p[i].contains(fam, x));
                assert(ranges_cover(p, fam, x));
                let k = choose|k: int| 0 <= k < m.len() && (#[trigger] m[k]).contains(fam, x);
                if k == n - 1 {
                    assert(out[n - 1].contains(fam, x));
                } else {
                    assert(out[k] == m[k]);
                    assert(out[k].contains(fam, x));
                }
            } else {
                assert(out[n - 1].contains(fam, x));
            }
        }
        if gap == 0 {
            assert forall|fam: IpFam, x: int| ranges_cover(out, fam, x) implies ranges_cover(
                s,
                fam,
                x,
            ) by {
                let k = choose|k: int| 0 <= k < out.len() && (#[trigger] out[k]).contains(fam, x);
                if k == n - 1 && x > m.last().end {
                    assert(s[s.len() - 1].contains(fam, x));
                } else {
                    assert(m[k].contains(fam, x));
                    assert(ranges_cover(m, fam, x));
                    let i = choose|i: int| 0 <= i < p.len() && (#[trigger] p[i]).contains(fam, x);
                    assert(s[i].contains(fam, x));
                }
            }
        }
    } else {
        assert(out == m.push(r));
        assert(spaced(out, gap)) by {
            assert forall|i: int| 0 <= i < out.len() implies (#[trigger] out[i]).wf() by {
                if i < n {
                    assert(out[i] == m[i]);
                    assert(m[i].wf());
                }
            }
            assert forall|i: int| 0 <= i < out.len() - 1 implies apart(
                #[trigger] out[i],
                out[i + 1],
                gap,
            ) by {
                if i < n - 1 {
                    assert(apart(m[i], m[i + 1], gap));
                }
            }
        }
        assert forall|fam: IpFam, x: int| ranges_cover(s, fam, x) implies ranges_cover(
            out,
            fam,
            x,
        ) by {
            let i = choose|i: int| 0 <= i < s.len() && (#[trigger] s[i]).contains(fam, x);
            if i < p.len() {
                assert(p[i].contains(fam, x));
                assert(ranges_cover(p, fam, x));
                let k = choose|k: int| 0 <= k < m.len() && (#[trigger] m[k]).contains(fam, x);
                assert(out[k] == m[k]);
                assert(out[k].contains(fam, x));
            } else {
                assert(out[n].contains(fam, x));
            }
        }
        if gap == 0 {
            assert forall|fam: IpFam, x: int| ranges_cover(out, fam, x) implies ranges_cover(
                s,
                fam,
                x,
            ) by {
                let k = choose|k: int| 0 <= k < out.len() && (#[trigger] out[k]).contains(fam, x);
                if k == n {
                    assert(s[s.len() - 1].contains(fam, x));
                } else {
                    assert(m[k].contains(fam, x));
                    assert(ranges_cover(m, fam, x));
                    let i = choose|i: int| 0 <= i < p.len() && (#[trigger] p[i]).contains(fam, x);
                    assert(s[i].contains(fam, x));
                }
            }
        }
    }
}

/// Ranges that lie more than `gap` apart are ordered.
pub proof fn lemma_spaced_is_ordered(s: Seq<Range>, gap: int)
    requires
        spaced(s, gap),
        gap >= 0,
    ensures
        ordered(s),
        all_wf(s),
{
    assert forall|i: int| 0 <= i < s.len() - 1 implies key_le(#[trigger] s[i], s[i + 1]) by {
        assert(apart(s[i], s[i + 1], gap));
        assert(s[i].wf());
        assert(s[i + 1].wf());
    }
}

/// Merge idempotence: the sweep leaves ranges that already lie more than
/// `gap` apart as they are, in the same order. With `gap == 0` these are the
/// canonical sequences.
pub proof fn lemma_sweep_idempotent(s: Seq<Range>, gap: int)
    requires
        spaced(s, gap),
    ensures
        sweep(s, gap) == s,
    decreases s.len(),
{
    if s.len() == 0 {
        assert(sweep(s, gap) =~= s);
    } else {
        let p = s.drop_last();
        assert(spaced(p, gap)) by {
            assert forall|i: int| 0 <= i < p.len() implies (#[trigger] p[i]).wf() by {
                assert(p[i] == s[i]);
            }
            assert forall|i: int| 0 <= i < p.len() - 1 implies apart(
                #[trigger] p[i],
                p[i + 1],
                gap,
            ) by {
                assert(apart(s[i], s[i + 1], gap));
            }
        }
        lemma_sweep_idempotent(p, gap);
        if p.len() > 0 {
            assert(apart(s[p.len() - 1], s[p.len() - 1 + 1], gap));
            assert(p.last() == s[p.len() - 1]);
            assert(!joins(p.last(), s.last(), gap));
        }
        assert(p.push(s.last()) =~= s);
    }
}

/// How the sweeps of canonical ranges `s` with gaps `g1 <= g2` relate.
pub open spec fn sweeps_nest(s: Seq<Range>, a: Seq<Range>, b: Seq<Range>) -> bool {
    &&& b.len() <= a.len()
    &&& s.len() > 0 ==> a.len() > 0 && b.len() > 0 && a.last().fam == s.last().fam && b.last().fam
        == s.last().fam && a.last().end == s.last().end && b.last().end == s.last().end
        && b.last().beg <= a.last().beg <= s.last().beg
    &&& forall|fam: IpFam, x: int| ranges_cover(a, fam, x) ==> ranges_cover(b, fam, x)
}

/// Fuzzy merge monotonicity: on canonical ranges, a larger gap tolerance
/// covers every address that a smaller one covers, in no more ranges.
pub proof fn lemma_sweep_monotonic(s: Seq<Range>, g1: int, g2: int)
    requires
        canonical(s),
        0 <= g1 <= g2,
    ensures
        sweeps_nest(s, sweep(s, g1), sweep(s, g2)),
    decreases s.len(),
{
    if s.len() == 0 {
        return ;
    }
    let p = s.drop_last();
    let r = s.last();
    assert(canonical(p)) by {
        assert forall|i: int| 0 <= i < p.len() implies (#[trigger] p[i]).wf() by {
            assert(p[i] == s[i]);
        }
        assert forall|i: int| 0 <= i < p.len() - 1 implies apart(#[trigger] p[i], p[i + 1], 0) by {
            assert(apart(s[i], s[i + 1], 0));
        }
    }
    lemma_sweep_monotonic(p, g1, g2);
    let a = sweep(p, g1);
    let b = sweep(p, g2);
    let a2 = absorb(a, r, g1);
    let b2 = absorb(b, r, g2);
    assert(r.wf());
    if p.len() > 0 {
        assert(apart(s[p.len() - 1], s[p.len() - 1 + 1], 0));
        assert(p.last() == s[p.len() - 1]);
        assert(p.last().wf());
    }
    let ja = a.len() > 0 && joins(a.last(), r, g1);
    let jb = b.len() > 0 && joins(b.last(), r, g2);
    assert(ja ==> jb);
    let na = a.len() as int;
    let nb = b.len() as int;
    assert forall|fam: IpFam, x: int| ranges_cover(a2, fam, x) implies ranges_cover(
        b2,
        fam,
        x,
    ) by {
        let k = choose|k: int| 0 <= k < a2.len() && (#[trigger] a2[k]).contains(fam, x);
        // either the address lies in what `a` covered before, or in `r`
        let in_old = k < na && a[k].contains(fam, x);
        if in_old {
            assert(ranges_cover(a, fam, x));
            let j = choose|j: int| 0 <= j < b.len() && (#[trigger] b[j]).contains(fam, x);
            if jb && j == nb - 1 {
                assert(b2[nb - 1].contains(fam, x));
            } else {
                assert(b2[j] == b[j]);
                assert(b2[j].contains(fam, x));
            }
        } else {
            // then it lies between the old end and the end of `r`
            assert(fam == r.fam && x <= r.end);
            if ja {
                assert(k == na - 1);
                assert(x > a.last().end);
                assert(b2[nb - 1].contains(fam, x));
            } else {
                assert(k == na);
                assert(r.contains(fam, x));
                if jb {
                    assert(b2[nb - 1].contains(fam, x));
                } else {
                    assert(b2[nb] == r);
                    assert(b2[nb].contains(fam, x));
                }
            }
        }
    }
}

/// Merge overlapping and adjacent ranges. On well-formed ranges in order the
/// result is canonical and covers exactly the addresses of the input.
pub fn merge_ranges(sorted: &[Range]) -> (out: Vec<Range>)
    ensures
        out@ == sweep(sorted@, 0),
        all_wf(sorted@) && ordered(sorted@) ==> sweep_result(sorted@, 0, out@),
        canonical(sorted@) ==> out@ == sorted@,
{
    let mut out: Vec<Range> = Vec::new();
    let mut i: usize = 0;
    while i < sorted.len()
        invariant
            i <= sorted.len(),
            out@ == sweep(sorted@.take(i as int), 0),
        decreases sorted.len() - i,
    {
        let r: Range = sorted[i];
        let n: usize = out.len();
        proof {
            assert(sorted@.take(i + 1).drop_last() =~= sorted@.take(i as int));
            assert(sorted@.take(i + 1).last() == r);
        }
        if n > 0 && out[n - 1].fam == r.fam && r.beg <= out[n - 1].end.saturating_add(1) {
            let last: Range = out[n - 1];
            let end: u128 = if r.end > last.end {
                r.end
            } else {
                last.end
            };
            out.set(n - 1, Range { fam: last.fam, beg: last.beg, end });
        } else {
            out.push(r);
        }
        i += 1;
    }
    proof {
        assert(sorted@.take(sorted.len() as int) =~= sorted@);
        if all_wf(sorted@) && ordered(sorted@) {
            lemma_sweep(sorted@, 0);
        }
        if canonical(sorted@) {
            lemma_sweep_idempotent(sorted@, 0);
        }
    }
    out
}

/// Merge ranges that lie at most `max_gap` addresses apart. This covers the
/// addresses in the swallowed gaps too. On canonical ranges the result is in
/// order, more than `max_gap` apart, and covers every address of the input.
pub fn merge_ranges_fuzzy(merged: &[Range], max_gap: u128) -> (out: Vec<Range>)
    ensures
        out@ == sweep(merged@, max_gap as int),
        all_wf(merged@) && ordered(merged@) ==> sweep_result(merged@, max_gap as int, out@),
{
    let mut out: Vec<Range> = Vec::new();
    let mut i: usize = 0;
    while i < merged.len()
        invariant
            i <= merged.len(),
            out@ == sweep(merged@.take(i as int), max_gap as int),
        decreases merged.len() - i,
    {
        let r: Range = merged[i];
        let n: usize = out.len();
        proof {
            assert(merged@.take(i + 1).drop_last() =~= merged@.take(i as int));
            assert(merged@.take(i + 1).last() == r);
        }
        let mut joined: bool = false;
        if n > 0 && out[n - 1].fam == r.fam {
            let last: Range = out[n - 1];
            let gap: u128 = r.beg.saturating_sub(last.end.saturating_add(1));
            if gap <= max_gap {
                let end: u128 = if r.end > last.end {
                    r.end
                } else {
                    last.end
                };
                out.set(n - 1, Range { fam: last.fam, beg: last.beg, end });
                joined = true;
            }
        }
        if !joined {
            out.push(r);
        }
        i += 1;
    }
    proof {
        assert(merged@.take(merged.len() as int) =~= merged@);
        if all_wf(merged@) && ordered(merged@) {
            lemma_sweep(merged@, max_gap as int);
        }
    }
    out
}

} // verus!
