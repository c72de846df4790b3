//! Sorting of ranges by family, start and end.

use crate::merging::{all_wf, key_le, ordered, ranges_cover};
use crate::structs::{IpFam, Range};
use vstd::prelude::*;
use vstd::relations::{sorted_by, total_ordering};

verus! {

/// The order of ranges by family, start and end, as a relation.
pub open spec fn key_order() -> spec_fn(Range, Range) -> bool {
    |a: Range, b: Range| key_le(a, b)
}

/// The ranges of `s` in the order by family, start and end.
pub open spec fn sort_spec(s: Seq<Range>) -> Seq<Range> {
    s.sort_by(key_order())
}

/// The order by family, start and end is total.
pub proof fn lemma_key_order_total()
    ensures
        total_ordering(key_order()),
{
    let r = key_order();
    assert forall|x: Range, y: Range| #[trigger] r(x, y) && #[trigger] r(y, x) implies x == y by {
        assert(key_le(x, y) && key_le(y, x));
    }
    assert forall|x: Range| #[trigger] r(x, x) by {
        assert(key_le(x, x));
    }
    assert forall|x: Range, y: Range, z: Range| #[trigger] r(x, y) && #[trigger] r(y, z) implies r(
        x,
        z,
    ) by {
        assert(key_le(x, y) && key_le(y, z));
        assert(key_le(x, z));
    }
    assert forall|x: Range, y: Range| #[trigger] r(x, y) || #[trigger] r(y, x) by {
        assert(key_le(x, y) || key_le(y, x));
    }
}

/// Two sequences with the same elements, each as often as in the other,
/// cover the same addresses and are well formed together.
pub proof fn lemma_same_elements(s: Seq<Range>, t: Seq<Range>)
    requires
        s.to_multiset() == t.to_multiset(),
    ensures
        s.len() == t.len(),
        all_wf(s) ==> all_wf(t),
        forall|fam: IpFam, x: int| ranges_cover(s, fam, x) ==> ranges_cover(t, fam, x),
{
    broadcast use vstd::seq_lib::to_multiset_contains;
    vstd::seq_lib::to_multiset_len(s);
    vstd::seq_lib::to_multiset_len(t);
    assert forall|i: int| 0 <= i < s.len() implies t.contains(#[trigger] s[i]) by {
        assert(s.contains(s[i]));
        assert(s.to_multiset().count(s[i]) > 0);
    }
    assert forall|i: int| 0 <= i < t.len() implies s.contains(#[trigger] t[i]) by {
        assert(t.contains(t[i]));
        assert(t.to_multiset().count(t[i]) > 0);
    }
    if all_wf(s) {
        assert forall|i: int| 0 <= i < t.len() implies (#[trigger] t[i]).wf() by {
            assert(s.contains(t[i]));
            let j = choose|j: int| 0 <= j < s.len() && s[j] == t[i];
            assert(s[j].wf());
        }
    }
    assert forall|fam: IpFam, x: int| ranges_cover(s, fam, x) implies ranges_cover(t, fam, x) by {
        let i = choose|i: int| 0 <= i < s.len() && (#[trigger] s[i]).contains(fam, x);
        assert(t.contains(s[i]));
        let j = choose|j: int| 0 <= j < t.len() && t[j] == s[i];
        assert(t[j].contains(fam, x));
    }
}

/// Sorting keeps the ranges and what they cover, and puts them in order.
pub proof fn lemma_sort_spec(s: Seq<Range>)
    ensures
        sort_spec(s).to_multiset() == s.to_multiset(),
        sort_spec(s).len() == s.len(),
        sorted_by(sort_spec(s), key_order()),
        ordered(sort_spec(s)),
        all_wf(s) ==> all_wf(sort_spec(s)),
        forall|fam: IpFam, x: int| ranges_cover(sort_spec(s), fam, x) <==> ranges_cover(s, fam, x),
        ordered(s) ==> sort_spec(s) == s,
{
    lemma_key_order_total();
    s.lemma_sort_by_ensures(key_order());
    let t = sort_spec(s);
    lemma_same_elements(s, t);
    lemma_same_elements(t, s);
    assert forall|i: int| 0 <= i < t.len() - 1 implies key_le(#[trigger] t[i], t[i + 1]) by {
        assert(key_order()(t[i], t[i + 1]));
    }
    if ordered(s) {
        lemma_ordered_is_sorted(s);
        vstd::seq_lib::lemma_sorted_unique(t, s, key_order());
    }
}

/// Ranges of which each comes no later than its successor are sorted.
pub proof fn lemma_ordered_is_sorted(s: Seq<Range>)
    requires
        ordered(s),
    ensures
        sorted_by(s, key_order()),
{
    assert forall|i: int, j: int| 0 <= i < j < s.len() implies #[trigger] key_order()(
        s[i],
        s[j],
    ) by {
        lemma_ordered_pair(s, i, j);
    }
}

proof fn lemma_ordered_pair(s: Seq<Range>, i: int, j: int)
    requires
        ordered(s),
        0 <= i < j < s.len(),
    ensures
        key_le(s[i], s[j]),
    decreases j - i,
{
    if j == i + 1 {
        assert(key_le(s[i], s[i + 1]));
    } else {
        lemma_ordered_pair(s, i, j - 1);
        assert(key_le(s[j - 1], s[j - 1 + 1]));
    }
}

/// `sort_by_key` of the standard library on a vector of ranges, with the
/// key of a range being its family, start and end. It is documented to sort
/// the slice in ascending order of the keys; a tuple of integers is ordered
/// by its first component, then its second, then its third. The contract
/// claims that the vector afterwards holds the same ranges, each as often as
/// before, in that order. Not proved here.
#[verifier::external_body]
fn sort_by_sort_key(v: &mut Vec<Range>)
    ensures
        final(v)@.to_multiset() == old(v)@.to_multiset(),
        sorted_by(final(v)@, key_order()),
{
    v.sort_by_key(|r| r.cmp_key());
}

/// Sort ranges by family, then start, then end.
pub fn sort_ranges(v: &mut Vec<Range>)
    ensures
        final(v)@ == sort_spec(old(v)@),
{
    sort_by_sort_key(v);
    proof {
        lemma_key_order_total();
        lemma_sort_spec(old(v)@);
        vstd::seq_lib::lemma_sorted_unique(v@, sort_spec(old(v)@), key_order());
    }
}

} // verus!
