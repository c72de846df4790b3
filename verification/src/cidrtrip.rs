//! Parsing the text of a CIDR block gives the block back.

use crate::addrtext::addr_text;
use crate::cidr::{cidr_of_text, cidr_text, lemma_count_zero};
use crate::roundtrip::{
    is_lower_hex, lemma_addr_round_trip, lemma_number_plain, lemma_number_text,
    lemma_trimmed_same, lemma_uint_round_trip, plain,
};
use crate::structs::Cidr;
use crate::text::{count_of, index_of, is_space, number_text};
use vstd::prelude::*;

verus! {

/// A character is counted in a joined text as often as in its two parts
/// together.
pub proof fn lemma_count_concat(a: Seq<char>, b: Seq<char>, c: char)
    ensures
        count_of(a + b, c) == count_of(a, c) + count_of(b, c),
    decreases b.len(),
{
    if b.len() == 0 {
        assert(a + b =~= a);
    } else {
        lemma_count_concat(a, b.drop_last(), c);
        assert((a + b).drop_last() =~= a + b.drop_last());
        assert((a + b).last() == b.last());
    }
}

/// The first position of a character is the one before which it does not
/// stand.
pub proof fn lemma_index_of(s: Seq<char>, c: char, pos: int, i: int)
    requires
        0 <= pos <= i < s.len(),
        s[i] == c,
        forall|k: int| pos <= k < i ==> s[k] != c,
    ensures
        index_of(s, c, pos) == i,
    decreases i - pos,
{
    if pos < i {
        lemma_index_of(s, c, pos + 1, i);
    }
}

/// A plain text holds neither a slash nor white space.
pub proof fn lemma_plain_chars(t: Seq<char>)
    requires
        plain(t),
    ensures
        forall|k: int| 0 <= k < t.len() ==> t[k] != '/' && !is_space(t[k]),
        count_of(t, '/') == 0,
{
    assert forall|k: int| 0 <= k < t.len() implies t[k] != '/' && !is_space(t[k]) by {
        assert(is_lower_hex(t[k]) || t[k] == ':' || t[k] == '.');
    }
    lemma_count_zero(t, '/');
}

/// Parsing the text of a well-formed CIDR block gives the block back.
pub proof fn lemma_cidr_round_trip(c: Cidr)
    requires
        c.wf(),
    ensures
        cidr_of_text(cidr_text(c)) == Ok::<Cidr, Seq<char>>(c),
{
    let a = addr_text(c.addr);
    let n = number_text(c.prefix as int, 10);
    let slash = seq!['/'];
    let s = cidr_text(c);
    assert(s == a + slash + n);
    lemma_addr_round_trip(c.addr);
    lemma_number_text(c.prefix as int, 10);
    lemma_number_plain(c.prefix as int, 10);
    lemma_plain_chars(a);
    lemma_plain_chars(n);
    lemma_count_concat(a, slash, '/');
    lemma_count_concat(a + slash, n, '/');
    assert(count_of(slash, '/') == 1) by {
        assert(slash.drop_last() =~= Seq::<char>::empty());
        assert(count_of(slash.drop_last(), '/') == 0);
    }
    assert(count_of(s, '/') == 1);
    let i = a.len() as int;
    assert(s[i] == '/');
    assert forall|k: int| 0 <= k < i implies s[k] != '/' by {
        assert(s[k] == a[k]);
    }
    lemma_index_of(s, '/', 0, i);
    assert(s.subrange(0, i) =~= a);
    assert(s.subrange(i + 1, s.len() as int) =~= n);
    lemma_trimmed_same(a);
    assert(!is_space(n[0]) && !is_space(n.last())) by {
        assert(is_lower_hex(n[0]));
        assert(is_lower_hex(n[n.len() - 1]));
    }
    lemma_trimmed_same(n);
    lemma_uint_round_trip(c.prefix as int, 255);
}

/// Round trip: a text that is the text of a well-formed CIDR block parses,
/// and the text of what it parses to is the text itself.
pub proof fn lemma_text_round_trip(s: Seq<char>, c: Cidr)
    requires
        c.wf(),
        s == cidr_text(c),
    ensures
        cidr_of_text(s) is Ok,
        cidr_text(cidr_of_text(s)->Ok_0) == s,
{
    lemma_cidr_round_trip(c);
}

} // verus!
