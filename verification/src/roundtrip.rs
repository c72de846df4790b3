//! Parsing the text of a value gives the value back.

use crate::addrtext::{
    addr_of_text, addr_text, all_groups, best_start, groups_of, has_char, is_v4_mapped, join_hex,
    read_groups, read_octet, read_v4, segs_value, v4_text, v6_of_text, v6_text, zero_groups,
    zeros_from, Groups,
};
use crate::bits::lemma_pow2_bounds;
use vstd::arithmetic::power2::{lemma2_to64, lemma_pow2_adds, lemma_pow2_pos, pow2};
use crate::structs::IpAddress;
use crate::text::{
    digit_char, digit_of, digit_run, in_radix, is_digit, is_space, leading_spaces,
    lemma_digit_run_split, number_at, number_text, read_number_spec, trailing_spaces, trimmed,
    uint_of_text,
};
use vstd::prelude::*;

verus! {

/// `c` is a decimal digit or a lower-case hexadecimal digit.
pub open spec fn is_lower_hex(c: char) -> bool {
    is_digit(c) || ('a' <= c && c <= 'f')
}

/// The digit of a value below the radix is a digit of that value.
pub proof fn lemma_digit_char(d: int, radix: int)
    requires
        0 <= d < radix,
        radix == 10 || radix == 16,
    ensures
        in_radix(digit_char(d), radix),
        is_lower_hex(digit_char(d)),
        digit_of(digit_char(d)) == d,
        d == 0 <==> digit_char(d) == '0',
        !is_space(digit_char(d)),
{
}

/// The digits of a number: at least one, all of the radix, with no leading
/// zero before other digits.
pub proof fn lemma_number_text(v: int, radix: int)
    requires
        0 <= v,
        radix == 10 || radix == 16,
    ensures
        number_text(v, radix).len() >= 1,
        forall|k: int|
            0 <= k < number_text(v, radix).len() ==> in_radix(
                #[trigger] number_text(v, radix)[k],
                radix,
            ) && is_lower_hex(number_text(v, radix)[k]),
        number_text(v, radix).len() > 1 ==> number_text(v, radix)[0] != '0',
        v < radix ==> number_text(v, radix).len() == 1,
        v >= radix ==> number_text(v, radix).len() >= 2,
        v < radix * radix ==> number_text(v, radix).len() <= 2,
        v < radix * radix * radix ==> number_text(v, radix).len() <= 3,
        v < radix * radix * radix * radix ==> number_text(v, radix).len() <= 4,
        number_at(number_text(v, radix), 0, number_text(v, radix).len() as int, radix) == v,
    decreases v,
{
    let t = number_text(v, radix);
    if v < radix {
        lemma_digit_char(v, radix);
        assert(t =~= seq![digit_char(v)]);
        assert(number_at(t, 0, 0, radix) == 0);
        assert(number_at(t, 0, 1, radix) == number_at(t, 0, 0, radix) * radix + digit_of(t[0]));
    } else {
        let q = v / radix;
        let d = v % radix;
        assert(0 < q < v && 0 <= d < radix && q * radix + d == v) by (nonlinear_arith)
            requires
                v >= radix,
                radix >= 2,
                q == v / radix,
                d == v % radix,
        ;
        lemma_number_text(q, radix);
        lemma_digit_char(d, radix);
        let p = number_text(q, radix);
        assert(t == p.push(digit_char(d)));
        assert forall|k: int| 0 <= k < t.len() implies in_radix(#[trigger] t[k], radix)
            && is_lower_hex(t[k]) by {
            if k < p.len() {
                assert(t[k] == p[k]);
            }
        }
        // the first digit is that of the quotient, which is not zero
        assert(t[0] == p[0]);
        if p.len() == 1 {
            if q < radix {
                assert(p =~= seq![digit_char(q)]);
                lemma_digit_char(q, radix);
            }
        }
        assert(t.subrange(0, p.len() as int) =~= p.subrange(0, p.len() as int));
        lemma_number_prefix(t, p, 0, 0, p.len() as int, radix);
        assert(number_at(t, 0, t.len() as int, radix) == number_at(t, 0, p.len() as int, radix)
            * radix + digit_of(t[p.len() as int]));
        if v < radix * radix {
            assert(q < radix) by (nonlinear_arith)
                requires
                    q * radix <= v,
                    v < radix * radix,
                    radix >= 2,
            ;
        }
        if v < radix * radix * radix {
            assert(q < radix * radix) by (nonlinear_arith)
                requires
                    q * radix <= v,
                    v < radix * radix * radix,
                    radix >= 2,
            ;
        }
        if v < radix * radix * radix * radix {
            assert(q < radix * radix * radix) by (nonlinear_arith)
                requires
                    q * radix <= v,
                    v < radix * radix * radix * radix,
                    radix >= 2,
            ;
        }
    }
}

/// The number that digits denote does not depend on what stands around
/// them.
pub proof fn lemma_number_prefix(s: Seq<char>, t: Seq<char>, pos: int, at: int, n: int, radix: int)
    requires
        0 <= n,
        0 <= pos,
        0 <= at,
        pos + n <= s.len(),
        at + n <= t.len(),
        s.subrange(pos, pos + n) == t.subrange(at, at + n),
    ensures
        number_at(s, pos, n, radix) == number_at(t, at, n, radix),
    decreases n,
{
    if n > 0 {
        let a = s.subrange(pos, pos + n);
        let b = t.subrange(at, at + n);
        assert(s.subrange(pos, pos + n - 1) =~= a.subrange(0, n - 1));
        assert(t.subrange(at, at + n - 1) =~= b.subrange(0, n - 1));
        lemma_number_prefix(s, t, pos, at, n - 1, radix);
        assert(s[pos + n - 1] == a[n - 1]);
        assert(t[at + n - 1] == b[n - 1]);
    }
}

/// The text `t` stands in `s` at `pos`.
pub open spec fn stands_at(s: Seq<char>, pos: int, t: Seq<char>) -> bool {
    0 <= pos && pos + t.len() <= s.len() && s.subrange(pos, pos + t.len()) == t
}

/// Where the digits of a number stand in a text and no digit follows them,
/// reading a number there gives that number and the position after it.
pub proof fn lemma_read_number_text(
    s: Seq<char>,
    pos: int,
    v: int,
    radix: int,
    max_digits: int,
    zero_prefix: bool,
)
    requires
        0 <= v,
        radix == 10 || radix == 16,
        stands_at(s, pos, number_text(v, radix)),
        pos + number_text(v, radix).len() == s.len() || !in_radix(
            s[pos + number_text(v, radix).len()],
            radix,
        ),
        number_text(v, radix).len() <= max_digits,
    ensures
        read_number_spec(s, pos, radix, max_digits, zero_prefix) == Some(
            (v, pos + number_text(v, radix).len()),
        ),
{
    let t = number_text(v, radix);
    let n = t.len() as int;
    lemma_number_text(v, radix);
    assert forall|j: int| pos <= j < pos + n implies in_radix(s[j], radix) by {
        assert(s[j] == s.subrange(pos, pos + n)[j - pos]);
    }
    lemma_digit_run_split(s, pos, pos + n, radix);
    assert(digit_run(s, pos + n, radix) == 0);
    assert(t.subrange(0, n) =~= t);
    lemma_number_prefix(s, t, pos, 0, n, radix);
    assert(s[pos] == s.subrange(pos, pos + n)[0]);
}

/// The decimal text of a number that is not above `max` parses to that
/// number.
pub proof fn lemma_uint_round_trip(v: int, max: int)
    requires
        0 <= v <= max,
    ensures
        uint_of_text(number_text(v, 10), max) == Some(v),
{
    let t = number_text(v, 10);
    lemma_number_text(v, 10);
    assert(in_radix(t[0], 10));
    assert(t.subrange(0, t.len() as int) =~= t);
    assert(stands_at(t, 0, t));
    lemma_read_number_text(t, 0, v, 10, t.len() as int, true);
}

/// A text that neither starts nor ends with white space is its own trimmed
/// form.
pub proof fn lemma_trimmed_same(t: Seq<char>)
    requires
        t.len() > 0,
        !is_space(t[0]),
        !is_space(t.last()),
    ensures
        trimmed(t) == t,
{
    assert(leading_spaces(t, 0) == 0);
    assert(trailing_spaces(t, t.len() as int) == 0);
    assert(t.subrange(0, t.len() as int) =~= t);
}

/// A piece of a text that stands in `s` stands in `s` itself.
pub proof fn lemma_stands_within(s: Seq<char>, pos: int, whole: Seq<char>, o: int, piece: Seq<char>)
    requires
        stands_at(s, pos, whole),
        0 <= o,
        o + piece.len() <= whole.len(),
        whole.subrange(o, o + piece.len()) == piece,
    ensures
        stands_at(s, pos + o, piece),
{
    assert(s.subrange(pos + o, pos + o + piece.len()) =~= s.subrange(
        pos,
        pos + whole.len(),
    ).subrange(o, o + piece.len()));
}

/// The character at offset `o` of a text that stands in `s`.
pub proof fn lemma_stands_char(s: Seq<char>, pos: int, whole: Seq<char>, o: int)
    requires
        stands_at(s, pos, whole),
        0 <= o < whole.len(),
    ensures
        s[pos + o] == whole[o],
{
    assert(s[pos + o] == s.subrange(pos, pos + whole.len())[o]);
}

/// The four parts of an IPv4 address are below 256 and make up its number.
pub proof fn lemma_octets(v: int)
    requires
        0 <= v <= 0xffff_ffff,
    ensures
        0 <= v / 0x100_0000 <= 255,
        0 <= (v / 0x1_0000) % 0x100 <= 255,
        0 <= (v / 0x100) % 0x100 <= 255,
        0 <= v % 0x100 <= 255,
        (v / 0x100_0000) * 0x100_0000 + ((v / 0x1_0000) % 0x100) * 0x1_0000 + ((v / 0x100)
            % 0x100) * 0x100 + v % 0x100 == v,
{
}

/// Where the dotted quad of an address stands in a text and no decimal
/// digit follows it, reading a dotted quad there gives the address and the
/// position after it.
pub proof fn lemma_read_v4_text(s: Seq<char>, pos: int, v: int)
    requires
        0 <= v <= 0xffff_ffff,
        stands_at(s, pos, v4_text(v)),
        pos + v4_text(v).len() == s.len() || !is_digit(s[pos + v4_text(v).len()]),
    ensures
        read_v4(s, pos) == Some((v, pos + v4_text(v).len())),
{
    lemma_octets(v);
    let a = v / 0x100_0000;
    let b = (v / 0x1_0000) % 0x100;
    let c = (v / 0x100) % 0x100;
    let d = v % 0x100;
    let ta = number_text(a, 10);
    let tb = number_text(b, 10);
    let tc = number_text(c, 10);
    let td = number_text(d, 10);
    let dot = seq!['.'];
    let whole = v4_text(v);
    assert(whole == ta + dot + tb + dot + tc + dot + td);
    lemma_number_text(a, 10);
    lemma_number_text(b, 10);
    lemma_number_text(c, 10);
    lemma_number_text(d, 10);
    let o1 = ta.len() as int;
    let o2 = o1 + 1 + tb.len();
    let o3 = o2 + 1 + tc.len();
    let o4 = o3 + 1 + td.len();
    assert(whole.len() == o4);
    assert(whole.subrange(0, o1) =~= ta);
    assert(whole.subrange(o1 + 1, o2) =~= tb);
    assert(whole.subrange(o2 + 1, o3) =~= tc);
    assert(whole.subrange(o3 + 1, o4) =~= td);
    assert(whole[o1] == '.');
    assert(whole[o2] == '.');
    assert(whole[o3] == '.');
    lemma_stands_within(s, pos, whole, 0, ta);
    lemma_stands_within(s, pos, whole, o1 + 1, tb);
    lemma_stands_within(s, pos, whole, o2 + 1, tc);
    lemma_stands_within(s, pos, whole, o3 + 1, td);
    lemma_stands_char(s, pos, whole, o1);
    lemma_stands_char(s, pos, whole, o2);
    lemma_stands_char(s, pos, whole, o3);
    lemma_read_number_text(s, pos, a, 10, 3, false);
    lemma_read_number_text(s, pos + o1 + 1, b, 10, 3, false);
    lemma_read_number_text(s, pos + o2 + 1, c, 10, 3, false);
    lemma_read_number_text(s, pos + o3 + 1, d, 10, 3, false);
    assert(read_octet(s, pos) == Some((a, pos + o1)));
    assert(has_char(s, pos + o1, '.'));
    assert(read_octet(s, pos + o1 + 1) == Some((b, pos + o2)));
    assert(has_char(s, pos + o2, '.'));
    assert(read_octet(s, pos + o2 + 1) == Some((c, pos + o3)));
    assert(has_char(s, pos + o3, '.'));
    assert(read_octet(s, pos + o3 + 1) == Some((d, pos + o4)));
}

/// Every character of `t` is a lower-case hexadecimal digit, a colon or a
/// dot.
pub open spec fn plain(t: Seq<char>) -> bool {
    forall|k: int| 0 <= k < t.len() ==> is_lower_hex(#[trigger] t[k]) || t[k] == ':' || t[k] == '.'
}

/// Two plain texts joined are plain.
pub proof fn lemma_plain_concat(a: Seq<char>, b: Seq<char>)
    requires
        plain(a),
        plain(b),
    ensures
        plain(a + b),
{
    let t = a + b;
    assert forall|k: int| 0 <= k < t.len() implies is_lower_hex(#[trigger] t[k]) || t[k] == ':'
        || t[k] == '.' by {
        if k < a.len() {
            assert(t[k] == a[k]);
        } else {
            assert(t[k] == b[k - a.len()]);
        }
    }
}

/// The text of a number is plain.
pub proof fn lemma_number_plain(v: int, radix: int)
    requires
        0 <= v,
        radix == 10 || radix == 16,
    ensures
        plain(number_text(v, radix)),
        number_text(v, radix).len() >= 1,
{
    lemma_number_text(v, radix);
}

/// A dotted quad is plain, and it starts and ends with a digit.
pub proof fn lemma_v4_text_plain(v: int)
    requires
        0 <= v <= 0xffff_ffff,
    ensures
        plain(v4_text(v)),
        v4_text(v).len() >= 7,
        is_digit(v4_text(v)[0]),
        is_digit(v4_text(v).last()),
{
    lemma_octets(v);
    let ta = number_text(v / 0x100_0000, 10);
    let tb = number_text((v / 0x1_0000) % 0x100, 10);
    let tc = number_text((v / 0x100) % 0x100, 10);
    let td = number_text(v % 0x100, 10);
    let dot = seq!['.'];
    lemma_number_text(v / 0x100_0000, 10);
    lemma_number_text((v / 0x1_0000) % 0x100, 10);
    lemma_number_text((v / 0x100) % 0x100, 10);
    lemma_number_text(v % 0x100, 10);
    assert(plain(dot));
    lemma_plain_concat(ta, dot);
    lemma_plain_concat(ta + dot, tb);
    lemma_plain_concat(ta + dot + tb, dot);
    lemma_plain_concat(ta + dot + tb + dot, tc);
    lemma_plain_concat(ta + dot + tb + dot + tc, dot);
    lemma_plain_concat(ta + dot + tb + dot + tc + dot, td);
    let whole = v4_text(v);
    assert(whole[0] == ta[0]);
    assert(whole.last() == td.last());
    assert(in_radix(ta[0], 10));
    assert(in_radix(td[td.len() - 1], 10));
}

/// The dotted quad of an IPv4 address parses to that address.
pub proof fn lemma_v4_round_trip(v: u32)
    ensures
        addr_of_text(v4_text(v as int)) == Some(IpAddress::V4(v)),
{
    let t = v4_text(v as int);
    assert(t.subrange(0, t.len() as int) =~= t);
    lemma_read_v4_text(t, 0, v as int);
}

/// The lowest `n` groups of a number are below 65536 each, and their value
/// is the number modulo the `16 n`-th power of two.
pub proof fn lemma_groups_of(v: int, n: nat)
    requires
        0 <= v,
    ensures
        groups_of(v, n).len() == n,
        all_groups(groups_of(v, n)),
        segs_value(groups_of(v, n)) == v % (pow2(16 * n) as int),
    decreases n,
{
    lemma2_to64();
    if n == 0 {
        assert(pow2(0) == 1);
    } else {
        let q = v / 0x1_0000;
        let m = (n - 1) as nat;
        lemma_groups_of(q, m);
        let g = groups_of(v, n);
        let p = groups_of(q, m);
        assert(g == p.push(v % 0x1_0000));
        assert(g.drop_last() =~= p);
        assert forall|i: int| 0 <= i < g.len() implies 0 <= #[trigger] g[i] < 0x1_0000 by {
            if i < p.len() {
                assert(g[i] == p[i]);
            }
        }
        lemma_pow2_pos(16 * m);
        lemma_pow2_adds(16, 16 * m);
        assert(16 + 16 * m == 16 * n);
        let t = pow2(16 * m) as int;
        assert(pow2(16 * n) as int == 0x1_0000 * t);
        vstd::arithmetic::div_mod::lemma_mod_breakdown(v, 0x1_0000, t);
        assert(0x1_0000 * (q % t) == (q % t) * 0x1_0000) by (nonlinear_arith);
    }
}

/// The eight groups of a 128-bit number make up the number.
pub proof fn lemma_groups_value(v: u128)
    ensures
        groups_of(v as int, 8).len() == 8,
        all_groups(groups_of(v as int, 8)),
        segs_value(groups_of(v as int, 8)) == v,
{
    lemma_groups_of(v as int, 8);
    lemma_pow2_bounds(128);
    vstd::arithmetic::div_mod::lemma_small_mod(v as nat, pow2(128));
}

/// The joined text of groups starts with the text of the first group; the
/// others follow after a colon.
pub proof fn lemma_join_hex_front(g: Seq<int>)
    requires
        g.len() >= 2,
    ensures
        join_hex(g) == number_text(g[0], 16) + seq![':'] + join_hex(g.skip(1)),
    decreases g.len(),
{
    let rest = g.skip(1);
    let p = g.drop_last();
    if g.len() == 2 {
        assert(p.len() == 1);
        assert(p[0] == g[0]);
        assert(rest.len() == 1);
        assert(rest[0] == g[1]);
        assert(join_hex(g) =~= number_text(g[0], 16) + seq![':'] + join_hex(rest));
    } else {
        lemma_join_hex_front(p);
        assert(p.skip(1) =~= rest.drop_last());
        assert(p[0] == g[0]);
        assert(rest.last() == g.last());
        assert(join_hex(rest) == join_hex(rest.drop_last()) + seq![':'] + number_text(
            rest.last(),
            16,
        ));
        assert(join_hex(g) == join_hex(p) + seq![':'] + number_text(g.last(), 16));
        assert(join_hex(p) == number_text(g[0], 16) + seq![':'] + join_hex(rest.drop_last()));
        assert(join_hex(g) =~= number_text(g[0], 16) + seq![':'] + join_hex(rest));
    }
}

/// Every character of `t` is a lower-case hexadecimal digit or a colon.
pub open spec fn hex_plain(t: Seq<char>) -> bool {
    forall|k: int| 0 <= k < t.len() ==> is_lower_hex(#[trigger] t[k]) || t[k] == ':'
}

/// Two texts of hexadecimal digits and colons joined are one.
pub proof fn lemma_hex_plain_concat(a: Seq<char>, b: Seq<char>)
    requires
        hex_plain(a),
        hex_plain(b),
    ensures
        hex_plain(a + b),
{
    let t = a + b;
    assert forall|k: int| 0 <= k < t.len() implies is_lower_hex(#[trigger] t[k]) || t[k]
        == ':' by {
        if k < a.len() {
            assert(t[k] == a[k]);
        } else {
            assert(t[k] == b[k - a.len()]);
        }
    }
}

/// The joined text of groups holds hexadecimal digits and colons only; if
/// there is a group, it starts and ends with a digit.
pub proof fn lemma_join_hex_plain(g: Seq<int>)
    requires
        all_groups(g),
    ensures
        hex_plain(join_hex(g)),
        g.len() == 0 ==> join_hex(g).len() == 0,
        g.len() > 0 ==> join_hex(g).len() > 0 && is_lower_hex(join_hex(g)[0]) && is_lower_hex(
            join_hex(g).last(),
        ),
    decreases g.len(),
{
    if g.len() == 0 {
    } else if g.len() == 1 {
        assert(0 <= g[0] < 0x1_0000);
        lemma_number_text(g[0], 16);
        let t = number_text(g[0], 16);
        assert(is_lower_hex(t[0]));
        assert(is_lower_hex(t[t.len() - 1]));
    } else {
        let p = g.drop_last();
        assert(all_groups(p)) by {
            assert forall|i: int| 0 <= i < p.len() implies 0 <= #[trigger] p[i] < 0x1_0000 by {
                assert(p[i] == g[i]);
            }
        }
        lemma_join_hex_plain(p);
        assert(0 <= g[g.len() - 1] < 0x1_0000);
        lemma_number_text(g.last(), 16);
        let colon = seq![':'];
        let h = number_text(g.last(), 16);
        assert(hex_plain(colon));
        lemma_hex_plain_concat(join_hex(p), colon);
        lemma_hex_plain_concat(join_hex(p) + colon, h);
        let t = join_hex(g);
        assert(t == join_hex(p) + colon + h);
        assert(t[0] == join_hex(p)[0]);
        assert(t.last() == h.last());
        assert(is_lower_hex(h[h.len() - 1]));
    }
}

/// No dotted quad is read from a text without a dot.
pub proof fn lemma_no_dot_no_v4(s: Seq<char>, pos: int)
    requires
        forall|k: int| 0 <= k < s.len() ==> s[k] != '.',
    ensures
        read_v4(s, pos) is None,
{
}

/// A hexadecimal digit stands in `s` at `pos`.
pub open spec fn starts_hex(s: Seq<char>, pos: int) -> bool {
    0 <= pos < s.len() && in_radix(s[pos], 16)
}

/// After `i` groups, no further group can be read at `e`: the limit is
/// reached, or what stands there is no group, after a colon where one is
/// due.
pub open spec fn stops(s: Seq<char>, e: int, i: int, limit: int) -> bool {
    i >= limit || if i == 0 {
        !starts_hex(s, e)
    } else {
        !has_char(s, e, ':') || !starts_hex(s, e + 1)
    }
}

/// The text in which the groups `g` follow `n` groups already read: their
/// joined text, after a colon if groups stand on both sides.
pub open spec fn pending(n: int, g: Seq<int>) -> Seq<char> {
    if n > 0 && g.len() > 0 {
        seq![':'] + join_hex(g)
    } else {
        join_hex(g)
    }
}

/// Where the joined text of groups stands in a text without dots, and no
/// further group can be read after it, reading groups gives those groups
/// and the position after them.
pub proof fn lemma_read_joined(s: Seq<char>, pos: int, limit: int, acc: Seq<int>, g: Seq<int>)
    requires
        0 <= pos,
        all_groups(g),
        forall|k: int| 0 <= k < s.len() ==> s[k] != '.',
        acc.len() + g.len() <= limit,
        stands_at(s, pos, pending(acc.len() as int, g)),
        stops(s, pos + pending(acc.len() as int, g).len(), (acc.len() + g.len()) as int, limit),
        g.len() > 0 ==> !starts_hex(s, pos + pending(acc.len() as int, g).len()),
    ensures
        read_groups(s, pos, limit, acc) == (Groups {
            segs: acc + g,
            pos: pos + pending(acc.len() as int, g).len(),
            with_v4: false,
        }),
    decreases g.len(),
{
    let i = acc.len() as int;
    let txt = pending(i, g);
    let end = pos + txt.len();
    let start = if i == 0 {
        pos
    } else {
        pos + 1
    };
    lemma_no_dot_no_v4(s, start);
    if g.len() == 0 {
        assert(txt.len() == 0);
        assert(acc + g =~= acc);
        if i < limit {
            if i == 0 {
                assert(digit_run(s, pos, 16) == 0);
            } else if has_char(s, pos, ':') {
                assert(digit_run(s, pos + 1, 16) == 0);
            }
        }
    } else {
        let first = g[0];
        let rest = g.skip(1);
        let h = number_text(first, 16);
        assert(0 <= first < 0x1_0000);
        lemma_number_text(first, 16);
        assert(all_groups(rest)) by {
            assert forall|k: int| 0 <= k < rest.len() implies 0 <= #[trigger] rest[k]
                < 0x1_0000 by {
                assert(rest[k] == g[k + 1]);
            }
        }
        let joined = join_hex(g);
        if g.len() >= 2 {
            lemma_join_hex_front(g);
        } else {
            assert(rest.len() == 0);
            assert(joined == h);
        }
        let lead: int = if i > 0 {
            1
        } else {
            0
        };
        assert(start == pos + lead);
        // the first group stands at `start`
        assert(txt.subrange(lead, lead + h.len()) =~= h);
        lemma_stands_within(s, pos, txt, lead, h);
        if i > 0 {
            assert(txt[0] == ':');
            lemma_stands_char(s, pos, txt, 0);
            assert(has_char(s, pos, ':'));
        }
        let after = start + h.len();
        let more = pending(i + 1, rest);
        if rest.len() > 0 {
            assert(txt[lead + h.len()] == ':');
            lemma_stands_char(s, pos, txt, lead + h.len());
            assert(more == seq![':'] + join_hex(rest));
            assert(txt.subrange(lead + h.len(), txt.len() as int) =~= more);
        } else {
            assert(more.len() == 0);
            assert(after == end);
            assert(txt.subrange(lead + h.len(), lead + h.len()) =~= more);
        }
        lemma_stands_within(s, pos, txt, lead + h.len(), more);
        lemma_read_number_text(s, start, first, 16, 4, true);
        assert(read_number_spec(s, start, 16, 4, true) == Some((first, after)));
        assert(after + more.len() == end);
        lemma_read_joined(s, after, limit, acc.push(first), rest);
        assert(acc.push(first) + rest =~= acc + g);
        assert(read_groups(s, pos, limit, acc) == read_groups(s, after, limit, acc.push(first)));
    }
}

/// A run of zero groups ends within the groups, and holds zeros only.
pub proof fn lemma_zeros_from(segs: Seq<int>, i: int)
    requires
        0 <= i <= segs.len(),
    ensures
        0 <= zeros_from(segs, i) <= segs.len() - i,
        forall|k: int| i <= k < i + zeros_from(segs, i) ==> #[trigger] segs[k] == 0,
    decreases segs.len() - i,
{
    if i < segs.len() && segs[i] == 0 {
        lemma_zeros_from(segs, i + 1);
    }
}

/// The longest run of zero groups starts within the groups.
pub proof fn lemma_best_start(segs: Seq<int>, n: int)
    requires
        1 <= n <= segs.len(),
    ensures
        0 <= best_start(segs, n) < n,
    decreases n,
{
    if n > 1 {
        lemma_best_start(segs, n - 1);
    }
}

/// A text of hexadecimal digits and colons holds no dot and no white
/// space.
pub proof fn lemma_hex_plain_no_dot(t: Seq<char>)
    requires
        hex_plain(t),
    ensures
        forall|k: int| 0 <= k < t.len() ==> t[k] != '.',
        plain(t),
{
    assert forall|k: int| 0 <= k < t.len() implies t[k] != '.' by {
        assert(is_lower_hex(t[k]) || t[k] == ':');
    }
}

/// The text of an IPv6 address, written in groups without `::`, parses to
/// the address.
proof fn lemma_v6_full(v: u128)
    requires
        !is_v4_mapped(groups_of(v as int, 8)),
        zeros_from(groups_of(v as int, 8), best_start(groups_of(v as int, 8), 8)) <= 1,
    ensures
        v6_of_text(v6_text(v as int)) == Some(v as int),
        read_v4(v6_text(v as int), 0) is None,
        plain(v6_text(v as int)),
        v6_text(v as int).len() > 0,
        !is_space(v6_text(v as int)[0]),
        !is_space(v6_text(v as int).last()),
{
    let segs = groups_of(v as int, 8);
    lemma_groups_value(v);
    let s = v6_text(v as int);
    assert(s == join_hex(segs));
    lemma_join_hex_plain(segs);
    lemma_hex_plain_no_dot(s);
    lemma_no_dot_no_v4(s, 0);
    assert(s.subrange(0, s.len() as int) =~= s);
    lemma_read_joined(s, 0, 8, Seq::empty(), segs);
    assert(Seq::<int>::empty() + segs =~= segs);
}

/// The groups before a `::`: where their joined text stands at the start
/// of a text without dots and two colons follow it, reading groups gives
/// them and stops before the colons.
proof fn lemma_read_before_colons(s: Seq<char>, head: Seq<int>)
    requires
        all_groups(head),
        head.len() <= 6,
        forall|k: int| 0 <= k < s.len() ==> s[k] != '.',
        stands_at(s, 0, join_hex(head)),
        has_char(s, join_hex(head).len() as int, ':'),
        has_char(s, (join_hex(head).len() + 1) as int, ':'),
    ensures
        read_groups(s, 0, 8, Seq::empty()) == (Groups {
            segs: head,
            pos: join_hex(head).len() as int,
            with_v4: false,
        }),
{
    assert(pending(0, head) == join_hex(head));
    lemma_read_joined(s, 0, 8, Seq::empty(), head);
    assert(Seq::<int>::empty() + head =~= head);
}

/// The groups after a `::`: where their joined text stands at the end of a
/// text without dots, reading groups at its start gives them and ends at
/// the end of the text.
proof fn lemma_read_after_colons(s: Seq<char>, pos: int, limit: int, tail: Seq<int>)
    requires
        0 <= pos,
        all_groups(tail),
        tail.len() < limit,
        forall|k: int| 0 <= k < s.len() ==> s[k] != '.',
        stands_at(s, pos, join_hex(tail)),
        pos + join_hex(tail).len() == s.len(),
    ensures
        read_groups(s, pos, limit, Seq::empty()) == (Groups {
            segs: tail,
            pos: s.len() as int,
            with_v4: false,
        }),
{
    assert(pending(0, tail) == join_hex(tail));
    lemma_read_joined(s, pos, limit, Seq::empty(), tail);
    assert(Seq::<int>::empty() + tail =~= tail);
}

/// The parts of the text of an address with `::`: the groups before the
/// longest run of zero groups, and those after it.
proof fn lemma_compressed_parts(segs: Seq<int>, b: int, l: int)
    requires
        segs.len() == 8,
        all_groups(segs),
        0 <= b,
        2 <= l,
        b + l <= 8,
        forall|k: int| b <= k < b + l ==> segs[k] == 0,
    ensures
        all_groups(segs.take(b)),
        all_groups(segs.skip(b + l)),
        segs.take(b) + zero_groups(8 - b - segs.skip(b + l).len()) + segs.skip(b + l) == segs,
{
    let head = segs.take(b);
    let tail = segs.skip(b + l);
    assert forall|k: int| 0 <= k < head.len() implies 0 <= #[trigger] head[k] < 0x1_0000 by {
        assert(head[k] == segs[k]);
    }
    assert forall|k: int| 0 <= k < tail.len() implies 0 <= #[trigger] tail[k] < 0x1_0000 by {
        assert(tail[k] == segs[k + b + l]);
    }
    assert(head + zero_groups(8 - b - tail.len()) + tail =~= segs);
}

/// How a text is made of the joined groups before and after a `::`.
proof fn lemma_compressed_text(s: Seq<char>, th: Seq<char>, tt: Seq<char>)
    requires
        s == th + seq![':', ':'] + tt,
        hex_plain(th),
        hex_plain(tt),
        th.len() > 0 ==> is_lower_hex(th[0]),
        tt.len() > 0 ==> is_lower_hex(tt.last()),
    ensures
        hex_plain(s),
        stands_at(s, 0, th),
        has_char(s, th.len() as int, ':'),
        has_char(s, (th.len() + 1) as int, ':'),
        stands_at(s, (th.len() + 2) as int, tt),
        th.len() + 2 + tt.len() == s.len(),
        s.len() > 0,
        !is_space(s[0]),
        !is_space(s.last()),
{
    let colons = seq![':', ':'];
    assert(hex_plain(colons));
    lemma_hex_plain_concat(th, colons);
    lemma_hex_plain_concat(th + colons, tt);
    let eh = th.len() as int;
    assert(s[eh] == ':');
    assert(s[eh + 1] == ':');
    assert(s.subrange(0, eh) =~= th);
    assert(s.subrange(eh + 2, s.len() as int) =~= tt);
    if th.len() > 0 {
        assert(s[0] == th[0]);
    }
    if tt.len() > 0 {
        assert(s.last() == tt.last());
    } else {
        assert(s.last() == ':');
    }
}

/// The text of an IPv6 address with `::` in it parses to the address.
proof fn lemma_v6_compressed(v: u128)
    requires
        !is_v4_mapped(groups_of(v as int, 8)),
        zeros_from(groups_of(v as int, 8), best_start(groups_of(v as int, 8), 8)) > 1,
    ensures
        v6_of_text(v6_text(v as int)) == Some(v as int),
        read_v4(v6_text(v as int), 0) is None,
        plain(v6_text(v as int)),
        v6_text(v as int).len() > 0,
        !is_space(v6_text(v as int)[0]),
        !is_space(v6_text(v as int).last()),
{
    let segs = groups_of(v as int, 8);
    lemma_groups_value(v);
    lemma_best_start(segs, 8);
    let b = best_start(segs, 8);
    lemma_zeros_from(segs, b);
    let l = zeros_from(segs, b);
    let head = segs.take(b);
    let tail = segs.skip(b + l);
    let th = join_hex(head);
    let tt = join_hex(tail);
    let s = v6_text(v as int);
    assert(s == th + seq![':', ':'] + tt);
    lemma_compressed_parts(segs, b, l);
    lemma_join_hex_plain(head);
    lemma_join_hex_plain(tail);
    lemma_compressed_text(s, th, tt);
    lemma_hex_plain_no_dot(s);
    lemma_no_dot_no_v4(s, 0);
    lemma_read_before_colons(s, head);
    lemma_read_after_colons(s, (th.len() + 2) as int, 7 - b, tail);
}

/// The text of the group `ffff`.
proof fn lemma_ffff_text()
    ensures
        number_text(0xffff, 16) == seq!['f', 'f', 'f', 'f'],
{
    assert(number_text(0xffff, 16) =~= seq!['f', 'f', 'f', 'f']) by {
        reveal_with_fuel(number_text, 5);
    }
}

/// How the text of an IPv4-mapped address is made.
proof fn lemma_mapped_text(s: Seq<char>, quad: Seq<char>)
    requires
        s == seq![':', ':', 'f', 'f', 'f', 'f', ':'] + quad,
        plain(quad),
        quad.len() > 0,
        is_digit(quad.last()),
    ensures
        plain(s),
        s.len() == 7 + quad.len(),
        s[0] == ':',
        s[1] == ':',
        s[2] == 'f',
        s[6] == ':',
        stands_at(s, 2, seq!['f', 'f', 'f', 'f']),
        stands_at(s, 7, quad),
        !is_space(s[0]),
        !is_space(s.last()),
{
    let lead = seq![':', ':', 'f', 'f', 'f', 'f', ':'];
    assert(plain(lead));
    lemma_plain_concat(lead, quad);
    assert(s.subrange(2, 6) =~= seq!['f', 'f', 'f', 'f']);
    assert(s.subrange(7, s.len() as int) =~= quad);
    assert(s.last() == quad.last());
}

/// Reading the groups of the text of an IPv4-mapped address after its
/// leading colons gives `ffff` and the two groups of the dotted quad.
proof fn lemma_read_mapped_tail(s: Seq<char>, w: int)
    requires
        0 <= w <= 0xffff_ffff,
        s.len() == 7 + v4_text(w).len(),
        s[2] == 'f',
        s[6] == ':',
        stands_at(s, 2, seq!['f', 'f', 'f', 'f']),
        stands_at(s, 7, v4_text(w)),
    ensures
        read_groups(s, 2, 7, Seq::empty()) == (Groups {
            segs: Seq::<int>::empty().push(0xffff).push(w / 0x1_0000).push(w % 0x1_0000),
            pos: s.len() as int,
            with_v4: true,
        }),
{
    lemma_ffff_text();
    lemma_read_number_text(s, 2, 0xffff, 16, 4, true);
    assert(digit_run(s, 2, 10) == 0);
    assert(read_v4(s, 2) is None);
    lemma_read_v4_text(s, 7, w);
    let one = Seq::<int>::empty().push(0xffff);
    let all = one.push(w / 0x1_0000).push(w % 0x1_0000);
    assert(read_groups(s, 6, 7, one) == Groups { segs: all, pos: s.len() as int, with_v4: true });
    assert(read_groups(s, 2, 7, Seq::empty()) == read_groups(s, 6, 7, one));
}

/// Nothing is read at a colon.
proof fn lemma_read_at_colon(s: Seq<char>)
    requires
        s.len() > 0,
        s[0] == ':',
    ensures
        read_v4(s, 0) is None,
        read_groups(s, 0, 8, Seq::empty()) == (Groups {
            segs: Seq::<int>::empty(),
            pos: 0,
            with_v4: false,
        }),
{
    assert(digit_run(s, 0, 10) == 0);
    assert(digit_run(s, 0, 16) == 0);
}

/// The groups of an IPv4-mapped address.
proof fn lemma_mapped_groups(segs: Seq<int>)
    requires
        segs.len() == 8,
        all_groups(segs),
        is_v4_mapped(segs),
    ensures
        0 <= segs[6] * 0x1_0000 + segs[7] <= 0xffff_ffff,
        Seq::<int>::empty() + zero_groups(5) + Seq::<int>::empty().push(0xffff).push(
            (segs[6] * 0x1_0000 + segs[7]) / 0x1_0000,
        ).push((segs[6] * 0x1_0000 + segs[7]) % 0x1_0000) == segs,
{
    assert(0 <= segs[6] < 0x1_0000);
    assert(0 <= segs[7] < 0x1_0000);
    let w = segs[6] * 0x1_0000 + segs[7];
    assert(w / 0x1_0000 == segs[6]);
    assert(w % 0x1_0000 == segs[7]);
    let all = Seq::<int>::empty().push(0xffff).push(w / 0x1_0000).push(w % 0x1_0000);
    assert(Seq::<int>::empty() + zero_groups(5) + all =~= segs);
}

/// The text of an IPv4-mapped IPv6 address parses to the address.
proof fn lemma_v6_mapped(v: u128)
    requires
        is_v4_mapped(groups_of(v as int, 8)),
    ensures
        v6_of_text(v6_text(v as int)) == Some(v as int),
        read_v4(v6_text(v as int), 0) is None,
        plain(v6_text(v as int)),
        v6_text(v as int).len() > 0,
        !is_space(v6_text(v as int)[0]),
        !is_space(v6_text(v as int).last()),
{
    let segs = groups_of(v as int, 8);
    lemma_groups_value(v);
    lemma_mapped_groups(segs);
    let w = segs[6] * 0x1_0000 + segs[7];
    let quad = v4_text(w);
    let s = v6_text(v as int);
    assert(s == seq![':', ':', 'f', 'f', 'f', 'f', ':'] + quad);
    lemma_v4_text_plain(w);
    lemma_mapped_text(s, quad);
    lemma_read_at_colon(s);
    lemma_read_mapped_tail(s, w);
    assert(has_char(s, 0, ':') && has_char(s, 1, ':'));
}

/// The text of an IPv6 address parses to that address.
pub proof fn lemma_v6_round_trip(v: u128)
    ensures
        v6_of_text(v6_text(v as int)) == Some(v as int),
        addr_of_text(v6_text(v as int)) == Some(IpAddress::V6(v)),
        plain(v6_text(v as int)),
        v6_text(v as int).len() > 0,
        !is_space(v6_text(v as int)[0]),
        !is_space(v6_text(v as int).last()),
{
    let segs = groups_of(v as int, 8);
    if is_v4_mapped(segs) {
        lemma_v6_mapped(v);
    } else if zeros_from(segs, best_start(segs, 8)) > 1 {
        lemma_v6_compressed(v);
    } else {
        lemma_v6_full(v);
    }
}

/// Parsing the text of an address gives the address back. The text holds
/// hexadecimal digits, colons and dots only.
pub proof fn lemma_addr_round_trip(a: IpAddress)
    ensures
        addr_of_text(addr_text(a)) == Some(a),
        plain(addr_text(a)),
        addr_text(a).len() > 0,
        !is_space(addr_text(a)[0]),
        !is_space(addr_text(a).last()),
{
    match a {
        IpAddress::V4(v) => {
            lemma_v4_round_trip(v);
            lemma_v4_text_plain(v as int);
        },
        IpAddress::V6(v) => {
            lemma_v6_round_trip(v);
        },
    }
}

} // verus!
