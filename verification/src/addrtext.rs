//! The textual forms of addresses: IPv4 in dotted-quad notation, IPv6 in
//! colon-hexadecimal notation.

use crate::roundtrip::lemma_addr_round_trip;
use crate::structs::IpAddress;
use crate::text::{
    digit_run, from_chars, lemma_digit_run_bounds, lemma_number_bound, number_text, push_number,
    read_number, read_number_spec, to_chars,
};
use crate::bits::{lemma_pow2_bounds, lemma_pow2_monotonic};
use vstd::arithmetic::power2::{lemma2_to64, lemma_pow2_adds, pow2};
use vstd::prelude::*;

verus! {

/// The character `c` stands in `s` at `pos`.
pub open spec fn has_char(s: Seq<char>, pos: int, c: char) -> bool {
    0 <= pos < s.len() && s[pos] == c
}

/// One part of a dotted quad read at `pos`: one to three decimal digits
/// without a leading zero before other digits, of a value up to 255. Gives
/// the value and the position after it.
pub open spec fn read_octet(s: Seq<char>, pos: int) -> Option<(int, int)> {
    match read_number_spec(s, pos, 10, 3, false) {
        Some((v, p)) => if v <= 255 {
            Some((v, p))
        } else {
            None
        },
        None => None,
    }
}

/// A dotted quad read at `pos`: four parts with a dot between each two.
/// Gives the address as a number and the position after it.
pub open spec fn read_v4(s: Seq<char>, pos: int) -> Option<(int, int)> {
    match read_octet(s, pos) {
        None => None,
        Some((a, end_a)) => if !has_char(s, end_a, '.') {
            None
        } else {
            match read_octet(s, end_a + 1) {
                None => None,
                Some((b, end_b)) => if !has_char(s, end_b, '.') {
                    None
                } else {
                    match read_octet(s, end_b + 1) {
                        None => None,
                        Some((c, end_c)) => if !has_char(s, end_c, '.') {
                            None
                        } else {
                            match read_octet(s, end_c + 1) {
                                None => None,
                                Some((d, end_d)) => Some(
                                    (a * 0x100_0000 + b * 0x1_0000 + c * 0x100 + d, end_d),
                                ),
                            }
                        },
                    }
                },
            }
        },
    }
}

/// What reading the groups of an IPv6 address gave: the groups, the
/// position after them, and whether they ended in a dotted quad.
pub struct Groups {
    pub segs: Seq<int>,
    pub pos: int,
    pub with_v4: bool,
}

/// The groups of an IPv6 address read at `pos`, after the groups `acc`, up
/// to `limit` groups in all. Each group but the first follows a colon. A
/// group is one to four hexadecimal digits; where at least two groups are
/// still allowed, a dotted quad is read in place of two groups, and ends the
/// reading. Reading stops before the first colon or group that does not
/// fit.
pub open spec fn read_groups(s: Seq<char>, pos: int, limit: int, acc: Seq<int>) -> Groups
    decreases limit - acc.len(),
{
    let i = acc.len() as int;
    if i >= limit {
        Groups { segs: acc, pos, with_v4: false }
    } else {
        let start = if i == 0 {
            pos
        } else {
            pos + 1
        };
        let sep_ok = i == 0 || has_char(s, pos, ':');
        if sep_ok && i < limit - 1 && read_v4(s, start) is Some {
            let r = read_v4(s, start)->0;
            Groups { segs: acc.push(r.0 / 0x1_0000).push(r.0 % 0x1_0000), pos: r.1, with_v4: true }
        } else if sep_ok && read_number_spec(s, start, 16, 4, true) is Some {
            let r = read_number_spec(s, start, 16, 4, true)->0;
            read_groups(s, r.1, limit, acc.push(r.0))
        } else {
            Groups { segs: acc, pos, with_v4: false }
        }
    }
}

/// The number whose 16-bit groups, from the highest down, are `segs`.
pub open spec fn segs_value(segs: Seq<int>) -> int
    decreases segs.len(),
{
    if segs.len() == 0 {
        0
    } else {
        segs_value(segs.drop_last()) * 0x1_0000 + segs.last()
    }
}

/// `n` groups of zero.
pub open spec fn zero_groups(n: int) -> Seq<int> {
    Seq::new(
        if n > 0 {
            n as nat
        } else {
            0
        },
        |i: int| 0int,
    )
}

/// The IPv6 address that the whole of `s` denotes, as a number: eight
/// groups, or fewer groups with one `::` that stands for the missing ones,
/// of which there is at least one. A dotted quad may stand for the last two
/// groups, not before the `::`.
pub open spec fn v6_of_text(s: Seq<char>) -> Option<int> {
    let head = read_groups(s, 0, 8, Seq::empty());
    if head.segs.len() == 8 {
        if head.pos == s.len() {
            Some(segs_value(head.segs))
        } else {
            None
        }
    } else if head.with_v4 {
        None
    } else if !(has_char(s, head.pos, ':') && has_char(s, head.pos + 1, ':')) {
        None
    } else {
        let tail = read_groups(s, head.pos + 2, 7 - head.segs.len(), Seq::empty());
        if tail.pos != s.len() {
            None
        } else {
            Some(
                segs_value(
                    head.segs + zero_groups(8 - head.segs.len() - tail.segs.len()) + tail.segs,
                ),
            )
        }
    }
}

/// The address that the whole of `s` denotes: a dotted quad, or else an
/// IPv6 address.
pub open spec fn addr_of_text(s: Seq<char>) -> Option<IpAddress> {
    match read_v4(s, 0) {
        Some((v, p)) => if p == s.len() {
            Some(IpAddress::V4(v as u32))
        } else {
            None
        },
        None => match v6_of_text(s) {
            Some(v) => Some(IpAddress::V6(v as u128)),
            None => None,
        },
    }
}

fn read_octet_at(s: &[char], pos: usize) -> (r: Option<(u32, usize)>)
    requires
        pos <= s.len(),
    ensures
        match r {
            Some((v, p)) => read_octet(s@, pos as int) == Some((v as int, p as int)) && v <= 255
                && pos < p <= s.len(),
            None => read_octet(s@, pos as int) is None,
        },
{
    match read_number(s, pos, 10, 3, false) {
        Some((v, p)) => if v <= 255 {
            Some((v, p))
        } else {
            None
        },
        None => None,
    }
}

fn dot_at(s: &[char], pos: usize) -> (b: bool)
    ensures
        b == has_char(s@, pos as int, '.'),
{
    pos < s.len() && s[pos] == '.'
}

fn colon_at(s: &[char], pos: usize) -> (b: bool)
    ensures
        b == has_char(s@, pos as int, ':'),
{
    pos < s.len() && s[pos] == ':'
}

/// Read a dotted quad at `pos`.
pub fn read_v4_at(s: &[char], pos: usize) -> (r: Option<(u32, usize)>)
    requires
        pos <= s.len(),
    ensures
        match r {
            Some((v, p)) => read_v4(s@, pos as int) == Some((v as int, p as int)) && pos < p
                <= s.len(),
            None => read_v4(s@, pos as int) is None,
        },
{
    let (a, end_a) = match read_octet_at(s, pos) {
        Some(x) => x,
        None => {
            return None;
        },
    };
    if !dot_at(s, end_a) {
        return None;
    }
    let (b, end_b) = match read_octet_at(s, end_a + 1) {
        Some(x) => x,
        None => {
            return None;
        },
    };
    if !dot_at(s, end_b) {
        return None;
    }
    let (c, end_c) = match read_octet_at(s, end_b + 1) {
        Some(x) => x,
        None => {
            return None;
        },
    };
    if !dot_at(s, end_c) {
        return None;
    }
    let (d, end_d) = match read_octet_at(s, end_c + 1) {
        Some(x) => x,
        None => {
            return None;
        },
    };
    Some((a * 0x100_0000 + b * 0x1_0000 + c * 0x100 + d, end_d))
}

/// The groups as numbers.
pub open spec fn ints(v: Seq<u32>) -> Seq<int> {
    v.map_values(|g: u32| g as int)
}

/// Every group is below 65536.
pub open spec fn all_groups(v: Seq<int>) -> bool {
    forall|i: int| 0 <= i < v.len() ==> 0 <= #[trigger] v[i] < 0x1_0000
}

/// Reading groups gives at most `limit` of them, each below 65536, and
/// ends within the text.
pub proof fn lemma_read_groups(s: Seq<char>, pos: int, limit: int, acc: Seq<int>)
    requires
        0 <= pos <= s.len(),
        acc.len() <= limit || limit < 0,
        all_groups(acc),
    ensures
        all_groups(read_groups(s, pos, limit, acc).segs),
        acc.len() <= read_groups(s, pos, limit, acc).segs.len(),
        limit >= 0 ==> read_groups(s, pos, limit, acc).segs.len() <= limit,
        0 <= read_groups(s, pos, limit, acc).pos <= s.len(),
    decreases limit - acc.len(),
{
    let i = acc.len() as int;
    if i < limit {
        let start = if i == 0 {
            pos
        } else {
            pos + 1
        };
        let sep_ok = i == 0 || has_char(s, pos, ':');
        if sep_ok && i < limit - 1 && read_v4(s, start) is Some {
            lemma_read_v4(s, start);
        } else if sep_ok && read_number_spec(s, start, 16, 4, true) is Some {
            let r = read_number_spec(s, start, 16, 4, true)->0;
            lemma_digit_run_bounds(s, start, 16);
            lemma_number_bound(s, start, digit_run(s, start, 16), 16);
            lemma_read_groups(s, r.1, limit, acc.push(r.0));
        }
    }
}

/// A dotted quad denotes a number that fits in 32 bits, and ends within
/// the text.
pub proof fn lemma_read_v4(s: Seq<char>, pos: int)
    requires
        0 <= pos <= s.len(),
        read_v4(s, pos) is Some,
    ensures
        0 <= (read_v4(s, pos)->0).0 <= 0xffff_ffff,
        pos < (read_v4(s, pos)->0).1 <= s.len(),
{
    let (a, end_a) = read_octet(s, pos)->0;
    lemma_octet(s, pos);
    let (b, end_b) = read_octet(s, end_a + 1)->0;
    lemma_octet(s, end_a + 1);
    let (c, end_c) = read_octet(s, end_b + 1)->0;
    lemma_octet(s, end_b + 1);
    let (d, end_d) = read_octet(s, end_c + 1)->0;
    lemma_octet(s, end_c + 1);
}

proof fn lemma_octet(s: Seq<char>, pos: int)
    requires
        0 <= pos <= s.len(),
        read_octet(s, pos) is Some,
    ensures
        0 <= (read_octet(s, pos)->0).0 <= 255,
        pos < (read_octet(s, pos)->0).1 <= s.len(),
{
    lemma_digit_run_bounds(s, pos, 10);
    lemma_number_bound(s, pos, digit_run(s, pos, 10), 10);
}

/// Read the groups of an IPv6 address at `pos`, at most `limit`.
fn read_groups_at(s: &[char], pos: usize, limit: usize) -> (r: (Vec<u32>, usize, bool))
    requires
        pos <= s.len(),
        limit <= 8,
    ensures
        read_groups(s@, pos as int, limit as int, Seq::empty()) == (Groups {
            segs: ints(r.0@),
            pos: r.1 as int,
            with_v4: r.2,
        }),
        r.0@.len() <= limit,
        r.1 <= s.len(),
        all_groups(ints(r.0@)),
{
    let mut acc: Vec<u32> = Vec::new();
    let mut p: usize = pos;
    let ghost whole = read_groups(s@, pos as int, limit as int, Seq::empty());
    proof {
        assert(ints(acc@) =~= Seq::<int>::empty());
        lemma_read_groups(s@, pos as int, limit as int, Seq::empty());
    }
    let mut done: bool = false;
    while acc.len() < limit && !done
        invariant
            p <= s.len(),
            limit <= 8,
            acc@.len() <= limit,
            all_groups(ints(acc@)),
            whole == read_groups(s@, pos as int, limit as int, Seq::empty()),
            !done ==> read_groups(s@, p as int, limit as int, ints(acc@)) == whole,
            done ==> whole == (Groups { segs: ints(acc@), pos: p as int, with_v4: false }),
        decreases
                (limit - acc.len()) * 2 + if done {
                    0int
                } else {
                    1int
                },
    {
        let i: usize = acc.len();
        let sep_ok: bool = i == 0 || colon_at(s, p);
        if !sep_ok {
            done = true;
        } else {
            let start: usize = if i == 0 {
                p
            } else {
                p + 1
            };
            let quad: Option<(u32, usize)> = if i < limit - 1 {
                read_v4_at(s, start)
            } else {
                None
            };
            match quad {
                Some((v, q)) => {
                    let ghost before = ints(acc@);
                    acc.push(v / 0x1_0000);
                    acc.push(v % 0x1_0000);
                    proof {
                        assert(ints(acc@) =~= before.push(v as int / 0x1_0000).push(
                            v as int % 0x1_0000,
                        ));
                    }
                    return (acc, q, true);
                },
                None => {
                    match read_number(s, start, 16, 4, true) {
                        Some((g, q)) => {
                            let ghost before = ints(acc@);
                            proof {
                                lemma_digit_run_bounds(s@, start as int, 16);
                                lemma_number_bound(
                                    s@,
                                    start as int,
                                    digit_run(s@, start as int, 16),
                                    16,
                                );
                            }
                            acc.push(g);
                            proof {
                                assert(ints(acc@) =~= before.push(g as int));
                            }
                            p = q;
                        },
                        None => {
                            done = true;
                        },
                    }
                },
            }
        }
    }
    (acc, p, false)
}

/// The value of `n` groups is below the `16 n`-th power of two.
pub proof fn lemma_segs_value_bound(segs: Seq<int>)
    requires
        all_groups(segs),
    ensures
        0 <= segs_value(segs) < pow2(16 * segs.len()),
    decreases segs.len(),
{
    lemma2_to64();
    if segs.len() > 0 {
        let p = segs.drop_last();
        lemma_segs_value_bound(p);
        lemma_pow2_adds(16 * p.len(), 16);
        assert(16 * p.len() + 16 == 16 * segs.len());
        let v = segs_value(p);
        let t = pow2(16 * p.len()) as int;
        assert(0 <= segs.last() < 0x1_0000);
        assert(v * 0x1_0000 + segs.last() < t * 0x1_0000) by (nonlinear_arith)
            requires
                0 <= v < t,
                0 <= segs.last() < 0x1_0000,
        ;
        assert(v * 0x1_0000 >= 0) by (nonlinear_arith)
            requires
                v >= 0,
        ;
    }
}

/// The number whose 16-bit groups, from the highest down, are `segs`.
fn groups_to_u128(segs: &Vec<u32>) -> (v: u128)
    requires
        segs@.len() == 8,
        all_groups(ints(segs@)),
    ensures
        v == segs_value(ints(segs@)),
{
    let ghost all = ints(segs@);
    let mut v: u128 = 0;
    let mut i: usize = 0;
    proof {
        assert(all.take(0) =~= Seq::<int>::empty());
    }
    while i < 8
        invariant
            i <= 8,
            segs@.len() == 8,
            all == ints(segs@),
            all_groups(all),
            v == segs_value(all.take(i as int)),
        decreases 8 - i,
    {
        proof {
            assert(all.take(i + 1).drop_last() =~= all.take(i as int));
            assert(all.take(i + 1).last() == segs@[i as int] as int);
            assert(0 <= all[i as int] < 0x1_0000);
            assert(all_groups(all.take(i + 1)));
            lemma_segs_value_bound(all.take(i + 1));
            lemma_pow2_monotonic((16 * (i + 1)) as nat, 128);
            lemma_pow2_bounds(128);
        }
        v = v * 0x1_0000 + segs[i] as u128;
        i += 1;
    }
    proof {
        assert(all.take(8) =~= all);
    }
    v
}

/// Parse the whole of `s` as an IPv6 address.
pub fn parse_v6(s: &[char]) -> (r: Option<u128>)
    ensures
        match r {
            Some(v) => v6_of_text(s@) == Some(v as int),
            None => v6_of_text(s@) is None,
        },
{
    let (head, p, with_v4) = read_groups_at(s, 0, 8);
    if head.len() == 8 {
        if p == s.len() {
            return Some(groups_to_u128(&head));
        } else {
            return None;
        }
    }
    if with_v4 {
        return None;
    }
    if !(colon_at(s, p) && colon_at(s, p + 1)) {
        return None;
    }
    let (tail, end_b, _) = read_groups_at(s, p + 2, 7 - head.len());
    if end_b != s.len() {
        return None;
    }
    let missing: usize = 8 - head.len() - tail.len();
    let mut full: Vec<u32> = Vec::new();
    let mut i: usize = 0;
    while i < head.len()
        invariant
            i <= head.len(),
            full@ == head@.take(i as int),
        decreases head.len() - i,
    {
        full.push(head[i]);
        proof {
            assert(head@.take(i + 1) =~= head@.take(i as int).push(head@[i as int]));
        }
        i += 1;
    }
    let mut k: usize = 0;
    while k < missing
        invariant
            k <= missing,
            ints(full@) == ints(head@) + zero_groups(k as int),
        decreases missing - k,
    {
        let ghost before = ints(full@);
        full.push(0);
        proof {
            assert(ints(full@) =~= before.push(0int));
            assert(ints(head@) + zero_groups(k + 1) =~= (ints(head@) + zero_groups(k as int)).push(
                0int,
            ));
        }
        k += 1;
    }
    let mut j: usize = 0;
    while j < tail.len()
        invariant
            j <= tail.len(),
            ints(full@) == ints(head@) + zero_groups(missing as int) + ints(tail@).take(j as int),
        decreases tail.len() - j,
    {
        let ghost before = ints(full@);
        full.push(tail[j]);
        proof {
            assert(ints(full@) =~= before.push(tail@[j as int] as int));
            assert(ints(tail@).take(j + 1) =~= ints(tail@).take(j as int).push(
                tail@[j as int] as int,
            ));
            assert(ints(head@) + zero_groups(missing as int) + ints(tail@).take(j + 1) =~= (ints(
                head@,
            ) + zero_groups(missing as int) + ints(tail@).take(j as int)).push(
                tail@[j as int] as int,
            ));
        }
        j += 1;
    }
    proof {
        assert(ints(tail@).take(tail.len() as int) =~= ints(tail@));
        assert(head@.take(head.len() as int) =~= head@);
        let all = ints(full@);
        assert forall|x: int| 0 <= x < all.len() implies 0 <= #[trigger] all[x] < 0x1_0000 by {
            if x < head.len() {
                assert(all[x] == ints(head@)[x]);
            } else if x < head.len() + missing {
            } else {
                assert(all[x] == ints(tail@)[x - head.len() - missing]);
            }
        }
    }
    Some(groups_to_u128(&full))
}

/// Parse the whole of `s` as an address: a dotted quad, or else an IPv6
/// address.
pub fn parse_addr(s: &[char]) -> (r: Option<IpAddress>)
    ensures
        r == addr_of_text(s@),
{
    match read_v4_at(s, 0) {
        Some((v, p)) => if p == s.len() {
            Some(IpAddress::V4(v))
        } else {
            None
        },
        None => match parse_v6(s) {
            Some(v) => Some(IpAddress::V6(v)),
            None => None,
        },
    }
}

/// The dotted quad of the IPv4 address with the number `v`.
pub open spec fn v4_text(v: int) -> Seq<char> {
    number_text(v / 0x100_0000, 10) + seq!['.'] + number_text((v / 0x1_0000) % 0x100, 10)
        + seq!['.'] + number_text((v / 0x100) % 0x100, 10) + seq!['.'] + number_text(v % 0x100, 10)
}

/// The lowest `n` 16-bit groups of `v`, from the highest down.
pub open spec fn groups_of(v: int, n: nat) -> Seq<int>
    decreases n,
{
    if n == 0 {
        Seq::empty()
    } else {
        groups_of(v / 0x1_0000, (n - 1) as nat).push(v % 0x1_0000)
    }
}

/// Number of zero groups that follow each other in `segs` from `i` on.
pub open spec fn zeros_from(segs: Seq<int>, i: int) -> int
    decreases segs.len() - i,
{
    if 0 <= i < segs.len() && segs[i] == 0 {
        1 + zeros_from(segs, i + 1)
    } else {
        0
    }
}

/// The first position among the first `n` at which the longest run of
/// zero groups starts.
pub open spec fn best_start(segs: Seq<int>, n: int) -> int
    decreases n,
{
    if n <= 1 {
        0
    } else {
        let b = best_start(segs, n - 1);
        if zeros_from(segs, n - 1) > zeros_from(segs, b) {
            n - 1
        } else {
            b
        }
    }
}

/// The groups in lower-case hexadecimal notation without leading zeros,
/// with a colon between each two.
pub open spec fn join_hex(g: Seq<int>) -> Seq<char>
    decreases g.len(),
{
    if g.len() == 0 {
        Seq::empty()
    } else if g.len() == 1 {
        number_text(g[0], 16)
    } else {
        join_hex(g.drop_last()) + seq![':'] + number_text(g.last(), 16)
    }
}

/// The groups are those of an IPv4-mapped address: five zero groups, then
/// `ffff`.
pub open spec fn is_v4_mapped(segs: Seq<int>) -> bool {
    segs.len() == 8 && segs[0] == 0 && segs[1] == 0 && segs[2] == 0 && segs[3] == 0 && segs[4] == 0
        && segs[5] == 0xffff
}

/// The text of the IPv6 address with the number `v`: an IPv4-mapped
/// address as `::ffff:` and a dotted quad; else the groups in hexadecimal
/// notation, with the first of the longest runs of two or more zero groups
/// written as `::`.
pub open spec fn v6_text(v: int) -> Seq<char> {
    let segs = groups_of(v, 8);
    if is_v4_mapped(segs) {
        seq![':', ':', 'f', 'f', 'f', 'f', ':'] + v4_text(segs[6] * 0x1_0000 + segs[7])
    } else {
        let b = best_start(segs, 8);
        let l = zeros_from(segs, b);
        if l > 1 {
            join_hex(segs.take(b)) + seq![':', ':'] + join_hex(segs.skip(b + l))
        } else {
            join_hex(segs)
        }
    }
}

/// The text of an address.
pub open spec fn addr_text(a: IpAddress) -> Seq<char> {
    match a {
        IpAddress::V4(v) => v4_text(v as int),
        IpAddress::V6(v) => v6_text(v as int),
    }
}

/// Append the dotted quad of `v`.
pub fn push_v4(out: &mut Vec<char>, v: u32)
    ensures
        final(out)@ == old(out)@ + v4_text(v as int),
{
    push_number(out, (v / 0x100_0000) as u128, 10);
    out.push('.');
    push_number(out, ((v / 0x1_0000) % 0x100) as u128, 10);
    out.push('.');
    push_number(out, ((v / 0x100) % 0x100) as u128, 10);
    out.push('.');
    push_number(out, (v % 0x100) as u128, 10);
    proof {
        assert(out@ =~= old(out)@ + v4_text(v as int));
    }
}

/// The eight 16-bit groups of `v`, from the highest down.
pub fn split_groups(v: u128) -> (segs: Vec<u32>)
    ensures
        ints(segs@) == groups_of(v as int, 8),
        segs@.len() == 8,
        all_groups(ints(segs@)),
{
    let g7: u32 = (v % 0x1_0000) as u32;
    let v6: u128 = v / 0x1_0000;
    let g6: u32 = (v6 % 0x1_0000) as u32;
    let v5: u128 = v6 / 0x1_0000;
    let g5: u32 = (v5 % 0x1_0000) as u32;
    let v4: u128 = v5 / 0x1_0000;
    let g4: u32 = (v4 % 0x1_0000) as u32;
    let v3: u128 = v4 / 0x1_0000;
    let g3: u32 = (v3 % 0x1_0000) as u32;
    let v2: u128 = v3 / 0x1_0000;
    let g2: u32 = (v2 % 0x1_0000) as u32;
    let v1: u128 = v2 / 0x1_0000;
    let g1: u32 = (v1 % 0x1_0000) as u32;
    let v0: u128 = v1 / 0x1_0000;
    let g0: u32 = (v0 % 0x1_0000) as u32;
    let mut segs: Vec<u32> = Vec::new();
    segs.push(g0);
    segs.push(g1);
    segs.push(g2);
    segs.push(g3);
    segs.push(g4);
    segs.push(g5);
    segs.push(g6);
    segs.push(g7);
    proof {
        reveal_with_fuel(groups_of, 9);
        assert(ints(segs@) =~= groups_of(v as int, 8));
    }
    segs
}

/// Number of zero groups that follow each other from `i` on.
fn count_zeros(segs: &Vec<u32>, i: usize) -> (n: usize)
    requires
        i <= segs@.len() <= 8,
    ensures
        n == zeros_from(ints(segs@), i as int),
        i + n <= segs@.len(),
{
    let mut k: usize = i;
    while k < segs.len() && segs[k] == 0
        invariant
            i <= k <= segs@.len() <= 8,
            zeros_from(ints(segs@), i as int) == (k - i) + zeros_from(ints(segs@), k as int),
        decreases segs.len() - k,
    {
        k += 1;
    }
    k - i
}

/// Append the groups `segs[from..to]` in hexadecimal notation with colons
/// between them.
fn push_groups(out: &mut Vec<char>, segs: &Vec<u32>, from: usize, to: usize)
    requires
        from <= to <= segs@.len(),
    ensures
        final(out)@ == old(out)@ + join_hex(ints(segs@).subrange(from as int, to as int)),
{
    let ghost all = ints(segs@);
    let mut i: usize = from;
    proof {
        assert(all.subrange(from as int, from as int) =~= Seq::<int>::empty());
        assert(out@ =~= old(out)@ + join_hex(all.subrange(from as int, from as int)));
    }
    while i < to
        invariant
            from <= i <= to <= segs@.len(),
            all == ints(segs@),
            out@ == old(out)@ + join_hex(all.subrange(from as int, i as int)),
        decreases to - i,
    {
        let ghost before = out@;
        let ghost done = all.subrange(from as int, i as int);
        let ghost next = all.subrange(from as int, i + 1);
        if i > from {
            out.push(':');
        }
        let ghost mid = out@;
        push_number(out, segs[i] as u128, 16);
        proof {
            assert(next.drop_last() =~= done);
            assert(next.last() == segs@[i as int] as int);
            if i > from {
                assert(out@ =~= before + seq![':'] + number_text(segs@[i as int] as int, 16));
                assert(join_hex(next) == join_hex(done) + seq![':'] + number_text(next.last(), 16));
                assert(out@ =~= old(out)@ + join_hex(next));
            } else {
                assert(next.len() == 1);
                assert(next[0] == segs@[i as int] as int);
                assert(done =~= Seq::<int>::empty());
                assert(out@ =~= old(out)@ + join_hex(next));
            }
        }
        i += 1;
    }
}

/// Append the text of the IPv6 address `v`.
pub fn push_v6(out: &mut Vec<char>, v: u128)
    ensures
        final(out)@ == old(out)@ + v6_text(v as int),
{
    let segs: Vec<u32> = split_groups(v);
    let ghost all = ints(segs@);
    if segs[0] == 0 && segs[1] == 0 && segs[2] == 0 && segs[3] == 0 && segs[4] == 0 && segs[5]
        == 0xffff {
        out.push(':');
        out.push(':');
        out.push('f');
        out.push('f');
        out.push('f');
        out.push('f');
        out.push(':');
        let ghost mid = out@;
        proof {
            assert(0 <= all[6] < 0x1_0000);
            assert(0 <= all[7] < 0x1_0000);
        }
        push_v4(out, segs[6] * 0x1_0000 + segs[7]);
        proof {
            assert(mid =~= old(out)@ + seq![':', ':', 'f', 'f', 'f', 'f', ':']);
            assert(out@ =~= old(out)@ + v6_text(v as int));
        }
        return ;
    }
    // the first of the longest runs of zero groups
    let mut best: usize = 0;
    let mut best_len: usize = count_zeros(&segs, 0);
    let mut n: usize = 1;
    while n < 8
        invariant
            1 <= n <= 8,
            segs@.len() == 8,
            all == ints(segs@),
            best == best_start(all, n as int),
            best < 8,
            best_len == zeros_from(all, best as int),
            best + best_len <= 8,
        decreases 8 - n,
    {
        let here: usize = count_zeros(&segs, n);
        if here > best_len {
            best = n;
            best_len = here;
        }
        n += 1;
    }
    if best_len > 1 {
        push_groups(out, &segs, 0, best);
        out.push(':');
        out.push(':');
        push_groups(out, &segs, best + best_len, 8);
        proof {
            assert(all.subrange(0, best as int) =~= all.take(best as int));
            assert(all.subrange(best + best_len, 8) =~= all.skip(best + best_len));
            assert(out@ =~= old(out)@ + (join_hex(all.take(best as int)) + seq![':', ':']
                + join_hex(all.skip(best + best_len))));
        }
    } else {
        push_groups(out, &segs, 0, 8);
        proof {
            assert(all.subrange(0, 8) =~= all);
        }
    }
}

/// Append the text of the address `a`.
pub fn push_addr(out: &mut Vec<char>, a: IpAddress)
    ensures
        final(out)@ == old(out)@ + addr_text(a),
{
    match a {
        IpAddress::V4(v) => push_v4(out, v),
        IpAddress::V6(v) => push_v6(out, v),
    }
}

impl IpAddress {
    /// Parse an address from its text: a dotted quad or an IPv6 literal,
    /// with nothing before or after it.
    pub fn parse(s: &str) -> (r: Option<IpAddress>)
        ensures
            r == addr_of_text(s@),
    {
        let chars: Vec<char> = to_chars(s);
        parse_addr(chars.as_slice())
    }

    /// The text of the address, which parses to the address.
    pub fn to_string(&self) -> (s: String)
        ensures
            s@ == addr_text(*self),
            addr_of_text(s@) == Some(*self),
    {
        proof {
            lemma_addr_round_trip(*self);
        }
        let mut out: Vec<char> = Vec::new();
        push_addr(&mut out, *self);
        from_chars(out.as_slice())
    }
}

} // verus!
