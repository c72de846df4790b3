//! Text as sequences of characters: conversion from and to strings, white
//! space, and numbers in decimal and hexadecimal notation.

use vstd::prelude::*;

verus! {

/// `String::push` of the standard library, which is documented to append
/// the given character to the end of the string. Not proved here.
pub assume_specification[ String::push ](s: &mut String, ch: char)
    ensures
        final(s)@ == old(s)@.push(ch),
;

/// The characters of `s`.
pub fn to_chars(s: &str) -> (v: Vec<char>)
    ensures
        v@ == s@,
{
    broadcast use vstd::string::group_string_axioms;

    let mut v: Vec<char> = Vec::new();
    for c in it: s.chars()
        invariant
            it.seq() == s@,
            v@ == it.seq().take(it.index() as int),
    {
        v.push(c);
        proof {
            assert(it.seq().take(it.index() + 1) =~= it.seq().take(it.index() as int).push(c));
        }
    }
    proof {
        assert(s@.take(s@.len() as int) =~= s@);
    }
    v
}

/// The string of the characters `v`.
pub fn from_chars(v: &[char]) -> (s: String)
    ensures
        s@ == v@,
{
    let mut s: String = String::new();
    let mut i: usize = 0;
    while i < v.len()
        invariant
            i <= v.len(),
            s@ == v@.take(i as int),
        decreases v.len() - i,
    {
        s.push(v[i]);
        proof {
            assert(v@.take(i + 1) =~= v@.take(i as int).push(v@[i as int]));
        }
        i += 1;
    }
    proof {
        assert(v@.take(v.len() as int) =~= v@);
    }
    s
}

/// The texts of the strings.
pub open spec fn texts_of(strings: Seq<String>) -> Seq<Seq<char>> {
    strings.map_values(|a: String| a@)
}

/// Append the characters of `text`.
pub fn push_text(out: &mut Vec<char>, text: &str)
    ensures
        final(out)@ == old(out)@ + text@,
{
    let chars: Vec<char> = to_chars(text);
    push_chars(out, chars.as_slice());
}

/// Append the characters `chars`.
pub fn push_chars(out: &mut Vec<char>, chars: &[char])
    ensures
        final(out)@ == old(out)@ + chars@,
{
    let mut k: usize = 0;
    while k < chars.len()
        invariant
            k <= chars.len(),
            out@ == old(out)@ + chars@.take(k as int),
        decreases chars.len() - k,
    {
        out.push(chars[k]);
        proof {
            assert(chars@.take(k + 1) =~= chars@.take(k as int).push(chars@[k as int]));
            assert(out@ =~= old(out)@ + chars@.take(k + 1));
        }
        k += 1;
    }
    proof {
        assert(chars@.take(chars.len() as int) =~= chars@);
    }
}

/// `c` is a decimal digit.
pub open spec fn is_digit(c: char) -> bool {
    '0' <= c && c <= '9'
}

/// `c` is a digit of the radix, which is 16 or 10; hexadecimal digits may be
/// of either case.
pub open spec fn in_radix(c: char, radix: int) -> bool {
    if radix == 16 {
        is_digit(c) || ('a' <= c && c <= 'f') || ('A' <= c && c <= 'F')
    } else {
        is_digit(c)
    }
}

/// The value of the digit `c`.
pub open spec fn digit_of(c: char) -> int {
    if is_digit(c) {
        c as int - 0x30
    } else if 'a' <= c && c <= 'f' {
        c as int - 0x61 + 10
    } else {
        c as int - 0x41 + 10
    }
}

/// Number of digits that follow each other in `s` from `pos` on.
pub open spec fn digit_run(s: Seq<char>, pos: int, radix: int) -> int
    decreases s.len() - pos,
{
    if 0 <= pos < s.len() && in_radix(s[pos], radix) {
        1 + digit_run(s, pos + 1, radix)
    } else {
        0
    }
}

/// The number that the `n` digits of `s` from `pos` on denote.
pub open spec fn number_at(s: Seq<char>, pos: int, n: int, radix: int) -> int
    decreases n,
{
    if n <= 0 {
        0
    } else {
        number_at(s, pos, n - 1, radix) * radix + digit_of(s[pos + n - 1])
    }
}

/// A number read at `pos`: all the digits that follow each other there, at
/// least one and at most `max_digits`, and without a leading zero before
/// other digits unless `zero_prefix` allows it. Gives the number and the
/// position after it.
pub open spec fn read_number_spec(
    s: Seq<char>,
    pos: int,
    radix: int,
    max_digits: int,
    zero_prefix: bool,
) -> Option<(int, int)> {
    let n = digit_run(s, pos, radix);
    if n == 0 || n > max_digits {
        None
    } else if !zero_prefix && n > 1 && s[pos] == '0' {
        None
    } else {
        Some((number_at(s, pos, n, radix), pos + n))
    }
}

/// A run of digits from `pos` to `i` continues with the run from `i`.
pub proof fn lemma_digit_run_split(s: Seq<char>, pos: int, i: int, radix: int)
    requires
        0 <= pos <= i <= s.len(),
        forall|j: int| pos <= j < i ==> in_radix(s[j], radix),
    ensures
        digit_run(s, pos, radix) == (i - pos) + digit_run(s, i, radix),
    decreases i - pos,
{
    if pos < i {
        lemma_digit_run_split(s, pos + 1, i, radix);
    }
}

/// A run of digits is not negative and ends within the text.
pub proof fn lemma_digit_run_bounds(s: Seq<char>, pos: int, radix: int)
    requires
        0 <= pos <= s.len(),
    ensures
        0 <= digit_run(s, pos, radix) <= s.len() - pos,
        forall|j: int|
            pos <= j < pos + digit_run(s, pos, radix) ==> in_radix(#[trigger] s[j], radix),
        pos + digit_run(s, pos, radix) < s.len() ==> !in_radix(
            s[pos + digit_run(s, pos, radix)],
            radix,
        ),
    decreases s.len() - pos,
{
    if pos < s.len() && in_radix(s[pos], radix) {
        lemma_digit_run_bounds(s, pos + 1, radix);
    }
}

/// The digits of a number of `n` digits bound it below the `n`-th power of
/// the radix, stated for the radixes and lengths in use.
pub proof fn lemma_number_bound(s: Seq<char>, pos: int, n: int, radix: int)
    requires
        0 <= pos,
        0 <= n <= 4,
        pos + n <= s.len(),
        radix == 10 || radix == 16,
        forall|j: int| pos <= j < pos + n ==> in_radix(#[trigger] s[j], radix),
    ensures
        0 <= number_at(s, pos, n, radix),
        n == 0 ==> number_at(s, pos, n, radix) == 0,
        n == 1 ==> number_at(s, pos, n, radix) < radix,
        n == 2 ==> number_at(s, pos, n, radix) < radix * radix,
        n == 3 ==> number_at(s, pos, n, radix) < radix * radix * radix,
        n == 4 ==> number_at(s, pos, n, radix) < radix * radix * radix * radix,
    decreases n,
{
    if n > 0 {
        lemma_number_bound(s, pos, n - 1, radix);
        assert(in_radix(s[pos + n - 1], radix));
        assert(0 <= digit_of(s[pos + n - 1]) < radix);
        let v = number_at(s, pos, n - 1, radix);
        let d = digit_of(s[pos + n - 1]);
        assert(number_at(s, pos, n, radix) == v * radix + d);
        if radix == 10 {
            assert(v * 10 + d < 10 * 10 * 10 * 10);
        } else {
            assert(v * 16 + d < 16 * 16 * 16 * 16);
        }
    }
}

/// Whether `c` is a digit of the radix, and its value.
pub fn digit_value(c: char, radix: u32) -> (r: Option<u32>)
    requires
        radix == 10 || radix == 16,
    ensures
        r is Some <==> in_radix(c, radix as int),
        r matches Some(d) ==> d == digit_of(c) && d < radix,
{
    if '0' <= c && c <= '9' {
        Some(c as u32 - 0x30)
    } else if radix == 16 && 'a' <= c && c <= 'f' {
        Some(c as u32 - 0x61 + 10)
    } else if radix == 16 && 'A' <= c && c <= 'F' {
        Some(c as u32 - 0x41 + 10)
    } else {
        None
    }
}

/// Read a number of at most `max_digits` digits at `pos`.
pub fn read_number(s: &[char], pos: usize, radix: u32, max_digits: usize, zero_prefix: bool) -> (r:
    Option<(u32, usize)>)
    requires
        pos <= s.len(),
        radix == 10 || radix == 16,
        1 <= max_digits <= 4,
    ensures
        match r {
            Some((v, p)) => read_number_spec(
                s@,
                pos as int,
                radix as int,
                max_digits as int,
                zero_prefix,
            ) == Some((v as int, p as int)) && pos < p <= s.len() && p - pos <= max_digits,
            None => read_number_spec(s@, pos as int, radix as int, max_digits as int, zero_prefix)
                is None,
        },
{
    let mut i: usize = pos;
    let mut value: u32 = 0;
    let mut stop: bool = false;
    while i < s.len() && !stop
        invariant
            pos <= i <= s.len(),
            stop ==> i < s.len() && !in_radix(s@[i as int], radix as int),
            i - pos <= max_digits,
            1 <= max_digits <= 4,
            radix == 10 || radix == 16,
            forall|j: int| pos <= j < i ==> in_radix(#[trigger] s@[j], radix as int),
            value == number_at(s@, pos as int, i - pos, radix as int),
        decreases
                (s.len() - i) * 2 + if stop {
                    0int
                } else {
                    1int
                },
    {
        match digit_value(s[i], radix) {
            None => {
                stop = true;
            },
            Some(d) => {
                proof {
                    lemma_digit_run_split(s@, pos as int, i + 1, radix as int);
                    lemma_digit_run_bounds(s@, i + 1, radix as int);
                }
                if i - pos >= max_digits {
                    return None;
                }
                proof {
                    lemma_number_bound(s@, pos as int, i - pos, radix as int);
                }
                value = value * radix + d;
                i += 1;
            },
        }
    }
    proof {
        lemma_digit_run_split(s@, pos as int, i as int, radix as int);
        assert(digit_run(s@, i as int, radix as int) == 0);
    }
    if i == pos {
        return None;
    }
    if !zero_prefix && i - pos > 1 && s[pos] == '0' {
        return None;
    }
    Some((value, i))
}

/// A number written in digits is not negative.
pub proof fn lemma_number_nonneg(s: Seq<char>, pos: int, n: int, radix: int)
    requires
        0 <= pos,
        0 <= n,
        pos + n <= s.len(),
        radix == 10 || radix == 16,
        forall|j: int| pos <= j < pos + n ==> in_radix(#[trigger] s[j], radix),
    ensures
        0 <= number_at(s, pos, n, radix),
    decreases n,
{
    if n > 0 {
        lemma_number_nonneg(s, pos, n - 1, radix);
        assert(in_radix(s[pos + n - 1], radix));
        let v = number_at(s, pos, n - 1, radix);
        assert(v * radix >= 0) by (nonlinear_arith)
            requires
                v >= 0,
                radix >= 1,
        ;
    }
}

/// More digits never make a number smaller.
pub proof fn lemma_number_grows(s: Seq<char>, pos: int, k: int, n: int, radix: int)
    requires
        0 <= pos,
        0 <= k <= n,
        pos + n <= s.len(),
        radix == 10 || radix == 16,
        forall|j: int| pos <= j < pos + n ==> in_radix(#[trigger] s[j], radix),
    ensures
        number_at(s, pos, k, radix) <= number_at(s, pos, n, radix),
    decreases n - k,
{
    if k < n {
        lemma_number_grows(s, pos, k, n - 1, radix);
        lemma_number_nonneg(s, pos, n - 1, radix);
        assert(in_radix(s[pos + n - 1], radix));
        let v = number_at(s, pos, n - 1, radix);
        assert(v * radix >= v) by (nonlinear_arith)
            requires
                v >= 0,
                radix >= 1,
        ;
    }
}

/// The unsigned number that the whole of `s` denotes in decimal notation:
/// an optional `+`, then digits only, at least one; the number must not
/// exceed `max`.
pub open spec fn uint_of_text(s: Seq<char>, max: int) -> Option<int> {
    let start = if s.len() > 0 && s[0] == '+' {
        1int
    } else {
        0int
    };
    let n = s.len() - start;
    if n <= 0 || digit_run(s, start, 10) != n {
        None
    } else if number_at(s, start, n, 10) > max {
        None
    } else {
        Some(number_at(s, start, n, 10))
    }
}

/// Parse the whole of `s` as an unsigned decimal number of at most `max`.
pub fn parse_uint(s: &[char], max: u32) -> (r: Option<u32>)
    ensures
        match r {
            Some(v) => uint_of_text(s@, max as int) == Some(v as int),
            None => uint_of_text(s@, max as int) is None,
        },
{
    let start: usize = if s.len() > 0 && s[0] == '+' {
        1
    } else {
        0
    };
    if s.len() <= start {
        return None;
    }
    let mut i: usize = start;
    let mut value: u64 = 0;
    while i < s.len()
        invariant
            start <= i <= s.len(),
            start < s.len(),
            start == (if s@.len() > 0 && s@[0] == '+' {
                1int
            } else {
                0int
            }),
            forall|j: int| start <= j < i ==> in_radix(#[trigger] s@[j], 10),
            value == number_at(s@, start as int, i - start, 10),
            value <= max,
        decreases s.len() - i,
    {
        match digit_value(s[i], 10) {
            None => {
                proof {
                    lemma_digit_run_split(s@, start as int, i as int, 10);
                    assert(digit_run(s@, i as int, 10) == 0);
                    assert(digit_run(s@, start as int, 10) != s.len() - start);
                }
                return None;
            },
            Some(d) => {
                value = value * 10 + d as u64;
                assert(value == number_at(s@, start as int, i + 1 - start, 10));
                if value > max as u64 {
                    proof {
                        lemma_digit_run_bounds(s@, start as int, 10);
                        if digit_run(s@, start as int, 10) == s.len() - start {
                            lemma_number_grows(
                                s@,
                                start as int,
                                i + 1 - start,
                                s.len() - start,
                                10,
                            );
                            assert(number_at(s@, start as int, s.len() - start, 10) > max);
                        }
                        assert(uint_of_text(s@, max as int) is None);
                    }
                    return None;
                }
                i += 1;
            },
        }
    }
    proof {
        lemma_digit_run_split(s@, start as int, s.len() as int, 10);
    }
    Some(value as u32)
}

/// `c` is white space.
pub open spec fn is_space(c: char) -> bool {
    let u = c as u32;
    (0x09 <= u && u <= 0x0D) || u == 0x20 || u == 0x85 || u == 0xA0 || u == 0x1680 || (0x2000 <= u
        && u <= 0x200A) || u == 0x2028 || u == 0x2029 || u == 0x202F || u == 0x205F || u == 0x3000
}

/// Number of white space characters that follow each other in `s` from
/// `pos` on.
pub open spec fn leading_spaces(s: Seq<char>, pos: int) -> int
    decreases s.len() - pos,
{
    if 0 <= pos < s.len() && is_space(s[pos]) {
        1 + leading_spaces(s, pos + 1)
    } else {
        0
    }
}

/// Number of white space characters that follow each other in `s` up to
/// `end`.
pub open spec fn trailing_spaces(s: Seq<char>, end: int) -> int
    decreases end,
{
    if 0 < end <= s.len() && is_space(s[end - 1]) {
        1 + trailing_spaces(s, end - 1)
    } else {
        0
    }
}

/// `s` without the white space at its start and at its end.
pub open spec fn trimmed(s: Seq<char>) -> Seq<char> {
    let a = leading_spaces(s, 0);
    if a >= s.len() {
        Seq::empty()
    } else {
        s.subrange(a, s.len() - trailing_spaces(s, s.len() as int))
    }
}

/// Whether `c` is white space.
pub fn char_is_space(c: char) -> (b: bool)
    ensures
        b == is_space(c),
{
    let u: u32 = c as u32;
    (0x09 <= u && u <= 0x0D) || u == 0x20 || u == 0x85 || u == 0xA0 || u == 0x1680 || (0x2000 <= u
        && u <= 0x200A) || u == 0x2028 || u == 0x2029 || u == 0x202F || u == 0x205F || u == 0x3000
}

proof fn lemma_leading_spaces(s: Seq<char>, pos: int, i: int)
    requires
        0 <= pos <= i <= s.len(),
        forall|j: int| pos <= j < i ==> is_space(s[j]),
    ensures
        leading_spaces(s, pos) == (i - pos) + leading_spaces(s, i),
    decreases i - pos,
{
    if pos < i {
        lemma_leading_spaces(s, pos + 1, i);
    }
}

proof fn lemma_trailing_spaces(s: Seq<char>, end: int, i: int)
    requires
        0 <= i <= end <= s.len(),
        forall|j: int| i <= j < end ==> is_space(s[j]),
    ensures
        trailing_spaces(s, end) == (end - i) + trailing_spaces(s, i),
    decreases end - i,
{
    if i < end {
        lemma_trailing_spaces(s, end - 1, i);
    }
}

/// Copy of the characters `s[from..to]`.
pub fn copy_range(s: &[char], from: usize, to: usize) -> (v: Vec<char>)
    requires
        from <= to <= s.len(),
    ensures
        v@ == s@.subrange(from as int, to as int),
{
    let mut v: Vec<char> = Vec::new();
    let mut i: usize = from;
    while i < to
        invariant
            from <= i <= to <= s.len(),
            v@ == s@.subrange(from as int, i as int),
        decreases to - i,
    {
        v.push(s[i]);
        proof {
            assert(s@.subrange(from as int, i + 1) =~= s@.subrange(from as int, i as int).push(
                s@[i as int],
            ));
        }
        i += 1;
    }
    v
}

/// `s` without the white space at its start and at its end.
pub fn trim_chars(s: &[char]) -> (v: Vec<char>)
    ensures
        v@ == trimmed(s@),
{
    let mut a: usize = 0;
    while a < s.len() && char_is_space(s[a])
        invariant
            a <= s.len(),
            forall|j: int| 0 <= j < a ==> is_space(s@[j]),
        decreases s.len() - a,
    {
        a += 1;
    }
    proof {
        lemma_leading_spaces(s@, 0, a as int);
    }
    if a >= s.len() {
        return Vec::new();
    }
    let mut b: usize = s.len();
    while b > a && char_is_space(s[b - 1])
        invariant
            a <= b <= s.len(),
            a < s.len(),
            !is_space(s@[a as int]),
            forall|j: int| b <= j < s.len() ==> is_space(s@[j]),
        decreases b,
    {
        b -= 1;
    }
    proof {
        lemma_trailing_spaces(s@, s.len() as int, b as int);
    }
    copy_range(s, a, b)
}

/// Number of times that `c` stands in `s`.
pub open spec fn count_of(s: Seq<char>, c: char) -> int
    decreases s.len(),
{
    if s.len() == 0 {
        0
    } else {
        count_of(s.drop_last(), c) + if s.last() == c {
            1int
        } else {
            0int
        }
    }
}

/// The first position of `c` in `s` from `pos` on; the length of `s` if
/// there is none.
pub open spec fn index_of(s: Seq<char>, c: char, pos: int) -> int
    decreases s.len() - pos,
{
    if 0 <= pos < s.len() && s[pos] != c {
        index_of(s, c, pos + 1)
    } else if pos < 0 || pos >= s.len() {
        s.len() as int
    } else {
        pos
    }
}

/// How often `c` stands in `s`.
pub fn count_char(s: &[char], c: char) -> (n: usize)
    ensures
        n == count_of(s@, c),
        n <= s.len(),
{
    let mut n: usize = 0;
    let mut i: usize = 0;
    proof {
        assert(s@.take(0) =~= Seq::<char>::empty());
    }
    while i < s.len()
        invariant
            i <= s.len(),
            n <= i,
            n == count_of(s@.take(i as int), c),
        decreases s.len() - i,
    {
        proof {
            assert(s@.take(i + 1).drop_last() =~= s@.take(i as int));
        }
        if s[i] == c {
            n += 1;
        }
        i += 1;
    }
    proof {
        assert(s@.take(s.len() as int) =~= s@);
    }
    n
}

/// The first position of `c` in `s`, or the length of `s`.
pub fn find_char(s: &[char], c: char) -> (i: usize)
    ensures
        i == index_of(s@, c, 0),
        i <= s.len(),
        i < s.len() ==> s@[i as int] == c,
        forall|j: int| 0 <= j < i ==> s@[j] != c,
{
    let mut i: usize = 0;
    while i < s.len() && s[i] != c
        invariant
            i <= s.len(),
            forall|j: int| 0 <= j < i ==> s@[j] != c,
            index_of(s@, c, 0) == index_of(s@, c, i as int),
        decreases s.len() - i,
    {
        i += 1;
    }
    i
}

/// The digit of value `d`, in lower case.
pub open spec fn digit_char(d: int) -> char {
    if d < 10 {
        ((0x30 + d) as u8) as char
    } else {
        ((0x61 + d - 10) as u8) as char
    }
}

/// `v` written in the radix, without leading zeros.
pub open spec fn number_text(v: int, radix: int) -> Seq<char>
    decreases v,
    via number_text_decreases
{
    if v < radix || radix < 2 {
        seq![digit_char(v)]
    } else {
        number_text(v / radix, radix).push(digit_char(v % radix))
    }
}

#[via_fn]
proof fn number_text_decreases(v: int, radix: int) {
    if !(v < radix || radix < 2) {
        assert(0 <= v / radix < v) by (nonlinear_arith)
            requires
                v >= radix,
                radix >= 2,
        ;
    }
}

/// Append `v` written in the radix, without leading zeros.
pub fn push_number(out: &mut Vec<char>, v: u128, radix: u32)
    requires
        radix == 10 || radix == 16,
    ensures
        final(out)@ == old(out)@ + number_text(v as int, radix as int),
    decreases v,
{
    if v >= radix as u128 {
        push_number(out, v / radix as u128, radix);
    }
    let d: u32 = (v % radix as u128) as u32;
    let c: char = if d < 10 {
        ((0x30 + d) as u8) as char
    } else {
        ((0x61 + d - 10) as u8) as char
    };
    let ghost before = out@;
    out.push(c);
    proof {
        if v >= radix {
            assert(out@ =~= old(out)@ + number_text(v as int / radix as int, radix as int).push(c));
        } else {
            assert(out@ =~= old(out)@ + seq![c]);
        }
    }
}

} // verus!
