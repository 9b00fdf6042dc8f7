//! Colors, as blue, green, red and alpha bytes.
use crate::single::{lemma_byte, lemma_single_arithmetic, single_one, single_zero, Single};
use vstd::prelude::*;

verus! {

/// Alpha of a color that is given without one.
pub const COLOR_ALPHA: u8 = 0xc8;

/// White space, as Unicode defines it.
pub open spec fn spec_is_white_space(c: char) -> bool {
    ||| '\u{9}' <= c <= '\u{d}'
    ||| c == ' '
    ||| c == '\u{85}'
    ||| c == '\u{a0}'
    ||| c == '\u{1680}'
    ||| '\u{2000}' <= c <= '\u{200a}'
    ||| c == '\u{2028}'
    ||| c == '\u{2029}'
    ||| c == '\u{202f}'
    ||| c == '\u{205f}'
    ||| c == '\u{3000}'
}

/// Whether a character is white space.
#[verifier::when_used_as_spec(spec_is_white_space)]
pub fn is_white_space(c: char) -> (r: bool)
    ensures
        r == is_white_space(c),
{
    ('\u{9}' <= c && c <= '\u{d}') || c == ' ' || c == '\u{85}' || c == '\u{a0}' || c == '\u{1680}'
        || ('\u{2000}' <= c && c <= '\u{200a}') || c == '\u{2028}' || c == '\u{2029}' || c
        == '\u{202f}' || c == '\u{205f}' || c == '\u{3000}'
}

/// What is left of `s` after the longest prefix of characters that satisfy `drop`.
pub open spec fn without_leading(s: Seq<char>, drop: spec_fn(char) -> bool) -> Seq<char>
    decreases s.len(),
{
    if s.len() > 0 && drop(s.first()) {
        without_leading(s.drop_first(), drop)
    } else {
        s
    }
}

/// What is left of `s` before the longest suffix of characters that satisfy `drop`.
pub open spec fn without_trailing(s: Seq<char>, drop: spec_fn(char) -> bool) -> Seq<char>
    decreases s.len(),
{
    if s.len() > 0 && drop(s.last()) {
        without_trailing(s.drop_last(), drop)
    } else {
        s
    }
}

pub open spec fn trimmed(s: Seq<char>) -> Seq<char> {
    without_trailing(
        without_leading(s, |c: char| is_white_space(c)),
        |c: char| is_white_space(c),
    )
}

/// The digits of a color: what is left without white space around it and a number sign before it.
pub open spec fn color_digits(s: Seq<char>) -> Seq<char> {
    let t = trimmed(s);
    if t.len() > 0 && t.first() == '#' {
        t.drop_first()
    } else {
        t
    }
}

/// The value of a hexadecimal digit.
pub open spec fn digit_value(c: char) -> Option<int> {
    if '0' <= c <= '9' {
        Some(c as int - '0' as int)
    } else if 'a' <= c <= 'f' {
        Some(c as int - 'a' as int + 10)
    } else if 'A' <= c <= 'F' {
        Some(c as int - 'A' as int + 10)
    } else {
        None
    }
}

/// The byte that two hexadecimal digits write.
pub open spec fn byte_value(first: char, second: char) -> Option<u8> {
    match (digit_value(first), digit_value(second)) {
        (Some(high), Some(low)) => Some((16 * high + low) as u8),
        _ => None,
    }
}

/// The color that `digits` write: red, green, blue, and alpha where there is one.
pub open spec fn color_of_digits(digits: Seq<char>) -> Option<[u8; 4]> {
    if digits.len() == 6 {
        match (
            byte_value(digits[0], digits[1]),
            byte_value(digits[2], digits[3]),
            byte_value(digits[4], digits[5]),
        ) {
            (Some(r), Some(g), Some(b)) => Some([b, g, r, COLOR_ALPHA]),
            _ => None,
        }
    } else if digits.len() == 8 {
        match (
            byte_value(digits[0], digits[1]),
            byte_value(digits[2], digits[3]),
            byte_value(digits[4], digits[5]),
            byte_value(digits[6], digits[7]),
        ) {
            (Some(r), Some(g), Some(b), Some(a)) => Some([b, g, r, a]),
            _ => None,
        }
    } else {
        None
    }
}

/// Six or eight hexadecimal digits, which may have a number sign before them and white space around
/// them.
pub open spec fn is_color(s: Seq<char>) -> bool {
    let digits = color_digits(s);
    &&& digits.len() == 6 || digits.len() == 8
    &&& forall|i: int| 0 <= i < digits.len() ==> digit_value(#[trigger] digits[i]) is Some
}

/// The color that a string writes.
pub open spec fn hex_color(s: Seq<char>) -> Option<[u8; 4]> {
    color_of_digits(color_digits(s))
}

fn parse_digit(c: char) -> (r: Option<u8>)
    ensures
        r is Some <==> digit_value(c) is Some,
        r matches Some(v) ==> digit_value(c) == Some(v as int) && v < 16,
{
    if '0' <= c && c <= '9' {
        Some((c as u32 - '0' as u32) as u8)
    } else if 'a' <= c && c <= 'f' {
        Some((c as u32 - 'a' as u32) as u8 + 10)
    } else if 'A' <= c && c <= 'F' {
        Some((c as u32 - 'A' as u32) as u8 + 10)
    } else {
        None
    }
}

fn parse_byte(first: char, second: char) -> (r: Option<u8>)
    ensures
        r == byte_value(first, second),
{
    match (parse_digit(first), parse_digit(second)) {
        (Some(high), Some(low)) => Some(16 * high + low),
        _ => None,
    }
}

fn characters(s: &str) -> (r: Vec<char>)
    ensures
        r@ == s@,
{
    let mut r: Vec<char> = Vec::new();
    for c in it: s.chars()
        invariant
            r@ == it.seq().take(it.index() as int),
            it.seq() == s@,
    {
        assert(it.seq().take(it.index() + 1) =~= it.seq().take(it.index() as int).push(c));
        r.push(c);
    }
    assert(s@.take(s@.len() as int) =~= s@);
    r
}

/// Parse `#RRGGBB` or `#RRGGBBAA` (case-insensitive, `#` optional) as BGRA. White space around it
/// is ignored; everything else has no color.
pub fn parse_hex_color(s: &str) -> (r: Option<[u8; 4]>)
    ensures
        r == hex_color(s@),
        r is Some <==> is_color(s@),
        r matches Some(color) ==> writes(s@, color),
        forall|color: [u8; 4]| #[trigger] writes(s@, color) ==> r == Some(color),
{
    proof {
        lemma_colors(s@);
        lemma_writes(s@);
    }
    let c = characters(s);
    let ghost space = |x: char| is_white_space(x);
    let mut start: usize = 0;
    let mut end: usize = c.len();
    assert(c@.subrange(0, end as int) =~= c@);
    while start < end && is_white_space(c[start])
        invariant
            start <= end,
            end == c@.len(),
            space == (|x: char| is_white_space(x)),
            without_leading(c@.subrange(start as int, end as int), space) == without_leading(
                c@,
                space,
            ),
        decreases end - start,
    {
        assert(c@.subrange(start as int, end as int).drop_first() =~= c@.subrange(
            start + 1,
            end as int,
        ));
        start = start + 1;
    }
    let ghost body = c@.subrange(start as int, end as int);
    assert(body == without_leading(c@, space));
    while start < end && is_white_space(c[end - 1])
        invariant
            start <= end,
            end <= c@.len(),
            space == (|x: char| is_white_space(x)),
            without_trailing(c@.subrange(start as int, end as int), space) == without_trailing(
                body,
                space,
            ),
        decreases end - start,
    {
        assert(c@.subrange(start as int, end as int).drop_last() =~= c@.subrange(
            start as int,
            end - 1,
        ));
        end = end - 1;
    }
    let ghost inner = c@.subrange(start as int, end as int);
    assert(inner == trimmed(s@));
    if start < end && c[start] == '#' {
        assert(inner.drop_first() =~= c@.subrange(start + 1, end as int));
        start = start + 1;
    }
    assert(c@.subrange(start as int, end as int) == color_digits(s@));
    let len: usize = end - start;
    if len != 6 && len != 8 {
        return None;
    }
    let red = parse_byte(c[start], c[start + 1]);
    let green = parse_byte(c[start + 2], c[start + 3]);
    let blue = parse_byte(c[start + 4], c[start + 5]);
    let alpha = if len == 6 {
        Some(COLOR_ALPHA)
    } else {
        parse_byte(c[start + 6], c[start + 7])
    };
    match (red, green, blue, alpha) {
        (Some(r), Some(g), Some(b), Some(a)) => Some([b, g, r, a]),
        _ => None,
    }
}

/// One, in single precision.
pub const SINGLE_ONE: u32 = 0x3f80_0000;

pub open spec fn spec_mix(a: u8, b: u8, t: Single) -> u8 {
    let rest = Single { bits: SINGLE_ONE }.sub(t);
    Single::from_u8(a).mul(rest).add(Single::from_u8(b).mul(t)).round_u8()
}

/// The byte between `a` and `b` at the fraction `t` of the way.
#[verifier::when_used_as_spec(spec_mix)]
pub fn mix(a: u8, b: u8, t: Single) -> (r: u8)
    ensures
        r == mix(a, b, t),
{
    let rest = Single { bits: SINGLE_ONE }.sub(t);
    Single::from_u8(a).mul(rest).add(Single::from_u8(b).mul(t)).round_u8()
}

/// A mixture is the first byte at the start of the way, and the second one at its end.
pub proof fn lemma_mix_ends(a: u8, b: u8)
    ensures
        mix(a, b, single_zero()) == a,
        mix(a, b, single_one()) == b,
{
    let x = Single::from_u8(a);
    let y = Single::from_u8(b);
    lemma_byte(a);
    lemma_byte(b);
    lemma_single_arithmetic(x);
    lemma_single_arithmetic(y);
}

/// A string has a color just if it is made as one.
pub proof fn lemma_colors(s: Seq<char>)
    ensures
        hex_color(s) is Some <==> is_color(s),
{
    let digits = color_digits(s);
    if digits.len() == 6 || digits.len() == 8 {
        if hex_color(s) is Some {
            assert forall|i: int| 0 <= i < digits.len() implies digit_value(
                #[trigger] digits[i],
            ) is Some by {
                assert(byte_value(digits[0], digits[1]) is Some);
                assert(byte_value(digits[2], digits[3]) is Some);
                assert(byte_value(digits[4], digits[5]) is Some);
                assert(digits.len() == 8 ==> byte_value(digits[6], digits[7]) is Some);
                assert(i / 2 == 0 || i / 2 == 1 || i / 2 == 2 || i / 2 == 3);
            }
        }
    }
}

/// A number sign before the digits makes no difference.
pub proof fn lemma_number_sign_is_optional(s: Seq<char>)
    requires
        s.len() > 0 ==> !is_white_space(s.first()) && s.first() != '#',
    ensures
        hex_color(seq!['#'] + s) == hex_color(s),
{
    let space = |c: char| is_white_space(c);
    let t = seq!['#'] + s;
    assert(without_leading(t, space) == t);
    assert(without_leading(s, space) == s);
    lemma_prefixed_trailing('#', s, space);
    let u = without_trailing(s, space);
    assert((seq!['#'] + u).drop_first() =~= u);
    lemma_trailing_is_a_prefix(s, space);
}

proof fn lemma_trailing_is_a_prefix(s: Seq<char>, drop: spec_fn(char) -> bool)
    ensures
        without_trailing(s, drop).len() <= s.len(),
        without_trailing(s, drop).len() > 0 ==> without_trailing(s, drop).first() == s.first(),
    decreases s.len(),
{
    if s.len() > 0 && drop(s.last()) {
        lemma_trailing_is_a_prefix(s.drop_last(), drop);
    }
}

proof fn lemma_prefixed_trailing(c: char, s: Seq<char>, drop: spec_fn(char) -> bool)
    requires
        !drop(c),
    ensures
        without_trailing(seq![c] + s, drop) == seq![c] + without_trailing(s, drop),
    decreases s.len(),
{
    let t = seq![c] + s;
    if s.len() > 0 {
        assert(t.last() == s.last());
        if drop(s.last()) {
            assert(t.drop_last() =~= seq![c] + s.drop_last());
            lemma_prefixed_trailing(c, s.drop_last(), drop);
        }
    }
}

/// White space around a color makes no difference.
pub proof fn lemma_space_around_is_ignored(before: Seq<char>, s: Seq<char>, after: Seq<char>)
    requires
        forall|i: int| 0 <= i < before.len() ==> is_white_space(#[trigger] before[i]),
        forall|i: int| 0 <= i < after.len() ==> is_white_space(#[trigger] after[i]),
    ensures
        hex_color(before + s + after) == hex_color(s),
{
    let space = |c: char| is_white_space(c);
    lemma_leading_dropped(before, s + after, space);
    assert(before + s + after =~= before + (s + after));
    lemma_leading_then_trailing(s, after, space);
}

proof fn lemma_leading_dropped(before: Seq<char>, s: Seq<char>, drop: spec_fn(char) -> bool)
    requires
        forall|i: int| 0 <= i < before.len() ==> drop(#[trigger] before[i]),
    ensures
        without_leading(before + s, drop) == without_leading(s, drop),
    decreases before.len(),
{
    if before.len() == 0 {
        assert(before + s =~= s);
    } else {
        assert((before + s).first() == before[0]);
        assert((before + s).drop_first() =~= before.drop_first() + s);
        assert forall|i: int| 0 <= i < before.drop_first().len() implies drop(
            #[trigger] before.drop_first()[i],
        ) by {
            assert(before.drop_first()[i] == before[i + 1]);
        }
        lemma_leading_dropped(before.drop_first(), s, drop);
    }
}

proof fn lemma_trailing_dropped(s: Seq<char>, after: Seq<char>, drop: spec_fn(char) -> bool)
    requires
        forall|i: int| 0 <= i < after.len() ==> drop(#[trigger] after[i]),
    ensures
        without_trailing(s + after, drop) == without_trailing(s, drop),
    decreases after.len(),
{
    if after.len() == 0 {
        assert(s + after =~= s);
    } else {
        assert((s + after).last() == after.last());
        assert((s + after).drop_last() =~= s + after.drop_last());
        assert forall|i: int| 0 <= i < after.drop_last().len() implies drop(
            #[trigger] after.drop_last()[i],
        ) by {
            assert(after.drop_last()[i] == after[i]);
        }
        lemma_trailing_dropped(s, after.drop_last(), drop);
    }
}

proof fn lemma_leading_then_trailing(s: Seq<char>, after: Seq<char>, drop: spec_fn(char) -> bool)
    requires
        forall|i: int| 0 <= i < after.len() ==> drop(#[trigger] after[i]),
    ensures
        without_trailing(without_leading(s + after, drop), drop) == without_trailing(
            without_leading(s, drop),
            drop,
        ),
    decreases s.len(),
{
    if s.len() == 0 {
        assert(s + after =~= after);
        assert(after + Seq::<char>::empty() =~= after);
        lemma_leading_dropped(after, Seq::empty(), drop);
    } else if drop(s.first()) {
        assert((s + after).first() == s.first());
        assert((s + after).drop_first() =~= s.drop_first() + after);
        lemma_leading_then_trailing(s.drop_first(), after, drop);
    } else {
        assert((s + after).first() == s.first());
        lemma_trailing_dropped(s, after, drop);
    }
}

/// A letter as a small letter.
pub open spec fn small(c: char) -> char {
    if 'A' <= c <= 'Z' {
        (c as int - 'A' as int + 'a' as int) as char
    } else {
        c
    }
}

/// The two strings differ in nothing but the case of their letters.
pub open spec fn same_but_case(s: Seq<char>, t: Seq<char>) -> bool {
    s.len() == t.len() && forall|i: int| 0 <= i < s.len() ==> small(s[i]) == small(#[trigger] t[i])
}

/// The case of the letters makes no difference.
pub proof fn lemma_case_is_ignored(s: Seq<char>, t: Seq<char>)
    requires
        same_but_case(s, t),
    ensures
        hex_color(s) == hex_color(t),
{
    let space = |c: char| is_white_space(c);
    lemma_case_leading(s, t, space);
    let s1 = without_leading(s, space);
    let t1 = without_leading(t, space);
    lemma_case_trailing(s1, t1, space);
    let s2 = trimmed(s);
    let t2 = trimmed(t);
    assert(s2.len() > 0 ==> small(s2[0]) == small(t2[0]));
    let a = color_digits(s);
    let b = color_digits(t);
    assert forall|i: int| 0 <= i < a.len() implies digit_value(#[trigger] a[i]) == digit_value(
        b[i],
    ) by {
        let j = i + s2.len() - a.len();
        assert(small(s2[j]) == small(t2[j]));
    }
}

proof fn lemma_case_leading(s: Seq<char>, t: Seq<char>, drop: spec_fn(char) -> bool)
    requires
        same_but_case(s, t),
        forall|c: char, d: char| small(c) == small(d) ==> #[trigger] drop(c) == #[trigger] drop(d),
    ensures
        same_but_case(without_leading(s, drop), without_leading(t, drop)),
    decreases s.len(),
{
    if s.len() > 0 {
        assert(small(s[0]) == small(t[0]));
        if drop(s.first()) {
            assert forall|i: int| 0 <= i < s.drop_first().len() implies small(s.drop_first()[i])
                == small(#[trigger] t.drop_first()[i]) by {
                assert(small(s[i + 1]) == small(t[i + 1]));
            }
            lemma_case_leading(s.drop_first(), t.drop_first(), drop);
        }
    }
}

proof fn lemma_case_trailing(s: Seq<char>, t: Seq<char>, drop: spec_fn(char) -> bool)
    requires
        same_but_case(s, t),
        forall|c: char, d: char| small(c) == small(d) ==> #[trigger] drop(c) == #[trigger] drop(d),
    ensures
        same_but_case(without_trailing(s, drop), without_trailing(t, drop)),
    decreases s.len(),
{
    if s.len() > 0 {
        assert(small(s[s.len() - 1]) == small(t[t.len() - 1]));
        if drop(s.last()) {
            assert forall|i: int| 0 <= i < s.drop_last().len() implies small(s.drop_last()[i])
                == small(#[trigger] t.drop_last()[i]) by {
                assert(small(s[i]) == small(t[i]));
            }
            lemma_case_trailing(s.drop_last(), t.drop_last(), drop);
        }
    }
}

/// How much the character with the given number is worth as a hexadecimal digit; nothing if it is
/// none.
pub open spec fn worth(n: int) -> int {
    if 48 <= n <= 57 {
        n - 48
    } else if 97 <= n <= 102 {
        n - 87
    } else if 65 <= n <= 70 {
        n - 55
    } else {
        -1
    }
}

/// The characters from `p` on are two hexadecimal digits that make the byte: the first one counts
/// sixteen times.
pub open spec fn makes_byte(s: Seq<char>, p: int, byte: u8) -> bool {
    let (high, low) = (worth(s[p] as int), worth(s[p + 1] as int));
    high >= 0 && low >= 0 && 16 * high + low == byte
}

/// The digits that write a color are those from `p` to `end`: two each for red, green and blue,
/// which are the third, the second and the first byte of the color, and two for alpha, the fourth
/// one, which is 200 where they are missing.
pub open spec fn digits_write(s: Seq<char>, p: int, end: int, color: [u8; 4]) -> bool {
    &&& end == p + 6 || end == p + 8
    &&& makes_byte(s, p, color[2])
    &&& makes_byte(s, p + 2, color[1])
    &&& makes_byte(s, p + 4, color[0])
    &&& end == p + 6 ==> color[3] == 200
    &&& end == p + 8 ==> makes_byte(s, p + 6, color[3])
}

/// There is nothing but white space before `start` and from `end` on.
pub open spec fn is_framed(s: Seq<char>, start: int, end: int) -> bool {
    &&& 0 <= start <= end <= s.len()
    &&& forall|k: int| 0 <= k < start ==> is_white_space(#[trigger] s[k])
    &&& forall|k: int| end <= k < s.len() ==> is_white_space(#[trigger] s[k])
}

/// The string writes the color from `start` to `end`, with or without a number sign.
pub open spec fn writes_at(s: Seq<char>, start: int, end: int, color: [u8; 4]) -> bool {
    &&& is_framed(s, start, end)
    &&& digits_write(s, start, end, color) || (s[start] == '#' && digits_write(
        s,
        start + 1,
        end,
        color,
    ))
}

/// The string writes the color.
pub open spec fn writes(s: Seq<char>, color: [u8; 4]) -> bool {
    exists|start: int, end: int| #[trigger] writes_at(s, start, end, color)
}

/// What lies between the white space at both ends is what is trimmed.
proof fn lemma_framed(s: Seq<char>, start: int, end: int)
    requires
        is_framed(s, start, end),
        start < end,
        !is_white_space(s[start]),
        !is_white_space(s[end - 1]),
    ensures
        trimmed(s) == s.subrange(start, end),
{
    let space = |c: char| is_white_space(c);
    let (before, mid, after) = (s.take(start), s.subrange(start, end), s.skip(end));
    assert(s =~= before + (mid + after));
    assert forall|k: int| 0 <= k < before.len() implies space(#[trigger] before[k]) by {
        assert(before[k] == s[k]);
    }
    assert forall|k: int| 0 <= k < after.len() implies space(#[trigger] after[k]) by {
        assert(after[k] == s[end + k]);
    }
    lemma_leading_dropped(before, mid + after, space);
    assert((mid + after).first() == s[start]);
    assert(without_leading(mid + after, space) == mid + after);
    lemma_trailing_dropped(mid, after, space);
    assert(mid.last() == s[end - 1]);
}

/// Where the trimmed part of a string is.
proof fn lemma_trimmed_part(s: Seq<char>) -> (r: (int, int))
    ensures
        is_framed(s, r.0, r.1),
        trimmed(s) == s.subrange(r.0, r.1),
{
    let space = |c: char| is_white_space(c);
    let start = lemma_leading_part(s, space);
    let t = without_leading(s, space);
    let n = lemma_trailing_part(t, space);
    let end = start + n;
    assert forall|k: int| end <= k < s.len() implies is_white_space(#[trigger] s[k]) by {
        assert(space(t[k - start]));
    }
    assert forall|k: int| 0 <= k < start implies is_white_space(#[trigger] s[k]) by {
        assert(space(s[k]));
    }
    assert(trimmed(s) =~= s.subrange(start, end));
    (start, end)
}

proof fn lemma_leading_part(s: Seq<char>, drop: spec_fn(char) -> bool) -> (n: int)
    ensures
        0 <= n <= s.len(),
        without_leading(s, drop) == s.skip(n),
        forall|k: int| 0 <= k < n ==> drop(#[trigger] s[k]),
    decreases s.len(),
{
    if s.len() > 0 && drop(s.first()) {
        let m = lemma_leading_part(s.drop_first(), drop);
        assert(s.drop_first().skip(m) =~= s.skip(m + 1));
        assert forall|k: int| 0 <= k < m + 1 implies drop(#[trigger] s[k]) by {
            if k > 0 {
                assert(s.drop_first()[k - 1] == s[k]);
            }
        }
        m + 1
    } else {
        assert(s.skip(0) =~= s);
        0
    }
}

proof fn lemma_trailing_part(s: Seq<char>, drop: spec_fn(char) -> bool) -> (n: int)
    ensures
        0 <= n <= s.len(),
        without_trailing(s, drop) == s.take(n),
        forall|k: int| n <= k < s.len() ==> drop(#[trigger] s[k]),
    decreases s.len(),
{
    if s.len() > 0 && drop(s.last()) {
        let m = lemma_trailing_part(s.drop_last(), drop);
        assert(s.drop_last().take(m) =~= s.take(m));
        assert forall|k: int| m <= k < s.len() implies drop(#[trigger] s[k]) by {
            if k < s.len() - 1 {
                assert(s.drop_last()[k] == s[k]);
            }
        }
        m
    } else {
        assert(s.take(s.len() as int) =~= s);
        s.len() as int
    }
}

/// A digit is worth its value.
proof fn lemma_worth(c: char)
    ensures
        digit_value(c) == if worth(c as int) >= 0 {
            Some(worth(c as int))
        } else {
            None
        },
        worth(c as int) < 16,
        worth(c as int) >= 0 ==> !is_white_space(c) && c != '#',
{
}

/// The bytes of the digits that are left of a string.
proof fn lemma_digits_write(s: Seq<char>, p: int, end: int, color: [u8; 4])
    requires
        0 <= p <= end <= s.len(),
    ensures
        digits_write(s, p, end, color) <==> color_of_digits(s.subrange(p, end)) == Some(color),
{
    let d = s.subrange(p, end);
    if end == p + 6 || end == p + 8 {
        lemma_byte_value(s, p, color[2]);
        lemma_byte_value(s, p + 2, color[1]);
        lemma_byte_value(s, p + 4, color[0]);
        if end == p + 8 {
            lemma_byte_value(s, p + 6, color[3]);
        }
        assert(forall|i: int| 0 <= i < d.len() ==> d[i] == s[p + i]);
        if color_of_digits(d) is Some {
            let c = color_of_digits(d)->0;
            if digits_write(s, p, end, color) {
                assert(c[0] == color[0] && c[1] == color[1]);
                assert(c[2] == color[2] && c[3] == color[3]);
                assert(c =~= color);
            }
        }
    }
}

proof fn lemma_byte_value(s: Seq<char>, p: int, byte: u8)
    ensures
        makes_byte(s, p, byte) <==> byte_value(s[p], s[p + 1]) == Some(byte),
{
    lemma_worth(s[p]);
    lemma_worth(s[p + 1]);
}

/// A string writes a color just if that is the color of its digits.
pub proof fn lemma_writes(s: Seq<char>)
    ensures
        forall|color: [u8; 4]| #[trigger] writes(s, color) <==> hex_color(s) == Some(color),
{
    assert forall|color: [u8; 4]| #[trigger] writes(s, color) implies hex_color(s) == Some(
        color,
    ) by {
        let (start, end) = choose|start: int, end: int| #[trigger] writes_at(s, start, end, color);
        let p = if digits_write(s, start, end, color) {
            start
        } else {
            start + 1
        };
        lemma_worth(s[p]);
        lemma_worth(s[end - 1]);
        assert(worth(s[end - 1] as int) >= 0);
        lemma_framed(s, start, end);
        let t = s.subrange(start, end);
        assert(t.first() == s[start]);
        assert(t.drop_first() =~= s.subrange(start + 1, end));
        lemma_digits_write(s, p, end, color);
    }
    assert forall|color: [u8; 4]| hex_color(s) == Some(color) implies #[trigger] writes(
        s,
        color,
    ) by {
        let (start, end) = lemma_trimmed_part(s);
        let t = s.subrange(start, end);
        if t.len() > 0 && t.first() == '#' {
            assert(t.drop_first() =~= s.subrange(start + 1, end));
            lemma_digits_write(s, start + 1, end, color);
        } else {
            lemma_digits_write(s, start, end, color);
        }
        assert(writes_at(s, start, end, color));
    }
}

/// A string that writes one color writes no other one.
pub proof fn lemma_one_color(s: Seq<char>, a: [u8; 4], b: [u8; 4])
    requires
        writes(s, a),
        writes(s, b),
    ensures
        a == b,
{
    lemma_writes(s);
}

} // verus!
