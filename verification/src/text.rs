//! Decimal text, built character by character.
//!
//! Reports and error messages are part of what the crate promises, so the text of each is
//! stated exactly. This module holds the pieces they are assembled from.

use vstd::prelude::*;

verus! {

/// `String::push_str` appends the given slice to the end of the string and changes nothing else.
pub assume_specification[ String::push_str ](s: &mut String, t: &str)
    ensures
        final(s)@ == old(s)@ + t@,
;

/// `String::push` appends the given character to the end of the string and changes nothing else.
pub assume_specification[ String::push ](s: &mut String, c: char)
    ensures
        final(s)@ == old(s)@.push(c),
;

/// The character of one decimal digit.
pub open spec fn digit(d: int) -> char {
    if d == 0 {
        '0'
    } else if d == 1 {
        '1'
    } else if d == 2 {
        '2'
    } else if d == 3 {
        '3'
    } else if d == 4 {
        '4'
    } else if d == 5 {
        '5'
    } else if d == 6 {
        '6'
    } else if d == 7 {
        '7'
    } else if d == 8 {
        '8'
    } else {
        '9'
    }
}

/// `n` in decimal, without leading zeros.
pub open spec fn decimal(n: nat) -> Seq<char>
    decreases n,
{
    if n < 10 {
        seq![digit(n as int)]
    } else {
        decimal(n / 10).push(digit((n % 10) as int))
    }
}

/// The character of one hexadecimal digit, in lower case.
pub open spec fn hex_digit(d: int) -> char {
    if d < 10 {
        digit(d)
    } else if d == 10 {
        'a'
    } else if d == 11 {
        'b'
    } else if d == 12 {
        'c'
    } else if d == 13 {
        'd'
    } else if d == 14 {
        'e'
    } else {
        'f'
    }
}

/// `n` in hexadecimal, without a prefix or leading zeros.
pub open spec fn hexadecimal(n: nat) -> Seq<char>
    decreases n,
{
    if n < 16 {
        seq![hex_digit(n as int)]
    } else {
        hexadecimal(n / 16).push(hex_digit((n % 16) as int))
    }
}

fn digit_char(d: u8) -> (c: char)
    requires
        d < 10,
    ensures
        c == digit(d as int),
{
    match d {
        0 => '0',
        1 => '1',
        2 => '2',
        3 => '3',
        4 => '4',
        5 => '5',
        6 => '6',
        7 => '7',
        8 => '8',
        _ => '9',
    }
}

/// Appends `n` in decimal.
pub fn push_decimal(s: &mut String, n: u128)
    ensures
        final(s)@ == old(s)@ + decimal(n as nat),
    decreases n,
{
    if n >= 10 {
        push_decimal(s, n / 10);
    }
    s.push(digit_char((n % 10) as u8));
    proof {
        assert(old(s)@ + decimal(n as nat) =~= s@);
    }
}

/// Appends `n` in hexadecimal, without a prefix.
pub fn push_hex(s: &mut String, n: usize)
    ensures
        final(s)@ == old(s)@ + hexadecimal(n as nat),
    decreases n,
{
    if n >= 16 {
        push_hex(s, n / 16);
    }
    let d: u8 = (n % 16) as u8;
    let c = match d {
        10 => 'a',
        11 => 'b',
        12 => 'c',
        13 => 'd',
        14 => 'e',
        15 => 'f',
        _ => digit_char(d),
    };
    s.push(c);
    assert(old(s)@ + hexadecimal(n as nat) =~= s@);
}

/// Appends `n` in decimal.
pub fn push_usize(s: &mut String, n: usize)
    ensures
        final(s)@ == old(s)@ + decimal(n as nat),
{
    push_decimal(s, n as u128);
}

/// Appends `n` in decimal.
pub fn push_u64(s: &mut String, n: u64)
    ensures
        final(s)@ == old(s)@ + decimal(n as nat),
{
    push_decimal(s, n as u128);
}

/// The integer nearest to `num / den`; of two equally near, the even one.
pub open spec fn nearest_even(num: int, den: int) -> int {
    let q = num / den;
    let r = num % den;
    if 2 * r < den || 2 * r == den && q % 2 == 0 {
        q
    } else {
        q + 1
    }
}

/// `num` doubled until it reaches `limit`, and the power of two that this multiplied it by.
pub open spec fn doubled(num: int, limit: int) -> (int, int)
    decreases (if num < limit { limit - num } else { 0 }),
{
    if num <= 0 || num >= limit {
        (num, 1)
    } else {
        let (m, p) = doubled(2 * num, limit);
        (m, 2 * p)
    }
}

/// The least power of two that is at least `n / limit`, times `scale`.
pub open spec fn granule(n: int, limit: int, scale: int) -> int
    decreases (if limit <= n { n - limit + 1 } else { 0 }),
{
    if limit <= 0 || n < limit {
        scale
    } else {
        granule(n, 2 * limit, 2 * scale)
    }
}

/// Two to the power of 53: a double counts every integer up to it.
pub const DOUBLE_EXACT: u128 = 9_007_199_254_740_992;

/// One gigabyte in bytes.
pub const GIGABYTE: u128 = 1_000_000_000;

/// A gigabyte times two to the power of 52: from here on, a number divided by a gigabyte has the
/// 53 binary digits that a double keeps.
pub const GIGABYTE_LIMIT: u128 = 4_503_599_627_370_496_000_000_000;

/// The value of the double nearest to `n`.
pub open spec fn as_double(n: int) -> int {
    let g = granule(n, DOUBLE_EXACT as int, 1);
    nearest_even(n, g) * g
}

/// The double nearest to `n` bytes in gigabytes, as a numerator and a power of two under it.
pub open spec fn gigabytes(n: int) -> (int, int) {
    let (a, p) = doubled(as_double(n), GIGABYTE_LIMIT as int);
    let g = granule(as_double(n), 2 * GIGABYTE_LIMIT as int, 1);
    (nearest_even(a, GIGABYTE * g) * g, p)
}

/// That double in whole units of `1 / unit` gigabytes, rounded to the nearest, ties to even.
pub open spec fn gigabytes_in(n: int, unit: int) -> int {
    nearest_even(gigabytes(n).0 * unit, gigabytes(n).1)
}

/// `n` in decimal with leading zeros up to `width` characters.
pub open spec fn zero_padded(n: nat, width: nat) -> Seq<char>
    decreases width,
{
    if width == 0 {
        Seq::empty()
    } else {
        zero_padded(n / 10, (width - 1) as nat).push(digit((n % 10) as int))
    }
}

/// Ten to the power of `places`.
pub open spec fn unit_of(places: nat) -> int
    decreases places,
{
    if places == 0 {
        1
    } else {
        10 * unit_of((places - 1) as nat)
    }
}

/// `n` bytes in gigabytes, as a double, printed to `places` digits after the point.
pub open spec fn gb_text(n: int, places: nat) -> Seq<char> {
    let x = gigabytes_in(n, unit_of(places));
    decimal((x / unit_of(places)) as nat) + "."@ + zero_padded(
        (x % unit_of(places)) as nat,
        places,
    )
}

/// The same with a sign in front, `+` where `n` is not negative.
pub open spec fn signed_gb_text(n: int, places: nat) -> Seq<char> {
    if n < 0 {
        "-"@ + gb_text(-n, places)
    } else {
        "+"@ + gb_text(n, places)
    }
}

/// The character does not occur in the text.
pub open spec fn lacks(s: Seq<char>, c: char) -> bool {
    forall|i: int| 0 <= i < s.len() ==> #[trigger] s[i] != c
}

/// No character of the text ends a line.
pub open spec fn on_one_line(s: Seq<char>) -> bool {
    lacks(s, '\n')
}

/// The text has these words somewhere.
pub open spec fn says(s: Seq<char>, words: Seq<char>) -> bool {
    exists|i: int|
        0 <= i && i + words.len() <= s.len() && #[trigger] s.subrange(i, i + words.len()) == words
}

/// No hyphen follows an `r`.
pub open spec fn no_r_hyphen(s: Seq<char>) -> bool {
    forall|i: int| 0 < i < s.len() && #[trigger] s[i] == '-' ==> s[i - 1] != 'r'
}

/// The text is made of digits, points and signs.
pub open spec fn is_numeric(s: Seq<char>) -> bool {
    forall|i: int|
        0 <= i < s.len() ==> '0' <= #[trigger] s[i] <= '9' || s[i] == '.' || s[i] == '+' || s[i]
            == '-'
}

proof fn lemma_decimal_is_numeric(n: nat)
    ensures
        is_numeric(decimal(n)),
    decreases n,
{
    if n >= 10 {
        lemma_decimal_is_numeric(n / 10);
    }
}

proof fn lemma_zero_padded_is_numeric(n: nat, width: nat)
    ensures
        is_numeric(zero_padded(n, width)),
    decreases width,
{
    if width > 0 {
        lemma_zero_padded_is_numeric(n / 10, (width - 1) as nat);
    }
}

proof fn lemma_magnitude_is_numeric(n: int, places: nat)
    ensures
        is_numeric(gb_text(n, places)),
{
    let x = gigabytes_in(n, unit_of(places));
    lemma_decimal_is_numeric((x / unit_of(places)) as nat);
    lemma_zero_padded_is_numeric((x % unit_of(places)) as nat, places);
    reveal_strlit(".");
}

/// A number of gigabytes is made of digits, points and signs.
pub proof fn lemma_gb_is_numeric(n: int, places: nat)
    ensures
        is_numeric(gb_text(n, places)),
        is_numeric(signed_gb_text(n, places)),
{
    lemma_magnitude_is_numeric(n, places);
    lemma_magnitude_is_numeric(-n, places);
    reveal_strlit("-");
    reveal_strlit("+");
}

/// Words with a character that the text lacks are not in it.
pub proof fn lemma_lacks_words(s: Seq<char>, words: Seq<char>, k: int)
    requires
        0 <= k < words.len(),
        lacks(s, words[k]),
    ensures
        !says(s, words),
{
    if says(s, words) {
        let i = choose|i: int|
            0 <= i && i + words.len() <= s.len() && #[trigger] s.subrange(i, i + words.len())
                == words;
        assert(s.subrange(i, i + words.len())[k] == s[i + k]);
    }
}

/// Words with a hyphen after an `r` are not in a text without one.
pub proof fn lemma_lacks_hyphened(s: Seq<char>, words: Seq<char>, k: int)
    requires
        0 <= k < words.len() - 1,
        words[k] == 'r',
        words[k + 1] == '-',
        no_r_hyphen(s),
    ensures
        !says(s, words),
{
    if says(s, words) {
        let i = choose|i: int|
            0 <= i && i + words.len() <= s.len() && #[trigger] s.subrange(i, i + words.len())
                == words;
        assert(s.subrange(i, i + words.len())[k] == s[i + k]);
        assert(s.subrange(i, i + words.len())[k + 1] == s[i + k + 1]);
    }
}

/// What none of four texts has, they do not have one after another.
pub proof fn lemma_lacks_all(s: Seq<char>, t: Seq<char>, u: Seq<char>, v: Seq<char>, c: char)
    requires
        lacks(s, c),
        lacks(t, c),
        lacks(u, c),
        lacks(v, c),
    ensures
        lacks(s + (t + u + v), c),
{
    assert(lacks(t + u, c));
    assert(lacks(t + u + v, c));
}

/// Four texts without a hyphen after an `r` have none one after another, where none but the first
/// begins with a hyphen.
pub proof fn lemma_no_r_hyphen_all(s: Seq<char>, t: Seq<char>, u: Seq<char>, v: Seq<char>)
    requires
        no_r_hyphen(s),
        no_r_hyphen(t),
        no_r_hyphen(u),
        no_r_hyphen(v),
        t.len() > 0 && t[0] != '-',
        u.len() > 0 && u[0] != '-',
        v.len() > 0 && v[0] != '-',
    ensures
        no_r_hyphen(s + (t + u + v)),
{
    assert(no_r_hyphen(t + u));
    assert(no_r_hyphen(t + u + v));
}

/// What stands in the middle of a text is in it, and a line that breaks before it is not the last.
pub proof fn lemma_says(head: Seq<char>, gap: Seq<char>, words: Seq<char>, rest: Seq<char>)
    requires
        gap.len() > 0,
        gap[0] == '\n',
    ensures
        says(head + (gap + words + rest), words),
        !on_one_line(head + (gap + words + rest)),
{
    let s = head + (gap + words + rest);
    let i = (head.len() + gap.len()) as int;
    assert(s.subrange(i, i + words.len()) =~= words);
    assert(s[head.len() as int] == '\n');
}

fn round_half_even(num: u128, den: u128) -> (r: u128)
    requires
        0 < den <= u128::MAX / 2,
        num < u128::MAX,
    ensures
        r == nearest_even(num as int, den as int),
        r <= num / den + 1,
{
    let q: u128 = num / den;
    let m: u128 = num % den;
    assert(q <= num) by (nonlinear_arith)
        requires
            q == num / den,
            den >= 1,
    ;
    if 2 * m < den || 2 * m == den && q % 2 == 0 {
        q
    } else {
        q + 1
    }
}

/// The largest number of bytes whose text in gigabytes is computed here: two to the power of 127.
pub const GB_TEXT_MAX: u128 = 170_141_183_460_469_231_731_687_303_715_884_105_728;

/// Two to the power of 46.
const WHOLE_GRANULE_MAX: u128 = 70_368_744_177_664;

/// Two to the power of 75.
const GRANULE_MAX: u128 = 37_778_931_862_957_161_709_568;

/// The granule of `n` for a limit, computed.
fn granule_of(n: u128, limit: u128) -> (g: u128)
    requires
        n <= GB_TEXT_MAX + GRANULE_MAX,
        DOUBLE_EXACT <= limit <= 2 * GIGABYTE_LIMIT,
    ensures
        g == granule(n as int, limit as int, 1),
        1 <= g,
        n < limit * g,
        g == 1 || limit * g <= 2 * n,
        n < limit ==> g == 1,
{
    let mut g: u128 = 1;
    assert(limit * 1 == limit);
    while n / g >= limit
        invariant
            n <= GB_TEXT_MAX + GRANULE_MAX,
            DOUBLE_EXACT <= limit <= 2 * GIGABYTE_LIMIT,
            1 <= g <= 2 * GRANULE_MAX,
            g == 1 || limit * g <= 2 * n,
            n < limit ==> g == 1,
            granule(n as int, limit * g, g as int) == granule(n as int, limit as int, 1),
        decreases 2 * GRANULE_MAX - g,
    {
        proof {
            assert(limit * g <= n) by (nonlinear_arith)
                requires
                    n / g >= limit,
                    g >= 1,
            ;
            assert(2 * (limit * g) == limit * (2 * g)) by (nonlinear_arith);
            assert(DOUBLE_EXACT * g <= limit * g) by (nonlinear_arith)
                requires
                    DOUBLE_EXACT <= limit,
                    g >= 1,
            ;
            assert(n < limit ==> limit * g > n) by (nonlinear_arith)
                requires
                    g >= 1,
                    limit >= 1,
            ;
        }
        g = g * 2;
    }
    assert(n < limit * g) by (nonlinear_arith)
        requires
            n / g < limit,
            g >= 1,
    ;
    g
}

fn double_of(n: u128) -> (d: u128)
    requires
        n <= GB_TEXT_MAX,
    ensures
        d == as_double(n as int),
        d <= n + GRANULE_MAX,
{
    let g: u128 = granule_of(n, DOUBLE_EXACT);
    assert(g <= GRANULE_MAX);
    let q: u128 = round_half_even(n, g);
    assert(q * g <= n + g) by (nonlinear_arith)
        requires
            q <= n / g + 1,
            g >= 1,
            n >= 0,
    ;
    q * g
}

/// `gigabytes_in`, computed.
fn gb_units(n: u128, unit: u128) -> (x: u128)
    requires
        n <= GB_TEXT_MAX,
        1 <= unit <= 1000,
    ensures
        x == gigabytes_in(n as int, unit as int),
{
    let d: u128 = double_of(n);
    let g: u128 = granule_of(d, 2 * GIGABYTE_LIMIT);
    let mut a: u128 = d;
    let mut p: u128 = 1;
    while a > 0 && a < GIGABYTE_LIMIT
        invariant
            a == d * p,
            p >= 1,
            a == d || a < 2 * GIGABYTE_LIMIT,
            p <= 2 * GIGABYTE_LIMIT,
            doubled(d as int, GIGABYTE_LIMIT as int) == (
                doubled(a as int, GIGABYTE_LIMIT as int).0,
                doubled(a as int, GIGABYTE_LIMIT as int).1 * p,
            ),
            d < 2 * GIGABYTE_LIMIT || a == d,
        decreases 2 * GIGABYTE_LIMIT - a,
    {
        proof {
            let (m, r) = doubled(2 * a as int, GIGABYTE_LIMIT as int);
            assert(p <= a) by (nonlinear_arith)
                requires
                    a == d * p,
                    a > 0,
            ;
            assert((2 * r) * p == r * (2 * p)) by (nonlinear_arith);
            assert(d * (2 * p) == 2 * (d * p)) by (nonlinear_arith);
        }
        a = a * 2;
        p = p * 2;
    }
    assert(g <= WHOLE_GRANULE_MAX);
    assert(a < 2 * GIGABYTE_LIMIT * g) by {
        if a != d {
            assert(g == 1);
        }
    }
    let den: u128 = GIGABYTE * g;
    let m: u128 = round_half_even(a, den);
    assert(a / den <= DOUBLE_EXACT) by (nonlinear_arith)
        requires
            a < 2 * GIGABYTE_LIMIT * g,
            den == GIGABYTE * g,
            2 * GIGABYTE_LIMIT == DOUBLE_EXACT * GIGABYTE,
            den > 0,
    ;
    assert(m <= DOUBLE_EXACT + 1);
    assert(m * g <= (DOUBLE_EXACT + 1) * WHOLE_GRANULE_MAX) by (nonlinear_arith)
        requires
            m <= DOUBLE_EXACT + 1,
            g <= WHOLE_GRANULE_MAX,
    ;
    let whole: u128 = m * g;
    assert(whole * unit <= whole * 1000) by (nonlinear_arith)
        requires
            unit <= 1000,
    ;
    assert(doubled(a as int, GIGABYTE_LIMIT as int).1 == 1);
    assert(1 * p == p);
    assert(doubled(d as int, GIGABYTE_LIMIT as int) == (a as int, p as int));
    round_half_even(whole * unit, p)
}

fn push_zero_padded(s: &mut String, n: u128, width: u8)
    ensures
        final(s)@ == old(s)@ + zero_padded(n as nat, width as nat),
    decreases width,
{
    if width > 0 {
        push_zero_padded(s, n / 10, width - 1);
        s.push(digit_char((n % 10) as u8));
    }
    proof {
        assert(s@ =~= old(s)@ + zero_padded(n as nat, width as nat));
    }
}

/// Appends `n` bytes in gigabytes, to `places` digits after the point.
pub fn push_gb(s: &mut String, n: u128, places: u8)
    requires
        n <= GB_TEXT_MAX,
        places <= 3,
    ensures
        final(s)@ == old(s)@ + gb_text(n as int, places as nat),
{
    proof {
        reveal_with_fuel(unit_of, 4);
    }
    let unit: u128 = match places {
        0 => 1,
        1 => 10,
        2 => 100,
        _ => 1000,
    };
    let x: u128 = gb_units(n, unit);
    push_decimal(s, x / unit);
    s.push_str(".");
    push_zero_padded(s, x % unit, places);
    proof {
        assert(s@ =~= old(s)@ + gb_text(n as int, places as nat));
    }
}

/// Appends `n` bytes in gigabytes with a sign, to `places` digits after the point.
pub fn push_signed_gb(s: &mut String, n: i128, places: u8)
    requires
        places <= 3,
    ensures
        final(s)@ == old(s)@ + signed_gb_text(n as int, places as nat),
{
    if n < 0 {
        s.push_str("-");
        let below: u128 = (-(n + 1)) as u128;
        push_gb(s, below + 1, places);
    } else {
        s.push_str("+");
        push_gb(s, n as u128, places);
    }
    proof {
        assert(s@ =~= old(s)@ + signed_gb_text(n as int, places as nat));
    }
}

/// The value of a decimal digit character, if it is one.
pub open spec fn digit_value(c: char) -> Option<int> {
    if '0' <= c <= '9' {
        Some(c as int - '0' as int)
    } else {
        None
    }
}

/// The number that a sequence of decimal digits writes down; `None` if a character is no digit.
pub open spec fn digits_value(s: Seq<char>) -> Option<int>
    decreases s.len(),
{
    if s.len() == 0 {
        Some(0)
    } else {
        match (digits_value(s.drop_last()), digit_value(s.last())) {
            (Some(n), Some(d)) => Some(10 * n + d),
            _ => None,
        }
    }
}

/// What a text says as an unsigned number: decimal digits, at least one, with a `+` in front or
/// without, no larger than a `usize` can be.
pub open spec fn usize_of(s: Seq<char>) -> Option<int> {
    let t = if s.len() > 0 && s[0] == '+' {
        s.skip(1)
    } else {
        s
    };
    match digits_value(t) {
        Some(n) => if t.len() > 0 && n <= usize::MAX {
            Some(n)
        } else {
            None
        },
        None => None,
    }
}

proof fn lemma_digits_grow(s: Seq<char>, n: int)
    requires
        0 <= n <= s.len(),
        digits_value(s) is Some,
    ensures
        digits_value(s.take(n)) is Some,
        0 <= digits_value(s.take(n))->0 <= digits_value(s)->0,
    decreases s.len(),
{
    if n == s.len() {
        assert(s.take(n) =~= s);
        if s.len() > 0 {
            assert(s.drop_last().take(n - 1) =~= s.drop_last());
            lemma_digits_grow(s.drop_last(), n - 1);
        }
    } else {
        assert(s.drop_last().take(n) =~= s.take(n));
        lemma_digits_grow(s.drop_last(), n);
    }
}

/// Reads an unsigned number.
pub fn parse_usize(s: &str) -> (n: Option<usize>)
    ensures
        match n {
            Some(v) => usize_of(s@) == Some(v as int),
            None => usize_of(s@) is None,
        },
{
    let len: usize = s.unicode_len();
    let start: usize = if len > 0 && s.get_char(0) == '+' {
        1
    } else {
        0
    };
    let ghost t = s@.skip(start as int);
    assert(start == 0 ==> t =~= s@);
    if start == len {
        return None;
    }
    let mut value: usize = 0;
    let mut i: usize = start;
    while i < len
        invariant
            len == s@.len(),
            start <= i <= len,
            start <= 1,
            t == s@.skip(start as int),
            usize_of(s@) == (match digits_value(t) {
                Some(n) => if t.len() > 0 && n <= usize::MAX {
                    Some(n)
                } else {
                    None
                },
                None => None,
            }),
            digits_value(t.take(i - start)) == Some(value as int),
        decreases len - i,
    {
        let c: char = s.get_char(i);
        let ghost part = t.take(i - start + 1);
        proof {
            assert(part.drop_last() =~= t.take(i - start));
            assert(part.last() == c);
        }
        if c < '0' || c > '9' {
            proof {
                if digits_value(t) is Some {
                    lemma_digits_grow(t, i - start + 1);
                }
            }
            return None;
        }
        let d: usize = (c as u32 - '0' as u32) as usize;
        proof {
            if digits_value(t) is Some {
                lemma_digits_grow(t, i - start + 1);
            }
        }
        match value.checked_mul(10) {
            None => {
                return None;
            },
            Some(m) => {
                match m.checked_add(d) {
                    None => {
                        return None;
                    },
                    Some(v) => {
                        value = v;
                    },
                }
            },
        }
        i += 1;
    }
    assert(t.take(len - start) =~= t);
    Some(value)
}

/// The character counts as white space.
pub open spec fn is_space(c: char) -> bool {
    let x = c as int;
    ||| 0x9 <= x <= 0xd
    ||| x == 0x20
    ||| x == 0x85
    ||| x == 0xa0
    ||| x == 0x1680
    ||| 0x2000 <= x <= 0x200a
    ||| x == 0x2028
    ||| x == 0x2029
    ||| x == 0x202f
    ||| x == 0x205f
    ||| x == 0x3000
}

fn space(c: char) -> (b: bool)
    ensures
        b == is_space(c),
{
    let x: u32 = c as u32;
    (0x9 <= x && x <= 0xd) || x == 0x20 || x == 0x85 || x == 0xa0 || x == 0x1680 || (0x2000 <= x
        && x <= 0x200a) || x == 0x2028 || x == 0x2029 || x == 0x202f || x == 0x205f || x == 0x3000
}

/// The text between `lo` and `hi` is what is left without the white space around it.
pub open spec fn trims_to(s: Seq<char>, lo: int, hi: int) -> bool {
    &&& 0 <= lo <= hi <= s.len()
    &&& forall|i: int| 0 <= i < lo ==> is_space(#[trigger] s[i])
    &&& forall|i: int| hi <= i < s.len() ==> is_space(#[trigger] s[i])
    &&& lo < hi ==> !is_space(s[lo]) && !is_space(s[hi - 1])
}

/// The code of the character, that of the small letter for a capital one of ASCII.
pub open spec fn folded(c: char) -> int {
    if 0x41 <= (c as int) <= 0x5a {
        c as int + 0x20
    } else {
        c as int
    }
}

/// The text is this word, but for capital letters and white space around it.
pub open spec fn reads(s: Seq<char>, word: Seq<char>) -> bool {
    exists|lo: int, hi: int| #[trigger]
        trims_to(s, lo, hi) && hi - lo == word.len() && forall|i: int|
            0 <= i < word.len() ==> folded(s[lo + i]) == (#[trigger] word[i]) as int
}

/// The text asks for something to be switched on.
pub open spec fn switches_on(s: Seq<char>) -> bool {
    reads(s, "1"@) || reads(s, "true"@) || reads(s, "yes"@) || reads(s, "on"@)
}

proof fn lemma_trims_once(s: Seq<char>, lo: int, hi: int, a: int, b: int)
    requires
        trims_to(s, lo, hi),
        trims_to(s, a, b),
        lo < hi,
    ensures
        a == lo,
        b == hi,
{
    if a < b {
        if a < lo {
            assert(is_space(s[a]));
        } else if lo < a {
            assert(is_space(s[lo]));
        }
        if hi < b {
            assert(is_space(s[b - 1]));
        } else if b < hi {
            assert(is_space(s[hi - 1]));
        }
    } else if lo < a {
        assert(is_space(s[lo]));
    } else {
        assert(is_space(s[lo]));
    }
}

fn matches_word(s: &str, lo: usize, hi: usize, word: &str) -> (b: bool)
    requires
        trims_to(s@, lo as int, hi as int),
        word@.len() > 0,
    ensures
        b == reads(s@, word@),
{
    let m: usize = word.unicode_len();
    if hi - lo != m {
        proof {
            if reads(s@, word@) {
                let (a, b) = choose|a: int, b: int| #[trigger]
                    trims_to(s@, a, b) && b - a == word@.len() && forall|i: int|
                        0 <= i < word@.len() ==> folded(s@[a + i]) == (#[trigger] word@[i]) as int;
                lemma_trims_once(s@, a, b, lo as int, hi as int);
            }
        }
        return false;
    }
    for i in 0..m
        invariant
            trims_to(s@, lo as int, hi as int),
            hi - lo == m,
            m == word@.len(),
            m > 0,
            forall|j: int| 0 <= j < i ==> folded(s@[lo + j]) == (#[trigger] word@[j]) as int,
    {
        let x: u32 = s.get_char(lo + i) as u32;
        let y: u32 = if 0x41 <= x && x <= 0x5a {
            x + 0x20
        } else {
            x
        };
        if y != word.get_char(i) as u32 {
            proof {
                assert(folded(s@[lo + i]) != word@[i as int] as int);
                if reads(s@, word@) {
                    let (a, b) = choose|a: int, b: int| #[trigger]
                        trims_to(s@, a, b) && b - a == word@.len() && forall|j: int|
                            0 <= j < word@.len() ==> folded(s@[a + j]) == (
                            #[trigger] word@[j]) as int;
                    lemma_trims_once(s@, a, b, lo as int, hi as int);
                }
            }
            return false;
        }
    }
    true
}

/// Whether the text asks for something to be switched on.
pub fn is_switch_on(s: &str) -> (b: bool)
    ensures
        b == switches_on(s@),
{
    let n: usize = s.unicode_len();
    let mut lo: usize = 0;
    while lo < n && space(s.get_char(lo))
        invariant
            n == s@.len(),
            lo <= n,
            forall|i: int| 0 <= i < lo ==> is_space(#[trigger] s@[i]),
        decreases n - lo,
    {
        lo += 1;
    }
    let mut hi: usize = n;
    while hi > lo && space(s.get_char(hi - 1))
        invariant
            n == s@.len(),
            lo <= hi <= n,
            forall|i: int| hi <= i < n ==> is_space(#[trigger] s@[i]),
        decreases hi,
    {
        hi -= 1;
    }
    assert(trims_to(s@, lo as int, hi as int));
    proof {
        reveal_strlit("1");
        reveal_strlit("true");
        reveal_strlit("yes");
        reveal_strlit("on");
    }
    matches_word(s, lo, hi, "1") || matches_word(s, lo, hi, "true") || matches_word(
        s,
        lo,
        hi,
        "yes",
    ) || matches_word(s, lo, hi, "on")
}

/// So many spaces.
pub open spec fn spaces(n: int) -> Seq<char> {
    Seq::new(
        if n > 0 {
            n as nat
        } else {
            0
        },
        |i: int| ' ',
    )
}

/// The text with spaces before it, up to a width.
pub open spec fn right_aligned(t: Seq<char>, width: nat) -> Seq<char> {
    spaces(width - t.len()) + t
}

/// The text with spaces behind it, up to a width.
pub open spec fn left_aligned(t: Seq<char>, width: nat) -> Seq<char> {
    t + spaces(width - t.len())
}

/// Appends so many spaces.
pub fn push_spaces(s: &mut String, n: usize)
    ensures
        final(s)@ == old(s)@ + spaces(n as int),
{
    assert(s@ =~= old(s)@ + spaces(0));
    for i in 0..n
        invariant
            s@ == old(s)@ + spaces(i as int),
    {
        s.push(' ');
        assert(s@ =~= old(s)@ + spaces(i + 1));
    }
}

/// Appends the text with spaces before it, up to a width.
pub fn push_right(s: &mut String, t: &str, width: usize)
    ensures
        final(s)@ == old(s)@ + right_aligned(t@, width as nat),
{
    let n: usize = t.unicode_len();
    if n < width {
        push_spaces(s, width - n);
    }
    s.push_str(t);
    assert(s@ =~= old(s)@ + right_aligned(t@, width as nat));
}

/// Appends the text with spaces behind it, up to a width.
pub fn push_left(s: &mut String, t: &str, width: usize)
    ensures
        final(s)@ == old(s)@ + left_aligned(t@, width as nat),
{
    let n: usize = t.unicode_len();
    s.push_str(t);
    if n < width {
        push_spaces(s, width - n);
    }
    assert(s@ =~= old(s)@ + left_aligned(t@, width as nat));
}

/// Appends `n` bytes in gigabytes with two places, with spaces before it, up to a width.
pub fn push_gb_right(s: &mut String, n: u64, width: usize)
    ensures
        final(s)@ == old(s)@ + right_aligned(gb_text(n as int, 2), width as nat),
{
    let mut t = String::new();
    push_gb(&mut t, n as u128, 2);
    assert(t@ =~= gb_text(n as int, 2));
    push_right(s, t.as_str(), width);
}

/// The digits of a number write that number down, with no zero in front unless it is zero, so it
/// reads back as itself.
pub proof fn law_a_number_reads_back(n: nat)
    ensures
        digits_value(decimal(n)) == Some(n as int),
        decimal(n).len() > 0,
        n > 0 ==> decimal(n)[0] != '0',
        decimal(n)[0] != '+',
        n <= usize::MAX ==> usize_of(decimal(n)) == Some(n as int),
    decreases n,
{
    let s = decimal(n);
    let d = (n % 10) as int;
    assert(digit_value(digit(d)) == Some(d));
    if n < 10 {
        assert(digits_value(s.drop_last()) == Some(0int));
        assert(s.last() == digit(d));
    } else {
        law_a_number_reads_back(n / 10);
        assert(s.drop_last() =~= decimal(n / 10));
        assert(s[0] == decimal(n / 10)[0]);
    }
}

/// The value of a digit of base sixteen.
pub open spec fn hex_value(c: char) -> int {
    if '0' <= c <= '9' {
        c as int - '0' as int
    } else {
        c as int - 'a' as int + 10
    }
}

/// The number that a sequence of digits of base sixteen writes down.
pub open spec fn hex_digits_value(s: Seq<char>) -> int
    decreases s.len(),
{
    if s.len() == 0 {
        0
    } else {
        16 * hex_digits_value(s.drop_last()) + hex_value(s.last())
    }
}

/// The same in base sixteen.
pub proof fn law_a_hexadecimal_number_reads_back(n: nat)
    ensures
        hex_digits_value(hexadecimal(n)) == n,
        hexadecimal(n).len() > 0,
        n > 0 ==> hexadecimal(n)[0] != '0',
    decreases n,
{
    let s = hexadecimal(n);
    let d = (n % 16) as int;
    assert(hex_value(hex_digit(d)) == d);
    if n < 16 {
        assert(hex_digits_value(s.drop_last()) == 0);
        assert(s.last() == hex_digit(d));
    } else {
        law_a_hexadecimal_number_reads_back(n / 16);
        assert(s.drop_last() =~= hexadecimal(n / 16));
        assert(s[0] == hexadecimal(n / 16)[0]);
    }
}

proof fn lemma_unit_is_positive(places: nat)
    ensures
        unit_of(places) >= 1,
    decreases places,
{
    if places > 0 {
        lemma_unit_is_positive((places - 1) as nat);
    }
}

/// A number with zeros in front has the width that was asked for, and reads back as itself where it
/// fits.
pub proof fn law_a_padded_number_reads_back(n: nat, width: nat)
    requires
        n < unit_of(width),
    ensures
        zero_padded(n, width).len() == width,
        digits_value(zero_padded(n, width)) == Some(n as int),
    decreases width,
{
    if width > 0 {
        let s = zero_padded(n, width);
        let d = (n % 10) as int;
        assert(digit_value(digit(d)) == Some(d));
        law_a_padded_number_reads_back(n / 10, (width - 1) as nat);
        assert(s.drop_last() =~= zero_padded(n / 10, (width - 1) as nat));
    }
}

/// Rounding goes to the nearest integer, and to the even one of two that are as near.
pub proof fn law_rounding_goes_to_the_nearest(num: int, den: int)
    requires
        den > 0,
    ensures
        -den <= 2 * (den * nearest_even(num, den) - num) <= den,
        2 * (den * nearest_even(num, den) - num) == den || 2 * (num - den * nearest_even(num, den))
            == den ==> nearest_even(num, den) % 2 == 0,
{
    let q = num / den;
    let r = num % den;
    vstd::arithmetic::div_mod::lemma_fundamental_div_mod(num, den);
    vstd::arithmetic::div_mod::lemma_mod_bound(num, den);
    assert(den * (q + 1) == den * q + den) by (nonlinear_arith);
}

/// Doubling multiplies by what it says, and stops as soon as the limit is reached.
pub proof fn law_doubling_stops_at_the_limit(num: int, limit: int)
    requires
        0 < num,
    ensures
        doubled(num, limit).1 >= 1,
        doubled(num, limit).0 == num * doubled(num, limit).1,
        doubled(num, limit).0 >= limit,
        num < limit ==> doubled(num, limit).0 < 2 * limit,
        num >= limit ==> doubled(num, limit).1 == 1,
    decreases (if num < limit { limit - num } else { 0 }),
{
    if num < limit {
        law_doubling_stops_at_the_limit(2 * num, limit);
        let p = doubled(2 * num, limit).1;
        assert(2 * num * p == num * (2 * p)) by (nonlinear_arith);
        assert(num * 1 == num);
    } else {
        assert(num * 1 == num);
    }
}

/// Up to two to the power of 53 a double is the integer itself.
pub proof fn law_small_integers_are_exact(n: int)
    requires
        0 <= n < 9_007_199_254_740_992,
    ensures
        as_double(n) == n,
{
    assert(granule(n, DOUBLE_EXACT as int, 1) == 1);
    assert(n / 1 == n && n % 1 == 0);
}

/// Bytes in gigabytes are off by less than what is left out: the double is within half of its last
/// binary digit, and what is printed within half of the last decimal place.
pub proof fn law_gigabytes_are_rounded_twice(n: int, unit: int)
    requires
        0 < n < 9_007_199_254_740_992,
    ensures
        ({
            let (m, p) = gigabytes(n);
            let x = gigabytes_in(n, unit);
            &&& p >= 1
            &&& -1_000_000_000 <= 2 * (1_000_000_000 * m - n * p) <= 1_000_000_000
            &&& -p <= 2 * (p * x - m * unit) <= p
            &&& n * p >= 4_503_599_627_370_496_000_000_000
        }),
{
    law_small_integers_are_exact(n);
    law_doubling_stops_at_the_limit(n, GIGABYTE_LIMIT as int);
    let (a, p) = doubled(n, GIGABYTE_LIMIT as int);
    assert(granule(n, 2 * GIGABYTE_LIMIT as int, 1) == 1);
    let q = nearest_even(a, GIGABYTE * 1);
    law_rounding_goes_to_the_nearest(a, GIGABYTE as int);
    assert(q * 1 == q);
    law_rounding_goes_to_the_nearest(gigabytes(n).0 * unit, p);
}

/// Alignment adds spaces, on one side, up to the width and no further.
pub proof fn law_alignment_adds_only_spaces(t: Seq<char>, width: nat, i: int)
    ensures
        t.len() <= width ==> right_aligned(t, width).len() == width && left_aligned(t, width).len()
            == width,
        t.len() >= width ==> right_aligned(t, width) == t && left_aligned(t, width) == t,
        left_aligned(t, width).take(t.len() as int) == t,
        right_aligned(t, width).skip(right_aligned(t, width).len() - t.len()) == t,
        t.len() <= i < left_aligned(t, width).len() ==> left_aligned(t, width)[i] == ' ',
        0 <= i < right_aligned(t, width).len() - t.len() ==> right_aligned(t, width)[i] == ' ',
{
    assert(left_aligned(t, width).take(t.len() as int) =~= t);
    assert(right_aligned(t, width).skip(right_aligned(t, width).len() - t.len()) =~= t);
    if t.len() >= width {
        assert(right_aligned(t, width) =~= t);
        assert(left_aligned(t, width) =~= t);
    }
}

/// The granule is the scale times the least power of two that brings the number below the limit.
pub proof fn law_the_granule_is_the_least_that_reaches(n: int, limit: int, scale: int) -> (k: int)
    requires
        limit > 0,
        scale > 0,
    ensures
        k >= 1,
        granule(n, limit, scale) == scale * k,
        n < limit * k,
        k == 1 || 2 * n >= limit * k,
    decreases (if limit <= n { n - limit + 1 } else { 0 }),
{
    if n < limit {
        assert(scale * 1 == scale && limit * 1 == limit);
        1
    } else {
        let k = law_the_granule_is_the_least_that_reaches(n, 2 * limit, 2 * scale);
        assert(2 * scale * k == scale * (2 * k) && 2 * limit * k == limit * (2 * k))
            by (nonlinear_arith);
        if k == 1 {
            assert(limit * 2 == 2 * limit);
        }
        2 * k
    }
}

/// A double is off by half of its last binary digit at most, and that digit is no larger than 53 of
/// them need.
pub proof fn law_a_double_is_near(n: int)
    requires
        n >= 0,
    ensures
        ({
            let g = granule(n, 9_007_199_254_740_992, 1);
            &&& g >= 1
            &&& as_double(n) % g == 0
            &&& -g <= 2 * (as_double(n) - n) <= g
            &&& g == 1 || 2 * n >= 9_007_199_254_740_992 * g
        }),
{
    let k = law_the_granule_is_the_least_that_reaches(n, DOUBLE_EXACT as int, 1);
    let g = granule(n, DOUBLE_EXACT as int, 1);
    assert(g == k);
    law_rounding_goes_to_the_nearest(n, g);
    let q = nearest_even(n, g);
    assert(g * q == q * g) by (nonlinear_arith);
    vstd::arithmetic::div_mod::lemma_mod_multiples_basic(q, g);
}

/// A plus sign in front changes nothing, and neither does the text say a number that a `usize` cannot
/// hold.
pub proof fn law_a_sign_in_front_is_passed_over(n: nat)
    ensures
        n <= usize::MAX ==> usize_of(seq!['+'] + decimal(n)) == Some(n as int),
        n > usize::MAX ==> usize_of(decimal(n)) is None && usize_of(seq!['+'] + decimal(n)) is None,
        usize_of(Seq::empty()) is None,
        usize_of(seq!['+']) is None,
{
    law_a_number_reads_back(n);
    assert((seq!['+'] + decimal(n)).skip(1) =~= decimal(n));
    assert(seq!['+'].skip(1).len() == 0);
}

/// Of the characters of ASCII, the white space is tab, line feed, vertical tab, form feed, carriage
/// return and space.
pub proof fn law_white_space(c: char)
    requires
        (c as int) < 128,
    ensures
        is_space(c) <==> c == ' ' || c == '\t' || c == '\n' || c == '\r' || c as int == 11 || c as int
            == 12,
{
}

/// Folding takes a capital letter to its small one and leaves every other character as it is.
pub proof fn law_folding_takes_capitals_to_small_letters(c: char)
    ensures
        'A' <= c <= 'Z' ==> folded(c) - 'a' as int == c as int - 'A' as int,
        !('A' <= c <= 'Z') ==> folded(c) == c as int,
{
}

/// White space around a word changes nothing in how it reads.
pub proof fn law_white_space_around_is_passed_over(s: Seq<char>, word: Seq<char>, c: char)
    requires
        is_space(c),
        reads(s, word),
    ensures
        reads(seq![c] + s, word),
        reads(s.push(c), word),
{
    let (lo, hi) = choose|lo: int, hi: int| #[trigger]
        trims_to(s, lo, hi) && hi - lo == word.len() && forall|i: int|
            0 <= i < word.len() ==> folded(s[lo + i]) == (#[trigger] word[i]) as int;
    let a = seq![c] + s;
    assert forall|i: int| 0 <= i < lo + 1 implies is_space(#[trigger] a[i]) by {
        if i > 0 {
            assert(a[i] == s[i - 1]);
        }
    }
    assert forall|i: int| hi + 1 <= i < a.len() implies is_space(#[trigger] a[i]) by {
        assert(a[i] == s[i - 1]);
    }
    assert(trims_to(a, lo + 1, hi + 1));
    assert forall|i: int| 0 <= i < word.len() implies folded(a[lo + 1 + i]) == (
    #[trigger] word[i]) as int by {
        assert(a[lo + 1 + i] == s[lo + i]);
    }
    let b = s.push(c);
    assert forall|i: int| hi <= i < b.len() implies is_space(#[trigger] b[i]) by {
        if i < s.len() {
            assert(b[i] == s[i]);
        }
    }
    assert forall|i: int| 0 <= i < lo implies is_space(#[trigger] b[i]) by {
        assert(b[i] == s[i]);
    }
    assert(trims_to(b, lo, hi));
    assert forall|i: int| 0 <= i < word.len() implies folded(b[lo + i]) == (
    #[trigger] word[i]) as int by {
        assert(b[lo + i] == s[lo + i]);
    }
}

/// A number and its opposite print alike but for the sign in front.
pub proof fn law_opposites_differ_in_their_sign(n: int, places: nat)
    requires
        n > 0,
    ensures
        signed_gb_text(n, places)[0] == '+',
        signed_gb_text(-n, places)[0] == '-',
        signed_gb_text(0, places)[0] == '+',
        signed_gb_text(n, places).skip(1) == signed_gb_text(-n, places).skip(1),
        signed_gb_text(n, places).skip(1) == gb_text(n, places),
{
    reveal_strlit("+");
    reveal_strlit("-");
    assert(signed_gb_text(n, places).skip(1) =~= gb_text(n, places));
    assert(signed_gb_text(-n, places).skip(1) =~= gb_text(n, places));
}

} // verus!
