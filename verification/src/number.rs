//! The numbers of a trace line as text: unsigned integers in base 10 and
//! base 16, and the decimal literals of floating-point numbers.

use vstd::prelude::*;

verus! {

/// The value of `c` as a digit: `0`-`9`, then `a`-`z` or `A`-`Z` for ten to
/// thirty-five. Other characters are no digits.
pub open spec fn digit_value(c: char) -> Option<nat> {
    let u = c as u32;
    if 0x30 <= u <= 0x39 {
        Some((u - 0x30) as nat)
    } else if 0x61 <= u <= 0x7A {
        Some((u - 0x61 + 10) as nat)
    } else if 0x41 <= u <= 0x5A {
        Some((u - 0x41 + 10) as nat)
    } else {
        None
    }
}

/// Whether `c` is a digit of base `radix`.
pub open spec fn is_digit(c: char, radix: nat) -> bool {
    digit_value(c) matches Some(d) && d < radix
}

/// Whether every character of `s` is a digit of base `radix`.
pub open spec fn is_digits(s: Seq<char>, radix: nat) -> bool {
    forall|i: int| 0 <= i < s.len() ==> is_digit(#[trigger] s[i], radix)
}

/// The number that the digits `s` write in base `radix`, most significant
/// digit first. A character that is no digit counts as zero.
pub open spec fn digits_value(s: Seq<char>, radix: nat) -> nat
    decreases s.len(),
{
    if s.len() == 0 {
        0
    } else {
        digits_value(s.drop_last(), radix) * radix + match digit_value(s.last()) {
            Some(d) => d,
            None => 0,
        }
    }
}

/// `s` without one leading `+`, if it has one.
pub open spec fn without_plus(s: Seq<char>) -> Seq<char> {
    if s.len() > 0 && s[0] == '+' {
        s.skip(1)
    } else {
        s
    }
}

/// The unsigned integer that `s` writes in base `radix`, if it is one and is at
/// most `max`: an optional `+`, then one digit or more, and nothing else.
/// Leading zeros are accepted; a value over `max` is not cut down.
pub open spec fn unsigned_value(s: Seq<char>, radix: nat, max: nat) -> Option<nat> {
    let digits = without_plus(s);
    if digits.len() > 0 && is_digits(digits, radix) && digits_value(digits, radix) <= max {
        Some(digits_value(digits, radix))
    } else {
        None
    }
}

/// The more digits are read, the larger the number read so far.
proof fn lemma_digits_value_grows(s: Seq<char>, n: int, radix: nat)
    requires
        0 <= n <= s.len(),
        radix >= 1,
    ensures
        digits_value(s.take(n), radix) <= digits_value(s, radix),
    decreases s.len() - n,
{
    if n == s.len() {
        assert(s.take(n) == s);
    } else {
        lemma_digits_value_grows(s, n + 1, radix);
        assert(s.take(n + 1).drop_last() == s.take(n));
        let low = digits_value(s.take(n), radix);
        assert(low <= low * radix) by (nonlinear_arith)
            requires
                radix >= 1,
                low >= 0,
        ;
    }
}

/// The digit that `c` is in base `radix`, if it is one.
pub fn digit_of(c: char, radix: u32) -> (r: Option<u32>)
    ensures
        match r {
            Some(d) => is_digit(c, radix as nat) && digit_value(c) == Some(d as nat),
            None => !is_digit(c, radix as nat),
        },
{
    let u: u32 = c as u32;
    let d: u32 = if 0x30 <= u && u <= 0x39 {
        u - 0x30
    } else if 0x61 <= u && u <= 0x7A {
        u - 0x61 + 10
    } else if 0x41 <= u && u <= 0x5A {
        u - 0x41 + 10
    } else {
        return None;
    };
    if d < radix {
        Some(d)
    } else {
        None
    }
}

/// Reads `token` as an unsigned integer of base `radix` that is at most `max`.
pub fn parse_unsigned(token: &[char], radix: u32, max: u64) -> (r: Option<u64>)
    ensures
        match unsigned_value(token@, radix as nat, max as nat) {
            Some(v) => r == Some(v as u64),
            None => r is None,
        },
{
    let first: usize = if token.len() > 0 && token[0] == '+' {
        1
    } else {
        0
    };
    let ghost digits = without_plus(token@);
    assert(digits == token@.skip(first as int));
    if first == token.len() {
        return None;
    }
    let mut acc: u64 = 0;
    let mut i: usize = first;
    while i < token.len()
        invariant
            first <= i <= token.len(),
            digits == token@.skip(first as int),
            digits == without_plus(token@),
            is_digits(digits.take(i - first), radix as nat),
            acc == digits_value(digits.take(i - first), radix as nat),
            acc <= max,
        decreases token.len() - i,
    {
        let ghost read = digits.take(i - first);
        let ghost next = digits.take(i - first + 1);
        assert(next.drop_last() == read);
        assert(next.last() == token@[i as int]);
        match digit_of(token[i], radix) {
            None => {
                assert(!is_digit(digits[i - first], radix as nat));
                return None;
            },
            Some(d) => {
                assert(acc * radix + d <= u64::MAX * u32::MAX + u32::MAX) by (nonlinear_arith)
                    requires
                        acc <= u64::MAX,
                        radix <= u32::MAX,
                        d < radix,
                ;
                let wide: u128 = (acc as u128) * (radix as u128) + (d as u128);
                assert(wide == digits_value(next, radix as nat));
                if wide > max as u128 {
                    proof {
                        lemma_digits_value_grows(digits, i - first + 1, radix as nat);
                    }
                    return None;
                }
                acc = wide as u64;
                assert(is_digits(next, radix as nat)) by {
                    assert forall|j: int| 0 <= j < next.len() implies is_digit(
                        #[trigger] next[j],
                        radix as nat,
                    ) by {
                        if j < read.len() {
                            assert(next[j] == read[j]);
                        }
                    }
                }
            },
        }
        i += 1;
    }
    assert(digits.take(i - first) == digits);
    Some(acc)
}

/// Whether `c` is one of `0`-`9`.
pub open spec fn is_decimal_digit(c: char) -> bool {
    0x30 <= c as u32 <= 0x39
}

/// Whether `c` is `+` or `-`.
pub open spec fn is_sign(c: char) -> bool {
    c == '+' || c == '-'
}

/// The end of the run of decimal digits that starts at `from`: the first index
/// at or after `from` that holds no decimal digit, or the length of `s`.
pub open spec fn digits_end(s: Seq<char>, from: int) -> int
    decreases s.len() - from,
{
    if 0 <= from < s.len() && is_decimal_digit(s[from]) {
        digits_end(s, from + 1)
    } else {
        from
    }
}

/// Whether `c` is the lower-case letter `letter` or its upper-case form.
pub open spec fn is_letter(c: char, letter: char) -> bool {
    c == letter || c as u32 + 0x20 == letter as u32
}

/// Whether `s` is `word`, which is written in lower-case letters, in any mix
/// of upper and lower case.
pub open spec fn is_word(s: Seq<char>, word: Seq<char>) -> bool {
    s.len() == word.len() && forall|i: int| 0 <= i < s.len() ==> is_letter(#[trigger] s[i], word[i])
}

/// Whether `s` names one of the values that are no decimal numbers: `inf`,
/// `infinity` or `nan`, in any mix of upper and lower case.
pub open spec fn is_special(s: Seq<char>) -> bool {
    ||| is_word(s, seq!['i', 'n', 'f'])
    ||| is_word(s, seq!['i', 'n', 'f', 'i', 'n', 'i', 't', 'y'])
    ||| is_word(s, seq!['n', 'a', 'n'])
}

/// Whether the part of `s` from `from` on is an exponent: `e` or `E`, an
/// optional sign, then one decimal digit or more, up to the end of `s`.
pub open spec fn is_exponent(s: Seq<char>, from: int) -> bool {
    let digits = if from + 1 < s.len() && is_sign(s[from + 1]) {
        from + 2
    } else {
        from + 1
    };
    &&& 0 <= from < s.len()
    &&& s[from] == 'e' || s[from] == 'E'
    &&& digits < s.len()
    &&& digits_end(s, digits) == s.len()
}

/// Whether `s` is a decimal number: digits, optionally a `.` and more digits,
/// with at least one digit before or after the `.`; then optionally an
/// exponent.
pub open spec fn is_decimal(s: Seq<char>) -> bool {
    let int_end = digits_end(s, 0);
    let frac_start = if int_end < s.len() && s[int_end] == '.' {
        int_end + 1
    } else {
        int_end
    };
    let frac_end = digits_end(s, frac_start);
    &&& int_end + (frac_end - frac_start) > 0
    &&& frac_end == s.len() || is_exponent(s, frac_end)
}

/// `s` without one leading sign, if it has one.
pub open spec fn without_sign(s: Seq<char>) -> Seq<char> {
    if s.len() > 0 && is_sign(s[0]) {
        s.skip(1)
    } else {
        s
    }
}

/// Whether `s` is the literal of a floating-point number: an optional sign,
/// then a decimal number or the name of a special value.
pub open spec fn is_float_literal(s: Seq<char>) -> bool {
    is_decimal(without_sign(s)) || is_special(without_sign(s))
}

/// The first position at or after `from` that holds no decimal digit.
fn scan_digits(s: &[char], from: usize) -> (end: usize)
    requires
        from <= s.len(),
    ensures
        end == digits_end(s@, from as int),
        from <= end <= s.len(),
{
    let mut i: usize = from;
    while i < s.len() && 0x30 <= s[i] as u32 && s[i] as u32 <= 0x39
        invariant
            from <= i <= s.len(),
            digits_end(s@, from as int) == digits_end(s@, i as int),
        decreases s.len() - i,
    {
        i += 1;
    }
    i
}

/// Whether `c` is the lower-case letter `letter` or its upper-case form.
fn letter_is(c: char, letter: char) -> (r: bool)
    ensures
        r == is_letter(c, letter),
{
    c == letter || (c as u32) + 0x20 == letter as u32
}

/// Whether `s` names a special value.
fn special(s: &[char]) -> (r: bool)
    ensures
        r == is_special(s@),
{
    if s.len() == 3 {
        (letter_is(s[0], 'i') && letter_is(s[1], 'n') && letter_is(s[2], 'f')) || (letter_is(
            s[0],
            'n',
        ) && letter_is(s[1], 'a') && letter_is(s[2], 'n'))
    } else if s.len() == 8 {
        letter_is(s[0], 'i') && letter_is(s[1], 'n') && letter_is(s[2], 'f') && letter_is(s[3], 'i')
            && letter_is(s[4], 'n') && letter_is(s[5], 'i') && letter_is(s[6], 't') && letter_is(
            s[7],
            'y',
        )
    } else {
        false
    }
}

/// Whether `s` is a decimal number.
fn decimal(s: &[char]) -> (r: bool)
    ensures
        r == is_decimal(s@),
{
    let int_end = scan_digits(s, 0);
    let frac_start: usize = if int_end < s.len() && s[int_end] == '.' {
        int_end + 1
    } else {
        int_end
    };
    let frac_end = scan_digits(s, frac_start);
    if int_end + (frac_end - frac_start) == 0 {
        return false;
    }
    if frac_end == s.len() {
        return true;
    }
    if s[frac_end] != 'e' && s[frac_end] != 'E' {
        return false;
    }
    let digits: usize = if frac_end + 1 < s.len() && (s[frac_end + 1] == '+' || s[frac_end + 1]
        == '-') {
        frac_end + 2
    } else {
        frac_end + 1
    };
    if digits >= s.len() {
        return false;
    }
    scan_digits(s, digits) == s.len()
}

/// Whether `token` is the literal of a floating-point number.
pub fn accepts_float(token: &[char]) -> (r: bool)
    ensures
        r == is_float_literal(token@),
{
    let body: &[char] = if token.len() > 0 && (token[0] == '+' || token[0] == '-') {
        vstd::slice::slice_subrange(token, 1, token.len())
    } else {
        token
    };
    assert(body@ == without_sign(token@));
    decimal(body) || special(body)
}

} // verus!
