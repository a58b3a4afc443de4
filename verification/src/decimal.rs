//! Decimal numbers in text: writing them, and reading them as std's
//! `FromStr` for integers and for IPv4 socket addresses reads them.

use vstd::prelude::*;
use crate::hashing::push_char;
use crate::text::text_chars;

verus! {

/// The character of a decimal digit value.
pub open spec fn digit_char(d: int) -> char {
    (('0' as int) + d) as char
}

/// The decimal digits of `n`, most significant first, without leading
/// zeros ("0" for zero).
pub open spec fn dec(n: nat) -> Seq<char>
    decreases n,
{
    if n < 10 {
        seq![digit_char(n as int)]
    } else {
        dec(n / 10).push(digit_char((n % 10) as int))
    }
}

/// A signed number in decimal, with a leading '-' where negative.
pub open spec fn signed_dec(i: int) -> Seq<char> {
    if i < 0 {
        seq!['-'] + dec((-i) as nat)
    } else {
        dec(i as nat)
    }
}

/// Appends `t` to `s`.
pub fn push_text(s: &mut String, t: &str)
    ensures
        final(s)@ == old(s)@ + t@,
{
    let chars = text_chars(t);
    let mut i: usize = 0;
    while i < chars.len()
        invariant
            0 <= i <= chars.len(),
            chars@ == t@,
            s@ == old(s)@ + t@.take(i as int),
        decreases chars.len() - i,
    {
        push_char(s, chars[i]);
        assert(t@.take(i + 1) =~= t@.take(i as int).push(chars@[i as int]));
        i = i + 1;
    }
    assert(t@.take(i as int) =~= t@);
}

/// The text as an owned string.
pub fn owned_text(t: &str) -> (r: String)
    ensures
        r@ == t@,
{
    let mut s = String::new();
    push_text(&mut s, t);
    assert(s@ =~= t@);
    s
}

/// Appends the decimal digits of `n`.
pub fn push_decimal(s: &mut String, n: u64)
    ensures
        final(s)@ == old(s)@ + dec(n as nat),
    decreases n,
{
    if n >= 10 {
        push_decimal(s, n / 10);
    }
    let d = (n % 10) as u32;
    let c = char_of_digit(d);
    push_char(s, c);
    proof {
        if n >= 10 {
            assert(old(s)@ + dec(n as nat) =~= (old(s)@ + dec((n / 10) as nat)).push(c));
        } else {
            assert(old(s)@ + dec(n as nat) =~= old(s)@.push(c));
        }
    }
}

/// Appends a signed number in decimal.
pub fn push_signed_decimal(s: &mut String, i: i64)
    ensures
        final(s)@ == old(s)@ + signed_dec(i as int),
{
    if i < 0 {
        push_char(s, '-');
        let m: u64 = (0i128 - i as i128) as u64;
        push_decimal(s, m);
        assert(old(s)@ + signed_dec(i as int) =~= old(s)@.push('-') + dec(m as nat));
    } else {
        push_decimal(s, i as u64);
    }
}

fn char_of_digit(d: u32) -> (c: char)
    requires
        d < 10,
    ensures
        c == digit_char(d as int),
{
    if d == 0 { '0' } else if d == 1 { '1' } else if d == 2 { '2' } else if d == 3 { '3' } else if d == 4 {
        '4'
    } else if d == 5 { '5' } else if d == 6 { '6' } else if d == 7 { '7' } else if d == 8 { '8' } else {
        '9'
    }
}

/// The character is an ASCII decimal digit.
pub open spec fn is_digit(c: char) -> bool {
    '0' <= c && c <= '9'
}

/// The value of a digit character.
pub open spec fn digit_value(c: char) -> int {
    (c as int) - ('0' as int)
}

/// All characters are digits, and there is at least one.
pub open spec fn all_digits(s: Seq<char>) -> bool {
    s.len() > 0 && forall|i: int| 0 <= i < s.len() ==> is_digit(#[trigger] s[i])
}

/// The number that a sequence of digits stands for.
pub open spec fn digits_value(s: Seq<char>) -> int
    decreases s.len(),
{
    if s.len() == 0 {
        0
    } else {
        10 * digits_value(s.drop_last()) + digit_value(s.last())
    }
}

/// What `i32::from_str` gives: an optional sign, then one or more decimal
/// digits, the value within the range of `i32`.
pub open spec fn parse_i32(s: Seq<char>) -> Option<i32> {
    if s.len() > 0 && s[0] == '-' {
        let rest = s.drop_first();
        if all_digits(rest) && -digits_value(rest) >= i32::MIN {
            Some((-digits_value(rest)) as i32)
        } else {
            None
        }
    } else if s.len() > 0 && s[0] == '+' {
        let rest = s.drop_first();
        if all_digits(rest) && digits_value(rest) <= i32::MAX {
            Some(digits_value(rest) as i32)
        } else {
            None
        }
    } else if all_digits(s) && digits_value(s) <= i32::MAX {
        Some(digits_value(s) as i32)
    } else {
        None
    }
}

proof fn lemma_digits_value_nonneg(s: Seq<char>)
    requires
        forall|i: int| 0 <= i < s.len() ==> is_digit(#[trigger] s[i]),
    ensures
        digits_value(s) >= 0,
    decreases s.len(),
{
    if s.len() > 0 {
        lemma_digits_value_nonneg(s.drop_last());
    }
}

proof fn lemma_digits_value_grows(s: Seq<char>, k: int)
    requires
        0 <= k <= s.len(),
        forall|i: int| 0 <= i < s.len() ==> is_digit(#[trigger] s[i]),
    ensures
        digits_value(s.take(k)) <= digits_value(s),
    decreases s.len() - k,
{
    if k < s.len() {
        lemma_digits_value_grows(s, k + 1);
        assert(s.take(k + 1).drop_last() =~= s.take(k));
        lemma_digits_value_nonneg(s.take(k));
    } else {
        assert(s.take(k) =~= s);
    }
}

/// Reads the digits `s[from..]` as a number not above `limit`; `None`
/// where a character is not a digit, there is none, or the number is above
/// the limit.
fn read_digits(s: &Vec<char>, from: usize, limit: u64) -> (r: Option<u64>)
    requires
        from <= s.len(),
        limit < 0x1_0000_0000,
    ensures
        r matches Some(v) ==> all_digits(s@.skip(from as int)) && v == digits_value(s@.skip(from as int)) && v <= limit,
        r is None ==> !(all_digits(s@.skip(from as int)) && digits_value(s@.skip(from as int)) <= limit),
{
    let ghost t = s@.skip(from as int);
    if from == s.len() {
        return None;
    }
    let mut acc: u64 = 0;
    let mut i: usize = from;
    while i < s.len()
        invariant
            from <= i <= s.len(),
            t == s@.skip(from as int),
            limit < 0x1_0000_0000,
            forall|j: int| 0 <= j < i - from ==> is_digit(#[trigger] t[j]),
            acc == digits_value(t.take(i - from)),
            acc <= limit,
        decreases s.len() - i,
    {
        let c = s[i];
        if !('0' <= c && c <= '9') {
            proof {
                assert(t[i - from] == c);
            }
            return None;
        }
        let d = (c as u32 - '0' as u32) as u64;
        let next = acc * 10 + d;
        proof {
            assert(t.take(i - from + 1).drop_last() =~= t.take(i - from));
            assert(t.take(i - from + 1).last() == c);
        }
        if next > limit {
            proof {
                if all_digits(t) {
                    lemma_digits_value_grows(t, i - from + 1);
                }
            }
            return None;
        }
        acc = next;
        i = i + 1;
    }
    assert(t.take(i - from) =~= t);
    Some(acc)
}

/// Reads a signed 32-bit number as `i32::from_str` does.
pub fn read_i32(s: &Vec<char>, from: usize) -> (r: Option<i32>)
    requires
        from <= s.len(),
    ensures
        r == parse_i32(s@.skip(from as int)),
{
    let ghost t = s@.skip(from as int);
    if from < s.len() && s[from] == '-' {
        assert(t.drop_first() =~= s@.skip(from + 1));
        match read_digits(s, from + 1, 2147483648) {
            Some(v) => Some((0i64 - v as i64) as i32),
            None => None,
        }
    } else if from < s.len() && s[from] == '+' {
        assert(t.drop_first() =~= s@.skip(from + 1));
        match read_digits(s, from + 1, 2147483647) {
            Some(v) => Some(v as i32),
            None => None,
        }
    } else {
        proof {
            if from < s.len() {
                assert(t[0] == s@[from as int]);
            }
        }
        match read_digits(s, from, 2147483647) {
            Some(v) => Some(v as i32),
            None => None,
        }
    }
}

} // verus!
