//! Counts as text: reading an optional `+` followed by decimal digits, and
//! writing decimal digits.
use vstd::prelude::*;
use vstd::std_specs::iter::IteratorSpec;
use crate::strings::push_char;

verus! {

/// `c` is one of the ten ASCII decimal digits.
pub open spec fn is_digit(c: char) -> bool {
    '0' <= c && c <= '9'
}

/// The number that a decimal digit stands for.
pub open spec fn digit_value(c: char) -> nat {
    (c as u32 - '0' as u32) as nat
}

/// Every character of `s` is a decimal digit.
pub open spec fn all_digits(s: Seq<char>) -> bool {
    forall|i: int| 0 <= i < s.len() ==> is_digit(#[trigger] s[i])
}

/// The number that a sequence of decimal digits stands for, most significant
/// digit first. The empty sequence stands for zero.
pub open spec fn decimal_value(s: Seq<char>) -> nat
    decreases s.len(),
{
    if s.len() == 0 {
        0
    } else {
        10 * decimal_value(s.drop_last()) + digit_value(s.last())
    }
}

/// `s` without its leading `+`, if it has one.
pub open spec fn unsigned_digits(s: Seq<char>) -> Seq<char> {
    if s.len() > 0 && s[0] == '+' {
        s.drop_first()
    } else {
        s
    }
}

/// The count that `s` spells: an optional `+`, then at least one decimal
/// digit and nothing else, with a value of at most `u32::MAX`. Any other text
/// spells no count.
pub open spec fn parsed_count(s: Seq<char>) -> Option<u32> {
    let digits = unsigned_digits(s);
    if digits.len() > 0 && all_digits(digits) && decimal_value(digits) <= u32::MAX {
        Some(decimal_value(digits) as u32)
    } else {
        None
    }
}

/// A sequence of digits is worth at least as much as any of its prefixes.
pub proof fn lemma_decimal_value_prefix(s: Seq<char>, k: int)
    requires
        0 <= k <= s.len(),
    ensures
        decimal_value(s.take(k)) <= decimal_value(s),
    decreases s.len() - k,
{
    if k == s.len() {
        assert(s.take(k) =~= s);
    } else {
        lemma_decimal_value_prefix(s.drop_last(), k);
        assert(s.drop_last().take(k) =~= s.take(k));
    }
}

/// Reads a count from `text`.
pub fn parse_count(text: &str) -> (r: Option<u32>)
    ensures
        r == parsed_count(text@),
{
    let ghost digits = unsigned_digits(text@);
    let mut rest = text.chars();
    let mut current = rest.next();
    if let Some(sign) = current {
        if sign == '+' {
            current = rest.next();
        }
    }
    if current.is_none() {
        return None;
    }
    let mut value: u32 = 0;
    let ghost mut k: int = 0;
    loop
        invariant
            digits == unsigned_digits(text@),
            0 <= k <= digits.len(),
            digits.len() > 0,
            current == (if k < digits.len() {
                Some(digits[k])
            } else {
                None
            }),
            k < digits.len() ==> rest.remaining() == digits.skip(k + 1),
            all_digits(digits.take(k)),
            value == decimal_value(digits.take(k)),
        decreases digits.len() - k,
    {
        match current {
            None => {
                assert(digits.take(k) =~= digits);
                return Some(value);
            },
            Some(c) => {
                if !('0' <= c && c <= '9') {
                    return None;
                }
                let digit: u32 = c as u32 - '0' as u32;
                proof {
                    assert(digits.take(k + 1).drop_last() =~= digits.take(k));
                    lemma_decimal_value_prefix(digits, k + 1);
                }
                if value > (u32::MAX - digit) / 10 {
                    return None;
                }
                value = value * 10 + digit;
                current = rest.next();
                proof {
                    assert(digits.skip(k + 1).len() > 0 ==> digits.skip(k + 1).drop_first()
                        =~= digits.skip(k + 2));
                    k = k + 1;
                }
            },
        }
    }
}

/// The character that writes the digit `d`.
pub open spec fn digit_char(d: nat) -> char
    recommends
        d < 10,
{
    ('0' as u32 + d) as char
}

/// The decimal text of a number: its digits, most significant first, without
/// leading zeros. Zero is written with one digit.
pub open spec fn decimal_text(n: nat) -> Seq<char>
    decreases n,
{
    if n < 10 {
        seq![digit_char(n)]
    } else {
        decimal_text(n / 10).push(digit_char(n % 10))
    }
}

/// The decimal text of a number is made of digits, at least one, and stands
/// for the number.
pub proof fn lemma_decimal_text(n: nat)
    ensures
        decimal_text(n).len() > 0,
        all_digits(decimal_text(n)),
        decimal_value(decimal_text(n)) == n,
    decreases n,
{
    let text = decimal_text(n);
    if n < 10 {
        assert(decimal_value(text.drop_last()) == 0);
    } else {
        lemma_decimal_text(n / 10);
        assert(text.drop_last() =~= decimal_text(n / 10));
    }
}

/// A count that is written in decimal and read again is the same count.
pub proof fn lemma_parse_decimal_text(count: u32)
    ensures
        parsed_count(decimal_text(count as nat)) == Some(count),
{
    lemma_decimal_text(count as nat);
}

/// Appends the decimal text of `count` to `text`.
pub fn append_count(text: &mut String, count: u32)
    ensures
        final(text)@ == old(text)@ + decimal_text(count as nat),
    decreases count,
{
    if count >= 10 {
        append_count(text, count / 10);
    }
    let digit: u8 = (count % 10) as u8;
    push_char(text, ('0' as u8 + digit) as char);
}

} // verus!
