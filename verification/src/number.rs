//! Numbers in decimal notation.

use vstd::prelude::*;

use crate::text;

verus! {

/// Whether a character is a decimal digit.
pub open spec fn is_digit(c: char) -> bool {
    48 <= c as int <= 57
}

/// Whether a text is made of decimal digits alone.
pub open spec fn all_digits(s: Seq<char>) -> bool {
    forall|i: int| 0 <= i < s.len() ==> is_digit(#[trigger] s[i])
}

/// The number that digits stand for.
pub open spec fn value(digits: Seq<char>) -> int
    decreases digits.len(),
{
    if digits.len() == 0 {
        0
    } else {
        value(digits.drop_last()) * 10 + (digits.last() as int - 48)
    }
}

/// A text without a plus sign at its start.
pub open spec fn unsigned(s: Seq<char>) -> Seq<char> {
    if s.len() > 0 && s[0] == '+' {
        s.skip(1)
    } else {
        s
    }
}

/// The number that a text stands for: digits, with a plus sign before them or not, of a value that is not
/// over `max`.
pub open spec fn parsed(s: Seq<char>, max: int) -> Option<int> {
    let digits = unsigned(s);
    if digits.len() > 0 && all_digits(digits) && value(digits) <= max {
        Some(value(digits))
    } else {
        None
    }
}

/// The decimal notation of a number, in ASCII: digits without a zero before them.
pub open spec fn decimal(n: int) -> Seq<u8>
    decreases n,
{
    if n < 10 {
        seq![(48 + n) as u8]
    } else {
        decimal(n / 10).push((48 + n % 10) as u8)
    }
}

/// Calls `itoa::Buffer::format` on a `u64`, which writes the number as decimal digits without leading zeros;
/// zero is one digit.
#[verifier::external_body]
pub(crate) fn format_decimal(n: u64) -> (r: Vec<u8>)
    ensures
        r@ == decimal(n as int),
{
    itoa::Buffer::new().format(n).as_bytes().to_vec()
}

/// Whether a byte is a decimal digit in ASCII.
pub open spec fn is_ascii_digit(b: u8) -> bool {
    48 <= b <= 57
}

/// The digits that bytes start with.
pub open spec fn leading_digits(s: Seq<u8>) -> Seq<u8>
    decreases s.len(),
{
    if s.len() == 0 || !is_ascii_digit(s[0]) {
        Seq::empty()
    } else {
        seq![s[0]] + leading_digits(s.skip(1))
    }
}

/// The number that ASCII digits stand for.
pub open spec fn ascii_value(digits: Seq<u8>) -> int
    decreases digits.len(),
{
    if digits.len() == 0 {
        0
    } else {
        ascii_value(digits.drop_last()) * 10 + (digits.last() - 48)
    }
}

/// Whether bytes start with a sign.
pub open spec fn has_sign(s: Seq<u8>) -> bool {
    s.len() > 0 && (s[0] == 43 || s[0] == 45)
}

/// The number that bytes start with, behind a sign or without one. What follows the digits is not looked at. A
/// sign alone stands for zero. Of the numbers behind a minus sign only zero is one.
pub open spec fn leading_number(s: Seq<u8>) -> Option<int> {
    let digits = leading_digits(if has_sign(s) {
        s.skip(1)
    } else {
        s
    });
    let n = ascii_value(digits);
    if !has_sign(s) && digits.len() == 0 {
        None
    } else if has_sign(s) && s[0] == 45 && n != 0 {
        None
    } else if n > u32::MAX {
        None
    } else {
        Some(n)
    }
}

/// Calls `atoi::atoi` for `u32`, which reads an optional sign and the digits behind it, ignores what follows, and
/// gives nothing where there is neither a sign nor a digit, or where the number is not a `u32`.
#[verifier::external_body]
pub(crate) fn atoi(text: &[u8]) -> (r: Option<u32>)
    ensures
        (match r {
            Some(n) => Some(n as int),
            None => None,
        }) == leading_number(text@),
{
    atoi::atoi::<u32>(text)
}

/// Reading a number back from its decimal notation gives the number.
pub proof fn lemma_decimal_read_back(n: int)
    requires
        0 <= n <= u32::MAX,
    ensures
        leading_number(decimal(n)) == Some(n),
{
    lemma_decimal(n);
    lemma_leading_digits(decimal(n));
}

/// Decimal notation is made of digits that stand for the number.
pub proof fn lemma_decimal(n: int)
    requires
        0 <= n,
    ensures
        decimal(n).len() > 0,
        forall|i: int| 0 <= i < decimal(n).len() ==> is_ascii_digit(#[trigger] decimal(n)[i]),
        ascii_value(decimal(n)) == n,
    decreases n,
{
    if n < 10 {
        assert(decimal(n).drop_last() =~= Seq::empty());
        assert(ascii_value(decimal(n).drop_last()) == 0);
    } else {
        lemma_decimal(n / 10);
        assert(decimal(n).drop_last() =~= decimal(n / 10));
    }
}

/// Digits start with all of themselves.
proof fn lemma_leading_digits(s: Seq<u8>)
    requires
        forall|i: int| 0 <= i < s.len() ==> is_ascii_digit(#[trigger] s[i]),
    ensures
        leading_digits(s) == s,
    decreases s.len(),
{
    if s.len() > 0 {
        lemma_leading_digits(s.skip(1));
        assert(seq![s[0]] + s.skip(1) =~= s);
    } else {
        assert(leading_digits(s) =~= s);
    }
}

/// More digits do not make a smaller number.
proof fn lemma_value_grows(digits: Seq<char>, n: int)
    requires
        all_digits(digits),
        0 <= n <= digits.len(),
    ensures
        0 <= value(digits.take(n)) <= value(digits),
    decreases digits.len() - n,
{
    if n == digits.len() {
        assert(digits.take(n) =~= digits);
        lemma_value_nonnegative(digits);
    } else {
        lemma_value_grows(digits, n + 1);
        let longer = digits.take(n + 1);
        assert(longer.drop_last() =~= digits.take(n));
        assert(is_digit(digits[n]));
        lemma_value_nonnegative(digits.take(n));
    }
}

proof fn lemma_value_nonnegative(digits: Seq<char>)
    requires
        all_digits(digits),
    ensures
        value(digits) >= 0,
    decreases digits.len(),
{
    if digits.len() > 0 {
        assert(is_digit(digits[digits.len() - 1]));
        lemma_value_nonnegative(digits.drop_last());
    }
}

/// The number that a digit stands for.
fn digit(c: char) -> (r: Option<u64>)
    ensures
        r is Some <==> is_digit(c),
        r matches Some(d) ==> d == c as int - 48 && d <= 9,
{
    let code: u32 = c as u32;
    if 48 <= code && code <= 57 {
        Some((code - 48) as u64)
    } else {
        None
    }
}

/// Reads a number that is not over `max`.
pub fn parse(s: &str, max: u64) -> (r: Option<u64>)
    ensures
        (match r {
            Some(n) => Some(n as int),
            None => None,
        }) == parsed(s@, max as int),
{
    let v: Vec<char> = text::chars(s);
    let start: usize = if v.len() > 0 && v[0] == '+' {
        1
    } else {
        0
    };
    let ghost digits = unsigned(s@);
    proof {
        assert(v@.subrange(start as int, v@.len() as int) =~= digits);
    }
    if v.len() == start {
        return None;
    }
    let mut total: u64 = 0;
    let mut i: usize = start;
    while i < v.len()
        invariant
            start <= i <= v@.len(),
            digits == v@.subrange(start as int, v@.len() as int),
            digits == unsigned(s@),
            all_digits(digits.take(i - start)),
            total == value(digits.take(i - start)),
            total <= max,
        decreases v@.len() - i,
    {
        let ghost n = i - start;
        let ghost longer = digits.take(n + 1);
        proof {
            assert(longer.drop_last() =~= digits.take(n));
            assert(longer.last() == v@[i as int]);
            assert(digits[n] == v@[i as int]);
        }
        let d: u64 = match digit(v[i]) {
            Some(d) => d,
            None => {
                proof {
                    assert(!is_digit(digits[n]));
                }
                return None;
            },
        };
        proof {
            assert(value(longer) == total * 10 + d);
            assert forall|j: int| 0 <= j < longer.len() implies is_digit(#[trigger] longer[j]) by {
                if j < n {
                    assert(longer[j] == digits.take(n)[j]);
                }
            }
            if all_digits(digits) {
                lemma_value_grows(digits, n + 1);
            }
        }
        if total > max / 10 || (total == max / 10 && d > max % 10) {
            return None;
        }
        total = total * 10 + d;
        i += 1;
    }
    proof {
        assert(digits.take(i - start) =~= digits);
    }
    Some(total)
}

/// ASCII digits stand for the same number as the characters that they are.
pub proof fn lemma_value_of_ascii(digits: Seq<u8>)
    requires
        forall|i: int| 0 <= i < digits.len() ==> is_ascii_digit(#[trigger] digits[i]),
    ensures
        value(digits.map_values(|b: u8| b as char)) == ascii_value(digits),
    decreases digits.len(),
{
    let chars = digits.map_values(|b: u8| b as char);
    if digits.len() > 0 {
        let head = digits.drop_last();
        assert forall|i: int| 0 <= i < head.len() implies is_ascii_digit(#[trigger] head[i]) by {
            assert(head[i] == digits[i]);
        }
        lemma_value_of_ascii(head);
        assert(chars.drop_last() =~= head.map_values(|b: u8| b as char));
        assert(is_ascii_digit(digits[digits.len() - 1]));
    }
}

} // verus!
