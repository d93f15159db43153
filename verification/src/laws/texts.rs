//! Texts, numbers and bytes.

use vstd::prelude::*;

use crate::bytes;
use crate::number;
use crate::text;

verus! {

/// Blanks, tabs and line breaks are white space. No other ASCII character is.
pub proof fn lemma_white_space(c: char)
    ensures
        c == ' ' || c == '\t' || c == '\n' || c == '\r' || c as int == 0xb || c as int == 0xc ==> text::is_white_space(c),
        0xd < (c as int) < 0x20 ==> !text::is_white_space(c),
        0x20 < (c as int) < 0x80 ==> !text::is_white_space(c),
        (c as int) < 0x9 ==> !text::is_white_space(c),
        text::is_white_space(c) && (c as int) >= 0x80 ==> (c as int) == 0x85 || (c as int) == 0xa0 || (c as int) == 0x1680
            || 0x2000 <= (c as int) <= 0x200a || 0x2028 <= (c as int) <= 0x2029 || (c as int) == 0x202f || (c as int) == 0x205f
            || (c as int) == 0x3000,
        (c as int) == 0x85 || (c as int) == 0xa0 || (c as int) == 0x1680 || 0x2000 <= (c as int) <= 0x200a || 0x2028 <= (c as int)
            <= 0x2029 || (c as int) == 0x202f || (c as int) == 0x205f || (c as int) == 0x3000 ==> text::is_white_space(c),
{
}

/// Whether a text is white space throughout.
pub open spec fn blank(s: Seq<char>) -> bool {
    forall|i: int| 0 <= i < s.len() ==> text::is_white_space(#[trigger] s[i])
}

proof fn lemma_trimmed_start(a: Seq<char>, s: Seq<char>)
    requires
        blank(a),
        s.len() == 0 || !text::is_white_space(s[0]),
    ensures
        text::trimmed_start(a + s) == s,
    decreases a.len(),
{
    if a.len() > 0 {
        assert((a + s)[0] == a[0]);
        assert((a + s).skip(1) =~= a.skip(1) + s);
        assert forall|i: int| 0 <= i < a.skip(1).len() implies text::is_white_space(#[trigger] a.skip(1)[i]) by {
            assert(a.skip(1)[i] == a[i + 1]);
        }
        lemma_trimmed_start(a.skip(1), s);
    } else {
        assert(a + s =~= s);
    }
}

proof fn lemma_trimmed_end(s: Seq<char>, b: Seq<char>)
    requires
        blank(b),
        s.len() == 0 || !text::is_white_space(s.last()),
    ensures
        text::trimmed_end(s + b) == s,
    decreases b.len(),
{
    if b.len() > 0 {
        assert((s + b).last() == b.last());
        assert(b.last() == b[b.len() - 1]);
        assert((s + b).drop_last() =~= s + b.drop_last());
        assert forall|i: int| 0 <= i < b.drop_last().len() implies text::is_white_space(#[trigger] b.drop_last()[i]) by {
            assert(b.drop_last()[i] == b[i]);
        }
        lemma_trimmed_end(s, b.drop_last());
    } else {
        assert(s + b =~= s);
    }
}

/// Trimming a text takes the white space from both its ends, and nothing else.
pub proof fn lemma_trimmed(a: Seq<char>, s: Seq<char>, b: Seq<char>)
    requires
        blank(a),
        blank(b),
        s.len() > 0,
        !text::is_white_space(s[0]),
        !text::is_white_space(s.last()),
    ensures
        text::trimmed(a + s + b) == s,
{
    assert(a + s + b =~= a + (s + b));
    lemma_trimmed_start(a, s + b);
    lemma_trimmed_end(s, b);
}

/// A blank text is trimmed to nothing.
pub proof fn lemma_trimmed_blank(a: Seq<char>)
    requires
        blank(a),
    ensures
        text::trimmed(a).len() == 0,
{
    lemma_trimmed_start(a, Seq::empty());
    assert(a + Seq::<char>::empty() =~= a);
    lemma_trimmed_end(Seq::empty(), Seq::empty());
    assert(Seq::<char>::empty() + Seq::<char>::empty() =~= Seq::empty());
}

/// Taking a character from the end of a text takes all of them that stand there, and nothing else.
pub proof fn lemma_without_trailing(s: Seq<char>, c: char, n: nat)
    requires
        s.len() == 0 || s.last() != c,
    ensures
        text::without_trailing(s + Seq::new(n, |i: int| c), c) == s,
    decreases n,
{
    let tail = Seq::new(n, |i: int| c);
    let all = s + tail;
    if n > 0 {
        let less = Seq::new((n - 1) as nat, |i: int| c);
        assert(all.last() == c);
        assert(all.drop_last() =~= s + less);
        lemma_without_trailing(s, c, (n - 1) as nat);
    } else {
        assert(all =~= s);
    }
}

/// The value of digits: a digit behind others counts itself and ten times what they count.
pub proof fn lemma_value(digits: Seq<char>, digit: char)
    ensures
        number::value(Seq::empty()) == 0,
        number::value(digits.push(digit)) == 10 * number::value(digits) + (digit as int - '0' as int),
{
    assert(digits.push(digit).drop_last() =~= digits);
    assert(Seq::<char>::empty().len() == 0);
}

/// A text of digits that do not exceed the bound is a number, with or without a plus sign before it. Nothing else is.
pub proof fn lemma_parsed(digits: Seq<char>, max: int)
    ensures
        digits.len() > 0 && (forall|i: int| 0 <= i < digits.len() ==> '0' <= #[trigger] digits[i] <= '9')
            && number::value(digits) <= max ==> number::parsed(digits, max) == Some(number::value(digits))
            && number::parsed(seq!['+'] + digits, max) == Some(number::value(digits)),
        digits.len() > 0 && (forall|i: int| 0 <= i < digits.len() ==> '0' <= #[trigger] digits[i] <= '9')
            && number::value(digits) > max ==> number::parsed(digits, max) is None && number::parsed(
            seq!['+'] + digits,
            max,
        ) is None,
        number::parsed(Seq::empty(), max) is None,
        number::parsed(seq!['+'], max) is None,
        (exists|i: int| 1 <= i < digits.len() && !('0' <= #[trigger] digits[i] <= '9')) ==> number::parsed(digits, max)
            is None,
        digits.len() > 0 && digits[0] != '+' && !('0' <= digits[0] <= '9') ==> number::parsed(digits, max) is None,
{
    let signed = seq!['+'] + digits;
    assert(signed.skip(1) =~= digits);
    assert(signed[0] == '+');
    if digits.len() > 0 && forall|i: int| 0 <= i < digits.len() ==> '0' <= #[trigger] digits[i] <= '9' {
        assert('0' <= digits[0] <= '9');
        assert forall|i: int| 0 <= i < digits.len() implies number::is_digit(#[trigger] digits[i]) by {}
        assert(number::all_digits(digits));
        assert(number::unsigned(digits) == digits);
        assert(number::unsigned(signed) == digits);
    }
    assert(seq!['+'].skip(1) =~= Seq::empty());
    if exists|i: int| 1 <= i < digits.len() && !('0' <= #[trigger] digits[i] <= '9') {
        let i = choose|i: int| 1 <= i < digits.len() && !('0' <= #[trigger] digits[i] <= '9');
        let rest = number::unsigned(digits);
        if digits[0] == '+' {
            assert(rest[i - 1] == digits[i]);
            assert(!number::is_digit(rest[i - 1]));
        } else {
            assert(!number::is_digit(rest[i]));
        }
    }
    if digits.len() > 0 && digits[0] != '+' && !('0' <= digits[0] <= '9') {
        assert(number::unsigned(digits)[0] == digits[0]);
        assert(!number::is_digit(digits[0]));
    }
}

/// The byte that is counted adds one to the count, and no other byte does.
pub proof fn lemma_count(s: Seq<u8>, byte: u8, other: u8)
    ensures
        bytes::count(Seq::empty(), byte) == 0,
        bytes::count(s.push(byte), byte) == bytes::count(s, byte) + 1,
        other != byte ==> bytes::count(s.push(other), byte) == bytes::count(s, byte),
{
    assert(s.push(byte).drop_last() =~= s);
    assert(s.push(other).drop_last() =~= s);
    assert(Seq::<u8>::empty().len() == 0);
}

/// Numbers of four bytes stand with the lowest byte first.
pub proof fn lemma_lowest_first(s: Seq<u8>, at: int)
    requires
        0 <= at,
        at + 4 <= s.len(),
    ensures
        bytes::le_u32(s, at) % 256 == s[at],
        bytes::le_u32(s, at) / 256 % 256 == s[at + 1],
        bytes::le_u32(s, at) / 65536 % 256 == s[at + 2],
        bytes::le_u32(s, at) / 16777216 == s[at + 3],
{
    let n = s[at] + 256 * s[at + 1] + 65536 * s[at + 2] + 16777216 * s[at + 3];
    assert(0 <= n <= u32::MAX);
    assert(bytes::le_u32(s, at) == n);
}

/// The bytes of a number, the lowest first.
pub proof fn lemma_bytes_of(n: u32)
    ensures
        bytes::le_bytes(n).len() == 4,
        bytes::le_bytes(n)[0] == n % 256,
        bytes::le_bytes(n)[0] + 256 * bytes::le_bytes(n)[1] + 65536 * bytes::le_bytes(n)[2] + 16777216
            * bytes::le_bytes(n)[3] == n,
{
    let a = n % 256;
    let b = n / 256 % 256;
    let c = n / 65536 % 256;
    let d = n / 16777216;
    assert(a + 256 * b + 65536 * c + 16777216 * d == n);
}

/// A text before another, by the first character in which they differ, or by being its beginning.
pub proof fn lemma_order(common: Seq<char>, a: Seq<char>, b: Seq<char>)
    requires
        b.len() > 0,
        a.len() == 0 || (a[0] as int) < (b[0] as int),
    ensures
        text::text_before(common + a, common + b),
        !text::text_before(common + b, common + a),
    decreases common.len(),
{
    let x = common + a;
    let y = common + b;
    if common.len() > 0 {
        assert(x.skip(1) =~= common.skip(1) + a);
        assert(y.skip(1) =~= common.skip(1) + b);
        lemma_order(common.skip(1), a, b);
    } else {
        assert(x =~= a);
        assert(y =~= b);
    }
}

/// A number at the beginning of bytes ends with its digits. It may have a plus sign, and has to fit.
pub proof fn lemma_leading_number(digits: Seq<u8>, rest: Seq<u8>)
    requires
        digits.len() > 0,
        forall|i: int| 0 <= i < digits.len() ==> '0' as u8 <= #[trigger] digits[i] <= '9' as u8,
        rest.len() == 0 || rest[0] < '0' as u8 || rest[0] > '9' as u8,
    ensures
        ({
            let n = number::ascii_value(digits);
            &&& n <= 0xffff_ffff ==> number::leading_number(digits + rest) == Some(n)
            &&& n <= 0xffff_ffff ==> number::leading_number(seq!['+' as u8] + (digits + rest)) == Some(n)
            &&& n > 0xffff_ffff ==> number::leading_number(digits + rest) is None
            &&& n > 0xffff_ffff ==> number::leading_number(seq!['+' as u8] + (digits + rest)) is None
            &&& n > 0 ==> number::leading_number(seq!['-' as u8] + (digits + rest)) is None
        }),
        rest.len() == 0 || (rest[0] != '+' as u8 && rest[0] != '-' as u8) ==> number::leading_number(rest) is None,
{
    lemma_leading_digits(digits, rest);
    lemma_leading_digits(Seq::empty(), rest);
    assert(Seq::<u8>::empty() + rest =~= rest);
    assert((digits + rest)[0] == digits[0]);
    assert((seq!['+' as u8] + (digits + rest)).skip(1) =~= digits + rest);
    assert((seq!['-' as u8] + (digits + rest)).skip(1) =~= digits + rest);
}

proof fn lemma_leading_digits(digits: Seq<u8>, rest: Seq<u8>)
    requires
        forall|i: int| 0 <= i < digits.len() ==> '0' as u8 <= #[trigger] digits[i] <= '9' as u8,
        rest.len() == 0 || rest[0] < '0' as u8 || rest[0] > '9' as u8,
    ensures
        number::leading_digits(digits + rest) == digits,
    decreases digits.len(),
{
    let all = digits + rest;
    if digits.len() > 0 {
        assert(all[0] == digits[0]);
        assert(all.skip(1) =~= digits.skip(1) + rest);
        lemma_leading_digits(digits.skip(1), rest);
        assert(seq![digits[0]] + digits.skip(1) =~= digits);
    } else {
        assert(all =~= rest);
        assert(number::leading_digits(rest) =~= digits);
    }
}

} // verus!
