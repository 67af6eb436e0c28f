//! Laws of numbers and their digits.

use vstd::arithmetic::power::*;
use vstd::prelude::*;

use crate::config;
use crate::numbers;

verus! {

/// The digits of the numbers below 16 are these, in this order.
pub proof fn law_hex_char(n: int)
    requires
        0 <= n < 16,
    ensures
        numbers::hex_char(n) == "0123456789abcdef"@[n],
{
    reveal_strlit("0123456789abcdef");
}

/// The hexadecimal digits are those sixteen characters and no other.
pub proof fn law_hex_digits(c: char)
    ensures
        numbers::is_hex_digit(c) <==> "0123456789abcdef"@.contains(c),
{
    reveal_strlit("0123456789abcdef");
    let digits = "0123456789abcdef"@;
    if numbers::is_hex_digit(c) {
        let n = c as int;
        let at: int = if n < 58 {
            n - 48
        } else {
            n - 87
        };
        law_hex_char(at);
        assert(digits[at] == c);
    }
    if digits.contains(c) {
        let at = choose|at: int| 0 <= at < digits.len() && digits[at] == c;
        law_hex_char(at);
    }
}

/// The digit at each position of a hexadecimal number is that of its place: the number divided by
/// the place's power of 16, and what is left of that by 16.
pub proof fn law_hex_places(n: nat, count: nat, i: int)
    requires
        0 <= i < count,
    ensures
        numbers::hex_text(n, count).len() == count,
        numbers::hex_text(n, count)[i] == "0123456789abcdef"@[((n as int / pow(
            16,
            (count - 1 - i) as nat,
        )) % 16)],
    decreases count,
{
    let shorter = (count - 1) as nat;
    numbers::lemma_hex_text(n, count);
    numbers::lemma_hex_text(n / 16, shorter);
    lemma_pow0(16);
    if i < shorter {
        let place = (shorter - 1 - i) as nat;
        law_hex_places(n / 16, shorter, i);
        lemma_pow_positive(16, place);
        lemma_pow1(16);
        lemma_pow_adds(16, 1, place);
        vstd::arithmetic::div_mod::lemma_div_denominator(n as int, 16, pow(16, place));
        assert(pow(16, (count - 1 - i) as nat) == 16 * pow(16, place));
    } else {
        assert((n as int / pow(16, 0)) == n) by {
            vstd::arithmetic::div_mod::lemma_div_basics(n as int);
        }
        law_hex_char((n % 16) as int);
    }
}

/// Different numbers have different hexadecimal digits.
pub proof fn law_hex_tells_numbers_apart(n: u64, m: u64)
    ensures
        numbers::hex_text(n as nat, 16) == numbers::hex_text(m as nat, 16) ==> n == m,
{
    if numbers::hex_text(n as nat, 16) == numbers::hex_text(m as nat, 16) {
        lemma_pow16();
        lemma_hex_injective(n as nat, m as nat, 16);
    }
}

/// The sixteenth power of 16.
proof fn lemma_pow16()
    ensures
        pow(16, 16) == 0x1_0000_0000_0000_0000,
{
    reveal_with_fuel(pow, 17);
}

/// Digits determine a number up to its length.
proof fn lemma_hex_injective(n: nat, m: nat, count: nat)
    requires
        numbers::hex_text(n, count) == numbers::hex_text(m, count),
        n < pow(16, count),
        m < pow(16, count),
    ensures
        n == m,
    decreases count,
{
    lemma_pow0(16);
    if count > 0 {
        let shorter = (count - 1) as nat;
        let a = numbers::hex_text(n, count);
        let b = numbers::hex_text(m, count);
        assert(a.drop_last() =~= numbers::hex_text(n / 16, shorter));
        assert(b.drop_last() =~= numbers::hex_text(m / 16, shorter));
        assert(a.last() == b.last());
        assert(n % 16 == m % 16) by {
            lemma_hex_char_injective((n % 16) as int, (m % 16) as int);
        }
        lemma_pow1(16);
        lemma_pow_adds(16, 1, shorter);
        lemma_hex_injective(n / 16, m / 16, shorter);
    }
}

/// Different numbers below 16 have different digits.
proof fn lemma_hex_char_injective(n: int, m: int)
    requires
        0 <= n < 16,
        0 <= m < 16,
        numbers::hex_char(n) == numbers::hex_char(m),
    ensures
        n == m,
{
    law_hex_char(n);
    law_hex_char(m);
    reveal_strlit("0123456789abcdef");
}

/// A single decimal digit stands for its place among the digits.
pub proof fn law_single_digit(n: int)
    requires
        0 <= n < 10,
    ensures
        numbers::digits_value(seq!["0123456789"@[n]]) == n,
{
    reveal_strlit("0123456789");
    reveal_with_fuel(numbers::digits_value, 2);
    assert(seq!["0123456789"@[n]].drop_last() =~= Seq::empty());
}

/// Digits behind other digits move those by as many places.
pub proof fn law_digits_have_places(a: Seq<char>, b: Seq<char>)
    requires
        numbers::are_digits(a),
        numbers::are_digits(b),
    ensures
        numbers::digits_value(a + b) == numbers::digits_value(a) * pow(10, b.len())
            + numbers::digits_value(b),
    decreases b.len(),
{
    lemma_pow0(10);
    if b.len() == 0 {
        assert(a + b =~= a);
        assert(numbers::digits_value(a) * 1 == numbers::digits_value(a));
    } else {
        let front = b.drop_last();
        assert((a + b).drop_last() =~= a + front);
        assert((a + b).last() == b.last());
        assert forall|i: int| 0 <= i < front.len() implies numbers::is_digit(#[trigger] front[i]) by {
            assert(front[i] == b[i]);
        }
        law_digits_have_places(a, front);
        assert(numbers::is_digit(b[b.len() - 1]));
        lemma_pow1(10);
        lemma_pow_adds(10, 1, front.len());
        let v = numbers::digits_value(a) as int;
        let p = pow(10, front.len());
        assert(v * (10 * p) == 10 * (v * p)) by (nonlinear_arith);
        assert(pow(10, b.len()) == 10 * p);
    }
}

/// A text stands for a number exactly if it holds at least one character, but for a plus sign
/// before them, and each is a digit; and the plus sign makes no difference.
pub proof fn law_unsigned_value(s: Seq<char>)
    ensures
        s.len() > 0 && (forall|i: int| 0 <= i < s.len() ==> 48 <= #[trigger] s[i] as int <= 57)
            ==> numbers::unsigned_value(s) == Some(numbers::digits_value(s))
            && numbers::unsigned_value("+"@ + s) == Some(numbers::digits_value(s)),
        s.len() == 0 ==> numbers::unsigned_value(s) is None && numbers::unsigned_value("+"@ + s)
            is None,
        (exists|i: int| 0 < i < s.len() && !(48 <= #[trigger] s[i] as int <= 57))
            ==> numbers::unsigned_value(s) is None,
        s.len() > 0 && s[0] != '+' && !(48 <= s[0] as int <= 57) ==> numbers::unsigned_value(s)
            is None,
{
    reveal_strlit("+");
    let plus = "+"@ + s;
    assert(plus[0] == '+');
    assert(plus.skip(1) =~= s);
    if exists|i: int| 0 < i < s.len() && !(48 <= #[trigger] s[i] as int <= 57) {
        let i = choose|i: int| 0 < i < s.len() && !(48 <= #[trigger] s[i] as int <= 57);
        if s[0] == '+' {
            assert(!numbers::is_digit(s.skip(1)[i - 1]));
        } else {
            assert(!numbers::is_digit(s[i]));
        }
    }
    if s.len() > 0 && s[0] != '+' && !(48 <= s[0] as int <= 57) {
        assert(!numbers::is_digit(s[0]));
    }
}

/// A variable that stands for a number up to the largest gives that number; any other, and one that
/// is not set, gives the default.
pub proof fn law_number_settings(s: String, max: nat, default: nat)
    ensures
        numbers::unsigned_value(s@) matches Some(n) && n <= max ==> config::number_or(
            Some(s),
            max,
            default,
        ) == numbers::unsigned_value(s@)->0,
        numbers::unsigned_value(s@) matches Some(n) && n > max ==> config::number_or(
            Some(s),
            max,
            default,
        ) == default,
        numbers::unsigned_value(s@) is None ==> config::number_or(Some(s), max, default)
            == default,
        config::number_or(None, max, default) == default,
{
}

/// A text setting is the variable's text, or the default where it is not set.
pub proof fn law_text_settings(s: String, default: Seq<char>)
    ensures
        config::text_or(Some(s), default) == s@,
        config::text_or(None, default) == default,
{
}

/// The decimal digits of a number stand for it, and none of them is a zero in front.
pub proof fn law_decimal_text(n: nat)
    ensures
        numbers::unsigned_value(numbers::decimal_text(n)) == Some(n),
        n >= 10 ==> numbers::decimal_text(n)[0] != '0',
        n < 10 ==> numbers::decimal_text(n).len() == 1,
    decreases n,
{
    numbers::lemma_decimal_value(n);
    let text = numbers::decimal_text(n);
    assert(numbers::is_digit(text[0]));
    if n >= 10 {
        law_decimal_text(n / 10);
        numbers::lemma_decimal_value(n / 10);
        assert(text[0] == numbers::decimal_text(n / 10)[0]);
    }
}

} // verus!
