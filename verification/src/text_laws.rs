//! What numbers that are written as text say.

use vstd::prelude::*;

use crate::text::{decimal, digit, hex, hex_padded, numeral};

verus! {

/// Whether a character is a digit in base `radix`, which is at most sixteen. Letters
/// are in lower case.
pub open spec fn is_digit(c: char, radix: int) -> bool {
    ||| '0' <= c && c <= '9' && (c as int) - ('0' as int) < radix
    ||| 'a' <= c && (c as int) - ('a' as int) + 10 < radix
}

/// The number that a digit stands for.
pub open spec fn digit_value(c: char) -> int {
    if c <= '9' {
        (c as int) - ('0' as int)
    } else {
        (c as int) - ('a' as int) + 10
    }
}

/// The number that a text stands for, if it is a numeral in base `radix`.
pub open spec fn reading(text: Seq<char>, radix: int) -> int
    decreases text.len(),
{
    if text.len() == 0 {
        0
    } else {
        reading(text.drop_last(), radix) * radix + digit_value(text.last())
    }
}

/// Whether a text is made of digits in base `radix`.
pub open spec fn are_digits(text: Seq<char>, radix: int) -> bool {
    forall|i: int| 0 <= i < text.len() ==> is_digit(#[trigger] text[i], radix)
}

proof fn lemma_digit(d: nat)
    requires
        d < 16,
    ensures
        digit_value(digit(d)) == d,
        forall|radix: int| d < radix <= 16 ==> #[trigger] is_digit(digit(d), radix),
{
}

proof fn lemma_numeral(n: nat, radix: nat)
    requires
        2 <= radix <= 16,
    ensures
        numeral(n, radix).len() > 0,
        are_digits(numeral(n, radix), radix as int),
        reading(numeral(n, radix), radix as int) == n,
        n > 0 ==> numeral(n, radix)[0] != '0',
        n == 0 ==> numeral(n, radix).len() == 1,
    decreases n,
{
    let text = numeral(n, radix);
    let r = radix as int;
    if n < radix {
        lemma_digit(n);
        assert(text.drop_last() =~= seq![]);
        assert(reading(text.drop_last(), r) == 0);
        assert(0 * r == 0) by (nonlinear_arith);
        assert(reading(text, r) == n);
    } else {
        vstd::arithmetic::div_mod::lemma_div_decreases(n as int, r);
        vstd::arithmetic::div_mod::lemma_fundamental_div_mod(n as int, r);
        vstd::arithmetic::div_mod::lemma_mod_bound(n as int, r);
        vstd::arithmetic::div_mod::lemma_div_non_zero(n as int, r);
        lemma_numeral(n / radix, radix);
        lemma_digit(n % radix);
        let front = numeral(n / radix, radix);
        assert(text.drop_last() =~= front);
        assert(text[0] == front[0]);
        assert(r * (n as int / r) == (n as int / r) * r) by (nonlinear_arith);
        assert(reading(text, r) == n);
        assert forall|i: int| 0 <= i < text.len() implies is_digit(#[trigger] text[i], r) by {
            if i < front.len() {
                assert(text[i] == front[i]);
            }
        }
    }
}

/// A number in hexadecimal is made of digits and letters in lower case, has no leading
/// zeros, and stands for that number.
pub proof fn law_hex_reads_back(n: nat)
    ensures
        are_digits(hex(n), 16),
        reading(hex(n), 16) == n,
        hex(n).len() > 0,
        hex(n)[0] == '0' ==> n == 0 && hex(n).len() == 1,
{
    lemma_numeral(n, 16);
}

/// A number in decimal is made of digits, has no leading zeros, and stands for that
/// number.
pub proof fn law_decimal_reads_back(n: nat)
    ensures
        are_digits(decimal(n), 10),
        reading(decimal(n), 10) == n,
        decimal(n).len() > 0,
        decimal(n)[0] == '0' ==> n == 0 && decimal(n).len() == 1,
{
    lemma_numeral(n, 10);
}

spec fn sixteen_to(width: nat) -> nat
    decreases width,
{
    if width == 0 {
        1
    } else {
        16 * sixteen_to((width - 1) as nat)
    }
}

proof fn lemma_padded(n: nat, width: nat)
    requires
        n < sixteen_to(width),
    ensures
        hex_padded(n, width).len() == width,
        are_digits(hex_padded(n, width), 16),
        reading(hex_padded(n, width), 16) == n,
    decreases width,
{
    if width > 0 {
        let front = hex_padded(n / 16, (width - 1) as nat);
        let text = hex_padded(n, width);
        lemma_padded(n / 16, (width - 1) as nat);
        lemma_digit(n % 16);
        assert(text.drop_last() =~= front);
        assert forall|i: int| 0 <= i < text.len() implies is_digit(#[trigger] text[i], 16) by {
            if i < front.len() {
                assert(text[i] == front[i]);
            }
        }
    }
}

/// An address is written as eight hexadecimal digits that stand for that address.
pub proof fn law_address_reads_back(address: u32)
    ensures
        hex_padded(address as nat, 8).len() == 8,
        are_digits(hex_padded(address as nat, 8), 16),
        reading(hex_padded(address as nat, 8), 16) == address,
{
    reveal_with_fuel(sixteen_to, 9);
    lemma_padded(address as nat, 8);
}

} // verus!
