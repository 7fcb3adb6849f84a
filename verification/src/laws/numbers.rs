//! Laws of numbers: integers written as text, and the bit patterns of binary floating-point numbers.
use vstd::arithmetic::div_mod::{
    lemma_div_denominator, lemma_fundamental_div_mod, lemma_mod_breakdown, lemma_small_mod,
};
use vstd::arithmetic::power2::{
    lemma2_to64, lemma_pow2_pos, lemma_pow2_strictly_increases, lemma_pow2_unfold, pow2,
};
use vstd::prelude::*;

use crate::laws::values::lemma_natural_text;
use crate::number::{
    clamped, digits_value, exponent_field, i64_value, integer_value, is_ascii_digit,
    is_finite_pattern, natural_text, scale, significand, unsigned_part, whole_value,
};

verus! {

/// `text` is a row of decimal digits, one at least.
pub open spec fn is_row_of_digits(text: Seq<char>) -> bool {
    0 < text.len() && forall|i: int| 0 <= i < text.len() ==> '0' <= #[trigger] text[i] <= '9'
}

/// A text that is read as an integer is a row of digits, with or without a sign in front.
pub proof fn lemma_only_digits_are_integers(text: Seq<char>)
    ensures
        i64_value(text) is Some ==> is_row_of_digits(text) || (0 < text.len() && (text[0] == '+'
            || text[0] == '-') && is_row_of_digits(text.skip(1))),
{
    if i64_value(text) is Some {
        let digits = unsigned_part(text);
        assert(is_row_of_digits(digits)) by {
            assert forall|i: int| 0 <= i < digits.len() implies '0' <= #[trigger] digits[i]
                <= '9' by {
                assert(is_ascii_digit(digits[i]));
            }
        }
    }
}

/// A row of digits is read as the number that it writes.
proof fn lemma_row_of_digits(sign: Seq<char>, digits: Seq<char>)
    requires
        is_row_of_digits(digits),
        sign == Seq::<char>::empty() || sign == seq!['+'] || sign == seq!['-'],
    ensures
        integer_value(sign + digits) == Some(
            if sign == seq!['-'] {
                -digits_value(digits)
            } else {
                digits_value(digits)
            },
        ),
{
    let text = sign + digits;
    assert forall|i: int| 0 <= i < digits.len() implies is_ascii_digit(#[trigger] digits[i]) by {}
    assert('0' <= digits[0] <= '9');
    if sign == Seq::<char>::empty() {
        assert(text == digits);
    } else {
        assert(text.skip(1) == digits);
        assert(text[0] == sign[0]);
    }
    assert(unsigned_part(text) == digits);
    if sign == Seq::<char>::empty() || sign == seq!['+'] {
        assert(sign != seq!['-']) by {
            if sign == seq!['-'] {
                assert(sign[0] == '-');
            }
        }
    }
}

/// A zero in front of digits does not change their value.
proof fn lemma_zero_in_front(digits: Seq<char>)
    ensures
        digits_value(seq!['0'] + digits) == digits_value(digits),
    decreases digits.len(),
{
    let longer = seq!['0'] + digits;
    if digits.len() == 0 {
        assert(longer.drop_last() == Seq::<char>::empty());
        assert(digits_value(longer.drop_last()) == 0);
    } else {
        assert(longer.drop_last() == seq!['0'] + digits.drop_last());
        lemma_zero_in_front(digits.drop_last());
    }
}

/// Zeros in front of the digits change nothing, whatever the sign, and a plus sign changes nothing.
pub proof fn lemma_leading_zeros_and_plus(sign: Seq<char>, digits: Seq<char>)
    requires
        is_row_of_digits(digits),
        sign == Seq::<char>::empty() || sign == seq!['+'] || sign == seq!['-'],
    ensures
        i64_value(sign + (seq!['0'] + digits)) == i64_value(sign + digits),
        i64_value(seq!['+'] + digits) == i64_value(digits),
{
    let longer = seq!['0'] + digits;
    assert(is_row_of_digits(longer));
    lemma_zero_in_front(digits);
    lemma_row_of_digits(sign, digits);
    lemma_row_of_digits(sign, longer);
    lemma_row_of_digits(seq!['+'], digits);
    lemma_row_of_digits(Seq::empty(), digits);
    assert(Seq::<char>::empty() + digits == digits);
    assert(seq!['+'][0] != seq!['-'][0]);
}

/// The decimal form of a natural number is read as that number, and behind a minus sign as its
/// negation, exactly where that fits in 64 bits.
pub proof fn lemma_integers_of_64_bits(value: nat)
    ensures
        i64_value(natural_text(value)) == (if value <= 0x7fff_ffff_ffff_ffff {
            Some(value as i64)
        } else {
            None
        }),
        i64_value(seq!['-'] + natural_text(value)) == (if value <= 0x8000_0000_0000_0000 {
            Some((-value) as i64)
        } else {
            None
        }),
{
    let digits = natural_text(value);
    lemma_natural_text(value);
    assert(is_row_of_digits(digits)) by {
        assert forall|i: int| 0 <= i < digits.len() implies '0' <= #[trigger] digits[i] <= '9' by {
            assert(is_ascii_digit(digits[i]));
        }
    }
    lemma_row_of_digits(Seq::empty(), digits);
    lemma_row_of_digits(seq!['-'], digits);
    assert(Seq::<char>::empty() + digits == digits);
    assert(Seq::<char>::empty().len() != seq!['-'].len());
}

/// The finite bit patterns are those below the infinity of their sign.
pub proof fn lemma_finite_patterns(bits: u64)
    ensures
        is_finite_pattern(bits) <==> bits < 0x7ff0_0000_0000_0000 || (0x8000_0000_0000_0000 <= bits
            && bits < 0xfff0_0000_0000_0000),
{
}

/// With the bit of the sign, a bit pattern stands for the negated number.
pub proof fn lemma_sign_bit_negates(bits: u64)
    requires
        bits < 0x8000_0000_0000_0000,
    ensures
        whole_value((bits + 0x8000_0000_0000_0000) as u64) == match whole_value(bits) {
            Some(value) => Some(-value),
            None => None,
        },
{
    let negative = (bits + 0x8000_0000_0000_0000) as u64;
    assert(exponent_field(negative) == exponent_field(bits));
    assert(significand(negative) == significand(bits));
}

/// The numbers from 2^52 up to 2^53 are the whole numbers, in order.
pub proof fn lemma_patterns_of_whole_numbers(fraction: u64)
    requires
        fraction < 0x10_0000_0000_0000,
    ensures
        whole_value((0x4330_0000_0000_0000 + fraction) as u64) == Some(
            0x10_0000_0000_0000 + fraction,
        ),
{
    let bits = (0x4330_0000_0000_0000 + fraction) as u64;
    assert(exponent_field(bits) == 0x433);
    assert(significand(bits) == 0x10_0000_0000_0000 + fraction);
    assert(scale(bits) == 0);
    lemma2_to64();
    assert(significand(bits) * pow2(0) == significand(bits)) by (nonlinear_arith)
        requires
            pow2(0) == 1,
    ;
}

/// A bit pattern with the next exponent stands for the double of the number: it is whole where the
/// number is, and where the double is an odd whole number, the number is not whole.
pub proof fn lemma_next_exponent_doubles(bits: u64)
    requires
        0x10_0000_0000_0000 <= bits < 0x7fe0_0000_0000_0000,
    ensures
        ({
            let doubled = whole_value((bits + 0x10_0000_0000_0000) as u64);
            match whole_value(bits) {
                Some(value) => doubled == Some(2 * value),
                None => doubled matches Some(value) ==> value % 2 == 1,
            }
        }),
{
    let next = (bits + 0x10_0000_0000_0000) as u64;
    let digits = significand(bits);
    assert(exponent_field(next) == exponent_field(bits) + 1);
    assert(significand(next) == digits);
    let power = scale(bits);
    assert(scale(next) == power + 1);
    lemma2_to64();
    if 0 <= power {
        lemma_pow2_unfold((power + 1) as nat);
        let small = pow2(power as nat) as int;
        assert(digits * (2 * small) == 2 * (digits * small)) by (nonlinear_arith);
    } else {
        let shift = (-power) as nat;
        lemma_pow2_unfold(shift);
        let half = pow2((shift - 1) as nat) as int;
        lemma_pow2_pos((shift - 1) as nat);
        assert(pow2(shift) == half * 2);
        lemma_mod_breakdown(digits, half, 2);
        lemma_div_denominator(digits, half, 2);
        let quotient = digits / half;
        let odd = quotient % 2;
        assert(digits % (half * 2) == half * odd + digits % half);
        if shift == 1 {
            assert(half == 1);
            assert(digits * pow2(0) == digits) by (nonlinear_arith)
                requires
                    pow2(0) == 1,
            ;
            assert(digits / 1 == digits);
            assert(digits % 1 == 0);
        }
        if odd == 1 {
            assert(half * odd == half) by (nonlinear_arith)
                requires
                    odd == 1,
            ;
        } else {
            assert(half * odd == 0) by (nonlinear_arith)
                requires
                    odd == 0,
            ;
        }
        lemma_fundamental_div_mod(digits, half);
    }
}

/// Of the numbers below the least normal one, only zero is whole.
pub proof fn lemma_subnormal_numbers(fraction: u64)
    requires
        fraction < 0x10_0000_0000_0000,
    ensures
        whole_value(fraction) == (if fraction == 0 {
            Some(0int)
        } else {
            None
        }),
{
    assert(exponent_field(fraction) == 0);
    assert(significand(fraction) == fraction);
    lemma2_to64();
    lemma_pow2_strictly_increases(64, 1074);
    lemma_small_mod(fraction as nat, pow2(1074));
}

/// A whole number is held in 64 bits as it is, and otherwise as the nearest number that fits.
pub proof fn lemma_clamped(value: int)
    ensures
        i64::MIN <= value <= i64::MAX ==> clamped(value) == value,
        value < i64::MIN ==> clamped(value) == i64::MIN,
        i64::MAX < value ==> clamped(value) == i64::MAX,
{
}

} // verus!
