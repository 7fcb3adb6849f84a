//! Numbers written as text, and the bit patterns of binary floating-point numbers.
use vstd::arithmetic::power2::{
    lemma2_to64, lemma2_to64_rest, lemma_pow2_pos, lemma_pow2_strictly_increases, lemma_pow2_unfold,
    pow2,
};
use vstd::prelude::*;

use crate::text::to_chars;

verus! {

/// `c` is one of the ten ASCII digits.
pub open spec fn is_ascii_digit(c: char) -> bool {
    '0' <= c && c <= '9'
}

/// The value of a row of decimal digits.
pub open spec fn digits_value(digits: Seq<char>) -> int
    decreases digits.len(),
{
    if digits.len() == 0 {
        0
    } else {
        digits_value(digits.drop_last()) * 10 + (digits.last() as int - '0' as int)
    }
}

/// `text` has a sign, which stands in front of the digits.
pub open spec fn has_sign(text: Seq<char>) -> bool {
    0 < text.len() && (text[0] == '-' || text[0] == '+')
}

/// `text` without its sign.
pub open spec fn unsigned_part(text: Seq<char>) -> Seq<char> {
    if has_sign(text) {
        text.skip(1)
    } else {
        text
    }
}

/// The integer that `text` writes: an optional sign and at least one decimal digit.
pub open spec fn integer_value(text: Seq<char>) -> Option<int> {
    let digits = unsigned_part(text);
    if digits.len() == 0 || exists|i: int|
        0 <= i < digits.len() && !is_ascii_digit(#[trigger] digits[i]) {
        None
    } else if 0 < text.len() && text[0] == '-' {
        Some(-digits_value(digits))
    } else {
        Some(digits_value(digits))
    }
}

/// The integer that `text` writes, where it fits in 64 bits.
pub open spec fn i64_value(text: Seq<char>) -> Option<i64> {
    match integer_value(text) {
        Some(value) => if i64::MIN <= value <= i64::MAX {
            Some(value as i64)
        } else {
            None
        },
        None => None,
    }
}

/// The digits of a natural number.
pub open spec fn natural_text(value: nat) -> Seq<char>
    decreases value,
{
    if value < 10 {
        seq![('0' as u32 + value) as char]
    } else {
        natural_text(value / 10).push(('0' as u32 + value % 10) as char)
    }
}

/// The decimal form of an integer.
pub open spec fn integer_text(value: int) -> Seq<char> {
    if value < 0 {
        seq!['-'] + natural_text((-value) as nat)
    } else {
        natural_text(value as nat)
    }
}

/// More digits never make a smaller number.
proof fn lemma_digits_value_grows(digits: Seq<char>, count: int)
    requires
        0 <= count <= digits.len(),
        forall|i: int| 0 <= i < digits.len() ==> is_ascii_digit(#[trigger] digits[i]),
    ensures
        0 <= digits_value(digits.take(count)) <= digits_value(digits),
    decreases digits.len(),
{
    if count == digits.len() {
        assert(digits.take(count) == digits);
        if 0 < count {
            lemma_digits_value_grows(digits.drop_last(), count - 1);
            assert(is_ascii_digit(digits[count - 1]));
        }
    } else {
        lemma_digits_value_grows(digits.drop_last(), count);
        assert(digits.drop_last().take(count) == digits.take(count));
        assert(is_ascii_digit(digits[digits.len() - 1]));
    }
}

/// The integer that `text` writes, where it fits in 64 bits.
pub fn parse_i64(text: &str) -> (value: Option<i64>)
    ensures
        value == i64_value(text@),
{
    let chars = to_chars(text);
    let count = chars.len();
    let negative = 0 < count && chars[0] == '-';
    let start: usize = if 0 < count && (chars[0] == '-' || chars[0] == '+') {
        1
    } else {
        0
    };
    let ghost digits = unsigned_part(text@);
    assert(text@.skip(0) == text@);
    if start == count {
        return None;
    }
    let mut magnitude: u128 = 0;
    let mut i: usize = start;
    while i < count
        invariant
            chars@ == text@,
            count == chars@.len(),
            start <= i <= count,
            digits == text@.skip(start as int),
            digits == unsigned_part(text@),
            magnitude == digits_value(digits.take(i - start)),
            magnitude <= 0x8000_0000_0000_0000,
            forall|j: int| 0 <= j < i - start ==> is_ascii_digit(#[trigger] digits[j]),
        decreases count - i,
    {
        let c = chars[i];
        assert(digits[i - start] == c);
        if c < '0' || '9' < c {
            return None;
        }
        assert(digits.take(i - start + 1).drop_last() == digits.take(i - start));
        magnitude = magnitude * 10 + (c as u32 - '0' as u32) as u128;
        if magnitude > 0x8000_0000_0000_0000 {
            proof {
                if forall|j: int| 0 <= j < digits.len() ==> is_ascii_digit(#[trigger] digits[j]) {
                    lemma_digits_value_grows(digits, i - start + 1);
                }
            }
            return None;
        }
        i += 1;
    }
    assert(digits.take(digits.len() as int) == digits);
    if negative {
        if magnitude == 0x8000_0000_0000_0000 {
            Some(i64::MIN)
        } else {
            Some(-(magnitude as i64))
        }
    } else if magnitude <= 0x7fff_ffff_ffff_ffff {
        Some(magnitude as i64)
    } else {
        None
    }
}

/// The exponent field of a binary64 bit pattern.
pub open spec fn exponent_field(bits: u64) -> int {
    (bits as int / 0x10_0000_0000_0000) % 0x800
}

/// The bit pattern stands for a finite number, neither an infinity nor a NaN.
pub open spec fn is_finite_pattern(bits: u64) -> bool {
    exponent_field(bits) != 0x7ff
}

/// The integer significand of a binary64 bit pattern.
pub open spec fn significand(bits: u64) -> int {
    let fraction = bits as int % 0x10_0000_0000_0000;
    if exponent_field(bits) == 0 {
        fraction
    } else {
        fraction + 0x10_0000_0000_0000
    }
}

/// The power of two by which the significand is scaled.
pub open spec fn scale(bits: u64) -> int {
    if exponent_field(bits) == 0 {
        -1074
    } else {
        exponent_field(bits) - 1075
    }
}

/// `magnitude` with the sign of the bit pattern.
pub open spec fn signed(bits: u64, magnitude: int) -> int {
    if bits < 0x8000_0000_0000_0000 {
        magnitude
    } else {
        -magnitude
    }
}

/// The whole number that a finite binary64 bit pattern stands for, where it stands for one.
pub open spec fn whole_value(bits: u64) -> Option<int> {
    if 0 <= scale(bits) {
        Some(signed(bits, significand(bits) * pow2(scale(bits) as nat)))
    } else if significand(bits) % (pow2((-scale(bits)) as nat) as int) == 0 {
        Some(signed(bits, significand(bits) / (pow2((-scale(bits)) as nat) as int)))
    } else {
        None
    }
}

/// The 64-bit integer nearest to `value`.
pub open spec fn clamped(value: int) -> i64 {
    if value < i64::MIN {
        i64::MIN
    } else if value > i64::MAX {
        i64::MAX
    } else {
        value as i64
    }
}

/// Two to the power of `exponent`.
fn power_of_two(exponent: u64) -> (power: u64)
    requires
        exponent < 64,
    ensures
        power == pow2(exponent as nat),
{
    let mut power: u64 = 1;
    let mut i: u64 = 0;
    proof {
        lemma2_to64();
    }
    while i < exponent
        invariant
            i <= exponent < 64,
            power == pow2(i as nat),
        decreases exponent - i,
    {
        proof {
            lemma_pow2_unfold((i + 1) as nat);
            lemma2_to64();
            lemma_pow2_strictly_increases((i + 1) as nat, 64);
        }
        power = power * 2;
        i += 1;
    }
    power
}

/// Whether the bit pattern stands for a finite number, neither an infinity nor a NaN.
pub fn finite_pattern(bits: u64) -> (finite: bool)
    ensures
        finite == is_finite_pattern(bits),
{
    (bits / 0x10_0000_0000_0000) % 0x800 != 0x7ff
}

/// The whole number that a finite binary64 bit pattern stands for, where it stands for one, or
/// the 64-bit integer nearest to it.
pub fn whole_number(bits: u64) -> (whole: Option<i64>)
    requires
        is_finite_pattern(bits),
    ensures
        whole == match whole_value(bits) {
            Some(value) => Some(clamped(value)),
            None => None,
        },
{
    let exponent = (bits / 0x10_0000_0000_0000) % 0x800;
    let fraction = bits % 0x10_0000_0000_0000;
    let negative = bits >= 0x8000_0000_0000_0000;
    let significand: u64 = if exponent == 0 {
        fraction
    } else {
        fraction + 0x10_0000_0000_0000
    };
    let magnitude: u64;
    if exponent >= 1075 {
        let shift = exponent - 1075;
        if shift >= 11 {
            proof {
                lemma_large_product(significand as int, shift as nat);
            }
            return Some(
                if negative {
                    i64::MIN
                } else {
                    i64::MAX
                },
            );
        }
        let factor = power_of_two(shift);
        proof {
            lemma2_to64();
            if shift < 10 {
                lemma_pow2_strictly_increases(shift as nat, 10);
            }
            assert(significand * factor <= 0x1f_ffff_ffff_ffff * 0x400) by (nonlinear_arith)
                requires
                    significand <= 0x1f_ffff_ffff_ffff,
                    factor <= 0x400,
            ;
        }
        magnitude = significand * factor;
    } else {
        let shift: u64 = if exponent == 0 {
            1074
        } else {
            1075 - exponent
        };
        if shift >= 53 {
            proof {
                lemma_small_remainder(significand as int, shift as nat);
            }
            return if significand == 0 {
                Some(0)
            } else {
                None
            };
        }
        let divisor = power_of_two(shift);
        proof {
            lemma_pow2_pos(shift as nat);
        }
        if significand % divisor != 0 {
            return None;
        }
        assert(0 <= significand / divisor <= significand) by (nonlinear_arith)
            requires
                divisor > 0,
        ;
        magnitude = significand / divisor;
    }
    Some(
        if negative {
            -(magnitude as i64)
        } else {
            magnitude as i64
        },
    )
}

/// A full significand scaled by eleven or more powers of two does not fit in 63 bits.
proof fn lemma_large_product(value: int, shift: nat)
    requires
        0x10_0000_0000_0000 <= value,
        11 <= shift,
    ensures
        value * pow2(shift) >= 0x8000_0000_0000_0000,
{
    lemma2_to64();
    if 11 < shift {
        lemma_pow2_strictly_increases(11, shift);
    }
    assert(value * pow2(shift) >= 0x10_0000_0000_0000 * 0x800) by (nonlinear_arith)
        requires
            0x10_0000_0000_0000 <= value,
            0x800 <= pow2(shift),
    ;
}

/// A significand is its own remainder by 53 or more powers of two.
proof fn lemma_small_remainder(value: int, shift: nat)
    requires
        0 <= value < 0x20_0000_0000_0000,
        53 <= shift,
    ensures
        value % (pow2(shift) as int) == value,
        value / (pow2(shift) as int) == 0,
{
    lemma2_to64();
    if 53 < shift {
        lemma_pow2_strictly_increases(53, shift);
    }
    lemma2_to64_rest();
    assert(pow2(53) == 0x20_0000_0000_0000);
    vstd::arithmetic::div_mod::lemma_small_mod(value as nat, pow2(shift));
    vstd::arithmetic::div_mod::lemma_basic_div(value, pow2(shift) as int);
}

} // verus!
