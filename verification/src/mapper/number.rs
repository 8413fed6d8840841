//! JSON numbers as 64-bit integers.
//!
//! A number is read from its decimal text: the fractional part is cut off,
//! and what lies beyond the 64-bit range becomes the nearest end of it.

use crate::text::chars_of;
use vstd::prelude::*;

verus! {

/// Whether `c` is one of the ten decimal digits.
pub open spec fn is_digit(c: char) -> bool {
    48 <= c as u32 <= 57
}

/// The number that the digit `c` writes.
pub open spec fn digit_value(c: char) -> nat {
    (c as u32 - 48) as nat
}

/// The end of the run of digits that starts at `from`.
pub open spec fn digits_end(s: Seq<char>, from: int) -> int
    decreases s.len() - from,
{
    if 0 <= from < s.len() && is_digit(s[from]) {
        digits_end(s, from + 1)
    } else {
        from
    }
}

/// The number that the first `count` of the digits write, with zeros in the
/// places past the last digit.
pub open spec fn leading_value(digits: Seq<char>, count: int) -> nat
    decreases count,
{
    if count <= 0 {
        0
    } else {
        leading_value(digits, count - 1) * 10 + if count - 1 < digits.len() {
            digit_value(digits[count - 1])
        } else {
            0
        }
    }
}

/// The exponent that is written at `at`: the digits after an `e` or `E` and
/// an optional sign; zero where no exponent is written.
pub open spec fn exponent_at(s: Seq<char>, at: int) -> int {
    if 0 <= at < s.len() && (s[at] == 'e' || s[at] == 'E') {
        let signed = at + 1 < s.len() && (s[at + 1] == '+' || s[at + 1] == '-');
        let start = if signed {
            at + 2
        } else {
            at + 1
        };
        let end = digits_end(s, start);
        let magnitude = leading_value(s.subrange(start, end), end - start);
        if signed && s[at + 1] == '-' {
            -magnitude
        } else {
            magnitude as int
        }
    } else {
        0
    }
}

/// The parts of a decimal number's text.
pub struct Decimal {
    /// Whether the text starts with a minus sign.
    pub negative: bool,
    /// The digits before and after the decimal point, without the point.
    pub digits: Seq<char>,
    /// How many of the digits stand before the decimal point.
    pub whole: int,
    /// The power of ten that the number is scaled by.
    pub exponent: int,
}

/// Reads a decimal number: an optional minus sign, digits, an optional
/// point with digits, an optional exponent. What follows is ignored.
pub open spec fn decimal_parts(s: Seq<char>) -> Decimal {
    let negative = s.len() > 0 && s[0] == '-';
    let int_start: int = if negative {
        1
    } else {
        0
    };
    let int_end = digits_end(s, int_start);
    let pointed = int_end < s.len() && s[int_end] == '.';
    let frac_start = if pointed {
        int_end + 1
    } else {
        int_end
    };
    let frac_end = digits_end(s, frac_start);
    Decimal {
        negative,
        digits: s.subrange(int_start, int_end) + s.subrange(frac_start, frac_end),
        whole: int_end - int_start,
        exponent: exponent_at(s, frac_end),
    }
}

/// The integer part of a decimal number: the number without what stands
/// after the decimal point once the exponent has moved the point.
pub open spec fn integer_part(d: Decimal) -> int {
    let magnitude = leading_value(d.digits, d.whole + d.exponent);
    if d.negative {
        -magnitude
    } else {
        magnitude as int
    }
}

/// The 64-bit integer nearest to `v`.
pub open spec fn clamped(v: int) -> i64 {
    if v > i64::MAX {
        i64::MAX
    } else if v < i64::MIN {
        i64::MIN
    } else {
        v as i64
    }
}

/// The 64-bit integer that a number's text is stored as.
pub open spec fn number_value(s: Seq<char>) -> i64 {
    clamped(integer_part(decimal_parts(s)))
}

/// A run of digits ends inside the text, at or after its start, and holds
/// digits only.
pub proof fn lemma_digits_end(s: Seq<char>, from: int)
    requires
        0 <= from <= s.len(),
    ensures
        from <= digits_end(s, from) <= s.len(),
        forall|i: int| from <= i < digits_end(s, from) ==> is_digit(#[trigger] s[i]),
        digits_end(s, from) < s.len() ==> !is_digit(s[digits_end(s, from)]),
    decreases s.len() - from,
{
    if from < s.len() && is_digit(s[from]) {
        lemma_digits_end(s, from + 1);
    }
}

/// More digits never write a smaller number.
pub proof fn lemma_leading_value_grows(digits: Seq<char>, a: int, b: int)
    requires
        a <= b,
    ensures
        leading_value(digits, a) <= leading_value(digits, b),
    decreases b - a,
{
    if a < b {
        lemma_leading_value_grows(digits, a, b - 1);
        if b > 0 {
            assert(leading_value(digits, b) >= leading_value(digits, b - 1) * 10);
        }
    }
}

/// Where the digits write zero, zeros after them change nothing.
pub proof fn lemma_leading_value_zero(digits: Seq<char>, a: int, b: int)
    requires
        digits.len() <= a <= b,
        leading_value(digits, a) == 0,
    ensures
        leading_value(digits, b) == 0,
    decreases b - a,
{
    if a < b {
        lemma_leading_value_zero(digits, a, b - 1);
    }
}

/// Ten to the power `j`.
pub open spec fn pow10(j: nat) -> nat
    decreases j,
{
    if j == 0 {
        1
    } else {
        10 * pow10((j - 1) as nat)
    }
}

/// Each zero after the digits multiplies the number by ten.
pub proof fn lemma_leading_value_scaled(digits: Seq<char>, j: nat)
    ensures
        leading_value(digits, (digits.len() + j) as int) == leading_value(digits, digits.len() as int)
            * pow10(j),
    decreases j,
{
    let base = leading_value(digits, digits.len() as int);
    if j > 0 {
        lemma_leading_value_scaled(digits, (j - 1) as nat);
        assert(base * pow10((j - 1) as nat) * 10 == base * (10 * pow10((j - 1) as nat)))
            by (nonlinear_arith);
    } else {
        assert(base * 1 == base) by (nonlinear_arith);
    }
}

/// Twenty places past the last digit, the number is zero or beyond the
/// 64-bit range, wherever the count stops.
pub proof fn lemma_leading_value_far(digits: Seq<char>, a: int, b: int)
    requires
        digits.len() + 20 <= a <= b,
    ensures
        leading_value(digits, a) == 0 <==> leading_value(digits, b) == 0,
        leading_value(digits, a) != 0 ==> leading_value(digits, a) > 0x8000_0000_0000_0000
            && leading_value(digits, b) > 0x8000_0000_0000_0000,
{
    let n = digits.len() as int;
    let base = leading_value(digits, n);
    if base == 0 {
        lemma_leading_value_zero(digits, n, a);
        lemma_leading_value_zero(digits, n, b);
    } else {
        lemma_leading_value_scaled(digits, 20);
        assert(pow10(20) == 100000000000000000000) by {
            reveal_with_fuel(pow10, 21);
        }
        assert(base * pow10(20) >= pow10(20)) by (nonlinear_arith)
            requires
                base >= 1,
        ;
        lemma_leading_value_grows(digits, n + 20, a);
        lemma_leading_value_grows(digits, a, b);
    }
}

fn digit_at(s: &Vec<char>, i: usize) -> (r: Option<u8>)
    requires
        i < s.len(),
    ensures
        match r {
            Some(d) => is_digit(s@[i as int]) && d == digit_value(s@[i as int]) && d < 10,
            None => !is_digit(s@[i as int]),
        },
{
    let c = s[i] as u32;
    if 48 <= c && c <= 57 {
        Some((c - 48) as u8)
    } else {
        None
    }
}

fn scan_digits(s: &Vec<char>, from: usize) -> (end: usize)
    requires
        from <= s.len(),
    ensures
        end == digits_end(s@, from as int),
        from <= end <= s.len(),
{
    let mut i = from;
    while i < s.len()
        invariant
            from <= i <= s.len(),
            digits_end(s@, from as int) == digits_end(s@, i as int),
        decreases s.len() - i,
    {
        if digit_at(s, i).is_none() {
            return i;
        }
        i += 1;
    }
    i
}

/// The bound past which an exponent is as good as any larger one: no text in
/// memory has that many digits.
pub const EXPONENT_CAP: u128 = 0x1_0000_0000_0000_0000_0000;

/// The bound at which a magnitude is beyond the 64-bit range either way.
pub const MAGNITUDE_CAP: u128 = 0x8000_0000_0000_0000;

/// The number written by the digits between `start` and `end`, or the cap
/// where it is larger.
fn capped_value(s: &Vec<char>, start: usize, end: usize) -> (v: u128)
    requires
        start <= end <= s.len(),
        forall|i: int| start <= i < end ==> is_digit(#[trigger] s@[i]),
    ensures
        v <= EXPONENT_CAP,
        v == if leading_value(s@.subrange(start as int, end as int), end - start)
            < EXPONENT_CAP {
            leading_value(s@.subrange(start as int, end as int), end - start)
        } else {
            EXPONENT_CAP as nat
        },
{
    let ghost digits = s@.subrange(start as int, end as int);
    let mut v: u128 = 0;
    let mut i = start;
    while i < end
        invariant
            start <= i <= end <= s.len(),
            digits == s@.subrange(start as int, end as int),
            forall|k: int| start <= k < end ==> is_digit(#[trigger] s@[k]),
            v < EXPONENT_CAP,
            v == leading_value(digits, i - start),
        decreases end - i,
    {
        let d = match digit_at(s, i) {
            Some(d) => d,
            None => 0,
        };
        assert(digits[i - start] == s@[i as int]);
        let next = v * 10 + d as u128;
        if next >= EXPONENT_CAP {
            proof {
                lemma_leading_value_grows(digits, i - start + 1, end - start);
            }
            return EXPONENT_CAP;
        }
        v = next;
        i += 1;
    }
    v
}

/// The 64-bit integer that a number's text is stored as: its integer part,
/// or the nearest end of the 64-bit range where that lies outside.
pub fn truncate_number(text: &str) -> (n: i64)
    ensures
        n == number_value(text@),
{
    let s = chars_of(text);
    let len = s.len();
    let negative = len > 0 && s[0] == '-';
    let int_start: usize = if negative {
        1
    } else {
        0
    };
    let int_end = scan_digits(&s, int_start);
    let pointed = int_end < len && s[int_end] == '.';
    let frac_start: usize = if pointed {
        int_end + 1
    } else {
        int_end
    };
    let frac_end = scan_digits(&s, frac_start);
    proof {
        lemma_digits_end(s@, int_start as int);
        lemma_digits_end(s@, frac_start as int);
    }
    let ghost parts = decimal_parts(s@);
    let ghost digits = parts.digits;
    let whole = int_end - int_start;
    let count = whole + (frac_end - frac_start);
    assert(digits.len() == count);

    // The exponent, as a magnitude and a direction.
    let mut exp_negative = false;
    let mut exp_magnitude: u128 = 0;
    if frac_end < len && (s[frac_end] == 'e' || s[frac_end] == 'E') {
        let signed = frac_end + 1 < len && (s[frac_end + 1] == '+' || s[frac_end + 1] == '-');
        let start: usize = if signed {
            frac_end + 2
        } else {
            frac_end + 1
        };
        let end = scan_digits(&s, start);
        proof {
            lemma_digits_end(s@, start as int);
        }
        exp_magnitude = capped_value(&s, start, end);
        exp_negative = signed && s[frac_end + 1] == '-';
    }
    let ghost exponent = parts.exponent;
    assert(exp_magnitude <= EXPONENT_CAP);
    assert(if exp_negative {
        (exp_magnitude < EXPONENT_CAP ==> exponent == -(exp_magnitude as int)) && (exp_magnitude
            == EXPONENT_CAP ==> exponent <= -(EXPONENT_CAP as int))
    } else {
        (exp_magnitude < EXPONENT_CAP ==> exponent == exp_magnitude as int) && (exp_magnitude
            == EXPONENT_CAP ==> exponent >= EXPONENT_CAP as int)
    });

    // How many digits stand before the point once the exponent has moved it.
    let ghost shift = parts.whole + exponent;
    let mut places: u128 = 0;
    if exp_negative {
        if exp_magnitude < whole as u128 {
            places = whole as u128 - exp_magnitude;
        }
    } else {
        places = whole as u128 + exp_magnitude;
    }
    proof {
        // `places` stands for `shift`: equal to it, or both past every digit.
        if exp_negative {
            if exp_magnitude >= whole as u128 {
                assert(shift <= 0);
            }
        } else if exp_magnitude == EXPONENT_CAP {
            lemma_leading_value_far(digits, places as int, shift);
        }
    }
    assert(leading_value(digits, places as int) == 0 <==> leading_value(digits, shift) == 0);
    assert(leading_value(digits, places as int) >= MAGNITUDE_CAP <==> leading_value(
        digits,
        shift,
    ) >= MAGNITUDE_CAP);
    assert(leading_value(digits, places as int) < MAGNITUDE_CAP ==> leading_value(
        digits,
        places as int,
    ) == leading_value(digits, shift));

    // The magnitude, or the cap where it is larger.
    let mut v: u128 = 0;
    let mut k: u128 = 0;
    while k < places
        invariant_except_break
            v < MAGNITUDE_CAP,
            v == leading_value(digits, k as int),
        invariant
            k <= places,
            int_start <= int_end <= s.len(),
            frac_start <= frac_end <= s.len(),
            int_end <= frac_start,
            whole == int_end - int_start,
            count == whole + (frac_end - frac_start),
            digits == s@.subrange(int_start as int, int_end as int) + s@.subrange(
                frac_start as int,
                frac_end as int,
            ),
            forall|i: int| 0 <= i < digits.len() ==> is_digit(#[trigger] digits[i]),
        ensures
            v <= MAGNITUDE_CAP,
            v == if leading_value(digits, places as int) < MAGNITUDE_CAP {
                leading_value(digits, places as int)
            } else {
                MAGNITUDE_CAP as nat
            },
        decreases places - k,
    {
        let mut d: u8 = 0;
        if k < count as u128 {
            let i = k as usize;
            let at = if i < whole {
                int_start + i
            } else {
                frac_start + (i - whole)
            };
            assert(digits[i as int] == s@[at as int]);
            d = match digit_at(&s, at) {
                Some(d) => d,
                None => 0,
            };
        } else if v == 0 {
            proof {
                lemma_leading_value_zero(digits, k as int, places as int);
            }
            break ;
        }
        let next = v * 10 + d as u128;
        if next >= MAGNITUDE_CAP {
            proof {
                lemma_leading_value_grows(digits, k + 1, places as int);
            }
            v = MAGNITUDE_CAP;
            break ;
        }
        v = next;
        k += 1;
    }
    if negative {
        if v >= MAGNITUDE_CAP {
            i64::MIN
        } else {
            -(v as i64)
        }
    } else {
        if v >= MAGNITUDE_CAP {
            i64::MAX
        } else {
            v as i64
        }
    }
}

} // verus!
