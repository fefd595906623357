//! Fixed-point amounts: decimal values held as integers scaled by a power of
//! ten, and their rendering back to decimal text.

use vstd::prelude::*;

verus! {

/// Ten to the power `e`.
pub open spec fn pow10(e: nat) -> nat
    decreases e,
{
    if e == 0 {
        1
    } else {
        10 * pow10((e - 1) as nat)
    }
}

/// A power of ten is at least one.
pub proof fn lemma_pow10_positive(e: nat)
    ensures
        pow10(e) >= 1,
    decreases e,
{
    if e > 0 {
        lemma_pow10_positive((e - 1) as nat);
    }
}

/// A higher power of ten is no smaller.
pub proof fn lemma_pow10_monotonic(a: nat, b: nat)
    requires
        a <= b,
    ensures
        pow10(a) <= pow10(b),
    decreases b,
{
    if a < b {
        lemma_pow10_monotonic(a, (b - 1) as nat);
    }
}

/// A decimal number written as digits and a power of ten:
/// `mantissa * 10^exponent`, negated when `positive` is false.
#[derive(Clone, Copy, Debug, PartialEq, Eq)]
pub struct Decimal {
    pub positive: bool,
    pub mantissa: u64,
    pub exponent: i16,
}

impl Decimal {
    /// The whole part of `|self| * 10^precision`.
    pub open spec fn scaled_magnitude(self, precision: nat) -> nat {
        let shift = self.exponent as int + precision as int;
        if shift >= 0 {
            self.mantissa as nat * pow10(shift as nat)
        } else {
            self.mantissa as nat / pow10((-shift) as nat)
        }
    }

    /// `self * 10^precision`, truncated toward zero.
    pub open spec fn scaled(self, precision: nat) -> int {
        if self.positive {
            self.scaled_magnitude(precision) as int
        } else {
            -(self.scaled_magnitude(precision) as int)
        }
    }
}

/// The fixed-point amount that stands for `value` at `precision` decimals:
/// the truncated scaled value, held to the range of `usize`.
pub open spec fn fixed_of(value: Decimal, precision: nat) -> nat {
    let scaled = value.scaled(precision);
    if scaled <= 0 {
        0
    } else if scaled >= usize::MAX {
        usize::MAX as nat
    } else {
        scaled as nat
    }
}

proof fn lemma_product_grows(m: nat, a: nat, b: nat)
    requires
        a <= b,
    ensures
        m * pow10(a) <= m * pow10(b),
{
    lemma_pow10_monotonic(a, b);
    assert(m * pow10(a) <= m * pow10(b)) by (nonlinear_arith)
        requires
            pow10(a) <= pow10(b),
    ;
}

proof fn lemma_product_unit(m: nat)
    ensures
        m * pow10(0) == m,
        m / pow10(0) == m,
{
    assert(pow10(0) == 1);
}

proof fn lemma_quotient_step(m: nat, k: nat)
    ensures
        (m / pow10(k)) / 10 == m / pow10(k + 1),
{
    lemma_pow10_positive(k);
    let d = pow10(k) as int;
    assert(pow10(k + 1) == 10 * pow10(k));
    vstd::arithmetic::div_mod::lemma_div_denominator(m as int, d, 10);
    assert(d * 10 == 10 * d);
}

proof fn lemma_quotient_vanishes(m: nat, a: nat, b: nat)
    requires
        a <= b,
        m / pow10(a) == 0,
    ensures
        m / pow10(b) == 0,
{
    lemma_pow10_positive(a);
    lemma_pow10_monotonic(a, b);
    let da = pow10(a) as int;
    let db = pow10(b) as int;
    assert(m < da) by (nonlinear_arith)
        requires
            da >= 1,
            m as int / da == 0,
            m >= 0,
    ;
    assert(m as int / db == 0) by (nonlinear_arith)
        requires
            0 <= m < db,
    ;
}

/// Encodes a decimal value as a fixed-point amount with `precision`
/// decimals: the value times `10^precision`, truncated toward zero.
/// Negative values give 0 and values beyond `usize` give `usize::MAX`.
pub fn to_fixed(value: Decimal, precision: u32) -> (fixed: usize)
    ensures
        fixed == fixed_of(value, precision as nat),
{
    if !value.positive || value.mantissa == 0 {
        proof {
            let shift = value.exponent as int + precision as int;
            if value.mantissa == 0 && shift >= 0 {
                assert(0 * pow10(shift as nat) == 0);
            }
            if value.mantissa == 0 && shift < 0 {
                lemma_pow10_positive((-shift) as nat);
                assert(0int / (pow10((-shift) as nat) as int) == 0) by (nonlinear_arith)
                    requires
                        pow10((-shift) as nat) >= 1,
                ;
            }
        }
        return 0;
    }
    let shift: i64 = value.exponent as i64 + precision as i64;
    let mantissa: u128 = value.mantissa as u128;
    if shift >= 0 {
        if mantissa > usize::MAX as u128 {
            proof {
                lemma_product_grows(mantissa as nat, 0, shift as nat);
                lemma_product_unit(mantissa as nat);
            }
            return usize::MAX;
        }
        let mut scaled: u128 = mantissa;
        let mut done: i64 = 0;
        proof {
            lemma_product_unit(mantissa as nat);
        }
        while done < shift
            invariant
                value.positive,
                mantissa == value.mantissa,
                shift == value.exponent as int + precision as int,
                0 <= done <= shift,
                scaled == mantissa * pow10(done as nat),
                scaled <= usize::MAX,
            decreases shift - done,
        {
            proof {
                assert(mantissa * pow10((done + 1) as nat) == (mantissa * pow10(done as nat)) * 10)
                    by (nonlinear_arith)
                    requires
                        pow10((done + 1) as nat) == 10 * pow10(done as nat),
                ;
            }
            scaled = scaled * 10;
            done = done + 1;
            if scaled > usize::MAX as u128 {
                proof {
                    lemma_product_grows(mantissa as nat, done as nat, shift as nat);
                }
                return usize::MAX;
            }
        }
        scaled as usize
    } else {
        let places: i64 = -shift;
        let mut scaled: u128 = mantissa;
        let mut done: i64 = 0;
        proof {
            lemma_product_unit(mantissa as nat);
        }
        while done < places && scaled > 0
            invariant
                0 <= done <= places,
                scaled == mantissa as nat / pow10(done as nat),
            decreases places - done,
        {
            proof {
                lemma_quotient_step(mantissa as nat, done as nat);
            }
            scaled = scaled / 10;
            done = done + 1;
        }
        proof {
            if done < places {
                lemma_quotient_vanishes(mantissa as nat, done as nat, places as nat);
            }
        }
        if scaled > usize::MAX as u128 {
            usize::MAX
        } else {
            scaled as usize
        }
    }
}

/// The character that stands for a single digit.
pub open spec fn digit_char(d: nat) -> char {
    if d == 0 {
        '0'
    } else if d == 1 {
        '1'
    } else if d == 2 {
        '2'
    } else if d == 3 {
        '3'
    } else if d == 4 {
        '4'
    } else if d == 5 {
        '5'
    } else if d == 6 {
        '6'
    } else if d == 7 {
        '7'
    } else if d == 8 {
        '8'
    } else {
        '9'
    }
}

/// The decimal digits of `n`, most significant first, without leading zeros.
pub open spec fn decimal_text(n: nat) -> Seq<char>
    decreases n,
{
    if n < 10 {
        seq![digit_char(n)]
    } else {
        decimal_text(n / 10).push(digit_char(n % 10))
    }
}

/// The text of a fixed-point amount: the whole part, a point, and the
/// remainder below `10^precision` written as a plain number.
pub open spec fn fixed_text(value: nat, precision: nat) -> Seq<char> {
    decimal_text(value / pow10(precision)) + seq!['.'] + decimal_text(value % pow10(precision))
}

fn digit_text(d: u8) -> (text: &'static str)
    requires
        d < 10,
    ensures
        text@ == seq![digit_char(d as nat)],
{
    proof {
        reveal_strlit("0");
        reveal_strlit("1");
        reveal_strlit("2");
        reveal_strlit("3");
        reveal_strlit("4");
        reveal_strlit("5");
        reveal_strlit("6");
        reveal_strlit("7");
        reveal_strlit("8");
        reveal_strlit("9");
    }
    let text = if d == 0 {
        "0"
    } else if d == 1 {
        "1"
    } else if d == 2 {
        "2"
    } else if d == 3 {
        "3"
    } else if d == 4 {
        "4"
    } else if d == 5 {
        "5"
    } else if d == 6 {
        "6"
    } else if d == 7 {
        "7"
    } else if d == 8 {
        "8"
    } else {
        "9"
    };
    assert(text@ =~= seq![digit_char(d as nat)]);
    text
}

/// Appends the decimal digits of `n` to `out`.
pub fn append_number(out: &mut String, n: u128)
    ensures
        final(out)@ == old(out)@ + decimal_text(n as nat),
    decreases n,
{
    if n >= 10 {
        append_number(out, n / 10);
    }
    out.append(digit_text((n % 10) as u8));
    assert(out@ =~= old(out)@ + decimal_text(n as nat));
}

/// Renders a fixed-point amount as `whole.fraction`. The fraction is the
/// remainder below `10^precision`, printed as a plain number: it is not
/// padded with zeros.
pub fn format_fixed(value: u128, precision: u32) -> (text: String)
    ensures
        text@ == fixed_text(value as nat, precision as nat),
{
    let mut unit: u128 = 1;
    let mut done: u32 = 0;
    let mut beyond: bool = false;
    while done < precision && !beyond
        invariant
            done <= precision,
            unit >= 1,
            unit <= value || unit == 1,
            !beyond ==> unit == pow10(done as nat),
            beyond ==> pow10(done as nat) > value,
        decreases precision - done + (if beyond { 0int } else { 1int }),
    {
        if unit > value / 10 {
            proof {
                assert(pow10((done + 1) as nat) == 10 * pow10(done as nat));
            }
            beyond = true;
        } else {
            unit = unit * 10;
        }
        done = done + 1;
    }
    let mut text = String::new();
    if beyond {
        proof {
            lemma_pow10_monotonic(done as nat, precision as nat);
            let d = pow10(precision as nat) as int;
            assert(value as int / d == 0 && value as int % d == value) by (nonlinear_arith)
                requires
                    0 <= value < d,
            ;
        }
        text.append("0");
        text.append(".");
        append_number(&mut text, value);
        proof {
            reveal_strlit("0");
            reveal_strlit(".");
            assert(decimal_text(0) =~= seq!['0']);
        }
        assert(text@ =~= fixed_text(value as nat, precision as nat));
    } else {
        append_number(&mut text, value / unit);
        text.append(".");
        append_number(&mut text, value % unit);
        proof {
            reveal_strlit(".");
        }
        assert(text@ =~= fixed_text(value as nat, precision as nat));
    }
    text
}

} // verus!
