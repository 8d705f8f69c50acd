//! Non-negative fixed-precision decimal amounts.
//!
//! A [`Dec`] stores an amount as an integer count of `10^-9` units, so
//! every value has exactly nine fractional decimal digits. Multiplication
//! and division truncate toward zero at the ninth fractional digit; this
//! makes every arithmetic result exactly reproducible, which the engine's
//! validation (an allocation sum must equal 100 exactly) depends on.

use vstd::prelude::*;

verus! {

/// Number of units in 1.0: nine fractional decimal digits.
pub const SCALE: u128 = 1_000_000_000;

/// A non-negative fixed-precision decimal amount, counted in `10^-9` units.
#[derive(Clone, Copy, Debug, PartialEq, Eq, Structural)]
pub struct Dec {
    /// The amount, as a count of `10^-9` units.
    pub units: u128,
}

impl View for Dec {
    type V = int;

    open spec fn view(&self) -> int {
        self.units as int
    }
}

/// The value of `a * b` in units, truncated toward zero: both operands
/// and the result carry nine fractional digits.
pub open spec fn dec_mul(a: int, b: int) -> int {
    (a * b) / (SCALE as int)
}

/// The value of `a * b` in units, rounded up to the next unit: never
/// zero for a product of two positive amounts.
pub open spec fn dec_mul_up(a: int, b: int) -> int {
    (a * b + (SCALE as int) - 1) / (SCALE as int)
}

/// The value of `a / b` in units, truncated toward zero.
pub open spec fn dec_div(a: int, b: int) -> int {
    (a * (SCALE as int)) / b
}

/// The whole-number part of an amount given in units.
pub open spec fn whole(a: int) -> int {
    a / (SCALE as int)
}

/// `10^n`.
pub open spec fn pow10(n: nat) -> int
    decreases n,
{
    if n == 0 {
        1
    } else {
        10 * pow10((n - 1) as nat)
    }
}

/// Repeatedly removes `k` trailing decimal digits from `m`; `None` if any
/// removed digit is not zero.
pub open spec fn scaled_down(m: int, k: nat) -> Option<int>
    decreases k,
{
    if k == 0 {
        Some(m)
    } else if m % 10 == 0 {
        scaled_down(m / 10, (k - 1) as nat)
    } else {
        None
    }
}

/// The unit count denoted by a decimal with integer mantissa `m` and
/// `scale` fractional digits, or `None` when the value is negative, does
/// not fit, or carries a nonzero digit beyond the ninth fractional place.
pub open spec fn units_of_parts(m: int, scale: int) -> Option<int> {
    if m < 0 {
        None
    } else if scale <= 9 {
        if m * pow10((9 - scale) as nat) <= u128::MAX {
            Some(m * pow10((9 - scale) as nat))
        } else {
            None
        }
    } else {
        scaled_down(m, (scale - 9) as nat)
    }
}

impl Dec {
    /// The zero amount.
    pub fn zero() -> (r: Dec)
        ensures
            r@ == 0,
    {
        Dec { units: 0 }
    }

    /// The amount holding exactly `n` whole units.
    pub fn from_whole(n: u64) -> (r: Dec)
        ensures
            r@ == n * (SCALE as int),
    {
        proof {
            assert((n as int) * (SCALE as int) <= (u64::MAX as int) * (SCALE as int))
                by (nonlinear_arith)
                requires
                    n <= u64::MAX,
            ;
        }
        Dec { units: (n as u128) * SCALE }
    }

    /// The amount holding exactly `u` units of `10^-9`.
    pub fn from_units(u: u128) -> (r: Dec)
        ensures
            r@ == u,
    {
        Dec { units: u }
    }

    /// The amount as a count of `10^-9` units.
    pub fn units(&self) -> (r: u128)
        ensures
            r == self@,
    {
        self.units
    }

    /// The whole-number part, truncating the fractional digits.
    pub fn whole_part(&self) -> (r: u128)
        ensures
            r == whole(self@),
    {
        self.units / SCALE
    }

    /// Exact addition.
    pub fn add(self, o: Dec) -> (r: Dec)
        requires
            self@ + o@ <= u128::MAX,
        ensures
            r@ == self@ + o@,
    {
        Dec { units: self.units + o.units }
    }

    /// Exact subtraction; the subtrahend may not exceed the minuend.
    pub fn sub(self, o: Dec) -> (r: Dec)
        requires
            o@ <= self@,
        ensures
            r@ == self@ - o@,
    {
        Dec { units: self.units - o.units }
    }

    /// Multiplication, truncated toward zero at the ninth fractional digit.
    pub fn mul(self, o: Dec) -> (r: Dec)
        requires
            self@ * o@ <= u128::MAX,
        ensures
            r@ == dec_mul(self@, o@),
    {
        proof {
            assert(self@ * o@ >= 0) by (nonlinear_arith)
                requires
                    self@ >= 0 && o@ >= 0,
            ;
        }
        Dec { units: (self.units * o.units) / SCALE }
    }

    /// Multiplication, rounded up at the ninth fractional digit: the
    /// result is positive whenever both operands are.
    pub fn mul_up(self, o: Dec) -> (r: Dec)
        requires
            self@ * o@ + (SCALE as int) - 1 <= u128::MAX,
        ensures
            r@ == dec_mul_up(self@, o@),
            self@ >= 1 && o@ >= 1 ==> r@ >= 1,
    {
        proof {
            assert(self@ * o@ >= 0) by (nonlinear_arith)
                requires
                    self@ >= 0 && o@ >= 0,
            ;
            if self@ >= 1 && o@ >= 1 {
                assert(self@ * o@ >= 1) by (nonlinear_arith)
                    requires
                        self@ >= 1 && o@ >= 1,
                ;
                vstd::arithmetic::div_mod::lemma_div_is_ordered(
                    SCALE as int,
                    self@ * o@ + (SCALE as int) - 1,
                    SCALE as int,
                );
                vstd::arithmetic::div_mod::lemma_div_by_self(SCALE as int);
            }
        }
        Dec { units: (self.units * o.units + (SCALE - 1)) / SCALE }
    }

    /// Division, truncated toward zero at the ninth fractional digit.
    pub fn div(self, o: Dec) -> (r: Dec)
        requires
            o@ > 0,
            self@ * (SCALE as int) <= u128::MAX,
        ensures
            r@ == dec_div(self@, o@),
    {
        Dec { units: (self.units * SCALE) / o.units }
    }

    /// Addition that reports instead of overflowing.
    pub fn checked_add(self, o: Dec) -> (r: Option<Dec>)
        ensures
            match r {
                Some(d) => self@ + o@ <= u128::MAX && d@ == self@ + o@,
                None => self@ + o@ > u128::MAX,
            },
    {
        match self.units.checked_add(o.units) {
            Some(u) => Some(Dec { units: u }),
            None => None,
        }
    }

    /// Multiplication (truncated toward zero at the ninth fractional
    /// digit) that reports instead of overflowing.
    pub fn checked_mul(self, o: Dec) -> (r: Option<Dec>)
        ensures
            match r {
                Some(d) => self@ * o@ <= u128::MAX && d@ == dec_mul(self@, o@),
                None => self@ * o@ > u128::MAX,
            },
    {
        match self.units.checked_mul(o.units) {
            Some(u) => Some(Dec { units: u / SCALE }),
            None => None,
        }
    }

    /// Builds the amount denoted by mantissa `m` with `scale` fractional
    /// digits; `None` when the value is negative, too large, or has a
    /// nonzero digit beyond the ninth fractional place.
    pub fn from_parts(m: i128, scale: u32) -> (r: Option<Dec>)
        ensures
            match r {
                Some(d) => units_of_parts(m as int, scale as int) == Some(d@),
                None => units_of_parts(m as int, scale as int) is None,
            },
    {
        if m < 0 {
            return None;
        }
        let mu: u128 = m as u128;
        if scale <= 9 {
            let f: u128 = pow10_exec(9 - scale);
            if mu <= u128::MAX / f {
                proof {
                    lemma_mul_le_from_div(mu as int, f as int, u128::MAX as int);
                }
                Some(Dec { units: mu * f })
            } else {
                proof {
                    lemma_mul_gt_from_div(mu as int, f as int, u128::MAX as int);
                }
                None
            }
        } else {
            let mut k: u32 = scale - 9;
            let mut cur: u128 = mu;
            while k > 0
                invariant
                    m >= 0,
                    scale > 9,
                    scaled_down(m as int, (scale - 9) as nat) == scaled_down(
                        cur as int,
                        k as nat,
                    ),
                decreases k,
            {
                if cur % 10 != 0 {
                    return None;
                }
                cur = cur / 10;
                k = k - 1;
            }
            Some(Dec { units: cur })
        }
    }
}

/// `10^e` as a unit factor, for `e` up to the number of fractional digits.
fn pow10_exec(e: u32) -> (r: u128)
    requires
        e <= 9,
    ensures
        r == pow10(e as nat),
        1 <= r <= SCALE,
{
    proof {
        reveal_with_fuel(pow10, 11);
    }
    if e == 0 {
        1
    } else if e == 1 {
        10
    } else if e == 2 {
        100
    } else if e == 3 {
        1_000
    } else if e == 4 {
        10_000
    } else if e == 5 {
        100_000
    } else if e == 6 {
        1_000_000
    } else if e == 7 {
        10_000_000
    } else if e == 8 {
        100_000_000
    } else {
        1_000_000_000
    }
}

/// If `a <= max / f` then `a * f <= max` (for a positive factor `f`).
proof fn lemma_mul_le_from_div(a: int, f: int, max: int)
    requires
        0 <= a,
        1 <= f,
        0 <= max,
        a <= max / f,
    ensures
        a * f <= max,
{
    vstd::arithmetic::div_mod::lemma_fundamental_div_mod(max, f);
    vstd::arithmetic::div_mod::lemma_mod_division_less_than_divisor(max, f);
    assert(a * f <= (max / f) * f) by (nonlinear_arith)
        requires
            a <= max / f && f >= 1,
    ;
    assert((max / f) * f <= max) by (nonlinear_arith)
        requires
            max == f * (max / f) + max % f && max % f >= 0,
    ;
}

/// If `a > max / f` then `a * f > max` (for a positive factor `f`).
proof fn lemma_mul_gt_from_div(a: int, f: int, max: int)
    requires
        0 <= a,
        1 <= f,
        0 <= max,
        a > max / f,
    ensures
        a * f > max,
{
    vstd::arithmetic::div_mod::lemma_fundamental_div_mod(max, f);
    vstd::arithmetic::div_mod::lemma_mod_division_less_than_divisor(max, f);
    assert(a * f >= (max / f + 1) * f) by (nonlinear_arith)
        requires
            a >= max / f + 1 && f >= 1,
    ;
    assert((max / f + 1) * f > max) by (nonlinear_arith)
        requires
            max == f * (max / f) + max % f && max % f < f,
    ;
}

} // verus!
