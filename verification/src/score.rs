//! Similarity scores as exact fixed-point numbers.
//!
//! A score is a number between 0 and 1, held as a whole number of
//! billionths.
//!
//! - The score of a single quotient is the quotient rounded down to the
//!   next billionth. It reaches a whole percentage exactly where the
//!   exact quotient does.
//! - A binary64 number stands for every real number that rounds to it.
//!   Its score is the upper end of these numbers, rounded down to the
//!   next billionth, so that the binary64 number nearest to a quotient
//!   reaches a whole percentage wherever the quotient does.
//! - A weighted mean of several parts is computed from the parts carried
//!   to eighteen decimal places and is rounded once, to the nearest
//!   billionth. Of such a score no more is claimed than that it lies
//!   within a billionth of the exact mean.

use vstd::prelude::*;
use vstd::arithmetic::power2::pow2;

verus! {

/// The number of billionths in one.
pub const SCALE: u64 = 1_000_000_000;

/// The number of billionths in one percent.
pub const PERCENT: u64 = 10_000_000;

/// The number of parts in one, by which the parts of a weighted mean are
/// carried: a billion billionths.
pub const FINE: u64 = 1_000_000_000_000_000_000;

/// A billionth in the unit of a weighted sum, which is a tenth of a fine
/// part because the weights are tenths.
pub const STEP: u64 = 10_000_000_000;

/// Half a billionth in the unit of a weighted sum.
pub const HALF_STEP: u64 = 5_000_000_000;

/// A similarity between 0 and 1, in billionths.
#[derive(Clone, Copy, Debug)]
pub struct Score {
    billionths: u64,
}

impl View for Score {
    type V = nat;

    closed spec fn view(&self) -> nat {
        self.billionths as nat
    }
}

/// The quotient `num / den` in billionths, rounded down.
pub open spec fn ratio_billionths(num: nat, den: nat) -> nat {
    if den == 0 {
        0
    } else {
        num * SCALE as nat / den
    }
}

/// The smaller of two numbers.
pub open spec fn lesser(a: nat, b: nat) -> nat {
    if a <= b {
        a
    } else {
        b
    }
}

/// The views of a sequence of scores.
pub open spec fn score_values(scores: Seq<Score>) -> Seq<nat> {
    scores.map_values(|s: Score| s@)
}

/// The quotient `num / den` in fine parts, rounded down.
pub open spec fn ratio_fine(num: nat, den: nat) -> nat {
    if den == 0 {
        0
    } else {
        num * FINE as nat / den
    }
}

/// The weighted mean of three parts, which are given in fine parts with
/// weights in tenths, rounded to the nearest billionth.
pub open spec fn rounded_blend(wa: nat, a: nat, wb: nat, b: nat, wc: nat, c: nat) -> nat {
    (wa * a + wb * b + wc * c + HALF_STEP as nat) / STEP as nat
}

/// The sign bit of an IEEE 754 binary64 pattern.
pub open spec fn f64_negative(bits: u64) -> bool {
    bits >= 0x8000_0000_0000_0000
}

/// The biased exponent field of an IEEE 754 binary64 pattern.
pub open spec fn f64_exponent(bits: u64) -> nat {
    (bits as nat / 0x10_0000_0000_0000) % 0x800
}

/// The fraction field of an IEEE 754 binary64 pattern.
pub open spec fn f64_fraction(bits: u64) -> nat {
    bits as nat % 0x10_0000_0000_0000
}

/// The whole number `m` of a finite binary64 number `m / 2^k`.
pub open spec fn f64_mantissa(bits: u64) -> nat {
    if f64_exponent(bits) == 0 {
        f64_fraction(bits)
    } else {
        0x10_0000_0000_0000 + f64_fraction(bits)
    }
}

/// The exponent `k` of a finite binary64 number `m / 2^k` below two.
pub open spec fn f64_shift(bits: u64) -> nat {
    if f64_exponent(bits) == 0 {
        1074
    } else {
        (1075 - f64_exponent(bits)) as nat
    }
}

/// What stands for the binary64 number with the given pattern on a scale
/// from zero to `scale`.
///
/// A number `m / 2^k` between 0 and 1 stands for the real numbers that
/// round to it, which reach up to `(2 m + 1) / 2^(k + 1)`: the result is
/// that upper end times `scale`, rounded down. A number from one on gives
/// `scale`; a negative number and a NaN give zero.
pub open spec fn f64_scaled(bits: u64, scale: nat) -> nat {
    if f64_negative(bits) {
        0
    } else if f64_exponent(bits) == 0x7ff {
        if f64_fraction(bits) == 0 {
            scale
        } else {
            0
        }
    } else if f64_exponent(bits) >= 1023 {
        scale
    } else {
        (2 * f64_mantissa(bits) + 1) * scale / pow2(f64_shift(bits) + 1)
    }
}

/// The score that stands for the binary64 number with the given pattern.
pub open spec fn f64_billionths(bits: u64) -> nat {
    f64_scaled(bits, SCALE as nat)
}

/// What stands for the binary64 number with the given pattern in fine
/// parts.
pub open spec fn f64_fine(bits: u64) -> nat {
    f64_scaled(bits, FINE as nat)
}

/// An exact quotient of a part by its whole.
#[derive(Clone, Copy, Debug)]
pub struct Ratio {
    /// The part.
    pub num: u128,
    /// The whole.
    pub den: u128,
}

impl Ratio {
    /// Whether the whole is more than nothing, holds the part and is at
    /// most the sum of two lengths.
    pub open spec fn well_formed(&self) -> bool {
        0 < self.den && self.num <= self.den && self.den <= 2 * u64::MAX
    }

    /// Whether the quotient is more than the given number of tenths.
    pub open spec fn above_tenths(&self, tenths: nat) -> bool {
        self.num * 10 > tenths * self.den
    }

    /// Whether the quotient is more than the given number of tenths.
    pub fn exceeds_tenths(&self, tenths: u8) -> (b: bool)
        requires
            self.well_formed(),
        ensures
            b == self.above_tenths(tenths as nat),
    {
        assert(tenths * self.den <= 255 * (2 * u64::MAX)) by (nonlinear_arith)
            requires
                tenths <= 255,
                self.den <= 2 * u64::MAX,
        ;
        self.num * 10 > (tenths as u128) * self.den
    }

    /// The quotient as a score, rounded down.
    pub fn score(&self) -> (r: Score)
        requires
            self.well_formed(),
        ensures
            r@ == ratio_billionths(self.num as nat, self.den as nat),
    {
        Score::from_wide_ratio(self.num, self.den)
    }

    /// The quotient in fine parts, rounded down.
    pub fn fine(&self) -> (r: u64)
        requires
            self.well_formed(),
        ensures
            r == ratio_fine(self.num as nat, self.den as nat),
            r <= FINE,
    {
        proof {
            lemma_ratio_fine(self.num as nat, self.den as nat);
            assert(self.num * FINE <= (2 * u64::MAX) * FINE) by (nonlinear_arith)
                requires
                    self.num <= 2 * u64::MAX,
            ;
        }
        let scaled: u128 = self.num * (FINE as u128);
        let q: u128 = scaled / self.den;
        q as u64
    }
}

/// A quotient in fine parts differs from the exact quotient by less than
/// one fine part, and is all fine parts where the part is the whole.
pub proof fn lemma_ratio_fine(num: nat, den: nat)
    requires
        0 < den,
        num <= den,
    ensures
        ratio_fine(num, den) <= FINE,
        ratio_fine(num, den) * den <= num * FINE < (ratio_fine(num, den) + 1) * den,
        num == den ==> ratio_fine(num, den) == FINE,
        num == 0 ==> ratio_fine(num, den) == 0,
{
    let s = FINE as int;
    let n = num as int;
    let d = den as int;
    let q = (n * s) / d;
    assert(q * d <= n * s < (q + 1) * d) by (nonlinear_arith)
        requires
            d > 0,
            q == (n * s) / d,
    ;
    assert(n * s <= d * s) by (nonlinear_arith)
        requires
            n <= d,
            s >= 0,
    ;
    assert(q <= s) by (nonlinear_arith)
        requires
            q * d <= n * s,
            n * s <= d * s,
            d > 0,
    ;
    if num == den {
        assert((d * s) / d == s) by (nonlinear_arith)
            requires
                d > 0,
        ;
    }
    if num == 0 {
        assert(0 * s == 0);
        assert(0int / d == 0) by (nonlinear_arith)
            requires
                d > 0,
        ;
    }
}

/// A weighted mean that is rounded to the nearest billionth differs from
/// the mean of the parts by half a billionth at most, and is a score.
pub proof fn lemma_rounded_blend(wa: nat, a: nat, wb: nat, b: nat, wc: nat, c: nat)
    requires
        wa + wb + wc == 10,
        a <= FINE,
        b <= FINE,
        c <= FINE,
    ensures
        rounded_blend(wa, a, wb, b, wc, c) <= SCALE,
        rounded_blend(wa, a, wb, b, wc, c) * STEP <= wa * a + wb * b + wc * c + HALF_STEP,
        wa * a + wb * b + wc * c < rounded_blend(wa, a, wb, b, wc, c) * STEP + HALF_STEP,
        a == FINE && b == FINE && c == FINE ==> rounded_blend(wa, a, wb, b, wc, c) == SCALE,
{
    let f = FINE as int;
    assert(wa * a <= wa * f) by (nonlinear_arith)
        requires
            a <= f,
            wa >= 0,
    ;
    assert(wb * b <= wb * f) by (nonlinear_arith)
        requires
            b <= f,
            wb >= 0,
    ;
    assert(wc * c <= wc * f) by (nonlinear_arith)
        requires
            c <= f,
            wc >= 0,
    ;
    assert(wa * f + wb * f + wc * f == 10 * f) by (nonlinear_arith)
        requires
            wa + wb + wc == 10,
    ;
}

/// A quotient of a part by its whole, in billionths, is at most one.
pub proof fn lemma_ratio_bounded(num: nat, den: nat)
    requires
        num <= den,
    ensures
        ratio_billionths(num, den) <= SCALE,
        den > 0 && num == den ==> ratio_billionths(num, den) == SCALE,
        num == 0 ==> ratio_billionths(num, den) == 0,
{
    if den > 0 {
        let s = SCALE as int;
        let n = num as int;
        let d = den as int;
        assert(n * s <= d * s) by (nonlinear_arith)
            requires
                n <= d,
                s >= 0,
        ;
        assert((n * s) / d <= s) by (nonlinear_arith)
            requires
                n * s <= d * s,
                d > 0,
                n >= 0,
                s >= 0,
        ;
        if num == den {
            assert((d * s) / d == s) by (nonlinear_arith)
                requires
                    d > 0,
            ;
        }
        if num == 0 {
            assert(0 * s == 0);
            assert(0int / d == 0) by (nonlinear_arith)
                requires
                    d > 0,
            ;
        }
    }
}

/// A quotient reaches a whole percentage exactly when its score reaches
/// that percentage in billionths: rounding down loses nothing.
pub proof fn lemma_ratio_reaches_percent(num: nat, den: nat, percent: nat)
    requires
        den > 0,
    ensures
        ratio_billionths(num, den) >= percent * PERCENT <==> num * 100 >= percent * den,
{
    let n = num as int;
    let d = den as int;
    let p = percent as int;
    let unit = PERCENT as int;
    let q = (n * (100 * unit)) / d;
    assert(SCALE as int == 100 * unit);
    assert(q >= p * unit <==> n * (100 * unit) >= (p * unit) * d) by (nonlinear_arith)
        requires
            d > 0,
            q == (n * (100 * unit)) / d,
    ;
    assert((n * (100 * unit) >= (p * unit) * d) <==> (n * 100 >= p * d)) by (nonlinear_arith)
        requires
            unit > 0,
    ;
}

/// What stands for a binary64 number on a scale is within the scale.
pub proof fn lemma_f64_scaled_bounded(bits: u64, scale: nat)
    ensures
        f64_scaled(bits, scale) <= scale,
{
    let e = f64_exponent(bits);
    let s = scale as int;
    if !f64_negative(bits) && e < 1023 {
        vstd::arithmetic::power2::lemma2_to64_rest();
        let m = 2 * f64_mantissa(bits) as int + 1;
        let k = f64_shift(bits) + 1;
        assert(k >= 54);
        vstd::arithmetic::power2::lemma_pow2_adds(54, (k - 54) as nat);
        vstd::arithmetic::power2::lemma_pow2_pos((k - 54) as nat);
        let p = pow2(k) as int;
        let p54 = pow2(54) as int;
        let rest = pow2((k - 54) as nat) as int;
        assert(p54 == 0x40_0000_0000_0000);
        assert(p >= p54) by (nonlinear_arith)
            requires
                p == p54 * rest,
                rest >= 1,
                p54 > 0,
        ;
        assert(m * s <= p * s) by (nonlinear_arith)
            requires
                m <= p,
                s >= 0,
        ;
        assert((m * s) / p <= s) by (nonlinear_arith)
            requires
                m * s <= p * s,
                p > 0,
                m >= 0,
                s >= 0,
        ;
    }
}

/// Every binary64 pattern stands for a score.
pub proof fn lemma_f64_billionths_bounded(bits: u64)
    ensures
        f64_billionths(bits) <= SCALE,
{
    lemma_f64_scaled_bounded(bits, SCALE as nat);
}

/// The score of a binary64 number between 0 and 1 reaches a whole
/// percentage exactly where a real number that rounds to the binary64
/// number does: where the upper end of these numbers reaches it.
pub proof fn lemma_f64_reaches_percent(bits: u64, percent: nat)
    requires
        !f64_negative(bits),
        f64_exponent(bits) < 1023,
    ensures
        f64_billionths(bits) >= percent * PERCENT <==> (2 * f64_mantissa(bits) + 1) * 100 >= percent
            * pow2(f64_shift(bits) + 1),
{
    vstd::arithmetic::power2::lemma_pow2_pos(f64_shift(bits) + 1);
    lemma_ratio_reaches_percent(2 * f64_mantissa(bits) + 1, pow2(f64_shift(bits) + 1), percent);
}

/// What stands for the binary64 number with the given pattern on a scale
/// from zero to `scale`.
pub fn scale_f64(bits: u64, scale: u64) -> (r: u64)
    requires
        scale <= FINE,
    ensures
        r == f64_scaled(bits, scale as nat),
        r <= scale,
{
    let exponent: u64 = (bits / 0x10_0000_0000_0000) % 0x800;
    let fraction: u64 = bits % 0x10_0000_0000_0000;
    proof {
        lemma_f64_scaled_bounded(bits, scale as nat);
    }
    if bits >= 0x8000_0000_0000_0000 {
        0
    } else if exponent == 0x7ff {
        if fraction == 0 {
            scale
        } else {
            0
        }
    } else if exponent >= 1023 {
        scale
    } else {
        let mantissa: u64 = if exponent == 0 {
            fraction
        } else {
            0x10_0000_0000_0000 + fraction
        };
        let upper: u64 = 2 * mantissa + 1;
        let shift: u64 = if exponent == 0 {
            1075
        } else {
            1076 - exponent
        };
        assert(upper * scale <= 0x40_0000_0000_0000 * FINE) by (nonlinear_arith)
            requires
                upper <= 0x40_0000_0000_0000,
                scale <= FINE,
        ;
        let scaled: u128 = (upper as u128) * (scale as u128);
        if shift >= 128 {
            proof {
                vstd::arithmetic::power2::lemma2_to64_rest();
                vstd::arithmetic::power2::lemma_pow2_adds(64, 64);
                vstd::arithmetic::power2::lemma_pow2_adds(128, (shift - 128) as nat);
                vstd::arithmetic::power2::lemma_pow2_pos((shift - 128) as nat);
                let p = pow2(shift as nat) as int;
                let p128 = pow2(128) as int;
                let rest = pow2((shift - 128) as nat) as int;
                assert(p >= p128) by (nonlinear_arith)
                    requires
                        p == p128 * rest,
                        rest >= 1,
                        p128 > 0,
                ;
                assert(p128 == 0x1_0000_0000_0000_0000 * 0x1_0000_0000_0000_0000);
                assert(scaled < p);
                assert(scaled as int / p == 0) by (nonlinear_arith)
                    requires
                        0 <= scaled < p,
                ;
            }
            0
        } else {
            let q: u128 = scaled >> (shift as u128);
            proof {
                vstd::bits::lemma_u128_shr_is_div(scaled, shift as u128);
            }
            q as u64
        }
    }
}

impl Score {
    /// Every score is at most one.
    #[verifier::type_invariant]
    pub open spec fn in_range(self) -> bool {
        self@ <= SCALE
    }

    /// The score of no similarity at all.
    pub fn zero() -> (r: Score)
        ensures
            r@ == 0,
    {
        Score { billionths: 0 }
    }

    /// The score of identity.
    pub fn one() -> (r: Score)
        ensures
            r@ == SCALE,
    {
        Score { billionths: SCALE }
    }

    /// The score with the given number of billionths, or one where the
    /// number is larger than that.
    pub fn from_billionths(billionths: u64) -> (r: Score)
        ensures
            r@ == lesser(billionths as nat, SCALE as nat),
    {
        if billionths <= SCALE {
            Score { billionths }
        } else {
            Score { billionths: SCALE }
        }
    }

    /// The number of billionths in this score.
    pub fn billionths(&self) -> (b: u64)
        ensures
            b == self@,
            b <= SCALE,
    {
        proof {
            use_type_invariant(self);
        }
        self.billionths
    }

    /// The score of `num` parts out of `den`, rounded down.
    pub fn from_ratio(num: usize, den: usize) -> (r: Score)
        requires
            0 < den,
            num <= den,
        ensures
            r@ == ratio_billionths(num as nat, den as nat),
    {
        Score::from_wide_ratio(num as u128, den as u128)
    }

    /// The score of `num` parts out of `den`, rounded down, for counts
    /// that may be sums of two lengths.
    pub fn from_wide_ratio(num: u128, den: u128) -> (r: Score)
        requires
            0 < den,
            num <= den,
            den <= 2 * u64::MAX,
        ensures
            r@ == ratio_billionths(num as nat, den as nat),
    {
        proof {
            lemma_ratio_bounded(num as nat, den as nat);
            assert(num * SCALE <= (2 * u64::MAX) * SCALE) by (nonlinear_arith)
                requires
                    num <= 2 * u64::MAX,
            ;
        }
        let scaled: u128 = num * (SCALE as u128);
        let q: u128 = scaled / den;
        Score { billionths: q as u64 }
    }

    /// The score of a whole percentage; one for a percentage above 100.
    pub fn from_percent(percent: u8) -> (r: Score)
        ensures
            r@ == lesser(percent as nat * PERCENT as nat, SCALE as nat),
    {
        Score::from_billionths((percent as u64) * PERCENT)
    }

    /// The whole percentage in this score, rounded down.
    pub fn percent(&self) -> (p: u8)
        ensures
            p == self@ / (PERCENT as nat),
            p <= 100,
    {
        proof {
            use_type_invariant(self);
        }
        (self.billionths / PERCENT) as u8
    }

    /// The score that stands for a binary64 number, given by its bit
    /// pattern.
    pub fn from_f64_bits(bits: u64) -> (r: Score)
        ensures
            r@ == f64_billionths(bits),
    {
        Score { billionths: scale_f64(bits, SCALE) }
    }

    /// The weighted mean of three parts, which are given in fine parts
    /// with weights in tenths, rounded to the nearest billionth.
    pub fn blend(wa: u8, a: u64, wb: u8, b: u64, wc: u8, c: u64) -> (r: Score)
        requires
            wa + wb + wc == 10,
            a <= FINE,
            b <= FINE,
            c <= FINE,
        ensures
            r@ == rounded_blend(wa as nat, a as nat, wb as nat, b as nat, wc as nat, c as nat),
    {
        proof {
            lemma_rounded_blend(wa as nat, a as nat, wb as nat, b as nat, wc as nat, c as nat);
            let f = FINE as int;
            assert(wa * a <= 10 * f) by (nonlinear_arith)
                requires
                    a <= f,
                    0 <= wa <= 10,
            ;
            assert(wb * b <= 10 * f) by (nonlinear_arith)
                requires
                    b <= f,
                    0 <= wb <= 10,
            ;
            assert(wc * c <= 10 * f) by (nonlinear_arith)
                requires
                    c <= f,
                    0 <= wc <= 10,
            ;
        }
        let sum: u128 = (wa as u128) * (a as u128) + (wb as u128) * (b as u128) + (wc as u128) * (
        c as u128) + (HALF_STEP as u128);
        let q: u128 = sum / (STEP as u128);
        Score { billionths: q as u64 }
    }

    /// The smaller of two scores.
    pub fn least(self, other: Score) -> (r: Score)
        ensures
            r@ == lesser(self@, other@),
    {
        if self.billionths <= other.billionths {
            self
        } else {
            other
        }
    }
}

} // verus!
