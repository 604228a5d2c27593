//! Numbers in the IEEE 754 binary64 format, read from their bit patterns.
//!
//! A bit pattern is a sign bit, eleven exponent bits and 52 fraction bits.
//! Everything here works on the pattern as a `u64`, and every contract speaks of
//! the number that the pattern stands for.
use vstd::arithmetic::power2::*;
use vstd::prelude::*;

use crate::text::Position;

verus! {

/// The number of fractions per exponent, two to the power of 52.
pub const FRACTIONS: u64 = 0x0010_0000_0000_0000;

/// The pattern of negative zero: the sign bit alone.
pub const NEGATIVE_ZERO: u64 = 0x8000_0000_0000_0000;

/// The pattern of positive infinity; the patterns of positive numbers lie below it.
pub const INFINITY: u64 = 0x7ff0_0000_0000_0000;

/// The pattern of one half.
pub const HALF: u64 = 0x3fe0_0000_0000_0000;

/// The pattern of one.
pub const ONE: u64 = 0x3ff0_0000_0000_0000;

/// The pattern of thirty.
pub const THIRTY: u64 = 0x403e_0000_0000_0000;

/// The pattern of two to the power of 64.
pub const TWO_POW_64: u64 = 0x43f0_0000_0000_0000;

/// Whether the sign bit is set.
pub open spec fn is_negative(bits: u64) -> bool {
    bits >= NEGATIVE_ZERO
}

/// The pattern without its sign bit.
pub open spec fn unsigned(bits: u64) -> u64 {
    if is_negative(bits) {
        (bits - NEGATIVE_ZERO) as u64
    } else {
        bits
    }
}

/// Whether the pattern stands for a number, not for an infinity or for none.
pub open spec fn is_finite(bits: u64) -> bool {
    unsigned(bits) < INFINITY
}

/// The absolute value of the number, in units of two to the power of -1074.
pub open spec fn magnitude(bits: u64) -> nat {
    let exponent = (unsigned(bits) / FRACTIONS) as nat;
    let fraction = (unsigned(bits) % FRACTIONS) as nat;
    if exponent == 0 {
        fraction
    } else {
        (FRACTIONS + fraction) as nat * pow2((exponent - 1) as nat)
    }
}

/// The number, in units of two to the power of -1074.
pub open spec fn value(bits: u64) -> int {
    if is_negative(bits) {
        -(magnitude(bits) as int)
    } else {
        magnitude(bits) as int
    }
}

/// The number one, in units of two to the power of -1074.
pub open spec fn unit() -> nat {
    pow2(1074)
}

/// Patterns without a sign stand in the order of their magnitudes.
pub proof fn lemma_magnitude_monotone(a: u64, b: u64)
    requires
        a < b < INFINITY,
    ensures
        magnitude(a) < magnitude(b),
{
    let (ea, fa) = ((a / FRACTIONS) as nat, (a % FRACTIONS) as nat);
    let (eb, fb) = ((b / FRACTIONS) as nat, (b % FRACTIONS) as nat);
    let one = FRACTIONS as nat;
    assert(ea <= eb);
    if eb > 0 {
        lemma_pow2_pos((eb - 1) as nat);
        if ea == eb {
            let p = pow2((ea - 1) as nat);
            assert((one + fa) * p < (one + fb) * p) by (nonlinear_arith)
                requires
                    fa < fb,
                    p > 0,
            ;
        } else {
            let p = pow2((eb - 1) as nat);
            assert((one + fb) * p >= one * p) by (nonlinear_arith)
                requires
                    p > 0,
                    one + fb >= one,
            ;
            if ea == 0 {
                assert(one * p >= one) by (nonlinear_arith)
                    requires
                        p > 0,
                ;
            } else {
                let q = pow2((ea - 1) as nat);
                let r = pow2((eb - ea) as nat);
                lemma_pow2_pos((ea - 1) as nat);
                lemma_pow2_adds((ea - 1) as nat, (eb - ea) as nat);
                assert(r >= 2) by {
                    lemma_pow2_unfold((eb - ea) as nat);
                    lemma_pow2_pos((eb - ea - 1) as nat);
                }
                assert(one * (q * r) > (one + fa) * q) by (nonlinear_arith)
                    requires
                        q > 0,
                        r >= 2,
                        fa < one,
                ;
            }
        }
    }
}

/// Finite patterns without a sign compare as the numbers they stand for.
pub proof fn lemma_order(a: u64, b: u64)
    requires
        a < INFINITY,
        b < INFINITY,
    ensures
        value(a) < value(b) <==> a < b,
        value(a) == value(b) <==> a == b,
{
    if a < b {
        lemma_magnitude_monotone(a, b);
    } else if b < a {
        lemma_magnitude_monotone(b, a);
    }
}

/// The number of a power of two.
proof fn lemma_power(exponent: nat)
    requires
        1 <= exponent < 2047,
    ensures
        exponent * FRACTIONS < INFINITY,
        value((exponent * FRACTIONS) as u64) == pow2((exponent + 51) as nat),
{
    let bits = (exponent * FRACTIONS) as u64;
    assert(bits / FRACTIONS == exponent && bits % FRACTIONS == 0);
    assert(FRACTIONS == pow2(52)) by {
        lemma2_to64_rest();
    }
    lemma_pow2_adds(52, (exponent - 1) as nat);
}

/// The numbers that the named patterns stand for.
pub proof fn lemma_constants()
    ensures
        value(0) == 0,
        value(NEGATIVE_ZERO) == 0,
        2 * value(HALF) == unit(),
        value(ONE) == unit(),
        value(THIRTY) == 30 * unit(),
        value(TWO_POW_64) == pow2(64) * unit(),
{
    lemma_power(1022);
    lemma_power(1023);
    lemma_power(1087);
    lemma_pow2_adds(64, 1074);
    lemma_pow2_unfold(1074);
    assert(THIRTY / FRACTIONS == 1027 && THIRTY % FRACTIONS == 0x000e_0000_0000_0000);
    lemma_pow2_adds(1026, 48);
    assert(pow2(48) == 0x0001_0000_0000_0000) by {
        lemma2_to64_rest();
    }
    let p = pow2(1026);
    assert((FRACTIONS + 0x000e_0000_0000_0000) as nat == 30 * 0x0001_0000_0000_0000);
    assert(30 * 0x0001_0000_0000_0000 * p == 30 * (p * 0x0001_0000_0000_0000)) by (nonlinear_arith);
}

/// Whether the pattern stands for a number from zero to one, both included.
pub open spec fn is_probability(bits: u64) -> bool {
    is_finite(bits) && 0 <= value(bits) <= unit()
}

/// Whether the pattern stands for a number that is not negative.
pub open spec fn is_nonnegative(bits: u64) -> bool {
    is_finite(bits) && 0 <= value(bits)
}

/// A negative pattern stands for a number below zero, but for negative zero.
proof fn lemma_negative(bits: u64)
    requires
        is_negative(bits),
        is_finite(bits),
    ensures
        value(bits) <= 0,
        value(bits) == 0 <==> bits == NEGATIVE_ZERO,
{
    lemma_constants();
    if bits != NEGATIVE_ZERO {
        lemma_magnitude_monotone(0, unsigned(bits));
    }
}

/// Whether the pattern stands for a number that is not negative.
pub fn nonnegative(bits: u64) -> (result: bool)
    ensures
        result == is_nonnegative(bits),
{
    proof {
        if is_negative(bits) && is_finite(bits) {
            lemma_negative(bits);
        }
    }
    bits < INFINITY || bits == NEGATIVE_ZERO
}

/// The pattern of the same number without the sign of a negative zero.
fn without_sign(bits: u64) -> (result: u64)
    requires
        is_nonnegative(bits),
    ensures
        result < INFINITY,
        value(result) == value(bits),
{
    proof {
        lemma_constants();
        if is_negative(bits) {
            lemma_negative(bits);
        }
    }
    if bits == NEGATIVE_ZERO {
        0
    } else {
        bits
    }
}

/// Where the number of `a` stands to the number of `b`.
pub fn position(a: u64, b: u64) -> (result: Position)
    requires
        is_nonnegative(a),
        is_nonnegative(b),
    ensures
        match result {
            Position::Before => value(a) < value(b),
            Position::Same => value(a) == value(b),
            Position::After => value(a) > value(b),
        },
{
    let left = without_sign(a);
    let right = without_sign(b);
    proof {
        lemma_order(left, right);
        lemma_order(right, left);
    }
    if left < right {
        Position::Before
    } else if left > right {
        Position::After
    } else {
        Position::Same
    }
}

/// The pattern of two to the power of `power`, halved.
pub fn half_power(power: u32) -> (bits: u64)
    requires
        power <= 10,
    ensures
        is_nonnegative(bits),
        2 * value(bits) == pow2(power as nat) * unit(),
{
    proof {
        lemma_power((1022 + power) as nat);
        lemma_pow2_adds(power as nat, 1074);
        lemma_pow2_unfold((1074 + power) as nat);
    }
    HALF + power as u64 * FRACTIONS
}

/// The integer nearest to `numerator / denominator`; of two that are equally near, the
/// even one.
pub open spec fn rounded(numerator: int, denominator: int) -> int {
    let quotient = numerator / denominator;
    let twice = 2 * (numerator % denominator);
    if twice > denominator || (twice == denominator && quotient % 2 == 1) {
        quotient + 1
    } else {
        quotient
    }
}

/// Rounding does not depend on how far a fraction is reduced.
proof fn lemma_rounded(numerator: int, denominator: int, factor: int)
    requires
        numerator >= 0,
        denominator > 0,
        factor > 0,
    ensures
        rounded(numerator * factor, denominator * factor) == rounded(numerator, denominator),
{
    let (n, d) = (numerator, denominator);
    let (q, r) = (n / d, n % d);
    vstd::arithmetic::div_mod::lemma_fundamental_div_mod(n, d);
    assert(n * factor == q * (d * factor) + r * factor) by (nonlinear_arith)
        requires
            n == d * q + r,
    ;
    assert(0 <= r * factor < d * factor) by (nonlinear_arith)
        requires
            0 <= r < d,
            factor > 0,
    ;
    vstd::arithmetic::div_mod::lemma_fundamental_div_mod_converse(
        n * factor,
        d * factor,
        q,
        r * factor,
    );
    assert((2 * r > d) == (2 * (r * factor) > d * factor)) by (nonlinear_arith)
        requires
            factor > 0,
    ;
    assert((2 * r == d) == (2 * (r * factor) == d * factor)) by (nonlinear_arith)
        requires
            factor > 0,
    ;
}

/// What is less than one half rounds to zero.
proof fn lemma_rounded_to_zero(numerator: int, denominator: int)
    requires
        0 <= 2 * numerator < denominator,
    ensures
        rounded(numerator, denominator) == 0,
{
    vstd::arithmetic::div_mod::lemma_fundamental_div_mod_converse(
        numerator,
        denominator,
        0,
        numerator,
    );
}

/// Rounding passes no integer.
proof fn lemma_rounded_at_most(numerator: int, denominator: int, limit: int)
    requires
        numerator <= limit * denominator,
        denominator > 0,
    ensures
        rounded(numerator, denominator) <= limit,
{
    let (q, r) = (numerator / denominator, numerator % denominator);
    vstd::arithmetic::div_mod::lemma_fundamental_div_mod(numerator, denominator);
    assert(q < limit || (q == limit && r == 0)) by (nonlinear_arith)
        requires
            denominator * q + r <= limit * denominator,
            0 <= r < denominator,
    ;
}

/// A number in thousandths, rounded to the nearest.
pub open spec fn thousandths(bits: u64) -> int {
    rounded(1000 * value(bits), unit() as int)
}

/// A probability.
#[derive(Clone, Copy, Debug, PartialEq)]
pub struct Score {
    bits: u64,
}

impl Score {
    #[verifier::type_invariant]
    spec fn valid(self) -> bool {
        is_probability(self.bits)
    }

    /// The bit pattern of the probability.
    pub closed spec fn pattern(self) -> u64 {
        self.bits
    }

    /// The probability, in units of two to the power of -1074.
    pub open spec fn value(self) -> int {
        value(self.pattern())
    }

    /// The probability with this bit pattern, if it is the pattern of one.
    pub fn new(bits: u64) -> (score: Option<Score>)
        ensures
            match score {
                Some(score) => is_probability(bits) && score.pattern() == bits,
                None => !is_probability(bits),
            },
    {
        proof {
            lemma_constants();
            if is_negative(bits) && is_finite(bits) {
                lemma_negative(bits);
            }
            if bits < INFINITY {
                lemma_order(ONE, bits);
            }
        }
        if bits <= ONE || bits == NEGATIVE_ZERO {
            Some(Score { bits })
        } else {
            None
        }
    }

    /// The bit pattern of the probability.
    pub fn bits(&self) -> (bits: u64)
        ensures
            bits == self.pattern(),
            is_probability(bits),
    {
        proof {
            use_type_invariant(self);
        }
        self.bits
    }

    /// The probability in thousandths, rounded to the nearest.
    pub fn thousandths(&self) -> (count: u64)
        ensures
            count == thousandths(self.pattern()),
            count <= 1000,
    {
        proof {
            use_type_invariant(self);
            lemma_constants();
            lemma2_to64();
            lemma2_to64_rest();
            lemma_pow2_strictly_increases(64, 1074);
            lemma_rounded_at_most(1000 * self.value(), unit() as int, 1000);
        }
        let bits = without_sign(self.bits);
        let exponent: u64 = bits / FRACTIONS;
        let fraction: u64 = bits % FRACTIONS;
        proof {
            lemma_order(ONE, bits);
            assert(exponent <= 1023);
        }
        if exponent == 0 {
            proof {
                lemma_rounded_to_zero(1000 * fraction as int, unit() as int);
            }
            return 0;
        }
        let scaled: u64 = 1000 * (FRACTIONS + fraction);
        let shift: u64 = 1075 - exponent;
        let ghost factor = pow2((exponent - 1) as nat) as int;
        proof {
            lemma_pow2_pos((exponent - 1) as nat);
            lemma_pow2_adds(shift as nat, (exponent - 1) as nat);
            lemma_pow2_pos(shift as nat);
            assert(1000 * ((FRACTIONS + fraction) * factor) == scaled * factor)
                by (nonlinear_arith)
                requires
                    scaled == 1000 * (FRACTIONS + fraction),
            ;
            lemma_rounded(scaled as int, pow2(shift as nat) as int, factor);
        }
        if shift > 63 {
            proof {
                if shift > 64 {
                    lemma_pow2_strictly_increases(64, shift as nat);
                }
                lemma_rounded_to_zero(scaled as int, pow2(shift as nat) as int);
            }
            return 0;
        }
        proof {
            vstd::bits::lemma_u64_pow2_no_overflow(shift as nat);
            vstd::bits::lemma_u64_shl_is_mul(1, shift);
            lemma_pow2_unfold(shift as nat);
        }
        let divisor: u64 = 1u64 << shift;
        let quotient: u64 = scaled / divisor;
        let rest: u64 = scaled % divisor;
        let half: u64 = divisor / 2;
        proof {
            if shift > 52 {
                lemma_pow2_strictly_increases(52, shift as nat);
            }
        }
        if rest > half || (rest == half && quotient % 2 == 1) {
            quotient + 1
        } else {
            quotient
        }
    }

    /// Where this probability stands to another.
    pub fn position(&self, other: &Score) -> (result: Position)
        ensures
            match result {
                Position::Before => self.value() < other.value(),
                Position::Same => self.value() == other.value(),
                Position::After => self.value() > other.value(),
            },
    {
        proof {
            use_type_invariant(self);
            use_type_invariant(other);
        }
        position(self.bits, other.bits)
    }
}

/// What a bit pattern stands for: a sign, an exponent `e` of eleven bits and a fraction
/// `f` of 52 bits stand for `f` units where the exponent is zero, else for
/// `(2^52 + f) * 2^(e - 1)` units, of which `2^1074` are one.
pub proof fn law_bit_patterns(negative: bool, e: u64, f: u64)
    requires
        e < 2047,
        f < 0x0010_0000_0000_0000,
    ensures
        ({
            let bits = e * 0x0010_0000_0000_0000 + f + if negative {
                0x8000_0000_0000_0000int
            } else {
                0
            };
            let size = if e == 0 {
                f as int
            } else {
                (0x0010_0000_0000_0000 + f) * pow2((e - 1) as nat)
            };
            &&& 0 <= bits <= u64::MAX
            &&& is_finite(bits as u64)
            &&& value(bits as u64) == if negative {
                -size
            } else {
                size
            }
        }),
        unit() == pow2(1074),
{
    let low = e * 0x0010_0000_0000_0000 + f;
    assert(low / 0x0010_0000_0000_0000 == e) by {
        vstd::arithmetic::div_mod::lemma_fundamental_div_mod_converse(
            low,
            0x0010_0000_0000_0000,
            e as int,
            f as int,
        );
    }
    assert(low % 0x0010_0000_0000_0000 == f);
}

/// What is no number is no probability, nor is what lies outside zero and one.
pub proof fn law_probabilities(bits: u64)
    ensures
        is_probability(bits) <==> is_finite(bits) && value(bits) >= 0 && value(bits) <= pow2(1074),
        is_nonnegative(bits) <==> is_finite(bits) && value(bits) >= 0,
        is_finite(bits) <==> bits < 0x7ff0_0000_0000_0000 || 0x8000_0000_0000_0000 <= bits
            < 0xfff0_0000_0000_0000,
{
}

/// Thousandths are the nearest: the number lies at most half a thousandth away, and
/// where it lies that far, the count is even.
pub proof fn law_thousandths_are_nearest(bits: u64)
    requires
        is_probability(bits),
    ensures
        ({
            let off = 2 * (1000 * value(bits) - thousandths(bits) * unit());
            &&& -unit() <= off <= unit()
            &&& off == unit() || off == -unit() ==> thousandths(bits) % 2 == 0
        }),
        0 <= thousandths(bits) <= 1000,
{
    let (n, d) = (1000 * value(bits), unit() as int);
    lemma_pow2_pos(1074);
    let (q, r) = (n / d, n % d);
    vstd::arithmetic::div_mod::lemma_fundamental_div_mod(n, d);
    assert(n == q * d + r) by (nonlinear_arith)
        requires
            n == d * q + r,
    ;
    assert((q + 1) * d == q * d + d) by (nonlinear_arith);
    lemma_rounded_at_most(n, d, 1000);
    assert(q >= 0) by (nonlinear_arith)
        requires
            n >= 0,
            n == q * d + r,
            0 <= r < d,
    ;
}

} // verus!
