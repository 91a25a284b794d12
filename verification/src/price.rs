//! Prices as exact, comparable fixed-point keys.
//!
//! A price arrives as a binary64 bit pattern and is split into a whole part
//! and a count of hundred-thousandths. The split is the one that binary64
//! arithmetic yields: the whole part is the number rounded toward zero, and
//! the fractional part is the remainder below one, scaled by [`SCALAR`],
//! rounded once to binary64 precision and then toward zero. Two patterns
//! that split alike are one price, whatever they differ in beyond the fifth
//! decimal digit.
//!
//! Known limits, kept as they are: the rounding of the scaled remainder can
//! lift it to the next unit (see [`lemma_fractional_accuracy`]); a whole
//! part of two to the sixty-fourth or more is held at the largest value;
//! and numbers below zero, which are not meant to be prices, all become
//! zero.

use vstd::prelude::*;
use vstd::arithmetic::div_mod::{
    lemma_basic_div,
    lemma_div_by_multiple,
    lemma_div_is_ordered,
    lemma_fundamental_div_mod,
    lemma_mod_bound,
    lemma_mod_decreases,
    lemma_mod_multiples_basic,
    lemma_multiply_divide_lt,
    lemma_small_mod,
};
use vstd::arithmetic::mul::lemma_mul_is_commutative;
use vstd::arithmetic::power2::{
    lemma2_to64,
    lemma2_to64_rest,
    lemma_pow2_adds,
    lemma_pow2_pos,
    lemma_pow2_strictly_increases,
    lemma_pow2_unfold,
    pow2,
};
use vstd::bits::{lemma_u64_shl_is_mul, lemma_u64_shr_is_div};
use crate::binary64::{Binary64, HIDDEN_BIT};
use crate::rounding::{
    lemma_round_is_nearest,
    lemma_round_keeps_side,
    lemma_spacing_bound,
    round,
    round_to_precision,
    spacing,
    SIGNIFICAND_LIMIT,
};

verus! {

/// The number of fractional units in one whole: five decimal digits.
pub const SCALAR: u64 = 100_000;

/// What a [`Price`] holds, as plain numbers.
pub struct PriceView {
    pub integral: nat,
    pub fractional: nat,
    pub scalar: nat,
}

impl PriceView {
    /// Every price shares the one scalar, its fractional part stays below
    /// it, and its whole part fits in sixty-four bits.
    pub open spec fn wf(self) -> bool {
        &&& self.integral <= u64::MAX
        &&& self.fractional < SCALAR
        &&& self.scalar == SCALAR
    }

    /// The number under which a book files this price: the whole part in
    /// the high sixty-four bits, the fractional part in the low ones.
    pub open spec fn key(self) -> nat {
        self.integral * 0x1_0000_0000_0000_0000 + self.fractional
    }

    /// Two well-formed prices share a key only if they are the same price.
    pub proof fn lemma_key_injective(self, other: PriceView)
        requires
            self.wf(),
            other.wf(),
        ensures
            self.key() == other.key() <==> self == other,
            self.key() <= u128::MAX,
    {
    }
}

/// The whole part of a price: the number rounded toward zero and held in
/// sixty-four bits. Numbers below zero and NaN give zero; numbers too large,
/// positive infinity among them, give the largest value.
pub open spec fn quantized_integral(number: Binary64) -> nat {
    match number {
        Binary64::Nan => 0,
        Binary64::Infinite { negative } => if negative {
            0
        } else {
            u64::MAX as nat
        },
        Binary64::Finite { negative, .. } => if negative {
            0
        } else if number.whole() > u64::MAX {
            u64::MAX as nat
        } else {
            number.whole()
        },
    }
}

/// The fractional part of a price, in units of one over [`SCALAR`].
///
/// The remainder below one is scaled exactly, the product is rounded to
/// binary64 precision, and what lies below one unit is dropped. Numbers
/// below zero, infinities and NaN give zero.
pub open spec fn quantized_fractional(number: Binary64) -> nat {
    match number {
        Binary64::Finite { negative, .. } => if negative {
            0
        } else {
            round_to_precision(number.remainder() * SCALAR as nat) / pow2(number.fraction_digits())
        },
        _ => 0,
    }
}

/// The price that the binary64 pattern `bits` quantizes to.
pub open spec fn quantize(bits: u64) -> PriceView {
    PriceView {
        integral: quantized_integral(Binary64::of_bits(bits)),
        fractional: quantized_fractional(Binary64::of_bits(bits)),
        scalar: SCALAR as nat,
    }
}

/// A price: a whole part, a fractional part counted in units of one over
/// the scalar, and the scalar itself, which is the same for every price.
///
/// Prices are equal when their three parts are equal.
#[derive(Debug, Clone, Copy, PartialEq, Eq, Hash, Structural)]
pub struct Price {
    integral: u64,
    fractional: u64,
    scalar: u64,
}

impl View for Price {
    type V = PriceView;

    closed spec fn view(&self) -> PriceView {
        PriceView {
            integral: self.integral as nat,
            fractional: self.fractional as nat,
            scalar: self.scalar as nat,
        }
    }
}

impl Price {
    #[verifier::type_invariant]
    spec fn inv(self) -> bool {
        self@.wf()
    }

    /// Quantizes the price whose binary64 bit pattern is `price`.
    ///
    /// Every pattern is accepted. Numbers below zero are not meant to be
    /// prices and all quantize to zero, as does NaN; a whole part that does
    /// not fit in sixty-four bits is held at the largest value.
    pub fn new(price: u64) -> (quantized: Price)
        ensures
            quantized@ == quantize(price),
    {
        let number = Binary64::from_bits(price);
        proof {
            lemma_quantize_wf(price);
        }
        Price { integral: integral_of(number), fractional: fractional_of(number), scalar: SCALAR }
    }

    /// The whole part.
    pub fn integral(&self) -> (integral: u64)
        ensures
            integral == self@.integral,
    {
        self.integral
    }

    /// The fractional part, in units of one over the scalar.
    pub fn fractional(&self) -> (fractional: u64)
        ensures
            fractional == self@.fractional,
            fractional < SCALAR,
    {
        proof {
            use_type_invariant(self);
        }
        self.fractional
    }

    /// The number of fractional units in one whole.
    pub fn scalar(&self) -> (scalar: u64)
        ensures
            scalar == self@.scalar,
            scalar == SCALAR,
    {
        proof {
            use_type_invariant(self);
        }
        self.scalar
    }

    /// The number under which a book files this price.
    pub fn key(&self) -> (key: u128)
        ensures
            key == self@.key(),
            self@.wf(),
    {
        proof {
            use_type_invariant(self);
        }
        (self.integral as u128) * 0x1_0000_0000_0000_0000 + (self.fractional as u128)
    }

    /// Prices with the same parts are the same price.
    pub proof fn lemma_view_injective(self, other: Price)
        ensures
            self@ == other@ <==> self == other,
    {
    }

    /// Quantization is a function of the bit pattern: two prices quantized
    /// from one pattern are the same price, and a book files them under one
    /// key.
    pub proof fn lemma_quantization_deterministic(self, other: Price, bits: u64)
        requires
            self@ == quantize(bits),
            other@ == quantize(bits),
        ensures
            self == other,
            self@.key() == other@.key(),
    {
    }
}

/// Every quantized price is well formed.
pub proof fn lemma_quantize_wf(bits: u64)
    ensures
        quantize(bits).wf(),
{
    let number = Binary64::of_bits(bits);
    Binary64::lemma_of_bits_wf(bits);
    if let Binary64::Finite { negative, significand, exponent } = number {
        if !negative {
            let digits = number.fraction_digits();
            lemma_pow2_pos(digits);
            if exponent < 0 {
                lemma_mod_bound(significand as int, pow2(digits) as int);
                lemma_mod_decreases(significand as nat, pow2(digits));
            }
            lemma_scaled_remainder_bound(number.remainder(), digits);
        }
    }
}

/// The fractional part is the number of whole units in the exactly scaled
/// remainder, or one more: one more only where the scaled remainder lies so
/// closely below a whole unit that rounding it to binary64 precision
/// reaches that unit.
pub proof fn lemma_fractional_accuracy(number: Binary64)
    requires
        number.wf(),
        number matches Binary64::Finite { negative, .. } && !negative,
    ensures
        ({
            let exact = number.remainder() * SCALAR as nat / pow2(number.fraction_digits());
            exact <= quantized_fractional(number) <= exact + 1
        }),
{
    let denominator = pow2(number.fraction_digits());
    let product = number.remainder() * SCALAR as nat;
    let exact = product / denominator;
    let unit = spacing(product);
    let low = exact * denominator;
    let high = (exact + 1) * denominator;
    lemma_pow2_pos(number.fraction_digits());
    lemma_spacing_divides_denominator(number);
    lemma_fundamental_div_mod(product as int, denominator as int);
    lemma_mul_is_commutative(exact as int, denominator as int);
    assert(high == low + denominator) by (nonlinear_arith)
        requires
            low == exact * denominator,
            high == (exact + 1) * denominator,
    ;
    lemma_multiple_of_multiple(exact, denominator, unit);
    lemma_multiple_of_multiple(exact + 1, denominator, unit);
    lemma_round_keeps_side(product, unit, low);
    lemma_round_keeps_side(product, unit, high);
    let rounded = round_to_precision(product);
    lemma_div_is_ordered(low as int, rounded as int, denominator as int);
    lemma_div_is_ordered(rounded as int, high as int, denominator as int);
    lemma_div_by_multiple(exact as int, denominator as int);
    lemma_div_by_multiple(exact as int + 1, denominator as int);
}

/// A number that is a whole count of units is quantized without loss: its
/// fractional part is that count, exactly.
pub proof fn lemma_exact_on_grid(number: Binary64)
    requires
        number.wf(),
        number matches Binary64::Finite { negative, .. } && !negative,
        (number.remainder() * SCALAR as nat) % pow2(number.fraction_digits()) == 0,
    ensures
        quantized_fractional(number) * pow2(number.fraction_digits()) == number.remainder()
            * SCALAR as nat,
{
    let denominator = pow2(number.fraction_digits());
    let product = number.remainder() * SCALAR as nat;
    let exact = product / denominator;
    let unit = spacing(product);
    lemma_pow2_pos(number.fraction_digits());
    lemma_spacing_divides_denominator(number);
    lemma_fundamental_div_mod(product as int, denominator as int);
    lemma_mul_is_commutative(exact as int, denominator as int);
    lemma_multiple_of_multiple(exact, denominator, unit);
    lemma_round_keeps_side(product, unit, product);
}

/// Computes [`quantized_integral`].
fn integral_of(number: Binary64) -> (integral: u64)
    requires
        number.wf(),
    ensures
        integral == quantized_integral(number),
{
    match number {
        Binary64::Nan => 0,
        Binary64::Infinite { negative } => if negative {
            0
        } else {
            u64::MAX
        },
        Binary64::Finite { negative, significand, exponent } => {
            if negative {
                0
            } else if exponent >= 12 {
                proof {
                    lemma_whole_saturates(significand, exponent as nat);
                }
                u64::MAX
            } else if exponent >= 0 {
                proof {
                    lemma_whole_fits(significand, exponent as nat);
                    lemma_u64_shl_is_mul(significand, exponent as u64);
                }
                significand << (exponent as u64)
            } else if exponent <= -64 {
                proof {
                    lemma2_to64();
                    if exponent < -64 {
                        lemma_pow2_strictly_increases(64, (-exponent) as nat);
                    }
                    lemma_basic_div(significand as int, pow2((-exponent) as nat) as int);
                }
                0
            } else {
                proof {
                    lemma_u64_shr_is_div(significand, (-exponent) as u64);
                }
                significand >> ((-exponent) as u64)
            }
        },
    }
}

/// Computes [`quantized_fractional`].
fn fractional_of(number: Binary64) -> (fractional: u64)
    requires
        number.wf(),
    ensures
        fractional == quantized_fractional(number),
{
    match number {
        Binary64::Finite { negative, significand, exponent } => {
            if negative {
                0
            } else if exponent >= 0 {
                proof {
                    assert(round_to_precision(0) == 0);
                    lemma_pow2_pos(0);
                    lemma_basic_div(0, pow2(0) as int);
                }
                0
            } else if exponent <= -70 {
                proof {
                    lemma_below_one_unit(significand, (-exponent) as nat);
                }
                0
            } else {
                let digits: u128 = (-exponent) as u128;
                let denominator: u128 = 1u128 << digits;
                proof {
                    lemma_shl_one_is_pow2(digits);
                    lemma_pow2_pos(digits as nat);
                }
                let remainder: u128 = significand as u128 % denominator;
                proof {
                    lemma_mod_decreases(significand as nat, denominator as nat);
                    lemma_scaled_remainder_bound(remainder as nat, digits as nat);
                }
                let scaled: u128 = round(remainder * (SCALAR as u128));
                (scaled / denominator) as u64
            }
        },
        _ => 0,
    }
}

/// A remainder below one, scaled and rounded, stays below one whole.
proof fn lemma_scaled_remainder_bound(remainder: nat, digits: nat)
    requires
        remainder < SIGNIFICAND_LIMIT,
        remainder < pow2(digits),
    ensures
        round_to_precision(remainder * SCALAR as nat) < (remainder + 1) * SCALAR,
        round_to_precision(remainder * SCALAR as nat) / pow2(digits) < SCALAR,
{
    let product = remainder * SCALAR as nat;
    lemma2_to64();
    lemma_spacing_bound(product, 17);
    lemma_round_is_nearest(product, spacing(product));
    lemma_multiply_divide_lt(
        round_to_precision(product) as int,
        pow2(digits) as int,
        SCALAR as int,
    );
}

/// A number with seventy or more binary digits below the point is too
/// small to reach one unit, even after scaling and rounding.
proof fn lemma_below_one_unit(significand: u64, digits: nat)
    requires
        significand < SIGNIFICAND_LIMIT,
        digits >= 70,
    ensures
        significand as nat % pow2(digits) == significand,
        round_to_precision(significand as nat * SCALAR as nat) / pow2(digits) == 0,
{
    lemma2_to64();
    lemma_pow2_adds(64, 6);
    if digits > 70 {
        lemma_pow2_strictly_increases(70, digits);
    }
    lemma_small_mod(significand as nat, pow2(digits));
    lemma_scaled_remainder_bound(significand as nat, digits);
    lemma_basic_div(
        round_to_precision(significand as nat * SCALAR as nat) as int,
        pow2(digits) as int,
    );
}

/// A normal number with an exponent of twelve or more is at least two to
/// the sixty-fourth.
proof fn lemma_whole_saturates(significand: u64, exponent: nat)
    requires
        significand >= HIDDEN_BIT,
        exponent >= 12,
    ensures
        significand * pow2(exponent) > u64::MAX,
{
    lemma2_to64();
    if exponent > 12 {
        lemma_pow2_strictly_increases(12, exponent);
    }
    assert(significand * pow2(exponent) >= HIDDEN_BIT * 0x1000) by (nonlinear_arith)
        requires
            significand >= HIDDEN_BIT,
            pow2(exponent) >= 0x1000,
    ;
}

/// A significand with an exponent below twelve fits in sixty-four bits.
proof fn lemma_whole_fits(significand: u64, exponent: nat)
    requires
        significand < SIGNIFICAND_LIMIT,
        exponent < 12,
    ensures
        significand * pow2(exponent) <= u64::MAX,
{
    lemma2_to64();
    if exponent < 11 {
        lemma_pow2_strictly_increases(exponent, 11);
    }
    assert(significand * pow2(exponent) <= 0x1f_ffff_ffff_ffff * 0x800) by (nonlinear_arith)
        requires
            significand <= 0x1f_ffff_ffff_ffff,
            pow2(exponent) <= 0x800,
    ;
}

/// The spacing at which the scaled remainder is rounded divides the number
/// of units in one: rounding never lands between two multiples of it.
proof fn lemma_spacing_divides_denominator(number: Binary64)
    requires
        number.wf(),
        number matches Binary64::Finite { negative, .. } && !negative,
    ensures
        spacing(number.remainder() * SCALAR as nat) > 0,
        pow2(number.fraction_digits()) % spacing(number.remainder() * SCALAR as nat) == 0,
{
    let digits = number.fraction_digits();
    let product = number.remainder() * SCALAR as nat;
    lemma_pow2_pos(digits);
    lemma2_to64();
    lemma2_to64_rest();
    if let Binary64::Finite { significand, exponent, .. } = number {
        if exponent < 0 {
            lemma_mod_bound(significand as int, pow2(digits) as int);
            if digits >= 36 {
                let spare = (digits - 36) as nat;
                lemma_pow2_adds(spare, 36);
                lemma_pow2_pos(spare);
                lemma_spacing_bound(product, spare);
                lemma_multiple_of_multiple(pow2(36), pow2(spare), spacing(product));
                assert(pow2(36) * pow2(spare) == pow2(spare) * pow2(36)) by (nonlinear_arith);
            } else {
                lemma_pow2_strictly_increases(digits, 36);
            }
        }
    }
}

/// A multiple of a multiple of `unit` is a multiple of `unit`.
proof fn lemma_multiple_of_multiple(times: nat, multiple: nat, unit: nat)
    requires
        unit > 0,
        multiple % unit == 0,
    ensures
        (times * multiple) % unit == 0,
{
    let steps = multiple / unit;
    lemma_fundamental_div_mod(multiple as int, unit as int);
    lemma_mod_multiples_basic((times * steps) as int, unit as int);
    assert(times * multiple == (times * steps) * unit) by (nonlinear_arith)
        requires
            multiple == unit * steps,
    ;
}

/// Shifting one to the left by `digits` gives two to the `digits`.
proof fn lemma_shl_one_is_pow2(digits: u128)
    requires
        digits < 128,
    ensures
        1u128 << digits == pow2(digits as nat),
    decreases digits,
{
    if digits == 0 {
        assert(1u128 << 0u128 == 1) by (bit_vector);
        lemma2_to64();
    } else {
        let fewer = (digits - 1) as u128;
        lemma_shl_one_is_pow2(fewer);
        assert(1u128 << digits == 2 * (1u128 << fewer)) by (bit_vector)
            requires
                0 < digits < 128,
                fewer == digits - 1,
        ;
        lemma_pow2_unfold(digits as nat);
    }
}

} // verus!
