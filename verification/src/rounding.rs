//! Rounding an exact product to the precision of a binary64 significand.
//!
//! A binary64 number carries fifty-three significant bits. A count of units
//! that needs more bits than that is replaced by the nearest count that does
//! not; of two counts equally near, the one whose significand is even wins.

use vstd::prelude::*;
use vstd::arithmetic::div_mod::{
    lemma_div_by_multiple,
    lemma_div_denominator,
    lemma_div_is_ordered,
    lemma_fundamental_div_mod,
    lemma_mod_multiples_basic,
};
use vstd::arithmetic::mul::{lemma_mul_inequality, lemma_mul_is_commutative};
use vstd::arithmetic::power2::{lemma2_to64, lemma_pow2_pos, lemma_pow2_unfold, pow2};

verus! {

/// The first count that no longer fits in fifty-three bits.
pub const SIGNIFICAND_LIMIT: u128 = 0x20_0000_0000_0000;

/// The distance between neighbouring representable counts around `n`: the
/// least power of two `s` with `n < 2^53 * s`.
pub open spec fn spacing(n: nat) -> nat
    decreases n,
{
    if n < SIGNIFICAND_LIMIT {
        1
    } else {
        2 * spacing(n / 2)
    }
}

/// The multiple of `unit` nearest to `n`; of two equally near, the even
/// multiple.
pub open spec fn round_ties_even(n: nat, unit: nat) -> nat {
    let below = n / unit;
    let excess = n % unit;
    if 2 * excess < unit || (2 * excess == unit && below % 2 == 0) {
        below * unit
    } else {
        (below + 1) * unit
    }
}

/// The representable count nearest to `n`.
pub open spec fn round_to_precision(n: nat) -> nat {
    round_ties_even(n, spacing(n))
}

/// The spacing around a count is the least power of two at which the count
/// takes no more than fifty-three bits.
pub proof fn lemma_spacing_is_least(n: nat)
    ensures
        n < SIGNIFICAND_LIMIT * spacing(n),
        spacing(n) > 1 ==> SIGNIFICAND_LIMIT * spacing(n) <= 2 * n,
        exists|digits: nat| spacing(n) == pow2(digits),
    decreases n,
{
    if n < SIGNIFICAND_LIMIT {
        lemma2_to64();
        assert(spacing(n) == pow2(0));
    } else {
        lemma_spacing_is_least(n / 2);
        let digits = choose|digits: nat| spacing(n / 2) == pow2(digits);
        lemma_pow2_unfold(digits + 1);
        assert(spacing(n) == pow2(digits + 1));
    }
}

/// A count below `2^(53 + digits)` has a spacing that divides `2^digits`,
/// and so is no larger.
pub proof fn lemma_spacing_bound(n: nat, digits: nat)
    requires
        n < SIGNIFICAND_LIMIT * pow2(digits),
    ensures
        0 < spacing(n) <= pow2(digits),
        pow2(digits) % spacing(n) == 0,
    decreases n,
{
    lemma_pow2_pos(digits);
    if n >= SIGNIFICAND_LIMIT {
        if digits == 0 {
            lemma2_to64();
        } else {
            let fewer = (digits - 1) as nat;
            lemma_pow2_unfold(digits);
            lemma_spacing_bound(n / 2, fewer);
            lemma_fundamental_div_mod(pow2(fewer) as int, spacing(n / 2) as int);
            let steps = pow2(fewer) / spacing(n / 2);
            lemma_mod_multiples_basic(steps as int, spacing(n) as int);
            assert(pow2(digits) == steps * spacing(n)) by (nonlinear_arith)
                requires
                    pow2(digits) == 2 * pow2(fewer),
                    spacing(n) == 2 * spacing(n / 2),
                    pow2(fewer) == spacing(n / 2) * steps,
            ;
        }
    }
}

/// Rounding does not cross a multiple of the unit: a multiple at or below
/// the count stays at or below what the count rounds to, and likewise above.
pub proof fn lemma_round_keeps_side(n: nat, unit: nat, mark: nat)
    requires
        unit > 0,
        mark % unit == 0,
    ensures
        mark <= n ==> mark <= round_ties_even(n, unit),
        n <= mark ==> round_ties_even(n, unit) <= mark,
{
    let below = n / unit;
    let steps = mark / unit;
    lemma_fundamental_div_mod(n as int, unit as int);
    lemma_fundamental_div_mod(mark as int, unit as int);
    lemma_mul_is_commutative(unit as int, below as int);
    lemma_mul_is_commutative(unit as int, steps as int);
    assert((below + 1) * unit == below * unit + unit) by (nonlinear_arith);
    if mark <= n {
        lemma_div_is_ordered(mark as int, n as int, unit as int);
        lemma_mul_inequality(steps as int, below as int, unit as int);
    }
    if n <= mark && n % unit != 0 {
        if steps <= below {
            lemma_mul_inequality(steps as int, below as int, unit as int);
        }
        lemma_mul_inequality(below as int + 1, steps as int, unit as int);
    }
}

/// What a count rounds to is the nearest multiple of the unit, ties to
/// even: it is a multiple of the unit, it lies at most half a unit from the
/// count, and where it lies exactly half a unit away it is an even multiple.
pub proof fn lemma_round_is_nearest(n: nat, unit: nat)
    requires
        unit > 0,
    ensures
        ({
            let rounded = round_ties_even(n, unit);
            &&& rounded % unit == 0
            &&& 2 * n <= 2 * rounded + unit
            &&& 2 * rounded <= 2 * n + unit
            &&& 2 * n == 2 * rounded + unit || 2 * rounded == 2 * n + unit ==> (rounded / unit) % 2
                == 0
        }),
{
    let below = n / unit;
    lemma_fundamental_div_mod(n as int, unit as int);
    lemma_mul_is_commutative(unit as int, below as int);
    assert((below + 1) * unit == below * unit + unit) by (nonlinear_arith);
    lemma_mod_multiples_basic(below as int, unit as int);
    lemma_mod_multiples_basic(below as int + 1, unit as int);
    lemma_div_by_multiple(below as int, unit as int);
    lemma_div_by_multiple(below as int + 1, unit as int);
}

/// Rounds `n` to fifty-three significant bits.
pub fn round(n: u128) -> (rounded: u128)
    requires
        n <= u128::MAX / 2,
    ensures
        rounded == round_to_precision(n as nat),
{
    let mut unit: u128 = 1;
    while n / unit >= SIGNIFICAND_LIMIT
        invariant
            unit > 0,
            spacing(n as nat) == unit * spacing((n / unit) as nat),
            n <= u128::MAX / 2,
        decreases n / unit,
    {
        proof {
            lemma_div_denominator(n as int, unit as int, 2);
            lemma_fundamental_div_mod(n as int, unit as int);
            lemma_mul_is_commutative(unit as int, (n / unit) as int);
            lemma_mul_inequality(2, (n / unit) as int, unit as int);
            assert(unit * (2 * spacing(((n / unit) / 2) as nat)) == (unit * 2) * spacing(
                ((n / unit) / 2) as nat,
            )) by (nonlinear_arith);
        }
        unit = unit * 2;
    }
    let below: u128 = n / unit;
    let excess: u128 = n % unit;
    proof {
        lemma_fundamental_div_mod(n as int, unit as int);
        lemma_mul_is_commutative(unit as int, below as int);
        assert((below + 1) * unit == below * unit + unit) by (nonlinear_arith);
        assert(spacing(n as nat) == unit) by (nonlinear_arith)
            requires
                spacing(n as nat) == unit * spacing((n / unit) as nat),
                spacing((n / unit) as nat) == 1,
        ;
    }
    if 2 * excess < unit || (2 * excess == unit && below % 2 == 0) {
        below * unit
    } else {
        (below + 1) * unit
    }
}

} // verus!
