//! IEEE 754 binary64 bit patterns, read as the exact numbers they denote.
//!
//! A pattern has one sign bit, eleven exponent bits and fifty-two fraction
//! bits. Every finite pattern denotes `significand * 2^exponent` for two
//! integers, so its whole part and the remainder below one can be written
//! down exactly, with no rounding.

use vstd::prelude::*;
use vstd::arithmetic::div_mod::{lemma_fundamental_div_mod, lemma_mod_bound};
use vstd::arithmetic::mul::{lemma_mul_basics, lemma_mul_is_commutative};
use vstd::arithmetic::power2::{lemma2_to64, lemma_pow2_pos, pow2};

verus! {

/// Two to the fifty-second: the implicit leading bit of a normal significand.
pub const HIDDEN_BIT: u64 = 0x10_0000_0000_0000;

/// The exponent of the least significant bit of a subnormal number.
pub const MIN_EXPONENT: i32 = -1074;

/// The exponent of the least significant bit of the largest finite numbers.
pub const MAX_EXPONENT: i32 = 971;

/// The number that a binary64 bit pattern denotes.
#[derive(Debug, Clone, Copy)]
pub enum Binary64 {
    /// Not a number, whatever the sign and payload.
    Nan,
    /// An infinity.
    Infinite { negative: bool },
    /// `significand * 2^exponent`, negated where `negative` is set.
    Finite { negative: bool, significand: u64, exponent: i32 },
}

/// The sign bit of a pattern.
pub open spec fn sign_bit(bits: u64) -> bool {
    bits / 0x8000_0000_0000_0000 == 1
}

/// The eleven exponent bits of a pattern.
pub open spec fn exponent_field(bits: u64) -> nat {
    ((bits / 0x10_0000_0000_0000) % 0x800) as nat
}

/// The fifty-two fraction bits of a pattern.
pub open spec fn fraction_field(bits: u64) -> nat {
    (bits % 0x10_0000_0000_0000) as nat
}

impl Binary64 {
    /// The number denoted by `bits`.
    ///
    /// An exponent field of all ones marks an infinity (fraction zero) or a
    /// NaN. An exponent field of zero marks a subnormal number, whose
    /// significand is the fraction field alone; every other number is
    /// normal and has the hidden bit above its fraction field.
    pub open spec fn of_bits(bits: u64) -> Binary64 {
        if exponent_field(bits) == 0x7ff {
            if fraction_field(bits) == 0 {
                Binary64::Infinite { negative: sign_bit(bits) }
            } else {
                Binary64::Nan
            }
        } else if exponent_field(bits) == 0 {
            Binary64::Finite {
                negative: sign_bit(bits),
                significand: fraction_field(bits) as u64,
                exponent: MIN_EXPONENT,
            }
        } else {
            Binary64::Finite {
                negative: sign_bit(bits),
                significand: (HIDDEN_BIT + fraction_field(bits)) as u64,
                exponent: (exponent_field(bits) - 1075) as i32,
            }
        }
    }

    /// A finite number is well formed when its significand has at most
    /// fifty-three bits, its exponent is in range, and it is normalized:
    /// only at the least exponent may the hidden bit be clear.
    pub open spec fn wf(self) -> bool {
        match self {
            Binary64::Finite { significand, exponent, .. } => {
                &&& significand < 2 * HIDDEN_BIT
                &&& MIN_EXPONENT <= exponent <= MAX_EXPONENT
                &&& exponent > MIN_EXPONENT ==> significand >= HIDDEN_BIT
            },
            _ => true,
        }
    }

    /// The number of binary digits below the point in a finite number:
    /// zero for a whole number, else the negated exponent.
    pub open spec fn fraction_digits(self) -> nat {
        match self {
            Binary64::Finite { exponent, .. } => if exponent < 0 {
                (-exponent) as nat
            } else {
                0
            },
            _ => 0,
        }
    }

    /// The whole part of a finite number's magnitude, rounded toward zero.
    pub open spec fn whole(self) -> nat {
        match self {
            Binary64::Finite { significand, exponent, .. } => if exponent < 0 {
                significand as nat / pow2((-exponent) as nat)
            } else {
                significand as nat * pow2(exponent as nat)
            },
            _ => 0,
        }
    }

    /// What is left of a finite number's magnitude below its whole part,
    /// as a count of units of `2^-fraction_digits()`.
    pub open spec fn remainder(self) -> nat {
        match self {
            Binary64::Finite { significand, exponent, .. } => if exponent < 0 {
                significand as nat % pow2((-exponent) as nat)
            } else {
                0
            },
            _ => 0,
        }
    }

    /// Every bit pattern denotes a well-formed number.
    pub proof fn lemma_of_bits_wf(bits: u64)
        ensures
            Binary64::of_bits(bits).wf(),
    {
    }

    /// The whole part and the remainder make up the magnitude, with nothing
    /// lost. Counted in units of `2^-fraction_digits()`, the magnitude is
    /// the whole part times the units in one, plus the remainder; and the
    /// remainder is less than one.
    pub proof fn lemma_whole_and_remainder(self)
        requires
            self.wf(),
        ensures
            self.remainder() < pow2(self.fraction_digits()),
            self matches Binary64::Finite { significand, exponent, .. } ==> {
                let units = self.whole() * pow2(self.fraction_digits()) + self.remainder();
                if exponent < 0 {
                    units == significand
                } else {
                    units == significand * pow2(exponent as nat)
                }
            },
    {
        let units_in_one = pow2(self.fraction_digits());
        lemma_pow2_pos(self.fraction_digits());
        lemma2_to64();
        if let Binary64::Finite { significand, exponent, .. } = self {
            if exponent < 0 {
                lemma_fundamental_div_mod(significand as int, units_in_one as int);
                lemma_mod_bound(significand as int, units_in_one as int);
                lemma_mul_is_commutative(units_in_one as int, self.whole() as int);
            } else {
                lemma_mul_basics(self.whole() as int);
            }
        }
    }

    /// Reads a bit pattern.
    pub fn from_bits(bits: u64) -> (number: Binary64)
        ensures
            number == Binary64::of_bits(bits),
            number.wf(),
    {
        let negative = (bits >> 63) == 1;
        let exponent_bits: u64 = (bits >> 52) & 0x7ff;
        let fraction_bits: u64 = bits & 0xf_ffff_ffff_ffff;
        assert((bits >> 63) == bits / 0x8000_0000_0000_0000) by (bit_vector);
        assert((bits >> 52) & 0x7ff == (bits / 0x10_0000_0000_0000) % 0x800) by (bit_vector);
        assert(bits & 0xf_ffff_ffff_ffff == bits % 0x10_0000_0000_0000) by (bit_vector);
        if exponent_bits == 0x7ff {
            if fraction_bits == 0 {
                Binary64::Infinite { negative }
            } else {
                Binary64::Nan
            }
        } else if exponent_bits == 0 {
            Binary64::Finite { negative, significand: fraction_bits, exponent: MIN_EXPONENT }
        } else {
            Binary64::Finite {
                negative,
                significand: HIDDEN_BIT + fraction_bits,
                exponent: exponent_bits as i32 - 1075,
            }
        }
    }
}

} // verus!
