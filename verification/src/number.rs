//! Single-precision numbers by their encoding.
//!
//! An amplitude is written in a pattern as a decimal number and read by the
//! `nom` crate into a single-precision number. The library holds such a
//! number by its 32-bit IEEE 754 encoding: one sign bit, eight exponent
//! bits, twenty-three fraction bits.

use vstd::arithmetic::power2::{
    lemma2_to64, lemma_pow2_adds, lemma_pow2_pos, lemma_pow2_strictly_increases,
    lemma_pow2_unfold, pow2,
};
use vstd::prelude::*;

verus! {

/// The encoding of 1.
pub const ONE: u32 = 0x3f80_0000;

/// The encoding of negative zero.
pub const NEGATIVE_ZERO: u32 = 0x8000_0000;

/// Whether the sign bit of an encoding is set.
pub open spec fn is_negative(bits: u32) -> bool {
    bits >= 0x8000_0000
}

/// The exponent field of an encoding.
pub open spec fn exponent(bits: u32) -> nat {
    (bits as nat / 0x80_0000) % 0x100
}

/// The fraction field of an encoding.
pub open spec fn fraction(bits: u32) -> nat {
    bits as nat % 0x80_0000
}

/// Whether an encoding stands for a number, and not for an infinity or for
/// the result of an undefined operation.
pub open spec fn is_finite(bits: u32) -> bool {
    exponent(bits) != 0xff
}

/// The absolute value of the number that a finite encoding stands for, as
/// a multiple of 2^-149, the least positive number that can be encoded.
pub open spec fn magnitude(bits: u32) -> nat {
    if exponent(bits) == 0 {
        fraction(bits)
    } else {
        (0x80_0000 + fraction(bits)) * pow2((exponent(bits) - 1) as nat)
    }
}

/// The number 1 as a multiple of 2^-149.
pub open spec fn unit() -> nat {
    pow2(149)
}

/// Whether an encoding stands for a number from 0 to 1, both included.
/// Negative zero is zero.
pub open spec fn in_unit_interval(bits: u32) -> bool {
    is_finite(bits) && if is_negative(bits) {
        magnitude(bits) == 0
    } else {
        magnitude(bits) <= unit()
    }
}

/// Among the encodings of finite numbers that are not negative, a greater
/// encoding stands for a greater number.
pub proof fn lemma_magnitude_increases(a: u32, b: u32)
    requires
        a < b,
        !is_negative(b),
        is_finite(b),
    ensures
        magnitude(a) < magnitude(b),
{
    let ea = exponent(a);
    let eb = exponent(b);
    let fa = fraction(a);
    let fb = fraction(b);
    assert(a == ea * 0x80_0000 + fa && b == eb * 0x80_0000 + fb);
    assert(ea < eb || (ea == eb && fa < fb));
    if ea == eb {
        if ea != 0 {
            let p = pow2((ea - 1) as nat);
            lemma_pow2_pos((ea - 1) as nat);
            assert((0x80_0000 + fa) * p < (0x80_0000 + fb) * p) by (nonlinear_arith)
                requires
                    fa < fb,
                    p > 0,
            ;
        }
    } else {
        let q = pow2((eb - 1) as nat);
        lemma_pow2_pos((eb - 1) as nat);
        assert(0x80_0000 * q <= (0x80_0000 + fb) * q) by (nonlinear_arith)
            requires
                q > 0,
        ;
        if ea == 0 {
            assert(0x80_0000 <= 0x80_0000 * q) by (nonlinear_arith)
                requires
                    q > 0,
            ;
        } else {
            let p = pow2((ea - 1) as nat);
            lemma_pow2_pos((ea - 1) as nat);
            lemma_pow2_unfold(ea);
            if ea < eb - 1 {
                lemma_pow2_strictly_increases(ea, (eb - 1) as nat);
            }
            assert(pow2(ea) <= q);
            assert((0x80_0000 + fa) * p < 0x80_0000 * q) by (nonlinear_arith)
                requires
                    fa < 0x80_0000,
                    p > 0,
                    2 * p <= q,
            ;
        }
    }
}

/// The encoding of 1 stands for 1.
pub proof fn lemma_magnitude_of_one()
    ensures
        magnitude(ONE) == unit(),
        is_finite(ONE),
        !is_negative(ONE),
{
    lemma2_to64();
    lemma_pow2_adds(23, 126);
    assert(exponent(ONE) == 127 && fraction(ONE) == 0);
}

/// The encodings of the numbers from 0 to 1 are those up to the encoding of
/// 1, and that of negative zero.
pub proof fn lemma_unit_interval(bits: u32)
    ensures
        in_unit_interval(bits) <==> bits <= ONE || bits == NEGATIVE_ZERO,
{
    lemma_magnitude_of_one();
    if is_negative(bits) {
        if exponent(bits) != 0 {
            let p = pow2((exponent(bits) - 1) as nat);
            lemma_pow2_pos((exponent(bits) - 1) as nat);
            assert((0x80_0000 + fraction(bits)) * p > 0) by (nonlinear_arith)
                requires
                    p > 0,
            ;
        }
    } else if bits < ONE {
        lemma_magnitude_increases(bits, ONE);
    } else if bits > ONE {
        if is_finite(bits) {
            lemma_magnitude_increases(ONE, bits);
        }
    }
}

/// What `nom::number::complete::float` makes of an input: nothing where the
/// input does not begin with a number, else what follows the number in the
/// input, and the encoding of the single-precision number that it was
/// read as.
pub uninterp spec fn float_prefix(input: Seq<u8>) -> Option<(Seq<u8>, u32)>;

/// `nom::number::complete::float` on bytes, the number handed out by its
/// encoding.
#[verifier::external_body]
pub(crate) fn read_float<'a>(input: &'a [u8]) -> (read: Option<(&'a [u8], u32)>)
    ensures
        match read {
            Some((rest, bits)) => float_prefix(input@) == Some((rest@, bits)),
            None => float_prefix(input@) is None,
        },
{
    match nom::number::complete::float::<&[u8], (&[u8], nom::error::ErrorKind)>(input) {
        Ok((rest, number)) => Some((rest, number.to_bits())),
        Err(_) => None,
    }
}

} // verus!
