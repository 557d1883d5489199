//! Integer and byte-run conversions: restoring division by repeated
//! subtraction of shifted divisors, and the unary-ish byte encoding that
//! writes a number as a run of 255s followed by the remainder.
use vstd::prelude::*;
use vstd::arithmetic::div_mod::{
    lemma_div_multiples_vanish,
    lemma_fundamental_div_mod,
    lemma_fundamental_div_mod_converse,
    lemma_mod_multiples_basic,
};
use vstd::arithmetic::power2::{lemma2_to64, lemma_pow2_adds, lemma_pow2_strictly_increases, pow2};
use vstd::bits::{lemma_u32_shl_is_mul, lemma_u32_shr_is_div};

verus! {

/// The inputs on which the shift-based division below is exact: wherever
/// the shifted divisor overflows 32 bits, its truncated value must still
/// exceed the dividend, so that the comparison can never fire on a
/// truncated pattern.
pub open spec fn division_args_ok(dividend: u32, divisor: u32) -> bool {
    &&& divisor >= 1
    &&& forall|i: u32|
        i < 32 ==> ((divisor as nat) * pow2(i as nat) > u32::MAX as nat ==> dividend < #[trigger] (
        divisor << i))
}

/// Restoring division by bit shifts: from the highest bit down, subtract
/// the shifted divisor wherever it fits and set the matching quotient
/// bit.
pub fn bitwise_division(dividend: u32, divisor: u32) -> (r: (u32, u32))
    requires
        division_args_ok(dividend, divisor),
    ensures
        r.0 == dividend / divisor,
        r.1 == dividend % divisor,
{
    let mut quotient: u32 = 0;
    let mut remainder: u32 = dividend;
    let mut i: u32 = 32;
    proof {
        lemma2_to64();
        assert((divisor as nat) * pow2(32) > u32::MAX as nat) by (nonlinear_arith)
            requires
                divisor >= 1,
                pow2(32) == 0x100000000,
        ;
    }
    while i > 0
        invariant
            division_args_ok(dividend, divisor),
            i <= 32,
            (divisor as nat) * (quotient as nat) + (remainder as nat) == dividend as nat,
            (remainder as nat) < (divisor as nat) * pow2(i as nat),
            (quotient as nat) % pow2(i as nat) == 0,
        decreases i,
    {
        i = i - 1;
        proof {
            lemma_pow2_adds(i as nat, 1);
            lemma2_to64();
        }
        let ghost p = pow2(i as nat);
        let sh = divisor << i;
        proof {
            if (divisor as nat) * p <= u32::MAX as nat {
                lemma_u32_shl_is_mul(divisor, i);
            }
        }
        if remainder >= sh {
            proof {
                // A truncated shift pattern can never fire: the
                // precondition keeps the dividend, hence the remainder,
                // below it.
                assert((divisor as nat) * p <= u32::MAX as nat);
                assert(sh == (divisor as nat) * p);
                // The quotient is a multiple of 2^(i+1): its bit `i` is
                // clear and its lower bits are zero, so or-ing the bit
                // adds its value.
                let q = quotient;
                lemma_fundamental_div_mod(q as int, 2 * p as int);
                let k = q as int / (2 * p as int);
                assert(q as int == (p as int) * (2 * k)) by (nonlinear_arith)
                    requires
                        q as int == (2 * p as int) * k + (q as nat % (2 * p)),
                        (q as nat) % (2 * p) == 0,
                ;
                lemma_mod_multiples_basic(2 * k, p as int);
                lemma_div_multiples_vanish(2 * k, p as int);
                assert(q as nat % p == 0);
                assert(q as int / (p as int) == 2 * k);
                lemma_mod_multiples_basic(k, 2);
                assert((q as int / (p as int)) % 2 == 0);
                assert(pow2(i as nat) <= u32::MAX as nat) by {
                    if i < 31 {
                        lemma_pow2_strictly_increases(i as nat, 31);
                    }
                }
                lemma_u32_shl_is_mul(1u32, i);
                assert((1u32 << i) == p);
                lemma_u32_shr_is_div(q, i);
                assert((q >> i) as nat == q as nat / p);
                assert(((q >> i) & 1) == (q >> i) % 2) by (bit_vector);
                assert((q | (1u32 << i)) == q + (1u32 << i)) by (bit_vector)
                    requires
                        i < 32,
                        q % (1u32 << i) == 0,
                        ((q >> i) & 1) == 0,
                ;
                lemma_mod_multiples_basic((2 * k) + 1, p as int);
                assert((q as nat + p) % p == 0) by (nonlinear_arith)
                    requires
                        p > 0,
                        q as int == (p as int) * (2 * k),
                        ((p as int) * ((2 * k) + 1)) % (p as int) == 0,
                ;
                assert((divisor as nat) * (q as nat + p) == (divisor as nat) * (q as nat) + (
                divisor as nat) * p) by (nonlinear_arith);
                assert((divisor as nat) * (2 * p) == 2 * ((divisor as nat) * p))
                    by (nonlinear_arith);
            }
            remainder = remainder - sh;
            quotient = quotient | (1u32 << i);
        } else {
            proof {
                assert((remainder as nat) < (divisor as nat) * p) by {
                    if (divisor as nat) * p <= u32::MAX as nat {
                        assert(sh == (divisor as nat) * p);
                    }
                }
                let q = quotient;
                lemma_fundamental_div_mod(q as int, 2 * p as int);
                let k = q as int / (2 * p as int);
                assert(q as int == (p as int) * (2 * k)) by (nonlinear_arith)
                    requires
                        q as int == (2 * p as int) * k + (q as nat % (2 * p)),
                        (q as nat) % (2 * p) == 0,
                ;
                lemma_mod_multiples_basic(2 * k, p as int);
                assert((quotient as nat) % p == 0);
            }
        }
    }
    proof {
        lemma2_to64();
        assert(pow2(0) == 1);
        assert((divisor as nat) * pow2(0) == divisor as nat) by (nonlinear_arith)
            requires
                pow2(0) == 1,
        ;
        assert((remainder as nat) < divisor as nat);
        lemma_fundamental_div_mod_converse(
            dividend as int,
            divisor as int,
            quotient as int,
            remainder as int,
        );
    }
    (quotient, remainder)
}

/// The sum of a byte string's bytes.
pub open spec fn byte_sum(s: Seq<u8>) -> nat
    decreases s.len(),
{
    if s.len() == 0 {
        0
    } else {
        byte_sum(s.drop_last()) + s.last() as nat
    }
}

/// Sums the bytes of a slice into a wide integer.
pub fn section_to_int(section: &[u8]) -> (r: u128)
    ensures
        r as nat == byte_sum(section@),
{
    let mut b: u128 = 0;
    let mut i: usize = 0;
    while i < section.len()
        invariant
            i <= section.len(),
            b as nat == byte_sum(section@.subrange(0, i as int)),
            b as nat <= 255 * i,
        decreases section.len() - i,
    {
        proof {
            assert(section@.subrange(0, i as int + 1).drop_last() =~= section@.subrange(
                0,
                i as int,
            ));
            assert(section@.subrange(0, i as int + 1).last() == section@[i as int]);
        }
        b = b + (section[i] as u128);
        i = i + 1;
    }
    proof {
        assert(section@.subrange(0, section@.len() as int) =~= section@);
    }
    b
}

/// The byte run `int_to_vec` appends: `n / 255` bytes of 255 followed by
/// the remainder byte.
pub open spec fn int_run(n: u32) -> Seq<u8> {
    Seq::new((n / 255) as nat, |j: int| 255u8).push((n % 255) as u8)
}

/// Appends a number to `vec` as a run of 255s and a final remainder
/// byte, so that summing the run restores the number.
pub fn int_to_vec(number: u32, vec: &mut Vec<u8>)
    requires
        number < 0x80000000,
    ensures
        final(vec)@ == old(vec)@ + int_run(number),
{
    proof {
        lemma2_to64();
        assert forall|i: u32|
            i < 32 && (255 as nat) * pow2(i as nat) > u32::MAX as nat implies number
            < #[trigger] (255u32 << i) by {
            if (255 as nat) * pow2(i as nat) > u32::MAX as nat {
                assert(i >= 25) by {
                    if i < 25 {
                        if i < 24 {
                            lemma_pow2_strictly_increases(i as nat, 24);
                        }
                        assert((255 as nat) * pow2(i as nat) <= (255 as nat) * pow2(24))
                            by (nonlinear_arith)
                            requires
                                pow2(i as nat) <= pow2(24),
                        ;
                        assert(pow2(24) == 0x1000000);
                    }
                }
                assert((255u32 << i) >= 0x80000000u32) by (bit_vector)
                    requires
                        25 <= i < 32,
                ;
            }
        }
    }
    let (quotient, remainder) = bitwise_division(number, 255);
    let mut j: u32 = 0;
    while j < quotient
        invariant
            j <= quotient,
            vec@ == old(vec)@ + Seq::new(j as nat, |x: int| 255u8),
        decreases quotient - j,
    {
        vec.push(255);
        proof {
            assert(old(vec)@ + Seq::new(j as nat, |x: int| 255u8) + seq![255u8] =~= old(vec)@
                + Seq::new(j as nat + 1, |x: int| 255u8));
        }
        j = j + 1;
    }
    vec.push(remainder as u8);
    proof {
        assert(old(vec)@ + Seq::new((number / 255) as nat, |x: int| 255u8) + seq![
            (number % 255) as u8,
        ] =~= old(vec)@ + int_run(number));
    }
}

} // verus!
