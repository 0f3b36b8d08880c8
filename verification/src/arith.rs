//! Fixed-point scale and the integer helpers shared by the other modules.

use vstd::prelude::*;
use vstd::arithmetic::div_mod::lemma_fundamental_div_mod_converse;

verus! {

/// Number of fixed-point parts that make up one world unit, one full
/// interpolation step, or one full turn of an angle.
pub const UNIT: i32 = 65536;

/// The value of `v` confined to the range of a coordinate.
pub open spec fn saturate_spec(v: int) -> int {
    if v < i32::MIN {
        i32::MIN as int
    } else if v > i32::MAX {
        i32::MAX as int
    } else {
        v
    }
}

/// Narrows a wide intermediate to a coordinate, pinning it to the nearest
/// representable value when it lies outside the coordinate range.
pub fn saturate(v: i128) -> (r: i32)
    ensures
        r == saturate_spec(v as int),
{
    if v < -2147483648i128 {
        i32::MIN
    } else if v > 2147483647i128 {
        i32::MAX
    } else {
        v as i32
    }
}

/// Floor division: the quotient rounded toward negative infinity.
pub fn floor_div(num: i128, den: i128) -> (q: i128)
    requires
        den > 0,
        num > i128::MIN,
    ensures
        q == num as int / den as int,
        num >= 0 ==> 0 <= q <= num,
        num < 0 ==> num <= q < 0,
{
    if num >= 0 {
        proof {
            vstd::arithmetic::div_mod::lemma_div_pos_is_pos(num as int, den as int);
            vstd::arithmetic::div_mod::lemma_div_is_ordered_by_denominator(num as int, 1, den as int);
        }
        num / den
    } else {
        let m: i128 = -num;
        let below: i128 = (m - 1) / den;
        proof {
            let q0 = (m - 1) as int / den as int;
            let r0 = (m - 1) as int % den as int;
            assert((m - 1) as int == q0 * den + r0 && 0 <= r0 < den) by {
                vstd::arithmetic::div_mod::lemma_fundamental_div_mod((m - 1) as int, den as int);
                vstd::arithmetic::div_mod::lemma_mod_bound((m - 1) as int, den as int);
                assert(den * q0 == q0 * den) by (nonlinear_arith);
            }
            assert(num as int == (-q0 - 1) * den + (den - r0 - 1)) by (nonlinear_arith)
                requires
                    (m - 1) as int == q0 * den + r0,
                    num as int == -(m as int),
            ;
            lemma_fundamental_div_mod_converse(num as int, den as int, -q0 - 1, den - r0 - 1);
            vstd::arithmetic::div_mod::lemma_div_pos_is_pos((m - 1) as int, den as int);
            vstd::arithmetic::div_mod::lemma_div_is_ordered_by_denominator(
                (m - 1) as int,
                1,
                den as int,
            );
        }
        -below - 1
    }
}

} // verus!
