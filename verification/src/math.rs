//! Wrapping of a coordinate into a range.

use vstd::arithmetic::div_mod::{lemma_fundamental_div_mod, lemma_fundamental_div_mod_converse};
use vstd::prelude::*;

verus! {

/// The member of `[min, max)` that differs from `value` by a multiple of
/// `max - min`.
pub open spec fn spec_wrap_to_bounds(value: int, min: int, max: int) -> int {
    min + (value - min) % (max - min)
}

/// Wraps the value to the range `[min, max)`.
pub fn wrap_to_bounds(value: isize, min: isize, max: isize) -> (wrapped: isize)
    requires
        min < max,
    ensures
        wrapped == spec_wrap_to_bounds(value as int, min as int, max as int),
        min <= wrapped < max,
{
    // In 128 bits neither the range nor the distance from `min` can overflow.
    let range: u128 = (max as i128 - min as i128) as u128;
    let offset: u128 = if value >= min {
        ((value as i128 - min as i128) as u128) % range
    } else {
        let gap: u128 = (min as i128 - value as i128) as u128;
        let rest: u128 = gap % range;
        proof {
            let q = gap as int / range as int;
            lemma_fundamental_div_mod(gap as int, range as int);
            assert(gap == range * q + rest);
            if rest == 0 {
                assert(value - min == (-q) * range + 0) by (nonlinear_arith)
                    requires
                        value - min == -(gap as int),
                        gap == range * q,
                ;
                lemma_fundamental_div_mod_converse(value - min, range as int, -q, 0);
            } else {
                assert(value - min == (-q - 1) * range + (range - rest)) by (nonlinear_arith)
                    requires
                        value - min == -(gap as int),
                        gap == range * q + rest,
                ;
                lemma_fundamental_div_mod_converse(
                    value - min,
                    range as int,
                    -q - 1,
                    range - rest,
                );
            }
        }
        if rest == 0 {
            0
        } else {
            range - rest
        }
    };
    (min as i128 + offset as i128) as isize
}

} // verus!
