//! Small helpers for laying out numbers in columns.

use crate::text::decimal_digits;
use vstd::prelude::*;

verus! {

/// Number of characters that `num` takes when written in decimal.
pub fn number_width(num: usize) -> (width: usize)
    ensures
        width == decimal_digits(num as nat).len(),
        1 <= width <= 20,
{
    let mut width: usize = 1;
    let mut rest: usize = num;
    while rest >= 10
        invariant
            1 <= width,
            width + decimal_digits(rest as nat).len() == decimal_digits(num as nat).len() + 1,
            rest as int * pow10((width - 1) as nat) <= num,
            width <= 20,
        decreases rest,
    {
        proof {
            let scale = pow10((width - 1) as nat);
            lemma_pow10_grows((width - 1) as nat, (width - 1) as nat);
            assert(pow10(width as nat) == 10 * scale);
            assert((rest / 10) * (10 * scale) <= rest * scale) by (nonlinear_arith)
                requires
                    (rest / 10) * 10 <= rest,
                    scale >= 0,
            ;
            lemma_pow10_grows(width as nat, 20);
            if width == 20 {
                assert(pow10(20) == 100_000_000_000_000_000_000) by {
                    reveal_with_fuel(pow10, 21);
                }
                assert(rest / 10 >= 1);
                assert((rest / 10) * pow10(20) >= pow10(20)) by (nonlinear_arith)
                    requires
                        rest / 10 >= 1,
                        pow10(20) >= 0,
                ;
            }
        }
        rest = rest / 10;
        width = width + 1;
    }
    width
}

/// Ten to the power of `exponent`.
pub open spec fn pow10(exponent: nat) -> int
    decreases exponent,
{
    if exponent == 0 {
        1
    } else {
        10 * pow10((exponent - 1) as nat)
    }
}

proof fn lemma_pow10_grows(low: nat, high: nat)
    requires
        low <= high,
    ensures
        1 <= pow10(low) <= pow10(high),
    decreases high,
{
    if low < high {
        lemma_pow10_grows(low, (high - 1) as nat);
    } else if low > 0 {
        lemma_pow10_grows((low - 1) as nat, (low - 1) as nat);
    }
}

} // verus!
