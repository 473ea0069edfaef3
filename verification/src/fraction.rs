//! Comparison of fractions of sizes, exact and without overflow.

use vstd::prelude::*;

verus! {

/// The fraction `n1 / d1` is less than the fraction `n2 / d2`.
pub open spec fn fraction_less(n1: nat, d1: nat, n2: nat, d2: nat) -> bool {
    n1 * d2 < n2 * d1
}

/// A fraction that is less than a second one, which is not greater than a
/// third, is less than the third.
pub proof fn lemma_fraction_less_trans(n1: nat, d1: nat, n2: nat, d2: nat, n3: nat, d3: nat)
    requires
        d1 > 0,
        d2 > 0,
        d3 > 0,
        fraction_less(n1, d1, n2, d2),
        !fraction_less(n3, d3, n2, d2),
    ensures
        fraction_less(n1, d1, n3, d3),
{
    assert(n1 * d2 < n2 * d1);
    assert(n2 * d3 <= n3 * d2);
    assert(n1 * d3 < n3 * d1) by (nonlinear_arith)
        requires
            d1 > 0,
            d2 > 0,
            d3 > 0,
            n1 * d2 < n2 * d1,
            n2 * d3 <= n3 * d2,
    {
        assert(n1 * d2 * d3 < n2 * d1 * d3);
        assert(n2 * d3 * d1 <= n3 * d2 * d1);
        assert(n1 * d3 * d2 < n3 * d1 * d2);
    }
}

/// The fraction `n1 / d1` exceeds the fraction `n2 / d2` by less than a
/// hundred-thousandth, or not at all.
pub open spec fn fraction_within(n1: nat, d1: nat, n2: nat, d2: nat) -> bool {
    100000 * (n1 * d2 - n2 * d1) < d1 * d2
}

/// A fraction that is not less than another exceeds it by less than a
/// hundred-thousandth only if it exceeds every greater one by less.
pub proof fn lemma_fraction_within_more(n1: nat, d1: nat, n2: nat, d2: nat, n3: nat, d3: nat)
    requires
        d1 > 0,
        d2 > 0,
        d3 > 0,
        fraction_within(n1, d1, n2, d2),
        !fraction_less(n3, d3, n2, d2),
    ensures
        fraction_within(n1, d1, n3, d3),
{
    assert(100000 * (n1 * d2 - n2 * d1) < d1 * d2);
    assert(n2 * d3 <= n3 * d2);
    assert(100000 * (n1 * d3 - n3 * d1) < d1 * d3) by (nonlinear_arith)
        requires
            d1 > 0,
            d2 > 0,
            d3 > 0,
            n1 >= 0,
            n2 >= 0,
            n3 >= 0,
            100000 * (n1 * d2 - n2 * d1) < d1 * d2,
            n2 * d3 <= n3 * d2,
    {
        assert(100000 * (n1 * d2 - n2 * d1) * d3 < d1 * d2 * d3);
        assert(n2 * d3 * d1 <= n3 * d2 * d1);
        assert(100000 * (n1 * d3 - n3 * d1) * d2 <= 100000 * (n1 * d2 - n2 * d1) * d3);
        assert(100000 * (n1 * d3 - n3 * d1) * d2 < d1 * d3 * d2);
    }
}

/// A fraction exceeds no fraction that is not less than it.
pub proof fn lemma_fraction_within_least(n1: nat, d1: nat, n2: nat, d2: nat)
    requires
        d1 > 0,
        d2 > 0,
        !fraction_less(n2, d2, n1, d1),
    ensures
        fraction_within(n1, d1, n2, d2),
{
    assert(n1 * d2 <= n2 * d1);
    assert(d1 * d2 > 0) by (nonlinear_arith)
        requires
            d1 > 0,
            d2 > 0,
    ;
}

/// The product of two sizes, which fits in 128 bits.
pub fn widening_product(x: usize, y: usize) -> (product: u128)
    ensures
        product == x * y,
{
    assert(x * y <= 0xffff_ffff_ffff_ffff * 0xffff_ffff_ffff_ffff) by (nonlinear_arith)
        requires
            0 <= x <= 0xffff_ffff_ffff_ffff,
            0 <= y <= 0xffff_ffff_ffff_ffff,
    ;
    (x as u128) * (y as u128)
}

/// Whether the fraction `n1 / d1` is less than the fraction `n2 / d2`.
pub fn fraction_is_less(n1: usize, d1: usize, n2: usize, d2: usize) -> (less: bool)
    ensures
        less == fraction_less(n1 as nat, d1 as nat, n2 as nat, d2 as nat),
{
    widening_product(n1, d2) < widening_product(n2, d1)
}

/// Whether the fraction `n1 / d1` exceeds the fraction `n2 / d2` by less
/// than a hundred-thousandth, or not at all.
pub fn fraction_is_within(n1: usize, d1: usize, n2: usize, d2: usize) -> (within: bool)
    ensures
        within == fraction_within(n1 as nat, d1 as nat, n2 as nat, d2 as nat),
{
    let left: u128 = widening_product(n1, d2);
    let right: u128 = widening_product(n2, d1);
    let whole: u128 = widening_product(d1, d2);
    if left < right {
        true
    } else if left == right {
        whole > 0
    } else if whole == 0 {
        false
    } else {
        let excess: u128 = left - right;
        let room: u128 = (whole - 1) / 100000;
        assert(100000 * excess < whole <==> excess <= room);
        excess <= room
    }
}

} // verus!
