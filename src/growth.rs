//! The growth rule: from a potential to a signed rate of change.
use vstd::prelude::*;
use crate::ONE;
use crate::arith::floor_div;
use vstd::arithmetic::div_mod::lemma_fundamental_div_mod_converse;

verus! {

/// The rate added to every cell, 0.2, subtracted from the parabola.
pub const DECAY: i64 = 200_000;

/// The growth rate `1.8 * u * (1 - u) - 0.2` in fixed point, rounded down.
pub open spec fn growth_spec(u: int) -> int {
    (18 * u * (ONE as int - u)) / (10 * ONE as int) - DECAY
}

/// The value of a cell after one explicit Euler step of size `dt` at potential `u`,
/// clamped to `0..=ONE`.
pub open spec fn next_value_spec(cell: int, u: int, dt: int) -> int {
    let v = cell + (dt * growth_spec(u)) / (ONE as int);
    if v < 0 {
        0
    } else if v > ONE {
        ONE as int
    } else {
        v
    }
}

/// The growth rate at potential `u` (`ONE` stands for 1.0).
pub fn growth_function(u: i32) -> (g: i64)
    ensures
        g as int == growth_spec(u as int),
{
    proof {
        lemma_growth_product_bounds(u as int);
    }
    let p: i128 = 18 * (u as i128) * (ONE as i128 - u as i128);
    let q = floor_div(p, 10 * ONE as i128);
    (q - DECAY as i128) as i64
}

/// Bounds on the intermediate values of the growth rule over the range of `i32`.
proof fn lemma_growth_product_bounds(u: int)
    requires
        -0x8000_0000 <= u < 0x8000_0000,
    ensures
        -0x100_0000_0000_0000_0000 <= 18 * u * (ONE as int - u) <= 0x100_0000_0000_0000_0000,
        -0x10_0000_0000_0000 <= growth_spec(u) <= 0x10_0000_0000_0000,
{
    let v = ONE as int - u;
    assert(-0x1_0000_0000 <= v <= 0x1_0000_0000);
    assert(-0x100_0000_0000_0000_0000 <= 18 * u * v <= 0x100_0000_0000_0000_0000) by (nonlinear_arith)
        requires
            -0x8000_0000 <= u < 0x8000_0000,
            -0x1_0000_0000 <= v <= 0x1_0000_0000,
    ;
    let p = 18 * u * v;
    vstd::arithmetic::div_mod::lemma_div_is_ordered(p, 0x100_0000_0000_0000_0000, 10 * ONE as int);
    vstd::arithmetic::div_mod::lemma_div_is_ordered(-0x100_0000_0000_0000_0000, p, 10 * ONE as int);
    lemma_fundamental_div_mod_converse(0x100_0000_0000_0000_0000, 10 * ONE as int, 472236648286964, 5213696);
    lemma_fundamental_div_mod_converse(-0x100_0000_0000_0000_0000, 10 * ONE as int, -472236648286965, 4786304);
}

/// The product of a step size and a growth rate fits comfortably in `i128`.
proof fn lemma_rate_bounds(u: int, dt: int)
    requires
        -0x8000_0000 <= u < 0x8000_0000,
        0 <= dt <= u32::MAX,
    ensures
        -0x1000_0000_0000_0000_0000_0000 <= dt * growth_spec(u) <= 0x1000_0000_0000_0000_0000_0000,
{
    lemma_growth_product_bounds(u);
    let g = growth_spec(u);
    assert(-0x1000_0000_0000_0000_0000_0000 <= dt * g <= 0x1000_0000_0000_0000_0000_0000) by (nonlinear_arith)
        requires
            -0x10_0000_0000_0000 <= g <= 0x10_0000_0000_0000,
            0 <= dt <= u32::MAX,
    ;
}

/// The value of a cell after one step of size `dt` at potential `u`.
pub fn next_value(cell: u32, u: i32, dt: u32) -> (v: u32)
    ensures
        v as int == next_value_spec(cell as int, u as int, dt as int),
        v <= ONE,
{
    let g = growth_function(u);
    proof {
        lemma_growth_product_bounds(u as int);
        lemma_rate_bounds(u as int, dt as int);
    }
    let p: i128 = dt as i128 * g as i128;
    let delta = floor_div(p, ONE as i128);
    let v: i128 = cell as i128 + delta;
    if v < 0 {
        0
    } else if v > ONE as i128 {
        ONE
    } else {
        v as u32
    }
}

/// The growth rule is symmetric about one half, and peaks there at 0.25.
pub proof fn lemma_growth_symmetric(d: int)
    ensures
        growth_spec((ONE / 2) as int + d) == growth_spec((ONE / 2) as int - d),
        growth_spec((ONE / 2) as int + d) <= growth_spec((ONE / 2) as int),
        growth_spec((ONE / 2) as int) == 250_000,
{
    let h = (ONE / 2) as int;
    assert(18 * (h + d) * (ONE as int - (h + d)) <= 18 * h * (ONE as int - h)) by (nonlinear_arith)
        requires
            h + h == ONE,
    ;
    assert(18 * (h + d) * (ONE as int - (h + d)) == 18 * (h - d) * (ONE as int - (h - d))) by (nonlinear_arith)
        requires
            h + h == ONE,
    ;
    vstd::arithmetic::div_mod::lemma_div_is_ordered(
        18 * (h + d) * (ONE as int - (h + d)),
        18 * h * (ONE as int - h),
        10 * ONE as int,
    );
    assert(h == 500_000);
    assert(18 * h * (ONE as int - h) == 450_000 * (10 * ONE as int) + 0) by (nonlinear_arith)
        requires
            h == 500_000,
    ;
    lemma_fundamental_div_mod_converse(18 * h * (ONE as int - h), 10 * ONE as int, 450_000, 0);
}

} // verus!
