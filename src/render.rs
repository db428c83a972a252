//! Views of a grid: a packed color per cell, and a binary graymap file.
use vstd::prelude::*;
use crate::ONE;

verus! {

/// The blue-dominant color of a cell of value `c`, packed as `0xRRGGBB`:
/// blue `255 c`, green `100 c^2`, red `50 c^3`, each rounded down.
pub open spec fn color_of(c: int) -> int {
    let one = ONE as int;
    let blue = c * 255 / one;
    let green = c * c * 100 / (one * one);
    let red = c * c * c * 50 / (one * one * one);
    red * 0x1_0000 + green * 0x100 + blue
}

/// The gray level of a cell of value `c`: `255 c`, rounded down.
pub open spec fn gray_of(c: int) -> int {
    c * 255 / (ONE as int)
}

/// The decimal digits of `n`, in ASCII.
pub open spec fn decimal(n: nat) -> Seq<u8>
    decreases n,
{
    if n < 10 {
        seq![(48 + n) as u8]
    } else {
        decimal(n / 10).push((48 + n % 10) as u8)
    }
}

/// A binary graymap: three header lines (the format's magic, then
/// `<width> <height>`, then the maximum gray level `255`), followed by one
/// gray byte per cell.
pub open spec fn pgm_of(width: nat, height: nat, pixels: Seq<u8>) -> Seq<u8> {
    seq![80u8, 53u8, 10u8] + decimal(width) + seq![32u8] + decimal(height) + seq![10u8, 50u8, 53u8, 53u8, 10u8] + pixels
}

/// The packed color of a cell of value `c`.
pub fn cell_color(c: u32) -> (rgb: u32)
    requires
        c <= ONE,
    ensures
        rgb == color_of(c as int),
{
    let v = c as u128;
    let one = ONE as u128;
    proof {
        assert(v * v <= one * one && v * v * v <= one * one * one) by (nonlinear_arith)
            requires
                v <= one,
        ;
        assert(v * 255 <= one * 255 && v * v * 100 <= one * one * 100 && v * v * v * 50 <= one * one * one * 50) by (nonlinear_arith)
            requires
                v * v <= one * one,
                v * v * v <= one * one * one,
                v <= one,
        ;
        vstd::arithmetic::div_mod::lemma_div_is_ordered(v * 255, one * 255, one as int);
        vstd::arithmetic::div_mod::lemma_div_is_ordered(v * v * 100, one * one * 100, (one * one) as int);
        vstd::arithmetic::div_mod::lemma_div_is_ordered(v * v * v * 50, one * one * one * 50, (one * one * one) as int);
        assert(one * 255 == 255 * one && one * one * 100 == 100 * (one * one) && one * one * one * 50 == 50 * (one * one * one)) by (nonlinear_arith);
        vstd::arithmetic::div_mod::lemma_div_multiples_vanish(255, one as int);
        vstd::arithmetic::div_mod::lemma_div_multiples_vanish(100, (one * one) as int);
        vstd::arithmetic::div_mod::lemma_div_multiples_vanish(50, (one * one * one) as int);
    }
    let blue = v * 255 / one;
    let green = v * v * 100 / (one * one);
    let red = v * v * v * 50 / (one * one * one);
    (red * 0x1_0000 + green * 0x100 + blue) as u32
}

/// The gray level of a cell of value `c`.
pub fn cell_gray(c: u32) -> (g: u8)
    requires
        c <= ONE,
    ensures
        g == gray_of(c as int),
{
    proof {
        vstd::arithmetic::div_mod::lemma_div_is_ordered(c * 255, ONE * 255, ONE as int);
        vstd::arithmetic::div_mod::lemma_div_multiples_vanish(255, ONE as int);
        assert(ONE * 255 == 255 * ONE);
    }
    (c as u64 * 255 / ONE as u64) as u8
}

/// Appends the decimal digits of `n` to `out`.
pub fn push_decimal(out: &mut Vec<u8>, n: usize)
    ensures
        final(out)@ == old(out)@ + decimal(n as nat),
    decreases n,
{
    if n >= 10 {
        push_decimal(out, n / 10);
    }
    out.push(48 + (n % 10) as u8);
    proof {
        if n < 10 {
            assert(old(out)@ + decimal(n as nat) =~= old(out)@.push((48 + n % 10) as u8));
        } else {
            assert(old(out)@ + decimal(n as nat) =~= (old(out)@ + decimal((n / 10) as nat)).push((48 + n % 10) as u8));
        }
    }
}

} // verus!
