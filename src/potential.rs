//! The potential field: the kernel-weighted sum of each cell's neighbourhood,
//! with indices wrapping around both edges of the grid.
use vstd::prelude::*;
use crate::kernel::{Kernel, side_of, sum_prefix, lemma_kernel_normalized};
use vstd::arithmetic::div_mod::{
    lemma_fundamental_div_mod,
    lemma_fundamental_div_mod_converse,
    lemma_mod_bound,
    lemma_mod_multiples_vanish,
    lemma_div_is_ordered,
    lemma_div_multiples_vanish,
};

verus! {

/// `a` reduced onto `0..n`: the coordinate that `a` denotes on a torus of size `n`.
pub open spec fn wrap(a: int, n: int) -> int {
    a % n
}

/// A grid of `width` columns and `height` rows, stored row by row.
pub open spec fn grid_wf(g: Seq<u32>, width: int, height: int) -> bool {
    &&& 1 <= width
    &&& 1 <= height
    &&& width * height <= usize::MAX
    &&& g.len() == width * height
}

/// The value of the cell at column `x`, row `y` (both wrapped).
pub open spec fn cell(g: Seq<u32>, width: int, height: int, x: int, y: int) -> int {
    g[wrap(y, height) * width + wrap(x, width)] as int
}

/// The contribution of kernel entry `j` to the potential at `(x, y)`.
pub open spec fn tap(g: Seq<u32>, width: int, height: int, k: Kernel, x: int, y: int, j: int) -> int {
    let r = k.radius as int;
    let side = side_of(r);
    cell(g, width, height, x + j % side - r, y + j / side - r) * k.weights@[j]
}

/// The sum of the first `n` contributions to the potential at `(x, y)`.
pub open spec fn weighted_sum(g: Seq<u32>, width: int, height: int, k: Kernel, x: int, y: int, n: int) -> int
    decreases n,
{
    if n <= 0 {
        0
    } else {
        weighted_sum(g, width, height, k, x, y, n - 1) + tap(g, width, height, k, x, y, n - 1)
    }
}

/// The potential at `(x, y)`: the normalized kernel-weighted sum of the
/// neighbourhood, rounded down.
pub open spec fn potential_at(g: Seq<u32>, width: int, height: int, k: Kernel, x: int, y: int) -> int {
    let side = side_of(k.radius as int);
    weighted_sum(g, width, height, k, x, y, side * side) / (k.total as int)
}

/// The cell at column `x`, row `y` is stored at `y * width + x`, inside the grid.
pub proof fn lemma_cell_index(width: int, height: int, x: int, y: int)
    requires
        0 <= x < width,
        0 <= y < height,
    ensures
        0 <= y * width + x < width * height,
        (y * width + x) % width == x,
        (y * width + x) / width == y,
{
    assert(0 <= y * width + x < width * height) by (nonlinear_arith)
        requires
            0 <= x < width,
            0 <= y < height,
    ;
    lemma_fundamental_div_mod_converse(y * width + x, width, y, x);
}

/// A wrapped coordinate lies on the torus.
pub proof fn lemma_wrap_bound(a: int, n: int)
    requires
        n > 0,
    ensures
        0 <= wrap(a, n) < n,
{
    lemma_mod_bound(a, n);
}

/// Wrapping before adding an offset changes nothing after wrapping again.
pub proof fn lemma_wrap_add(a: int, b: int, n: int)
    requires
        n > 0,
    ensures
        wrap(wrap(a, n) + b, n) == wrap(a + b, n),
{
    lemma_fundamental_div_mod(a, n);
    lemma_mod_multiples_vanish(a / n, a % n + b, n);
    assert(n * (a / n) + (a % n + b) == a + b);
}

/// Every contribution lies between `lo` and `hi` times its weight, when every cell does.
proof fn lemma_weighted_sum_bounds(g: Seq<u32>, width: int, height: int, k: Kernel, x: int, y: int, n: int, lo: int, hi: int)
    requires
        grid_wf(g, width, height),
        k.wf(),
        0 <= n <= k.weights@.len(),
        forall|i: int| 0 <= i < g.len() ==> lo <= #[trigger] g[i] <= hi,
    ensures
        lo * sum_prefix(k.weights@, n) <= weighted_sum(g, width, height, k, x, y, n) <= hi * sum_prefix(k.weights@, n),
    decreases n,
{
    if n > 0 {
        lemma_weighted_sum_bounds(g, width, height, k, x, y, n - 1, lo, hi);
        let r = k.radius as int;
        let side = side_of(r);
        let j = n - 1;
        let cx = wrap(x + j % side - r, width);
        let cy = wrap(y + j / side - r, height);
        lemma_wrap_bound(x + j % side - r, width);
        lemma_wrap_bound(y + j / side - r, height);
        lemma_cell_index(width, height, cx, cy);
        let v = g[cy * width + cx] as int;
        let wt = k.weights@[j] as int;
        assert(lo <= v <= hi);
        assert(lo * wt <= v * wt <= hi * wt) by (nonlinear_arith)
            requires
                lo <= v <= hi,
                wt >= 0,
        ;
        let sp = sum_prefix(k.weights@, n - 1);
        assert(lo * (sp + wt) == lo * sp + lo * wt && hi * (sp + wt) == hi * sp + hi * wt) by (nonlinear_arith);
    }
}

/// The potential is a convex combination of the cells: when every cell lies in
/// `lo..=hi`, so does the potential of every cell.
pub proof fn lemma_potential_convex(g: Seq<u32>, width: int, height: int, k: Kernel, x: int, y: int, lo: int, hi: int)
    requires
        grid_wf(g, width, height),
        k.wf(),
        forall|i: int| 0 <= i < g.len() ==> lo <= #[trigger] g[i] <= hi,
    ensures
        lo <= potential_at(g, width, height, k, x, y) <= hi,
{
    let side = side_of(k.radius as int);
    let t = k.total as int;
    lemma_kernel_normalized(&k);
    lemma_weighted_sum_bounds(g, width, height, k, x, y, side * side, lo, hi);
    let s = weighted_sum(g, width, height, k, x, y, side * side);
    assert(lo * t <= s <= hi * t);
    lemma_div_is_ordered(lo * t, s, t);
    lemma_div_is_ordered(s, hi * t, t);
    assert(lo * t == t * lo && hi * t == t * hi) by (nonlinear_arith);
    lemma_div_multiples_vanish(lo, t);
    lemma_div_multiples_vanish(hi, t);
}

/// `(a + n - (r % n)) % n` is the coordinate `a - r` wrapped onto the torus.
proof fn lemma_wrap_back(a: int, r: int, n: int)
    requires
        n > 0,
        a >= 0,
        r >= 0,
    ensures
        (a + n - r % n) % n == wrap(a - r, n),
        a + n - r % n >= 0,
{
    lemma_fundamental_div_mod(r, n);
    lemma_mod_bound(r, n);
    lemma_mod_multiples_vanish(r / n + 1, a - r, n);
    assert(n * (r / n + 1) + (a - r) == a + n - r % n) by (nonlinear_arith)
        requires
            r == n * (r / n) + r % n,
    ;
}

/// Computes the potential of every cell of the grid, row by row.
pub fn compute_potential(grid: &Vec<u32>, width: usize, height: usize, kernel: &Kernel) -> (p: Vec<u32>)
    requires
        grid_wf(grid@, width as int, height as int),
        kernel.wf(),
    ensures
        p@.len() == grid@.len(),
        forall|i: int|
            0 <= i < p@.len() ==> #[trigger] p@[i] == potential_at(grid@, width as int, height as int, *kernel, i % width as int, i / width as int),
{
    let r = kernel.radius;
    let side = 2 * r + 1;
    proof {
        assert(side * side <= 6001 * 6001) by (nonlinear_arith)
            requires
                side <= 6001,
        ;
        lemma_kernel_normalized(kernel);
    }
    let n = side * side;
    let cells = width * height;
    let rw = r % width;
    let rh = r % height;
    let mut p: Vec<u32> = Vec::new();
    let mut i: usize = 0;
    while i < cells
        invariant
            grid_wf(grid@, width as int, height as int),
            kernel.wf(),
            kernel.total > 0,
            r == kernel.radius,
            side == 2 * r + 1,
            n == side * side,
            n <= 6001 * 6001,
            cells == width * height,
            rw == r % width,
            rh == r % height,
            i <= cells,
            p@.len() == i,
            forall|i2: int|
                0 <= i2 < i ==> #[trigger] p@[i2] == potential_at(grid@, width as int, height as int, *kernel, i2 % width as int, i2 / width as int),
        decreases cells - i,
    {
        let x = i % width;
        let y = i / width;
        proof {
            lemma_mod_bound(i as int, width as int);
            vstd::arithmetic::div_mod::lemma_div_pos_is_pos(i as int, width as int);
            lemma_fundamental_div_mod(i as int, width as int);
            assert(y < height) by (nonlinear_arith)
                requires
                    i == width * y + x,
                    0 <= x,
                    i < width * height,
                    width > 0,
            ;
        }
        let mut sum: u128 = 0;
        let mut j: usize = 0;
        while j < n
            invariant
                grid_wf(grid@, width as int, height as int),
                kernel.wf(),
                r == kernel.radius,
                side == 2 * r + 1,
                n == side * side,
                n <= 6001 * 6001,
                rw == r % width,
                rh == r % height,
                x < width,
                y < height,
                    j <= n,
                sum == weighted_sum(grid@, width as int, height as int, *kernel, x as int, y as int, j as int),
                sum <= j * 0x1_0000_0000_0000_0000_0000_0000,
            decreases n - j,
        {
            let kx = j % side;
            let ky = j / side;
            proof {
                lemma_mod_bound(j as int, side as int);
                vstd::arithmetic::div_mod::lemma_div_pos_is_pos(j as int, side as int);
                lemma_fundamental_div_mod(j as int, side as int);
                assert(ky < side) by (nonlinear_arith)
                    requires
                        j == side * ky + kx,
                        0 <= kx,
                        j < side * side,
                        side > 0,
                ;
                lemma_wrap_back((x + kx) as int, r as int, width as int);
                lemma_wrap_back((y + ky) as int, r as int, height as int);
            }
            let gx = ((x as u128 + kx as u128 + width as u128 - rw as u128) % width as u128) as usize;
            let gy = ((y as u128 + ky as u128 + height as u128 - rh as u128) % height as u128) as usize;
            proof {
                lemma_cell_index(width as int, height as int, gx as int, gy as int);
                assert(wrap(gx as int, width as int) == gx) by {
                    lemma_fundamental_div_mod_converse(gx as int, width as int, 0, gx as int);
                }
                assert(wrap(gy as int, height as int) == gy) by {
                    lemma_fundamental_div_mod_converse(gy as int, height as int, 0, gy as int);
                }
            }
            let v = grid[gy * width + gx];
            let wt = kernel.weights[j];
            proof {
                assert(v * wt <= 0x1_0000_0000_0000_0000_0000_0000) by (nonlinear_arith)
                    requires
                        v <= u32::MAX,
                        wt <= u64::MAX,
                ;
                assert((j + 1) * 0x1_0000_0000_0000_0000_0000_0000int <= 6001 * 6001 * 0x1_0000_0000_0000_0000_0000_0000int) by (nonlinear_arith)
                    requires
                        j < n,
                        n <= 6001 * 6001,
                ;
            }
            sum = sum + v as u128 * wt as u128;
            j = j + 1;
        }
        proof {
            lemma_potential_convex(grid@, width as int, height as int, *kernel, x as int, y as int, 0, u32::MAX as int);
        }
        let q = sum / kernel.total as u128;
        p.push(q as u32);
        i = i + 1;
    }
    p
}

/// The grid moved by `sx` columns and `sy` rows, wrapping around the edges:
/// the cell at `(x, y)` of the result is the cell at `(x - sx, y - sy)` of `g`.
pub open spec fn shifted(g: Seq<u32>, width: int, height: int, sx: int, sy: int) -> Seq<u32> {
    Seq::new(
        (width * height) as nat,
        |i: int| g[wrap(i / width - sy, height) * width + wrap(i % width - sx, width)],
    )
}

/// Each contribution to the potential of the moved grid equals the one at the
/// moved-back cell of the unmoved grid.
proof fn lemma_tap_shift(g: Seq<u32>, width: int, height: int, k: Kernel, sx: int, sy: int, x: int, y: int, j: int)
    requires
        grid_wf(g, width, height),
        k.wf(),
    ensures
        tap(shifted(g, width, height, sx, sy), width, height, k, x, y, j)
            == tap(g, width, height, k, wrap(x - sx, width), wrap(y - sy, height), j),
{
    let r = k.radius as int;
    let side = side_of(r);
    let kx = j % side;
    let ky = j / side;
    let cx = wrap(x + kx - r, width);
    let cy = wrap(y + ky - r, height);
    lemma_wrap_bound(x + kx - r, width);
    lemma_wrap_bound(y + ky - r, height);
    lemma_cell_index(width, height, cx, cy);
    lemma_fundamental_div_mod_converse(cx, width, 0, cx);
    lemma_fundamental_div_mod_converse(cy, height, 0, cy);
    lemma_wrap_add(x + kx - r, -sx, width);
    lemma_wrap_add(y + ky - r, -sy, height);
    lemma_wrap_add(x - sx, kx - r, width);
    lemma_wrap_add(y - sy, ky - r, height);
    assert(x + kx - r + -sx == x - sx + (kx - r));
    assert(y + ky - r + -sy == y - sy + (ky - r));
}

proof fn lemma_weighted_sum_shift(g: Seq<u32>, width: int, height: int, k: Kernel, sx: int, sy: int, x: int, y: int, n: int)
    requires
        grid_wf(g, width, height),
        k.wf(),
    ensures
        weighted_sum(shifted(g, width, height, sx, sy), width, height, k, x, y, n)
            == weighted_sum(g, width, height, k, wrap(x - sx, width), wrap(y - sy, height), n),
    decreases n,
{
    if n > 0 {
        lemma_weighted_sum_shift(g, width, height, k, sx, sy, x, y, n - 1);
        lemma_tap_shift(g, width, height, k, sx, sy, x, y, n - 1);
    }
}

/// The potential commutes with moving the grid around the torus: the
/// potential of the moved grid at a cell is the potential of the unmoved
/// grid at the cell it came from.
pub proof fn lemma_potential_shift(g: Seq<u32>, width: int, height: int, k: Kernel, sx: int, sy: int, x: int, y: int)
    requires
        grid_wf(g, width, height),
        k.wf(),
    ensures
        grid_wf(shifted(g, width, height, sx, sy), width, height),
        potential_at(shifted(g, width, height, sx, sy), width, height, k, x, y)
            == potential_at(g, width, height, k, wrap(x - sx, width), wrap(y - sy, height)),
{
    let side = side_of(k.radius as int);
    lemma_weighted_sum_shift(g, width, height, k, sx, sy, x, y, side * side);
}

} // verus!
