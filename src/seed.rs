//! Seeding a grid: a random disk around the center and a few fixed blocks.
use vstd::prelude::*;
use crate::ONE;

verus! {

/// The value of every cell of a stamped block, 0.9.
pub const BLOCK_VALUE: u32 = 900_000;

/// The number of stamped blocks.
pub const BLOCK_COUNT: i64 = 5;

/// The spacing of the stamped blocks along the diagonal through the center.
pub const BLOCK_SPACING: i64 = 10;

/// Blocks are stamped only when both sides exceed this.
pub const BLOCK_MIN_SIDE: usize = 50;

/// The band above `density` in which a draw gives a medium value, 0.2.
pub const MEDIUM_BAND: u64 = 200_000;

/// The radius of the seeded disk, scaled by `ONE`: `radius` (a fraction, in
/// units of `ONE`) of the shorter side.
pub open spec fn disk_radius(width: int, height: int, radius: int) -> int {
    (if width <= height { width } else { height }) * radius
}

/// The cell `(x, y)` lies strictly inside the seeded disk around the center:
/// its distance `d` from the center has `ONE * d < disk_radius`.
pub open spec fn in_disk(width: int, height: int, radius: int, x: int, y: int) -> bool {
    let dx = x - width / 2;
    let dy = y - height / 2;
    let m = disk_radius(width, height, radius);
    (dx * dx + dy * dy) * (ONE as int * ONE as int) < m * m
}

/// The number of cells among the first `n`, row by row, that lie inside the disk.
pub open spec fn disk_count(width: int, height: int, radius: int, n: int) -> int
    decreases n,
{
    if n <= 0 {
        0
    } else {
        disk_count(width, height, radius, n - 1) + if in_disk(width, height, radius, (n - 1) % width, (n - 1) / width) {
            1int
        } else {
            0int
        }
    }
}

/// Counting disk cells never decreases, and never exceeds the number of cells counted.
pub proof fn lemma_disk_count_bounds(width: int, height: int, radius: int, i: int, n: int)
    requires
        0 <= i <= n,
    ensures
        0 <= disk_count(width, height, radius, i) <= disk_count(width, height, radius, n),
        disk_count(width, height, radius, n) <= n,
    decreases n,
{
    if n > 0 {
        if i < n {
            lemma_disk_count_bounds(width, height, radius, i, n - 1);
        } else {
            lemma_disk_count_bounds(width, height, radius, i - 1, n - 1);
        }
    }
}

/// The value that a draw `r` (uniform on `0..ONE`) gives a cell inside the disk:
/// `r / 2 + 0.3` below `density`, `0.3 * r` in the band above it, else zero.
pub open spec fn seed_value(r: int, density: int) -> int {
    if r < density {
        r / 2 + 300_000
    } else if r < density + MEDIUM_BAND {
        r * 3 / 10
    } else {
        0
    }
}

/// Column and row of the top-left cell of block `i`.
pub open spec fn block_origin(c: int, i: int) -> int {
    c + (i - 2) * BLOCK_SPACING
}

/// Block `i` is stamped when its origin keeps clear of the borders, and it
/// then covers the cell `(x, y)`.
pub open spec fn block_covers(width: int, height: int, i: int, x: int, y: int) -> bool {
    let bx = block_origin(width / 2, i);
    let by = block_origin(height / 2, i);
    &&& 2 < bx < width - 2
    &&& 2 < by < height - 2
    &&& bx <= x <= bx + 1
    &&& by <= y <= by + 1
}

/// Some stamped block covers `(x, y)`.
pub open spec fn in_block(width: int, height: int, x: int, y: int) -> bool {
    &&& width > BLOCK_MIN_SIDE
    &&& height > BLOCK_MIN_SIDE
    &&& exists|i: int| 0 <= i < BLOCK_COUNT && #[trigger] block_covers(width, height, i, x, y)
}

/// The seeded value of cell `i` (row by row): the cells inside the disk take
/// the draws in order, one each.
pub open spec fn seeded_cell(width: int, height: int, radius: int, density: int, draws: Seq<u32>, i: int) -> int {
    let x = i % width;
    let y = i / width;
    if in_block(width, height, x, y) {
        BLOCK_VALUE as int
    } else if in_disk(width, height, radius, x, y) {
        seed_value(draws[disk_count(width, height, radius, i)] as int, density)
    } else {
        0
    }
}

/// The value that the draw `r` gives a cell inside the disk.
pub fn seed_cell_value(r: u32, density: u32) -> (v: u32)
    requires
        r < ONE,
    ensures
        v == seed_value(r as int, density as int),
        v <= ONE,
{
    if (r as u64) < density as u64 {
        r / 2 + 300_000
    } else if (r as u64) < density as u64 + MEDIUM_BAND {
        r * 3 / 10
    } else {
        0
    }
}

/// Whether a stamped block covers `(x, y)`.
pub fn block_at(width: usize, height: usize, x: usize, y: usize) -> (b: bool)
    requires
        x < width,
        y < height,
    ensures
        b == in_block(width as int, height as int, x as int, y as int),
{
    if width <= BLOCK_MIN_SIDE || height <= BLOCK_MIN_SIDE {
        return false;
    }
    let cx = (width / 2) as i128;
    let cy = (height / 2) as i128;
    let w = width as i128;
    let h = height as i128;
    let xi = x as i128;
    let yi = y as i128;
    let mut i: i128 = 0;
    while i < BLOCK_COUNT as i128
        invariant
            0 <= i <= BLOCK_COUNT,
            cx == width / 2,
            cy == height / 2,
            w == width,
            h == height,
            xi == x,
            yi == y,
            width > BLOCK_MIN_SIDE,
            height > BLOCK_MIN_SIDE,
            forall|i2: int| 0 <= i2 < i ==> !#[trigger] block_covers(width as int, height as int, i2, x as int, y as int),
        decreases BLOCK_COUNT - i,
    {
        let step: i128 = (i - 2) * 10;
        assert(step == (i - 2) * BLOCK_SPACING);
        assert(cx <= usize::MAX && cy <= usize::MAX);
        let bx = cx + step;
        let by = cy + step;
        if 2 < bx && bx < w - 2 && 2 < by && by < h - 2 && bx <= xi && xi <= bx + 1 && by <= yi && yi <= by + 1 {
            assert(block_covers(width as int, height as int, i as int, x as int, y as int));
            return true;
        }
        i = i + 1;
    }
    false
}

/// Whether `(x, y)` lies inside the seeded disk.
///
/// With `m = disk_radius = ONE * t + r` and the squared distance `d2`, the
/// test `ONE^2 * d2 < m^2` is decided without forming either side: it holds
/// when `d2 < t^2`, fails when `d2 > t^2 + 2t`, and otherwise reduces to
/// `ONE^2 * (d2 - t^2) < 2 t ONE r + r^2`.
pub fn disk_at(width: usize, height: usize, radius: u32, x: usize, y: usize) -> (b: bool)
    requires
        x < width,
        y < height,
    ensures
        b == in_disk(width as int, height as int, radius as int, x as int, y as int),
{
    let shorter: u128 = if width <= height {
        width as u128
    } else {
        height as u128
    };
    let one = ONE as u128;
    proof {
        assert(shorter * radius <= 0x1_0000_0000_0000_0000 * 0x1_0000_0000) by (nonlinear_arith)
            requires
                shorter <= 0xFFFF_FFFF_FFFF_FFFF,
                radius <= 0xFFFF_FFFF,
        ;
    }
    let m: u128 = shorter * radius as u128;
    let t = m / one;
    let r = m % one;
    let cx = width / 2;
    let cy = height / 2;
    let ax: u128 = if x >= cx { (x - cx) as u128 } else { (cx - x) as u128 };
    let ay: u128 = if y >= cy { (y - cy) as u128 } else { (cy - y) as u128 };
    let ghost dx = x - width / 2;
    let ghost dy = y - height / 2;
    let ghost one2 = ONE as int * ONE as int;
    proof {
        assert(ax * ax == dx * dx && ay * ay == dy * dy) by (nonlinear_arith)
            requires
                ax == dx || ax == -dx,
                ay == dy || ay == -dy,
        ;
        assert(ax * ax <= 0x4000_0000_0000_0000_0000_0000_0000_0000) by (nonlinear_arith)
            requires
                ax <= 0x8000_0000_0000_0000,
        ;
        assert(ay * ay <= 0x4000_0000_0000_0000_0000_0000_0000_0000) by (nonlinear_arith)
            requires
                ay <= 0x8000_0000_0000_0000,
        ;
        vstd::arithmetic::div_mod::lemma_fundamental_div_mod(m as int, one as int);
        vstd::arithmetic::div_mod::lemma_mod_bound(m as int, one as int);
        assert(m == one * t + r);
    }
    let d2: u128 = ax * ax + ay * ay;
    if t >= 0x1_0000_0000_0000_0000 {
        proof {
            assert(d2 * one2 < m * m) by (nonlinear_arith)
                requires
                    d2 < 0x1_0000_0000_0000_0000 * 0x1_0000_0000_0000_0000,
                    t >= 0x1_0000_0000_0000_0000,
                    m == one * t + r,
                    r >= 0,
                    one2 == one * one,
                    one > 0,
            ;
        }
        return true;
    }
    proof {
        assert(t * t < 0x1_0000_0000_0000_0000 * 0x1_0000_0000_0000_0000) by (nonlinear_arith)
            requires
                t < 0x1_0000_0000_0000_0000,
        ;
    }
    let t2 = t * t;
    if d2 < t2 {
        proof {
            assert(d2 * one2 < m * m) by (nonlinear_arith)
                requires
                    d2 < t * t,
                    m == one * t + r,
                    r >= 0,
                    t >= 0,
                    one2 == one * one,
                    one > 0,
            ;
        }
        return true;
    }
    let e = d2 - t2;
    if e > 2 * t {
        proof {
            assert(d2 * one2 >= m * m) by (nonlinear_arith)
                requires
                    d2 >= t * t + 2 * t + 1,
                    m == one * t + r,
                    0 <= r < one,
                    t >= 0,
                    one2 == one * one,
            ;
        }
        return false;
    }
    proof {
        assert(e * one2 <= 0x3_0000_0000_0000_0000 * 1_000_000_000_000) by (nonlinear_arith)
            requires
                e <= 2 * t,
                t < 0x1_0000_0000_0000_0000,
                one2 == 1_000_000_000_000,
        ;
        assert(2 * t * one * r + r * r <= 0x3_0000_0000_0000_0000 * 1_000_000_000_000) by (nonlinear_arith)
            requires
                t < 0x1_0000_0000_0000_0000,
                r < one,
                one == 1_000_000,
        ;
        assert((d2 * one2 < m * m) == (e * one2 < 2 * t * one * r + r * r)) by (nonlinear_arith)
            requires
                d2 == t * t + e,
                m == one * t + r,
                one2 == one * one,
        ;
    }
    e * (one * one) < 2 * t * one * r + r * r
}

} // verus!
