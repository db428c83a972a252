//! The simulation engine: owns the grid and the kernel, steps and reseeds.
use vstd::prelude::*;
use crate::ONE;
use crate::growth::{next_value, next_value_spec};
use crate::kernel::{Kernel, MAX_RADIUS};
use crate::potential::{grid_wf, potential_at, compute_potential, lemma_potential_convex};
use crate::render::{color_of, gray_of, pgm_of, cell_color, cell_gray, push_decimal};
use crate::seed::{seeded_cell, seed_cell_value, block_at, disk_at, disk_count, lemma_disk_count_bounds, BLOCK_VALUE};
use rand::Rng;

verus! {

/// A cell counts as alive while its value exceeds this, 0.01.
pub const ACTIVE_THRESHOLD: u32 = 10_000;

/// Why an engine could not be built.
#[derive(Debug, Clone, Copy, PartialEq, Eq, Structural)]
pub enum ConfigError {
    /// The width or the height is zero.
    ZeroDimension,
    /// The kernel radius is zero.
    ZeroKernelRadius,
    /// The kernel radius exceeds `MAX_RADIUS`.
    KernelRadiusTooLarge,
}

/// The error, if any, that `SimpleLife::new` reports for these parameters.
pub open spec fn config_error(width: int, height: int, kernel_radius: int) -> Option<ConfigError> {
    if width == 0 || height == 0 {
        Some(ConfigError::ZeroDimension)
    } else if kernel_radius == 0 {
        Some(ConfigError::ZeroKernelRadius)
    } else if kernel_radius > MAX_RADIUS {
        Some(ConfigError::KernelRadiusTooLarge)
    } else {
        None
    }
}

/// One uniformly random value in `0..bound`.
///
/// Relies on `rand::thread_rng` and `rand::Rng::gen_range`, which returns a
/// value of the half-open range and panics only on an empty one.
#[verifier::external_body]
fn random_below(bound: u32) -> (r: u32)
    requires
        bound > 0,
    ensures
        r < bound,
{
    rand::thread_rng().gen_range(0..bound)
}

/// A continuous cellular automaton on a `width` by `height` torus.
pub struct SimpleLife {
    width: usize,
    height: usize,
    grid: Vec<u32>,
    kernel: Kernel,
    dt: u32,
}

impl SimpleLife {
    /// The cell values, row by row.
    pub closed spec fn cells(&self) -> Seq<u32> {
        self.grid@
    }

    /// The number of columns.
    pub closed spec fn spec_width(&self) -> int {
        self.width as int
    }

    /// The number of rows.
    pub closed spec fn spec_height(&self) -> int {
        self.height as int
    }

    /// The convolution kernel.
    pub closed spec fn spec_kernel(&self) -> Kernel {
        self.kernel
    }

    /// The step size, in units of `ONE`.
    pub closed spec fn spec_dt(&self) -> int {
        self.dt as int
    }

    /// The potential of cell `i` of the current grid.
    pub open spec fn potential_of(&self, i: int) -> int {
        potential_at(
            self.cells(),
            self.spec_width(),
            self.spec_height(),
            self.spec_kernel(),
            i % self.spec_width(),
            i / self.spec_width(),
        )
    }

    /// The grid has its shape, every cell lies in `0..=ONE`, and the kernel is built.
    pub open spec fn wf(&self) -> bool {
        &&& grid_wf(self.cells(), self.spec_width(), self.spec_height())
        &&& self.spec_kernel().wf()
        &&& forall|i: int| 0 <= i < self.cells().len() ==> #[trigger] self.cells()[i] <= ONE
    }

    /// An engine with an all-zero grid and the kernel of radius `kernel_radius`;
    /// `dt` is the step size in units of `ONE`. The grid of `u32` cells must be
    /// addressable: its size in bytes fits in an `isize`.
    pub fn new(width: usize, height: usize, kernel_radius: usize, dt: u32) -> (res: Result<SimpleLife, ConfigError>)
        requires
            width * height * 4 <= isize::MAX,
        ensures
            config_error(width as int, height as int, kernel_radius as int) == match res {
                Ok(_) => None::<ConfigError>,
                Err(e) => Some(e),
            },
            res matches Ok(s) ==> {
                &&& s.wf()
                &&& s.spec_width() == width
                &&& s.spec_height() == height
                &&& s.spec_kernel().radius == kernel_radius
                &&& s.spec_dt() == dt
                &&& forall|i: int| 0 <= i < s.cells().len() ==> #[trigger] s.cells()[i] == 0
            },
    {
        if width == 0 || height == 0 {
            return Err(ConfigError::ZeroDimension);
        }
        if kernel_radius == 0 {
            return Err(ConfigError::ZeroKernelRadius);
        }
        if kernel_radius > MAX_RADIUS {
            return Err(ConfigError::KernelRadiusTooLarge);
        }
        let n = width * height;
        let grid: Vec<u32> = vec![0; n];
        let kernel = Kernel::new(kernel_radius);
        Ok(SimpleLife { width, height, grid, kernel, dt })
    }

    /// The number of columns.
    pub fn width(&self) -> (w: usize)
        ensures
            w == self.spec_width(),
    {
        self.width
    }

    /// The number of rows.
    pub fn height(&self) -> (h: usize)
        ensures
            h == self.spec_height(),
    {
        self.height
    }

    /// The radius of the kernel.
    pub fn kernel_radius(&self) -> (r: usize)
        ensures
            r == self.spec_kernel().radius,
    {
        self.kernel.radius
    }

    /// The step size, in units of `ONE`.
    pub fn dt(&self) -> (dt: u32)
        ensures
            dt == self.spec_dt(),
    {
        self.dt
    }

    /// A copy of the cell values, row by row.
    pub fn snapshot(&self) -> (g: Vec<u32>)
        ensures
            g@ == self.cells(),
    {
        self.grid.clone()
    }

    /// The value of the cell at column `x`, row `y`.
    pub fn cell(&self, x: usize, y: usize) -> (v: u32)
        requires
            self.wf(),
            x < self.spec_width(),
            y < self.spec_height(),
        ensures
            v == self.cells()[y * self.spec_width() + x],
    {
        proof {
            crate::potential::lemma_cell_index(self.width as int, self.height as int, x as int, y as int);
        }
        self.grid[y * self.width + x]
    }

    /// Sets the cell at column `x`, row `y` to `value`, which must lie in `0..=ONE`.
    pub fn set_cell(&mut self, x: usize, y: usize, value: u32)
        requires
            old(self).wf(),
            x < old(self).spec_width(),
            y < old(self).spec_height(),
            value <= ONE,
        ensures
            final(self).wf(),
            final(self).spec_width() == old(self).spec_width(),
            final(self).spec_height() == old(self).spec_height(),
            final(self).spec_kernel() == old(self).spec_kernel(),
            final(self).spec_dt() == old(self).spec_dt(),
            final(self).cells() == old(self).cells().update(y * old(self).spec_width() + x, value),
    {
        proof {
            crate::potential::lemma_cell_index(self.width as int, self.height as int, x as int, y as int);
        }
        let i = y * self.width + x;
        self.grid.set(i, value);
    }

    /// Computes the potential of every cell of the current grid.
    pub fn compute_potential(&self) -> (p: Vec<u32>)
        requires
            self.wf(),
        ensures
            p@.len() == self.cells().len(),
            forall|i: int| 0 <= i < p@.len() ==> #[trigger] p@[i] == self.potential_of(i),
            forall|i: int| 0 <= i < p@.len() ==> #[trigger] p@[i] <= ONE,
    {
        let p = compute_potential(&self.grid, self.width, self.height, &self.kernel);
        proof {
            assert forall|i: int| 0 <= i < p@.len() implies #[trigger] p@[i] <= ONE by {
                lemma_potential_convex(
                    self.cells(),
                    self.spec_width(),
                    self.spec_height(),
                    self.spec_kernel(),
                    i % self.spec_width(),
                    i / self.spec_width(),
                    0,
                    ONE as int,
                );
            }
        }
        p
    }

    /// Advances the grid by one step: every cell moves by `dt` times the
    /// growth at its potential, clamped to `0..=ONE`. Returns whether the grid
    /// went extinct, that is no cell exceeds `ACTIVE_THRESHOLD` any more.
    pub fn update(&mut self) -> (extinct: bool)
        requires
            old(self).wf(),
        ensures
            final(self).wf(),
            final(self).spec_width() == old(self).spec_width(),
            final(self).spec_height() == old(self).spec_height(),
            final(self).spec_kernel() == old(self).spec_kernel(),
            final(self).spec_dt() == old(self).spec_dt(),
            final(self).cells().len() == old(self).cells().len(),
            forall|i: int| 0 <= i < final(self).cells().len() ==> #[trigger] final(self).cells()[i] <= ONE,
            forall|i: int|
                0 <= i < final(self).cells().len() ==> #[trigger] final(self).cells()[i] == next_value_spec(
                    old(self).cells()[i] as int,
                    old(self).potential_of(i),
                    old(self).spec_dt(),
                ),
            extinct == forall|i: int| 0 <= i < final(self).cells().len() ==> #[trigger] final(self).cells()[i] <= ACTIVE_THRESHOLD,
    {
        let potential = self.compute_potential();
        let ghost before = *self;
        let n = self.grid.len();
        let mut active = false;
        let mut i: usize = 0;
        while i < n
            invariant
                n == before.cells().len(),
                potential@.len() == n,
                forall|j: int| 0 <= j < n ==> #[trigger] potential@[j] == before.potential_of(j),
                forall|j: int| 0 <= j < n ==> #[trigger] potential@[j] <= ONE,
                self.width == before.width,
                self.height == before.height,
                self.kernel == before.kernel,
                self.dt == before.dt,
                self.grid@.len() == n,
                i <= n,
                forall|j: int| 0 <= j < i ==> #[trigger] self.grid@[j] == next_value_spec(
                    before.cells()[j] as int,
                    before.potential_of(j),
                    before.spec_dt(),
                ),
                forall|j: int| i <= j < n ==> #[trigger] self.grid@[j] == before.cells()[j],
                forall|j: int| 0 <= j < i ==> #[trigger] self.grid@[j] <= ONE,
                active == exists|j: int| 0 <= j < i && #[trigger] self.grid@[j] > ACTIVE_THRESHOLD,
            decreases n - i,
        {
            let v = next_value(self.grid[i], potential[i] as i32, self.dt);
            let ghost g0 = self.grid@;
            let ghost a0 = active;
            self.grid.set(i, v);
            if v > ACTIVE_THRESHOLD {
                active = true;
            }
            proof {
                if a0 {
                    let j0 = choose|j: int| 0 <= j < i && #[trigger] g0[j] > ACTIVE_THRESHOLD;
                    assert(self.grid@[j0] > ACTIVE_THRESHOLD);
                }
                if v > ACTIVE_THRESHOLD {
                    assert(self.grid@[i as int] > ACTIVE_THRESHOLD);
                }
            }
            i = i + 1;
        }
        !active
    }

    /// Refills the grid, taking the draws (each in `0..ONE`) in order, one for
    /// each cell inside the disk of `radius` (a fraction of the shorter side,
    /// in units of `ONE`) around the center, row by row: a cell in a stamped
    /// block gets `BLOCK_VALUE`; else a cell inside the disk gets the value
    /// that its draw gives under `density`; every other cell gets zero.
    pub fn random_init_with(&mut self, radius: u32, density: u32, draws: &Vec<u32>)
        requires
            old(self).wf(),
            draws@.len() >= disk_count(
                old(self).spec_width(),
                old(self).spec_height(),
                radius as int,
                old(self).cells().len() as int,
            ),
            forall|i: int| 0 <= i < draws@.len() ==> #[trigger] draws@[i] < ONE,
        ensures
            final(self).wf(),
            final(self).spec_width() == old(self).spec_width(),
            final(self).spec_height() == old(self).spec_height(),
            final(self).spec_kernel() == old(self).spec_kernel(),
            final(self).spec_dt() == old(self).spec_dt(),
            final(self).cells().len() == old(self).cells().len(),
            forall|i: int|
                0 <= i < final(self).cells().len() ==> #[trigger] final(self).cells()[i] == seeded_cell(
                    old(self).spec_width(),
                    old(self).spec_height(),
                    radius as int,
                    density as int,
                    draws@,
                    i,
                ),
    {
        let ghost before = *self;
        let n = self.grid.len();
        let w = self.width;
        let h = self.height;
        let mut used: usize = 0;
        let mut i: usize = 0;
        while i < n
            invariant
                n == before.cells().len(),
                n == w * h,
                grid_wf(before.cells(), w as int, h as int),
                draws@.len() >= disk_count(w as int, h as int, radius as int, n as int),
                forall|j: int| 0 <= j < draws@.len() ==> #[trigger] draws@[j] < ONE,
                w == self.width,
                h == self.height,
                self.width == before.width,
                self.height == before.height,
                self.kernel == before.kernel,
                self.dt == before.dt,
                self.grid@.len() == n,
                i <= n,
                used == disk_count(w as int, h as int, radius as int, i as int),
                forall|j: int|
                    0 <= j < i ==> #[trigger] self.grid@[j] == seeded_cell(
                        w as int,
                        h as int,
                        radius as int,
                        density as int,
                        draws@,
                        j,
                    ),
                forall|j: int| 0 <= j < n ==> #[trigger] self.grid@[j] <= ONE,
            decreases n - i,
        {
            let x = i % w;
            let y = i / w;
            proof {
                vstd::arithmetic::div_mod::lemma_mod_bound(i as int, w as int);
                vstd::arithmetic::div_mod::lemma_div_pos_is_pos(i as int, w as int);
                vstd::arithmetic::div_mod::lemma_fundamental_div_mod(i as int, w as int);
                assert(y < h) by (nonlinear_arith)
                    requires
                        i == w * y + x,
                        0 <= x,
                        i < w * h,
                        w > 0,
                ;
                lemma_disk_count_bounds(w as int, h as int, radius as int, i as int + 1, n as int);
                lemma_disk_count_bounds(w as int, h as int, radius as int, i as int, i as int);
            }
            let inside = disk_at(w, h, radius, x, y);
            let v = if block_at(w, h, x, y) {
                BLOCK_VALUE
            } else if inside {
                seed_cell_value(draws[used], density)
            } else {
                0
            };
            if inside {
                used = used + 1;
            }
            self.grid.set(i, v);
            i = i + 1;
        }
    }

    /// Refills the grid as `random_init_with` does, with one draw from the
    /// thread's random number generator for each cell inside the disk, and
    /// none for any other cell.
    pub fn random_init(&mut self, radius: u32, density: u32)
        requires
            old(self).wf(),
        ensures
            final(self).wf(),
            final(self).spec_width() == old(self).spec_width(),
            final(self).spec_height() == old(self).spec_height(),
            final(self).spec_kernel() == old(self).spec_kernel(),
            final(self).spec_dt() == old(self).spec_dt(),
            final(self).cells().len() == old(self).cells().len(),
            exists|draws: Seq<u32>|
                #![trigger draws.len()]
                draws.len() == disk_count(
                    old(self).spec_width(),
                    old(self).spec_height(),
                    radius as int,
                    old(self).cells().len() as int,
                )
                && (forall|i: int| 0 <= i < draws.len() ==> #[trigger] draws[i] < ONE)
                && forall|i: int|
                    0 <= i < final(self).cells().len() ==> #[trigger] final(self).cells()[i] == seeded_cell(
                        old(self).spec_width(),
                        old(self).spec_height(),
                        radius as int,
                        density as int,
                        draws,
                        i,
                    ),
    {
        let n = self.grid.len();
        let w = self.width;
        let h = self.height;
        let mut draws: Vec<u32> = Vec::new();
        let mut i: usize = 0;
        while i < n
            invariant
                n == self.cells().len(),
                n == w * h,
                w == self.spec_width(),
                h == self.spec_height(),
                w >= 1,
                i <= n,
                draws@.len() == disk_count(w as int, h as int, radius as int, i as int),
                forall|j: int| 0 <= j < draws@.len() ==> #[trigger] draws@[j] < ONE,
            decreases n - i,
        {
            let x = i % w;
            let y = i / w;
            proof {
                vstd::arithmetic::div_mod::lemma_mod_bound(i as int, w as int);
                vstd::arithmetic::div_mod::lemma_div_pos_is_pos(i as int, w as int);
                vstd::arithmetic::div_mod::lemma_fundamental_div_mod(i as int, w as int);
                assert(y < h) by (nonlinear_arith)
                    requires
                        i == w * y + x,
                        0 <= x,
                        i < w * h,
                        w > 0,
                ;
                lemma_disk_count_bounds(w as int, h as int, radius as int, i as int, i as int);
            }
            if disk_at(w, h, radius, x, y) {
                draws.push(random_below(ONE));
            }
            i = i + 1;
        }
        self.random_init_with(radius, density, &draws);
        assert(draws@.len() == disk_count(w as int, h as int, radius as int, n as int));
    }

    /// The packed color of every cell, row by row.
    pub fn create_buffer(&self) -> (buf: Vec<u32>)
        requires
            self.wf(),
        ensures
            buf@.len() == self.cells().len(),
            forall|i: int| 0 <= i < buf@.len() ==> #[trigger] buf@[i] == color_of(self.cells()[i] as int),
    {
        let n = self.grid.len();
        let mut buf: Vec<u32> = Vec::new();
        let mut i: usize = 0;
        while i < n
            invariant
                self.wf(),
                n == self.cells().len(),
                i <= n,
                buf@.len() == i,
                forall|j: int| 0 <= j < i ==> #[trigger] buf@[j] == color_of(self.cells()[j] as int),
            decreases n - i,
        {
            buf.push(cell_color(self.grid[i]));
            i = i + 1;
        }
        buf
    }

    /// The gray level of every cell, row by row.
    pub fn gray_pixels(&self) -> (px: Vec<u8>)
        requires
            self.wf(),
        ensures
            px@.len() == self.cells().len(),
            forall|i: int| 0 <= i < px@.len() ==> #[trigger] px@[i] == gray_of(self.cells()[i] as int),
    {
        let n = self.grid.len();
        let mut px: Vec<u8> = Vec::new();
        let mut i: usize = 0;
        while i < n
            invariant
                self.wf(),
                n == self.cells().len(),
                i <= n,
                px@.len() == i,
                forall|j: int| 0 <= j < i ==> #[trigger] px@[j] == gray_of(self.cells()[j] as int),
            decreases n - i,
        {
            px.push(cell_gray(self.grid[i]));
            i = i + 1;
        }
        px
    }

    /// The grid as a binary graymap file.
    pub fn pgm_bytes(&self) -> (bytes: Vec<u8>)
        requires
            self.wf(),
        ensures
            exists|px: Seq<u8>|
                #![trigger px.len()]
                px.len() == self.cells().len()
                && (forall|i: int| 0 <= i < px.len() ==> #[trigger] px[i] == gray_of(self.cells()[i] as int))
                && bytes@ == pgm_of(self.spec_width() as nat, self.spec_height() as nat, px),
    {
        let mut out: Vec<u8> = Vec::new();
        out.push(80);
        out.push(53);
        out.push(10);
        push_decimal(&mut out, self.width);
        out.push(32);
        push_decimal(&mut out, self.height);
        out.push(10);
        out.push(50);
        out.push(53);
        out.push(53);
        out.push(10);
        let mut px = self.gray_pixels();
        let ghost pxs = px@;
        out.append(&mut px);
        assert(out@ =~= pgm_of(self.spec_width() as nat, self.spec_height() as nat, pxs));
        assert(pxs.len() == self.cells().len());
        out
    }
}

/// On a grid whose cells all hold `c`, the potential of every cell is `c`,
/// so one step moves every cell to the same value.
pub proof fn lemma_uniform_potential(s: SimpleLife, c: int)
    requires
        s.wf(),
        forall|i: int| 0 <= i < s.cells().len() ==> #[trigger] s.cells()[i] == c,
    ensures
        forall|i: int| 0 <= i < s.cells().len() ==> #[trigger] s.potential_of(i) == c,
{
    assert forall|i: int| 0 <= i < s.cells().len() implies #[trigger] s.potential_of(i) == c by {
        lemma_potential_convex(
            s.cells(),
            s.spec_width(),
            s.spec_height(),
            s.spec_kernel(),
            i % s.spec_width(),
            i / s.spec_width(),
            c,
            c,
        );
    }
}

/// An all-zero grid has zero potential everywhere, and a step leaves every
/// cell at zero: the decay cannot push a value below zero.
pub proof fn lemma_zero_grid_stays_zero(s: SimpleLife)
    requires
        s.wf(),
        forall|i: int| 0 <= i < s.cells().len() ==> #[trigger] s.cells()[i] == 0,
    ensures
        forall|i: int| 0 <= i < s.cells().len() ==> #[trigger] s.potential_of(i) == 0,
        forall|i: int|
            0 <= i < s.cells().len() ==> #[trigger] next_value_spec(s.cells()[i] as int, s.potential_of(i), s.spec_dt()) == 0,
{
    lemma_uniform_potential(s, 0);
    assert(crate::growth::growth_spec(0) == -200_000);
    let dt = s.spec_dt();
    assert(dt * -200_000 <= 0) by (nonlinear_arith)
        requires
            dt >= 0,
    ;
    vstd::arithmetic::div_mod::lemma_div_is_ordered(dt * -200_000, 0, ONE as int);
}

} // verus!
