//! The normalized radial-falloff convolution kernel.
//!
//! A weight is stored as an integer; the kernel's normalized weight at an
//! offset is that integer divided by `total`, the sum of all of them.
use vstd::prelude::*;
use crate::ONE;
use crate::arith::{isqrt, root_below, lemma_root_below};
use vstd::arithmetic::div_mod::lemma_fundamental_div_mod_converse;

verus! {

/// The largest kernel radius: the squared distance of a kernel offset, in
/// fixed-point units, `ONE^2 * (dx^2 + dy^2) <= ONE^2 * 2 r^2`, must fit in a
/// `u64` for the integer square root.
pub const MAX_RADIUS: usize = 3000;

/// The side length of a kernel of radius `r`.
pub open spec fn side_of(r: int) -> int {
    2 * r + 1
}

/// The unnormalized weight at offset `(dx, dy)` from the center:
/// `ONE * r * max(0, 1 - distance / r)`, with the distance rounded down to a
/// multiple of `1 / ONE`.
pub open spec fn raw_weight(r: int, dx: int, dy: int) -> int {
    let d = root_below(ONE as int * ONE as int * (dx * dx + dy * dy));
    if d < r * ONE {
        r * ONE - d
    } else {
        0
    }
}

/// The sum of the first `n` entries of `s`.
pub open spec fn sum_prefix(s: Seq<u64>, n: int) -> int
    decreases n,
{
    if n <= 0 {
        0
    } else {
        sum_prefix(s, n - 1) + s[n - 1]
    }
}

/// A prefix sum reads only the entries it covers.
pub proof fn lemma_sum_prefix_agree(a: Seq<u64>, b: Seq<u64>, n: int)
    requires
        0 <= n <= a.len(),
        n <= b.len(),
        forall|i: int| 0 <= i < n ==> a[i] == b[i],
    ensures
        sum_prefix(a, n) == sum_prefix(b, n),
    decreases n,
{
    if n > 0 {
        lemma_sum_prefix_agree(a, b, n - 1);
    }
}

/// A prefix sum of non-negative entries is at least each entry it covers.
pub proof fn lemma_sum_prefix_covers(s: Seq<u64>, n: int, i: int)
    requires
        0 <= i < n <= s.len(),
    ensures
        sum_prefix(s, n) >= s[i],
    decreases n,
{
    if i < n - 1 {
        lemma_sum_prefix_covers(s, n - 1, i);
    }
    lemma_sum_prefix_nonneg(s, n - 1);
}

/// A prefix sum of non-negative entries is non-negative.
pub proof fn lemma_sum_prefix_nonneg(s: Seq<u64>, n: int)
    requires
        n <= s.len(),
    ensures
        sum_prefix(s, n) >= 0,
    decreases n,
{
    if n > 0 {
        lemma_sum_prefix_nonneg(s, n - 1);
    }
}

/// The kernel's weights, row by row, `(2r+1) * (2r+1)` of them.
pub struct Kernel {
    pub radius: usize,
    pub weights: Vec<u64>,
    pub total: u64,
}

impl Kernel {
    /// The weight at column `kx`, row `ky` of the kernel's square.
    pub open spec fn weight_at(&self, kx: int, ky: int) -> int {
        self.weights@[ky * side_of(self.radius as int) + kx] as int
    }

    /// The radius is in range and every weight is the raw weight of its offset;
    /// `total` is their sum.
    pub open spec fn wf(&self) -> bool {
        let r = self.radius as int;
        let side = side_of(r);
        &&& 1 <= r <= MAX_RADIUS
        &&& self.weights@.len() == side * side
        &&& forall|j: int|
            0 <= j < side * side ==> #[trigger] self.weights@[j] == raw_weight(r, j % side - r, j / side - r)
        &&& self.total == sum_prefix(self.weights@, side * side)
    }

    /// The weight at column `kx`, row `ky` is the raw weight of its offset from the center.
    pub proof fn lemma_weight_at(&self, kx: int, ky: int)
        requires
            self.wf(),
            0 <= kx < side_of(self.radius as int),
            0 <= ky < side_of(self.radius as int),
        ensures
            self.weight_at(kx, ky) == raw_weight(self.radius as int, kx - self.radius, ky - self.radius),
    {
        let side = side_of(self.radius as int);
        let j = ky * side + kx;
        lemma_fundamental_div_mod_converse(j, side, ky, kx);
        assert(0 <= j < side * side) by (nonlinear_arith)
            requires
                j == ky * side + kx,
                0 <= kx < side,
                0 <= ky < side,
        ;
        assert(self.weights@[j] == raw_weight(self.radius as int, j % side - self.radius, j / side - self.radius));
    }

    /// Builds the kernel of radius `kernel_radius`.
    pub fn new(kernel_radius: usize) -> (k: Kernel)
        requires
            1 <= kernel_radius <= MAX_RADIUS,
        ensures
            k.wf(),
            k.radius == kernel_radius,
    {
        let r = kernel_radius;
        let side = 2 * r + 1;
        assert(side * side <= 6001 * 6001) by (nonlinear_arith)
            requires
                side <= 6001,
        ;
        let n = side * side;
        let top: u64 = r as u64 * ONE as u64;
        let mut weights: Vec<u64> = Vec::new();
        let mut total: u64 = 0;
        let mut j: usize = 0;
        while j < n
            invariant
                side == 2 * r + 1,
                n == side * side,
                1 <= r <= MAX_RADIUS,
                top == r * ONE,
                j <= n,
                weights@.len() == j,
                forall|i: int| 0 <= i < j ==> #[trigger] weights@[i] == raw_weight(r as int, i % side as int - r, i / side as int - r),
                total == sum_prefix(weights@, j as int),
                total <= j * top,
            decreases n - j,
        {
            proof {
                let q = j as int / side as int;
                let m = j as int % side as int;
                vstd::arithmetic::div_mod::lemma_fundamental_div_mod(j as int, side as int);
                vstd::arithmetic::div_mod::lemma_mod_bound(j as int, side as int);
                assert(0 <= q) by {
                    vstd::arithmetic::div_mod::lemma_div_pos_is_pos(j as int, side as int);
                }
                assert(q < side) by (nonlinear_arith)
                    requires
                        j == side * q + m,
                        0 <= m,
                        j < side * side,
                        side > 0,
                ;
            }
            let dx: i64 = (j % side) as i64 - r as i64;
            let dy: i64 = (j / side) as i64 - r as i64;
            proof {
                assert(dx * dx <= 9_000_000) by (nonlinear_arith)
                    requires
                        -3000 <= dx <= 3000,
                ;
                assert(dy * dy <= 9_000_000) by (nonlinear_arith)
                    requires
                        -3000 <= dy <= 3000,
                ;
                assert(dx * dx >= 0 && dy * dy >= 0) by (nonlinear_arith);
            }
            let d2: u64 = (dx * dx + dy * dy) as u64;
            let s = isqrt(ONE as u64 * ONE as u64 * d2);
            proof {
                lemma_root_below(ONE as int * ONE as int * d2, s as int);
            }
            let w: u64 = if s < top {
                top - s
            } else {
                0
            };
            proof {
                assert((j + 1) * top == j * top + top) by (nonlinear_arith);
                assert((j + 1) * top <= n * top) by (nonlinear_arith)
                    requires
                        j < n,
                ;
                assert(n * top <= 6001 * 6001 * 3000 * 1_000_000) by (nonlinear_arith)
                    requires
                        n == side * side,
                        side <= 6001,
                        top <= 3000 * 1_000_000,
                ;
            }
            let ghost before = weights@;
            weights.push(w);
            total = total + w;
            j = j + 1;
            proof {
                lemma_sum_prefix_agree(before, weights@, j - 1);
            }
        }
        Kernel { radius: r, weights, total }
    }
}

/// Every weight is non-negative and the weights sum to `total`, which is
/// positive: the normalized weights `weight / total` are non-negative and sum
/// to exactly one.
pub proof fn lemma_kernel_normalized(k: &Kernel)
    requires
        k.wf(),
    ensures
        k.total > 0,
        sum_prefix(k.weights@, k.weights@.len() as int) == k.total,
        forall|j: int| 0 <= j < k.weights@.len() ==> #[trigger] k.weights@[j] >= 0,
{
    let r = k.radius as int;
    let side = side_of(r);
    k.lemma_weight_at(r, r);
    lemma_root_below(0, 0);
    assert(r * ONE > 0) by (nonlinear_arith)
        requires
            r >= 1,
    ;
    assert(raw_weight(r, 0, 0) == r * ONE);
    assert(0 <= r * side + r < side * side) by (nonlinear_arith)
        requires
            side == 2 * r + 1,
            r >= 1,
    ;
    lemma_sum_prefix_covers(k.weights@, side * side, r * side + r);
}

/// The kernel is mirror-symmetric in each axis about its center.
pub proof fn lemma_kernel_symmetric(k: &Kernel, dx: int, dy: int)
    requires
        k.wf(),
        -k.radius <= dx <= k.radius,
        -k.radius <= dy <= k.radius,
    ensures
        k.weight_at(k.radius + dx, k.radius + dy) == k.weight_at(k.radius - dx, k.radius + dy),
        k.weight_at(k.radius + dx, k.radius + dy) == k.weight_at(k.radius + dx, k.radius - dy),
{
    let r = k.radius as int;
    k.lemma_weight_at(r + dx, r + dy);
    k.lemma_weight_at(r - dx, r + dy);
    k.lemma_weight_at(r + dx, r - dy);
    assert((-dx) * (-dx) == dx * dx) by (nonlinear_arith);
    assert((-dy) * (-dy) == dy * dy) by (nonlinear_arith);
    assert(r + dx - r == dx && r - dx - r == -dx && r + dy - r == dy && r - dy - r == -dy);
}

} // verus!
