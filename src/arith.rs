//! Small exact integer helpers shared by the simulation.
use vstd::prelude::*;
use vstd::arithmetic::div_mod::{lemma_fundamental_div_mod, lemma_fundamental_div_mod_converse, lemma_mod_bound};

verus! {

/// Floor division of a signed value by a positive divisor.
pub fn floor_div(p: i128, d: i128) -> (q: i128)
    requires
        d > 0,
        p > i128::MIN,
    ensures
        q as int == p as int / d as int,
{
    if p >= 0 {
        p / d
    } else {
        let n = -p;
        let q = n / d;
        let r = n % d;
        proof {
            lemma_fundamental_div_mod(n as int, d as int);
            lemma_mod_bound(n as int, d as int);
            assert((n as int / d as int) * d == d * (n as int / d as int)) by (nonlinear_arith);
        }
        if r == 0 {
            proof {
                assert(p == (-q) * d) by (nonlinear_arith)
                    requires
                        p == -(n as int),
                        n == q * d,
                ;
                lemma_fundamental_div_mod_converse(p as int, d as int, -q, 0);
            }
            -q
        } else {
            proof {
                assert(p == (-q - 1) * d + (d - r)) by (nonlinear_arith)
                    requires
                        p == -(n as int),
                        n == q * d + r,
                ;
                lemma_fundamental_div_mod_converse(p as int, d as int, -q - 1, d - r);
            }
            -q - 1
        }
    }
}

} // verus!

verus! {

/// `s` is a non-negative integer whose square is at most `n`, and the next square exceeds `n`.
pub open spec fn brackets(n: int, s: int) -> bool {
    0 <= s && s * s <= n && n < (s + 1) * (s + 1)
}

/// The integer square root of `n`, the largest `s` with `s * s <= n`.
pub open spec fn root_below(n: int) -> int {
    choose|s: int| #[trigger] brackets(n, s)
}

/// Any `s` that brackets `n` between its square and the next one is `root_below(n)`.
pub proof fn lemma_root_below(n: int, s: int)
    requires
        0 <= s,
        s * s <= n,
        n < (s + 1) * (s + 1),
    ensures
        root_below(n) == s,
{
    assert(brackets(n, s));
    let t = root_below(n);
    assert(0 <= t && t * t <= n && n < (t + 1) * (t + 1));
    if t < s {
        assert((t + 1) * (t + 1) <= s * s) by (nonlinear_arith)
            requires
                0 <= t < s,
        ;
    } else if s < t {
        assert((s + 1) * (s + 1) <= t * t) by (nonlinear_arith)
            requires
                0 <= s < t,
        ;
    }
}

/// The integer square root of `n`, found by bisection.
pub fn isqrt(n: u64) -> (s: u64)
    ensures
        s * s <= n,
        n < (s + 1) * (s + 1),
{
    let mut lo: u64 = 0;
    let mut hi: u64 = 0x1_0000_0000;
    assert(n < hi * hi);
    while hi - lo > 1
        invariant
            lo < hi <= 0x1_0000_0000,
            lo * lo <= n,
            n < hi * hi,
        decreases hi - lo,
    {
        let mid = lo + (hi - lo) / 2;
        assert(mid * mid < 0x1_0000_0000 * 0x1_0000_0000) by (nonlinear_arith)
            requires
                mid < 0x1_0000_0000,
        ;
        if mid * mid <= n {
            lo = mid;
        } else {
            hi = mid;
        }
    }
    lo
}

} // verus!
