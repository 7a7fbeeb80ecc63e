//! Small arithmetic helpers shared by the grid derivation and the blur
//! radius: the integer square root.

use vstd::prelude::*;

verus! {

/// `r` is the floor of the square root of `n`.
pub open spec fn is_floor_sqrt(r: int, n: int) -> bool {
    r * r <= n < (r + 1) * (r + 1)
}

/// Floor of the square root of `n`.
pub open spec fn floor_sqrt(n: int) -> int {
    choose|r: int| #[trigger] is_floor_sqrt(r, n)
}

/// `n` is a perfect square.
pub open spec fn is_square(n: int) -> bool {
    exists|s: int| s >= 0 && #[trigger] (s * s) == n
}

/// A floor square root of `n` exists, so `floor_sqrt(n)` is one.
pub proof fn lemma_floor_sqrt(n: int)
    requires
        n >= 0,
    ensures
        is_floor_sqrt(floor_sqrt(n), n),
    decreases n,
{
    if n == 0 {
        assert(is_floor_sqrt(0, 0)) by (nonlinear_arith);
    } else {
        lemma_floor_sqrt(n - 1);
        let r = floor_sqrt(n - 1);
        if (r + 1) * (r + 1) <= n {
            assert(is_floor_sqrt(r + 1, n)) by (nonlinear_arith)
                requires
                    is_floor_sqrt(r, n - 1),
                    (r + 1) * (r + 1) <= n,
            ;
        } else {
            assert(is_floor_sqrt(r, n)) by (nonlinear_arith)
                requires
                    is_floor_sqrt(r, n - 1),
                    (r + 1) * (r + 1) > n,
            ;
        }
    }
}

/// The floor square root is unique.
pub proof fn lemma_floor_sqrt_unique(a: int, b: int, n: int)
    requires
        is_floor_sqrt(a, n),
        is_floor_sqrt(b, n),
    ensures
        a == b,
{
    assert(a == b) by (nonlinear_arith)
        requires
            a * a <= n < (a + 1) * (a + 1),
            b * b <= n < (b + 1) * (b + 1),
    ;
}

/// On a perfect square the floor square root is the exact root.
pub proof fn lemma_floor_sqrt_of_square(s: int, n: int)
    requires
        s >= 0,
        s * s == n,
    ensures
        floor_sqrt(n) == s,
{
    assert(is_floor_sqrt(s, n)) by (nonlinear_arith)
        requires
            s >= 0,
            s * s == n,
    ;
    lemma_floor_sqrt(n);
    lemma_floor_sqrt_unique(floor_sqrt(n), s, n);
}

/// Floor of the square root of `n`, by linear search from below.
pub fn isqrt(n: usize) -> (r: usize)
    ensures
        is_floor_sqrt(r as int, n as int),
{
    let mut r: usize = 0;
    // r grows one step at a time; the bound r * r <= n keeps r + 1 in range.
    while (r + 1) <= n / (r + 1)
        invariant
            r * r <= n,
            r + 1 <= usize::MAX,
        decreases n - r,
    {
        let ghost q: int = (n as int) / (r as int + 1);
        assert((r as int + 1) * (r as int + 1) <= n as int) by (nonlinear_arith)
            requires
                r as int + 1 <= q,
                q == (n as int) / (r as int + 1),
                r as int + 1 >= 1,
                n as int >= 0,
        ;
        assert(r as int + 2 <= usize::MAX as int) by (nonlinear_arith)
            requires
                (r as int + 1) * (r as int + 1) <= n as int,
                n <= usize::MAX,
                usize::MAX >= 4,
                r as int >= 0,
        ;
        r = r + 1;
    }
    let ghost q: int = (n as int) / (r as int + 1);
    assert((n as int) < (r as int + 1) * (r as int + 1)) by (nonlinear_arith)
        requires
            r as int + 1 > q,
            q == (n as int) / (r as int + 1),
            r as int + 1 >= 1,
            n as int >= 0,
    ;
    r
}

} // verus!
