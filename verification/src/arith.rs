//! Division, remainder and mixed-radix facts shared by the address
//! calculations. Everything here is proof-only.

use vstd::prelude::*;
use vstd::arithmetic::div_mod::{
    lemma_fundamental_div_mod, lemma_fundamental_div_mod_converse,
    lemma_div_pos_is_pos, lemma_multiply_divide_lt, lemma_mod_pos_bound,
    lemma_mod_multiples_basic,
};

verus! {

/// Adding `b < d` to a multiple of `d` leaves the quotient alone and
/// makes `b` the remainder.
pub proof fn lemma_div_mod_aligned(a: int, b: int, d: int)
    requires
        1 <= d,
        0 <= a,
        a % d == 0,
        0 <= b < d,
    ensures
        (a + b) / d == a / d,
        (a + b) % d == b,
{
    lemma_fundamental_div_mod(a, d);
    assert(a == (a / d) * d) by {
        vstd::arithmetic::mul::lemma_mul_is_commutative(d, a / d);
    }
    lemma_fundamental_div_mod_converse(a + b, d, a / d, b);
}

/// Adding `b` smaller than a sub-block to a sub-block-aligned value
/// neither crosses a `d`-block boundary (`d` a multiple of `sub`) nor
/// disturbs the sub-block alignment of the remainder.
pub proof fn lemma_add_small_block(a: int, b: int, sub: int, d: int)
    requires
        1 <= sub,
        sub <= d,
        d % sub == 0,
        0 <= a,
        a % sub == 0,
        0 <= b < sub,
    ensures
        (a + b) / d == a / d,
        (a + b) % d == a % d + b,
        (a % d) % sub == 0,
{
    lemma_fundamental_div_mod(a, d);
    let q = a / d;
    let r = a % d;
    lemma_mod_pos_bound(a, d);
    assert(a == d * q + r);
    // Write d, a and hence r as multiples of sub.
    let dq = d / sub;
    let aq = a / sub;
    lemma_fundamental_div_mod(d, sub);
    lemma_fundamental_div_mod(a, sub);
    assert(d == sub * dq);
    assert(a == sub * aq);
    let rq = aq - dq * q;
    assert(r == sub * rq) by (nonlinear_arith)
        requires a == d * q + r, d == sub * dq, a == sub * aq, rq == aq - dq * q;
    assert(0 <= rq && rq < dq) by (nonlinear_arith)
        requires r == sub * rq, 0 <= r, r < d, d == sub * dq, 1 <= sub;
    assert(r % sub == 0) by {
        lemma_mod_multiples_basic(rq, sub);
        assert(r == rq * sub) by (nonlinear_arith)
            requires r == sub * rq;
    }
    // r and d are both multiples of sub and r < d, so r + b stays below d.
    assert(r <= d - sub) by (nonlinear_arith)
        requires r == sub * rq, d == sub * dq, rq < dq, 1 <= sub, 0 <= rq;
    assert(a + b == q * d + (r + b)) by {
        vstd::arithmetic::mul::lemma_mul_is_commutative(d, q);
    }
    lemma_fundamental_div_mod_converse(a + b, d, q, r + b);
}

/// A quotient/remainder split is unique.
pub proof fn lemma_split_unique(q1: int, r1: int, q2: int, r2: int, m: int)
    requires
        1 <= m,
        0 <= r1 < m,
        0 <= r2 < m,
        q1 * m + r1 == q2 * m + r2,
    ensures
        q1 == q2,
        r1 == r2,
{
    let x = q1 * m + r1;
    lemma_fundamental_div_mod_converse(x, m, q1, r1);
    lemma_fundamental_div_mod_converse(x, m, q2, r2);
}

/// Three-digit mixed-radix decompositions are unique.
pub proof fn lemma_radix3_unique(
    a1: int, b1: int, c1: int,
    a2: int, b2: int, c2: int,
    na: int, nb: int,
)
    requires
        1 <= na,
        1 <= nb,
        0 <= a1 < na,
        0 <= a2 < na,
        0 <= b1 < nb,
        0 <= b2 < nb,
        0 <= c1,
        0 <= c2,
        a1 + b1 * na + c1 * (na * nb) == a2 + b2 * na + c2 * (na * nb),
    ensures
        a1 == a2,
        b1 == b2,
        c1 == c2,
{
    assert(a1 + b1 * na + c1 * (na * nb) == (b1 + c1 * nb) * na + a1) by (nonlinear_arith);
    assert(a2 + b2 * na + c2 * (na * nb) == (b2 + c2 * nb) * na + a2) by (nonlinear_arith);
    lemma_split_unique(b1 + c1 * nb, a1, b2 + c2 * nb, a2, na);
    lemma_split_unique(c1, b1, c2, b2, nb);
}

/// A three-digit mixed-radix value stays below the product of the radices.
pub proof fn lemma_radix3_bound(a: int, b: int, c: int, na: int, nb: int, nc: int)
    by (nonlinear_arith)
    requires
        0 <= a < na,
        0 <= b < nb,
        0 <= c < nc,
    ensures
        0 <= a + b * na + c * (na * nb),
        a + b * na + c * (na * nb) < na * nb * nc,
        a + b * na + c * (na * nb) <= na * nb * nc - 1,
{
}

/// A multiple of `d` is a multiple of every divisor of `d`.
pub proof fn lemma_mod_mod_zero(a: int, d: int, s: int)
    requires
        1 <= s,
        1 <= d,
        0 <= a,
        a % d == 0,
        d % s == 0,
    ensures
        a % s == 0,
{
    lemma_fundamental_div_mod(a, d);
    lemma_fundamental_div_mod(d, s);
    assert(a == ((d / s) * (a / d)) * s) by (nonlinear_arith)
        requires a == d * (a / d), d == s * (d / s);
    lemma_mod_multiples_basic((d / s) * (a / d), s);
}

/// Between two distinct multiples of `a` there is room for a whole `a`.
pub proof fn lemma_aligned_lt(x: int, y: int, a: int)
    requires
        1 <= a,
        0 <= x,
        x % a == 0,
        y % a == 0,
        x < y,
    ensures
        x + a <= y,
{
    lemma_fundamental_div_mod(x, a);
    lemma_fundamental_div_mod(y, a);
    let xq = x / a;
    let yq = y / a;
    assert(x + a <= y) by (nonlinear_arith)
        requires x == a * xq, y == a * yq, x < y, 1 <= a, 0 <= x;
}

/// Quotient bounds: `0 <= x < n * d` pins `x / d` into `[0, n)`.
pub proof fn lemma_div_range(x: int, d: int, n: int)
    requires
        1 <= d,
        0 <= x,
        x < n * d,
    ensures
        0 <= x / d < n,
{
    lemma_div_pos_is_pos(x, d);
    assert(x < d * n) by {
        vstd::arithmetic::mul::lemma_mul_is_commutative(n, d);
    }
    lemma_multiply_divide_lt(x, d, n);
}

} // verus!
