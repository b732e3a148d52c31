//! Products and squares of real numbers, and distances in the plane.

use vstd::prelude::*;

verus! {

/// A positive factor can be cancelled.
pub proof fn lemma_same(k: real, x: real, y: real)
    requires
        k > 0real,
        x * k == y * k,
    ensures
        x == y,
{
    assert(x == y) by (nonlinear_arith)
        requires
            k > 0real,
            x * k == y * k,
    ;
}

/// Factors may be grouped.
pub proof fn lemma_group(x: real, y: real, z: real)
    ensures
        (x * y) * z == x * (y * z),
{
    assert((x * y) * z == x * (y * z)) by (nonlinear_arith);
}

/// Factors may be exchanged.
pub proof fn lemma_exchange(x: real, y: real, z: real)
    ensures
        (x * y) * z == (x * z) * y,
{
    assert((x * y) * z == (x * z) * y) by (nonlinear_arith);
}

pub proof fn lemma_squares(x: real, y: real)
    ensures
        (x * x) * (y * y) == (x * y) * (x * y),
{
    assert((x * x) * (y * y) == (x * y) * (x * y)) by (nonlinear_arith);
}

pub proof fn lemma_square_of_sum(x: real, y: real)
    ensures
        (x + y) * (x + y) == x * x + 2real * (x * y) + y * y,
{
    assert((x + y) * (x + y) == x * x + 2real * (x * y) + y * y) by (nonlinear_arith);
}

pub proof fn lemma_square_of_difference(x: real, y: real)
    ensures
        (x - y) * (x - y) == x * x - 2real * (x * y) + y * y,
{
    assert((x - y) * (x - y) == x * x - 2real * (x * y) + y * y) by (nonlinear_arith);
}

proof fn lemma_product_of_sums(x: real, y: real, u: real, v: real)
    ensures
        (x + y) * (u + v) == x * u + x * v + y * u + y * v,
{
    assert((x + y) * (u + v) == x * u + x * v + y * u + y * v) by (nonlinear_arith);
}

proof fn lemma_regroup(a: real, b: real, c: real, d: real)
    ensures
        (a * c) * (b * d) == (a * d) * (b * c),
{
    assert((a * c) * (b * d) == (a * d) * (b * c)) by (nonlinear_arith);
}

proof fn lemma_not_negative(x: real, y: real)
    requires
        x >= 0real,
        y >= 0real,
    ensures
        x * y >= 0real,
{
    assert(x * y >= 0real) by (nonlinear_arith)
        requires
            x >= 0real,
            y >= 0real,
    ;
}

pub proof fn lemma_larger_square(x: real, y: real)
    requires
        x > y,
        y >= 0real,
    ensures
        x * x > y * y,
{
    assert(x * x > x * y) by (nonlinear_arith)
        requires
            x > y,
            x > 0real,
    ;
    assert(x * y >= y * y) by (nonlinear_arith)
        requires
            x > y,
            y >= 0real,
    ;
}

/// The squares of the inner and the outer product of two points.
pub proof fn lemma_inner_and_outer(a: real, b: real, c: real, d: real)
    ensures
        (a * a + b * b) * (c * c + d * d) == (a * c + b * d) * (a * c + b * d) + (a * d - b * c) * (
        a * d - b * c),
{
    lemma_product_of_sums(a * a, b * b, c * c, d * d);
    lemma_squares(a, c);
    lemma_squares(a, d);
    lemma_squares(b, c);
    lemma_squares(b, d);
    lemma_square_of_sum(a * c, b * d);
    lemma_square_of_difference(a * d, b * c);
    lemma_regroup(a, b, c, d);
}

/// The inner product of two points is at most the product of their distances from
/// the origin.
proof fn lemma_inner_at_most(inner: real, outer: real, hk: real)
    requires
        hk >= 0real,
        hk * hk == inner * inner + outer * outer,
    ensures
        inner <= hk,
{
    assert(outer * outer >= 0real) by (nonlinear_arith);
    if inner > hk {
        lemma_larger_square(inner, hk);
    }
}

/// Distances from the origin, `h` of `(a, b)` and `k` of `(c, d)`, differ by no
/// more than the points are apart.
pub proof fn lemma_triangle(a: real, b: real, c: real, d: real, h: real, k: real)
    requires
        h >= 0real,
        k >= 0real,
        h * h == a * a + b * b,
        k * k == c * c + d * d,
    ensures
        (h - k) * (h - k) <= (a - c) * (a - c) + (b - d) * (b - d),
{
    lemma_inner_and_outer(a, b, c, d);
    lemma_squares(h, k);
    lemma_not_negative(h, k);
    lemma_inner_at_most(a * c + b * d, a * d - b * c, h * k);
    lemma_square_of_difference(h, k);
    lemma_square_of_difference(a, c);
    lemma_square_of_difference(b, d);
}

} // verus!
