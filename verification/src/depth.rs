//! Modulation depths, as the real numbers that they stand for.

use vstd::prelude::*;

use crate::arithmetic::{fraction, larger, largest, num, product, quotient, total, Arithmetic};
use crate::planes::lemma_same;
use crate::reals::{faithful, lemma_fraction_value, lemma_quotient, Meaning};
use crate::transform::{mean_of, trimmed, Scattergram};

verus! {

/// Whether the values of `ys` are `c` times those of `xs`.
pub open spec fn times_as_large<R>(m: Meaning<R>, c: real, xs: Seq<R>, ys: Seq<R>) -> bool {
    &&& ys.len() == xs.len()
    &&& forall|t: int| 0 <= t < xs.len() ==> m.of(#[trigger] ys[t]) == c * m.of(xs[t])
}

/// Whether every row of `ys` is `c` times that of `xs`.
pub open spec fn rows_times_as_large<R>(
    m: Meaning<R>,
    c: real,
    xs: Seq<Vec<R>>,
    ys: Seq<Vec<R>>,
) -> bool {
    &&& ys.len() == xs.len()
    &&& forall|j: int| 0 <= j < xs.len() ==> times_as_large(m, c, xs[j]@, (#[trigger] ys[j])@)
}

/// Whether the first and second order of `loud` are `c` times those of `out`, on
/// the same axes.
pub open spec fn times_as_strong<R>(
    m: Meaning<R>,
    c: real,
    out: &Scattergram<R>,
    loud: &Scattergram<R>,
) -> bool {
    &&& loud.out_rate_hz == out.out_rate_hz
    &&& loud.edge_margin_s == out.edge_margin_s
    &&& loud.s0@.len() == out.s0@.len()
    &&& rows_times_as_large(m, c, out.s1@, loud.s1@)
    &&& loud.s2@.len() == out.s2@.len()
    &&& forall|i: int|
        0 <= i < out.s2@.len() ==> rows_times_as_large(
            m,
            c,
            out.s2@[i]@,
            (#[trigger] loud.s2@[i])@,
        )
}

proof fn lemma_total<R, A: Arithmetic<R>>(
    a: &A,
    m: Meaning<R>,
    c: real,
    xs: Seq<R>,
    ys: Seq<R>,
)
    requires
        faithful(a, m),
        times_as_large(m, c, xs, ys),
    ensures
        m.of(total(a, ys)) == c * m.of(total(a, xs)),
    decreases xs.len(),
{
    reveal(faithful);
    if xs.len() > 0 {
        let (p, q) = (xs.drop_last(), ys.drop_last());
        assert forall|t: int| 0 <= t < p.len() implies m.of(#[trigger] q[t]) == c * m.of(
            p[t],
        ) by {
            assert(q[t] == ys[t] && p[t] == xs[t]);
        }
        lemma_total(a, m, c, p, q);
        let (u, v) = (m.of(total(a, p)), m.of(xs.last()));
        assert(m.of(ys.last()) == c * v);
        assert(c * (u + v) == c * u + c * v) by (nonlinear_arith);
    } else {
        assert(m.of(num(a, 0)) == 0real);
        assert(c * 0real == 0real) by (nonlinear_arith);
    }
}

/// The mean of values `c` times as large is `c` times as large.
pub proof fn lemma_mean<R, A: Arithmetic<R>>(a: &A, m: Meaning<R>, c: real, xs: Seq<R>, ys: Seq<R>)
    requires
        faithful(a, m),
        times_as_large(m, c, xs, ys),
        xs.len() <= u64::MAX,
    ensures
        m.of(mean_of(a, ys)) == c * m.of(mean_of(a, xs)),
{
    assert(m.of(num(a, xs.len() as u64)) == xs.len() as real && m.of(num(a, 0)) == 0real) by {
        reveal(faithful);
    }
    if xs.len() > 0 {
        let n = num(a, xs.len() as u64);
        lemma_total(a, m, c, xs, ys);
        lemma_quotient(a, m, total(a, xs), n);
        lemma_quotient(a, m, total(a, ys), n);
        let (p, q, k) = (m.of(mean_of(a, xs)), m.of(mean_of(a, ys)), m.of(n));
        assert((c * p) * k == c * (p * k)) by (nonlinear_arith);
        lemma_same(k, q, c * p);
    } else {
        assert(c * 0real == 0real) by (nonlinear_arith);
    }
}

/// The mean of a row, clear of both ends.
proof fn lemma_row<R: Copy, A: Arithmetic<R>>(
    a: &A,
    m: Meaning<R>,
    c: real,
    out: &Scattergram<R>,
    loud: &Scattergram<R>,
    row: Seq<R>,
    large: Seq<R>,
)
    requires
        faithful(a, m),
        times_as_strong(m, c, out, loud),
        row.len() == out.s0@.len(),
        times_as_large(m, c, row, large),
    ensures
        m.of(mean_of(a, loud.clear(a, large))) == c * m.of(mean_of(a, out.clear(a, row))),
{
    let (p, q) = (out.clear(a, row), loud.clear(a, large));
    assert(out.margin(a) == loud.margin(a));
    assert(out.margin(a) >= 0);
    assert(out.s0@.len() <= usize::MAX) by {
        assert(out.s0@.len() == out.s0.len());
    }
    let (from, to) = trimmed(out.s0@.len() as int, out.margin(a));
    assert forall|t: int| 0 <= t < p.len() implies m.of(#[trigger] q[t]) == c * m.of(p[t]) by {
        assert(q[t] == large[from + t] && p[t] == row[from + t]);
    }
    lemma_mean(a, m, c, p, q);
}

proof fn lemma_larger<R, A: Arithmetic<R>>(
    a: &A,
    m: Meaning<R>,
    c: real,
    x: R,
    y: R,
    x2: R,
    y2: R,
)
    requires
        faithful(a, m),
        c > 0real,
        m.of(x2) == c * m.of(x),
        m.of(y2) == c * m.of(y),
    ensures
        m.of(larger(a, x2, y2)) == c * m.of(larger(a, x, y)),
{
    reveal(faithful);
    let (u, v) = (m.of(x), m.of(y));
    if u >= v {
        assert(c * u >= c * v) by (nonlinear_arith)
            requires
                u >= v,
                c > 0real,
        ;
    } else {
        assert(c * u < c * v) by (nonlinear_arith)
            requires
                u < v,
                c > 0real,
        ;
    }
}

proof fn lemma_largest<R, A: Arithmetic<R>>(
    a: &A,
    m: Meaning<R>,
    c: real,
    xs: Seq<R>,
    ys: Seq<R>,
)
    requires
        faithful(a, m),
        c > 0real,
        times_as_large(m, c, xs, ys),
    ensures
        m.of(largest(a, num(a, 0), ys)) == c * m.of(largest(a, num(a, 0), xs)),
    decreases xs.len(),
{
    if xs.len() > 0 {
        let (p, q) = (xs.drop_last(), ys.drop_last());
        assert forall|t: int| 0 <= t < p.len() implies m.of(#[trigger] q[t]) == c * m.of(
            p[t],
        ) by {
            assert(q[t] == ys[t] && p[t] == xs[t]);
        }
        lemma_largest(a, m, c, p, q);
        let (u, v) = (largest(a, num(a, 0), p), largest(a, num(a, 0), q));
        assert(m.of(ys.last()) == c * m.of(xs.last()));
        lemma_larger(a, m, c, u, xs.last(), v, ys.last());
    } else {
        assert(m.of(num(a, 0)) == 0real) by {
            reveal(faithful);
        }
        assert(c * 0real == 0real) by (nonlinear_arith);
    }
}

/// A depth is always a number: where any carrier is there at all, what twice the
/// second order is divided by is positive, in every band, and the depth times
/// that is twice the second order.
pub proof fn law_depth_is_a_ratio<R: Copy, A: Arithmetic<R>>(
    a: &A,
    m: Meaning<R>,
    out: &Scattergram<R>,
    i: int,
    j: int,
)
    requires
        faithful(a, m),
        out.wf(),
        m.of(largest(a, num(a, 0), out.means1(a))) > 0real,
        0 <= i < out.s2@.len(),
        0 <= j < out.s2@[i]@.len(),
    ensures
        ({
            let carrier = larger(a, out.means1(a)[i], out.noise_floor(a));
            &&& m.of(carrier) > 0real
            &&& m.of(carrier) >= m.of(out.means1(a)[i])
            &&& m.of(out.depths(a)[i][j]) * m.of(carrier) == 2real * m.of(out.means2(a)[i][j])
        }),
{
    let top = m.of(largest(a, num(a, 0), out.means1(a)));
    let carrier = larger(a, out.means1(a)[i], out.noise_floor(a));
    let v = out.means2(a)[i][j];
    lemma_fraction_value(a, m, 1, 1000);
    let f = m.of(fraction(a, 1, 1000));
    assert(f * 1000real == 1real);
    assert(top * f > 0real) by (nonlinear_arith)
        requires
            top > 0real,
            f > 0real,
    ;
    assert(m.of(out.noise_floor(a)) == top * f && m.of(carrier) >= m.of(out.noise_floor(a))
        && m.of(carrier) >= m.of(out.means1(a)[i]) && m.of(product(a, num(a, 2), v)) == 2real
        * m.of(v)) by {
        reveal(faithful);
        assert(m.of(num(a, 2)) == 2real);
    }
    lemma_quotient(a, m, product(a, num(a, 2), v), carrier);
    assert(out.depths(a)[i][j] == quotient(a, product(a, num(a, 2), v), carrier));
}

/// Modulation depth does not depend on how strong the signal is: where the first
/// and second order of one result are any positive multiple of those of another,
/// and any carrier is there at all, the two have the same depths, in every band.
pub proof fn law_depth_ignores_strength<R: Copy, A: Arithmetic<R>>(
    a: &A,
    m: Meaning<R>,
    c: real,
    out: &Scattergram<R>,
    loud: &Scattergram<R>,
    i: int,
    j: int,
)
    requires
        faithful(a, m),
        c > 0real,
        out.wf(),
        loud.wf(),
        times_as_strong(m, c, out, loud),
        m.of(largest(a, num(a, 0), out.means1(a))) > 0real,
        0 <= i < out.s2@.len(),
        0 <= j < out.s2@[i]@.len(),
    ensures
        m.of(loud.depths(a)[i][j]) == m.of(out.depths(a)[i][j]),
{
    let (xs, ys) = (out.means1(a), loud.means1(a));
    assert forall|k: int| 0 <= k < xs.len() implies m.of(#[trigger] ys[k]) == c * m.of(xs[k]) by {
        assert(times_as_large(m, c, out.s1@[k]@, loud.s1@[k]@));
        lemma_row(a, m, c, out, loud, out.s1@[k]@, loud.s1@[k]@);
    }
    lemma_largest(a, m, c, xs, ys);
    let (top, loud_top) = (largest(a, num(a, 0), xs), largest(a, num(a, 0), ys));
    let (t, f) = (m.of(top), m.of(fraction(a, 1, 1000)));
    assert(c * t > 0real) by (nonlinear_arith)
        requires
            c > 0real,
            t > 0real,
    ;
    law_depth_is_a_ratio(a, m, out, i, j);
    assert(rows_times_as_large(m, c, out.s2@[i]@, loud.s2@[i]@));
    assert(times_as_large(m, c, out.s2@[i]@[j]@, loud.s2@[i]@[j]@));
    law_depth_is_a_ratio(a, m, loud, i, j);
    lemma_row(a, m, c, out, loud, out.s2@[i]@[j]@, loud.s2@[i]@[j]@);
    assert((c * t) * f == c * (t * f)) by (nonlinear_arith);
    assert(m.of(loud.noise_floor(a)) == c * m.of(out.noise_floor(a))) by {
        reveal(faithful);
    }
    assert(m.of(ys[i]) == c * m.of(xs[i]));
    lemma_larger(a, m, c, xs[i], out.noise_floor(a), ys[i], loud.noise_floor(a));
    let d = m.of(larger(a, xs[i], out.noise_floor(a)));
    let (p, q, v) = (m.of(out.depths(a)[i][j]), m.of(loud.depths(a)[i][j]), m.of(
        out.means2(a)[i][j],
    ));
    // q (c d) == 2 (c v), and p d == 2 v.
    assert(m.of(loud.means2(a)[i][j]) == c * v);
    assert(c * (p * d) == p * (c * d)) by (nonlinear_arith);
    assert(c * (2real * v) == 2real * (c * v)) by (nonlinear_arith);
    assert(c * d > 0real) by (nonlinear_arith)
        requires
            c > 0real,
            d > 0real,
    ;
    lemma_same(c * d, q, p);
}

} // verus!
