//! What is read off a result: means, depths and the strongest modulation, as the real
//! numbers that they stand for.

use vstd::prelude::*;

use crate::arithmetic::{
    at_most, ceiling, exponential, fraction, larger, largest, logarithm, num, product, quotient,
    total, Arithmetic,
};
use crate::depth::{lemma_mean, times_as_large};
use crate::distance::{lemma_square, lemma_summed_scaled, summed};
use crate::leakage::lemma_total;
use crate::phasors::lemma_one_root;
use crate::planes::{lemma_group, lemma_larger_square, lemma_same, lemma_squares};
use crate::reals::{
    faithful, faithful_ceilings, faithful_exponentials, faithful_wholes, lemma_fraction_value,
    lemma_quotient, Meaning,
};
use crate::tiling::faithful_powers;
use crate::transform::{mean_of, peak_index, trimmed, Scattergram};

verus! {

// Means.

/// Means are taken over the output samples clear of both ends: as many are left out at
/// either end as the edge margin comes to, rounded up, or none if that would leave
/// nothing; and a mean times the number of the rest is their sum.
pub proof fn law_means_leave_out_the_edges<R: Copy, A: Arithmetic<R>>(
    a: &A,
    m: Meaning<R>,
    out: &Scattergram<R>,
    means: Vec<R>,
) -> (left: int)
    requires
        faithful(a, m),
        faithful_wholes(a, m),
        faithful_ceilings(a, m),
        out.first_fits(),
        out.s0@.len() > 0,
        m.of(out.edge_margin_s) * m.of(out.out_rate_hz) >= 0real,
        call_ensures(Scattergram::<R>::s1_mean::<A>, (out, a), means),
    ensures
        0 <= left,
        2 * left < out.s0@.len(),
        ({
            let edge = m.of(out.edge_margin_s) * m.of(out.out_rate_hz);
            &&& left == 0 || edge <= left as real
            &&& (left as real) < edge + 1real
            &&& left == 0 && edge > 0real ==> 2real * (edge + 1real) > out.s0@.len() as real
        }),
        means@.len() == out.s1@.len(),
        forall|i: int|
            0 <= i < means@.len() ==> m.of(#[trigger] means@[i]) * ((out.s0@.len() - 2
                * left) as real) == summed(
                |t: int| m.of(out.s1@[i]@[left + t]),
                out.s0@.len() - 2 * left,
            ),
{
    let n = out.s0@.len() as int;
    assert(n == out.s0.len());
    let span = product(a, out.edge_margin_s, out.out_rate_hz);
    let edge = m.of(out.edge_margin_s) * m.of(out.out_rate_hz);
    assert(m.of(span) == edge) by {
        reveal(faithful);
    }
    let up = a.whole_of(ceiling(a, span)) as int;
    assert((up == usize::MAX || edge <= up as real) && (up as real) < edge + 1real) by {
        reveal(faithful_wholes);
        reveal(faithful_ceilings);
    }
    let left = if 2 * up >= n {
        0
    } else {
        up
    };
    assert forall|i: int| 0 <= i < means@.len() implies m.of(#[trigger] means@[i]) * ((n - 2
        * left) as real) == summed(|t: int| m.of(out.s1@[i]@[left + t]), n - 2 * left) by {
        lemma_clear_sum(a, m, out, out.s1@[i]@, left);
    }
    left
}

/// Means of the second order are taken likewise.
pub proof fn law_second_means_leave_out_the_edges<R: Copy, A: Arithmetic<R>>(
    a: &A,
    m: Meaning<R>,
    out: &Scattergram<R>,
    means: Vec<Vec<R>>,
) -> (left: int)
    requires
        faithful(a, m),
        faithful_wholes(a, m),
        faithful_ceilings(a, m),
        out.wf(),
        out.s0@.len() > 0,
        m.of(out.edge_margin_s) * m.of(out.out_rate_hz) >= 0real,
        call_ensures(Scattergram::<R>::s2_mean::<A>, (out, a), means),
    ensures
        0 <= left,
        2 * left < out.s0@.len(),
        ({
            let edge = m.of(out.edge_margin_s) * m.of(out.out_rate_hz);
            &&& left == 0 || edge <= left as real
            &&& (left as real) < edge + 1real
            &&& left == 0 && edge > 0real ==> 2real * (edge + 1real) > out.s0@.len() as real
        }),
        means@.len() == out.s2@.len(),
        forall|i: int, j: int|
            0 <= i < means@.len() && 0 <= j < out.s2@[i]@.len() ==> m.of(
                #[trigger] means@[i]@[j],
            ) * ((out.s0@.len() - 2 * left) as real) == summed(
                |t: int| m.of(out.s2@[i]@[j]@[left + t]),
                out.s0@.len() - 2 * left,
            ),
{
    let n = out.s0@.len() as int;
    assert(n == out.s0.len());
    let span = product(a, out.edge_margin_s, out.out_rate_hz);
    let edge = m.of(out.edge_margin_s) * m.of(out.out_rate_hz);
    assert(m.of(span) == edge) by {
        reveal(faithful);
    }
    let up = a.whole_of(ceiling(a, span)) as int;
    assert((up == usize::MAX || edge <= up as real) && (up as real) < edge + 1real) by {
        reveal(faithful_wholes);
        reveal(faithful_ceilings);
    }
    let left = if 2 * up >= n {
        0
    } else {
        up
    };
    assert forall|i: int, j: int|
        0 <= i < means@.len() && 0 <= j < out.s2@[i]@.len() implies m.of(#[trigger] means@[i]@[j])
        * ((n - 2 * left) as real) == summed(
        |t: int| m.of(out.s2@[i]@[j]@[left + t]),
        n - 2 * left,
    ) by {
        assert(means@[i]@[j] == mean_of(a, out.clear(a, out.s2@[i]@[j]@)));
        lemma_clear_sum(a, m, out, out.s2@[i]@[j]@, left);
    }
    left
}

proof fn lemma_clear_sum<R: Copy, A: Arithmetic<R>>(
    a: &A,
    m: Meaning<R>,
    out: &Scattergram<R>,
    row: Seq<R>,
    left: int,
)
    requires
        faithful(a, m),
        row.len() == out.s0@.len(),
        0 <= left,
        2 * left < out.s0@.len(),
        trimmed(out.s0@.len() as int, out.margin(a)) == (left, out.s0@.len() - left),
    ensures
        m.of(mean_of(a, out.clear(a, row))) * ((row.len() - 2 * left) as real) == summed(
            |t: int| m.of(row[left + t]),
            row.len() - 2 * left,
        ),
{
    let n = row.len() as int;
    assert(n == out.s0.len());
    let xs = out.clear(a, row);
    let count = num(a, xs.len() as u64);
    assert(xs.len() == n - 2 * left);
    assert(m.of(count) == xs.len() as real) by {
        reveal(faithful);
    }
    lemma_quotient(a, m, total(a, xs), count);
    lemma_total(a, m, xs);
    let f = |t: int| m.of(xs[t]);
    let g = |t: int| m.of(row[left + t]);
    assert forall|t: int| 0 <= t < xs.len() implies #[trigger] f(t) == 1real * g(t) by {
        assert(xs[t] == row[left + t]);
    }
    lemma_summed_scaled(f, g, 1real, xs.len() as int);
    let s = summed(g, xs.len() as int);
    assert(1real * s == s) by (nonlinear_arith);
}

// Depths.

/// The largest of some values and zero is that of one of them, if any is positive.
proof fn lemma_largest<R, A: Arithmetic<R>>(a: &A, m: Meaning<R>, xs: Seq<R>)
    requires
        faithful(a, m),
    ensures
        m.of(largest(a, num(a, 0), xs)) >= 0real,
        forall|i: int|
            0 <= i < xs.len() ==> m.of(#[trigger] xs[i]) <= m.of(largest(a, num(a, 0), xs)),
        m.of(largest(a, num(a, 0), xs)) > 0real ==> exists|i: int|
            0 <= i < xs.len() && m.of(#[trigger] xs[i]) == m.of(largest(a, num(a, 0), xs)),
    decreases xs.len(),
{
    reveal(faithful);
    assert(m.of(num(a, 0)) == 0real);
    if xs.len() > 0 {
        let rest = xs.drop_last();
        lemma_largest(a, m, rest);
        let (high, top) = (m.of(largest(a, num(a, 0), rest)), m.of(largest(a, num(a, 0), xs)));
        assert forall|i: int| 0 <= i < xs.len() implies m.of(#[trigger] xs[i]) <= top by {
            if i < rest.len() {
                assert(rest[i] == xs[i]);
            }
        }
        if top > 0real {
            if high >= m.of(xs.last()) {
                let i = choose|i: int| 0 <= i < rest.len() && m.of(#[trigger] rest[i]) == high;
                assert(xs[i] == rest[i]);
                assert(m.of(xs[i]) == top);
            } else {
                assert(m.of(xs[xs.len() - 1]) == top);
            }
        }
    }
}

/// A depth is twice the second order over the first, which counts for no less than a
/// thousandth of the strongest carrier: `top` is the mean of the strongest.
pub proof fn law_depth_is_relative_to_its_carrier<R: Copy, A: Arithmetic<R>>(
    a: &A,
    m: Meaning<R>,
    out: &Scattergram<R>,
    s1: Vec<R>,
    s2: Vec<Vec<R>>,
    depth: Vec<Vec<R>>,
    top: int,
    i: int,
    j: int,
)
    requires
        faithful(a, m),
        out.wf(),
        call_ensures(Scattergram::<R>::s1_mean::<A>, (out, a), s1),
        call_ensures(Scattergram::<R>::s2_mean::<A>, (out, a), s2),
        call_ensures(Scattergram::<R>::modulation_depth::<A>, (out, a), depth),
        0 <= top < s1@.len(),
        m.of(s1@[top]) > 0real,
        forall|k: int| 0 <= k < s1@.len() ==> m.of(#[trigger] s1@[k]) <= m.of(s1@[top]),
        0 <= i < out.s2@.len(),
        0 <= j < out.s2@[i]@.len(),
    ensures
        depth@.len() == out.s2@.len(),
        depth@[i]@.len() == out.s2@[i]@.len(),
        m.of(depth@[i]@[j]) * (if 1000real * m.of(s1@[i]) >= m.of(s1@[top]) {
            1000real * m.of(s1@[i])
        } else {
            m.of(s1@[top])
        }) == 2000real * m.of(s2@[i]@[j]),
{
    lemma_largest(a, m, s1@);
    let high = largest(a, num(a, 0), s1@);
    assert(m.of(high) == m.of(s1@[top]));
    let floor = product(a, high, fraction(a, 1, 1000));
    lemma_fraction_value(a, m, 1, 1000);
    let (t, f) = (m.of(high), m.of(fraction(a, 1, 1000)));
    lemma_group(t, f, 1000real);
    assert(t * 1real == t) by (nonlinear_arith);
    assert(m.of(floor) == t * f) by {
        reveal(faithful);
    }
    let carrier = larger(a, s1@[i], floor);
    let v = s2@[i]@[j];
    assert(m.of(carrier) >= m.of(floor) && m.of(product(a, num(a, 2), v)) == 2real * m.of(v)
        && m.of(carrier) == (if m.of(s1@[i]) >= m.of(floor) {
        m.of(s1@[i])
    } else {
        m.of(floor)
    })) by {
        reveal(faithful);
        assert(m.of(num(a, 2)) == 2real);
    }
    lemma_quotient(a, m, product(a, num(a, 2), v), carrier);
    assert(depth@[i]@[j] == quotient(a, product(a, num(a, 2), v), carrier));
    let (d, c) = (m.of(depth@[i]@[j]), m.of(carrier));
    assert(d * (1000real * c) == 1000real * (d * c)) by (nonlinear_arith);
}

// Peaks.

/// The first of the largest values.
pub open spec fn is_first_peak<R>(m: Meaning<R>, xs: Seq<R>, i: int) -> bool {
    &&& 0 <= i < xs.len()
    &&& forall|j: int| 0 <= j < xs.len() ==> m.of(#[trigger] xs[j]) <= m.of(xs[i])
    &&& forall|j: int| 0 <= j < i ==> m.of(#[trigger] xs[j]) < m.of(xs[i])
}

proof fn lemma_first_peak<R, A: Arithmetic<R>>(a: &A, m: Meaning<R>, xs: Seq<R>)
    requires
        faithful(a, m),
    ensures
        xs.len() == 0 ==> peak_index(a, xs) is None,
        xs.len() > 0 ==> peak_index(a, xs) is Some && is_first_peak(m, xs, peak_index(a, xs)->0),
    decreases xs.len(),
{
    reveal(faithful);
    if xs.len() > 0 {
        let rest = xs.drop_last();
        lemma_first_peak(a, m, rest);
        if rest.len() > 0 {
            let i = peak_index(a, rest)->0;
            let k = peak_index(a, xs)->0;
            assert forall|j: int| 0 <= j < xs.len() implies m.of(#[trigger] xs[j]) <= m.of(
                xs[k],
            ) by {
                if j < rest.len() {
                    assert(rest[j] == xs[j] && rest[i] == xs[i]);
                }
            }
            assert forall|j: int| 0 <= j < k implies m.of(#[trigger] xs[j]) < m.of(xs[k]) by {
                if j < rest.len() {
                    assert(rest[j] == xs[j] && rest[i] == xs[i]);
                    assert(m.of(rest[j]) <= m.of(rest[i]));
                }
            }
        } else {
            assert(peak_index(a, rest) is None);
        }
    }
}

/// The strongest carrier is the one whose mean is largest, the first of equals.
pub proof fn law_strongest_carrier_has_the_largest_mean<R: Copy, A: Arithmetic<R>>(
    a: &A,
    m: Meaning<R>,
    out: &Scattergram<R>,
    s1: Vec<R>,
    r: Option<usize>,
)
    requires
        faithful(a, m),
        out.first_fits(),
        call_ensures(Scattergram::<R>::s1_mean::<A>, (out, a), s1),
        call_ensures(Scattergram::<R>::peak_lambda1::<A>, (out, a), r),
    ensures
        r is None <==> out.s1@.len() == 0,
        r matches Some(i) ==> is_first_peak(m, s1@, i as int),
{
    lemma_first_peak(a, m, s1@);
}

/// The sum of the squares of a row about `i2`: of it and of its neighbours, as far as
/// there are any.
pub open spec fn power_about<R>(m: Meaning<R>, row: Seq<R>, i2: int) -> real {
    square_at(m, row, i2 - 1) + square_at(m, row, i2) + square_at(m, row, i2 + 1)
}

/// The square of one of `row`, or nothing beyond its ends.
pub open spec fn square_at<R>(m: Meaning<R>, row: Seq<R>, i: int) -> real {
    if 0 <= i < row.len() {
        m.of(row[i]) * m.of(row[i])
    } else {
        0real
    }
}

/// The sum of the logarithms of some rates about `i2`, each times the square of its
/// depth.
pub open spec fn moment_about<R, A: Arithmetic<R>>(
    a: &A,
    m: Meaning<R>,
    rates: Seq<R>,
    row: Seq<R>,
    i2: int,
) -> real {
    square_at(m, row, i2 - 1) * m.of(logarithm(a, rates[i2 - 1])) + square_at(m, row, i2) * m.of(
        logarithm(a, rates[i2]),
    ) + square_at(m, row, i2 + 1) * m.of(logarithm(a, rates[i2 + 1]))
}

/// The marker reads the strongest modulation: where the largest depth of a band is
/// positive, the depth read has the square of that depth and those of its neighbours
/// for its square, so that it is no less than any of them; and the rate read is their
/// mean in log frequency, weighted by the squares, so that it lies between the rates of
/// the neighbours. Where no depth is positive, none is read.
pub proof fn law_marker_reads_the_strongest_modulation<R: Copy, A: Arithmetic<R>>(
    a: &A,
    m: Meaning<R>,
    out: &Scattergram<R>,
    i1: usize,
    depth: Vec<Vec<R>>,
    r: Option<(R, R)>,
)
    requires
        faithful(a, m),
        faithful_powers(a, m),
        faithful_exponentials(a, m),
        out.wf(),
        call_ensures(Scattergram::<R>::modulation_depth::<A>, (out, a), depth),
        call_ensures(Scattergram::<R>::modulation_peak::<A>, (out, a, i1), r),
    ensures
        r is None <==> i1 >= depth@.len() || out.lambda2_hz@.len() == 0,
        r matches Some((rate, read)) ==> exists|i2: int| #[trigger]
            is_first_peak(m, depth@[i1 as int]@, i2) && {
                let row = depth@[i1 as int]@;
                let rates = out.lambda2_hz@;
                &&& row.len() == rates.len()
                &&& m.of(row[i2]) <= 0real ==> m.of(read) == 0real && rate == rates[i2]
                &&& m.of(row[i2]) > 0real ==> {
                    &&& m.of(read) * m.of(read) == power_about(m, row, i2)
                    &&& m.of(read) >= m.of(row[i2])
                    &&& m.of(rate) > 0real
                    &&& m.of(logarithm(a, rate)) * power_about(m, row, i2) == moment_about(
                        a,
                        m,
                        rates,
                        row,
                        i2,
                    )
                    &&& rising(m, rates) ==> within_neighbours(m, rates, i2, m.of(rate))
                }
            },
{
    let rates = out.lambda2_hz@;
    if i1 < depth@.len() {
        let row = depth@[i1 as int]@;
        assert(row.len() == out.s2@[i1 as int]@.len());
        lemma_first_peak(a, m, row);
        if row.len() > 0 {
            let i2 = peak_index(a, row)->0;
            assert(is_first_peak(m, row, i2));
            assert(at_most(a, row[i2], num(a, 0)) == (m.of(row[i2]) <= 0real) && m.of(num(a, 0))
                == 0real) by {
                reveal(faithful);
            }
            let (rate, read) = r->0;
            if m.of(row[i2]) > 0real {
                lemma_energy(a, m, row, i2);
                lemma_moment(a, m, out, row, i2);
                let energy = total(a, Scattergram::<R>::energies(a, row, i2));
                let moment = total(a, out.log_rates(a, row, i2));
                let (e, x) = (m.of(energy), m.of(row[i2]));
                assert(m.of(read) >= 0real && m.of(read) * m.of(read) == e) by {
                    reveal(faithful);
                    reveal(faithful_powers);
                }
                let v = m.of(read);
                if v < x {
                    lemma_larger_square(x, v);
                }
                lemma_quotient(a, m, moment, energy);
                let q = quotient(a, moment, energy);
                assert(rate == exponential(a, q));
                assert(m.of(rate) > 0real && m.of(logarithm(a, rate)) == m.of(q)) by {
                    reveal(faithful_exponentials);
                }
                if rising(m, rates) {
                    lemma_between_rates(a, m, rates, row, i2, q, rate);
                }
            }
        }
    }
}

/// Whether rates are positive and go up.
pub open spec fn rising<R>(m: Meaning<R>, rates: Seq<R>) -> bool {
    &&& forall|i: int| 0 <= i < rates.len() ==> m.of(#[trigger] rates[i]) > 0real
    &&& forall|i: int, j: int|
        0 <= i <= j < rates.len() ==> m.of(#[trigger] rates[i]) <= m.of(#[trigger] rates[j])
}

/// Whether `x` lies between the rates before and after `i2`, as far as there are any.
pub open spec fn within_neighbours<R>(m: Meaning<R>, rates: Seq<R>, i2: int, x: real) -> bool {
    &&& x >= m.of(
        rates[if i2 > 0 {
            i2 - 1
        } else {
            i2
        }],
    )
    &&& x <= m.of(
        rates[if i2 + 1 < rates.len() {
            i2 + 1
        } else {
            i2
        }],
    )
}

/// The sum of one, two or three values.
proof fn lemma_few<R, A: Arithmetic<R>>(a: &A, m: Meaning<R>, xs: Seq<R>)
    requires
        faithful(a, m),
        1 <= xs.len() <= 3,
    ensures
        xs.len() == 1 ==> m.of(total(a, xs)) == m.of(xs[0]),
        xs.len() == 2 ==> m.of(total(a, xs)) == m.of(xs[0]) + m.of(xs[1]),
        xs.len() == 3 ==> m.of(total(a, xs)) == m.of(xs[0]) + m.of(xs[1]) + m.of(xs[2]),
{
    lemma_total(a, m, xs);
    let f = |t: int| m.of(xs[t]);
    assert(summed(f, 0) == 0real);
    assert(summed(f, 1) == summed(f, 0) + f(0));
    if xs.len() >= 2 {
        assert(summed(f, 2) == summed(f, 1) + f(1));
    }
    if xs.len() >= 3 {
        assert(summed(f, 3) == summed(f, 2) + f(2));
    }
}

proof fn lemma_energy<R: Copy, A: Arithmetic<R>>(a: &A, m: Meaning<R>, row: Seq<R>, i2: int)
    requires
        faithful(a, m),
        0 <= i2 < row.len(),
        m.of(row[i2]) > 0real,
    ensures
        m.of(total(a, Scattergram::<R>::energies(a, row, i2))) == power_about(m, row, i2),
        power_about(m, row, i2) >= m.of(row[i2]) * m.of(row[i2]),
        power_about(m, row, i2) > 0real,
{
    let es = Scattergram::<R>::energies(a, row, i2);
    let (lo, hi) = Scattergram::<R>::around(row, i2);
    assert(es.len() == hi - lo);
    assert forall|t: int| 0 <= t < es.len() implies m.of(#[trigger] es[t]) == square_at(
        m,
        row,
        lo + t,
    ) by {
        assert(row.subrange(lo, hi)[t] == row[lo + t]);
        reveal(faithful);
    }
    lemma_few(a, m, es);
    assert(m.of(es[0]) == square_at(m, row, lo));
    if es.len() >= 2 {
        assert(m.of(es[1]) == square_at(m, row, lo + 1));
    }
    if es.len() >= 3 {
        assert(m.of(es[2]) == square_at(m, row, lo + 2));
    }
    if i2 > 0 {
        lemma_square(m.of(row[i2 - 1]));
    }
    if i2 + 1 < row.len() {
        lemma_square(m.of(row[i2 + 1]));
    }
    let x = m.of(row[i2]);
    assert(x * x > 0real) by (nonlinear_arith)
        requires
            x > 0real,
    ;
}

proof fn lemma_moment<R: Copy, A: Arithmetic<R>>(
    a: &A,
    m: Meaning<R>,
    out: &Scattergram<R>,
    row: Seq<R>,
    i2: int,
)
    requires
        faithful(a, m),
        0 <= i2 < row.len(),
        row.len() == out.lambda2_hz@.len(),
    ensures
        m.of(total(a, out.log_rates(a, row, i2))) == moment_about(
            a,
            m,
            out.lambda2_hz@,
            row,
            i2,
        ),
{
    let rates = out.lambda2_hz@;
    let ls = out.log_rates(a, row, i2);
    let (lo, hi) = Scattergram::<R>::around(row, i2);
    assert(ls.len() == hi - lo);
    assert forall|t: int| 0 <= t < ls.len() implies m.of(#[trigger] ls[t]) == square_at(
        m,
        row,
        lo + t,
    ) * m.of(logarithm(a, rates[lo + t])) by {
        reveal(faithful);
    }
    lemma_few(a, m, ls);
    assert(m.of(ls[0]) == square_at(m, row, lo) * m.of(logarithm(a, rates[lo])));
    if ls.len() >= 2 {
        assert(m.of(ls[1]) == square_at(m, row, lo + 1) * m.of(logarithm(a, rates[lo + 1])));
    }
    if ls.len() >= 3 {
        assert(m.of(ls[2]) == square_at(m, row, lo + 2) * m.of(logarithm(a, rates[lo + 2])));
    }
    let (x, y) = (m.of(logarithm(a, rates[i2 - 1])), m.of(logarithm(a, rates[i2 + 1])));
    assert(0real * x == 0real && 0real * y == 0real) by (nonlinear_arith);
}

/// A weighted mean lies between bounds on what it is the mean of.
proof fn lemma_weighted(p: real, q: real, r: real, x: real, y: real, z: real, lo: real, hi: real)
    requires
        p >= 0real,
        q >= 0real,
        r >= 0real,
        p > 0real ==> lo <= x <= hi,
        lo <= y <= hi,
        r > 0real ==> lo <= z <= hi,
    ensures
        lo * (p + q + r) <= p * x + q * y + r * z <= hi * (p + q + r),
{
    lemma_term(p, x, lo, hi);
    lemma_term(q, y, lo, hi);
    lemma_term(r, z, lo, hi);
    assert(lo * (p + q + r) == lo * p + lo * q + lo * r) by (nonlinear_arith);
    assert(hi * (p + q + r) == hi * p + hi * q + hi * r) by (nonlinear_arith);
}

proof fn lemma_term(p: real, x: real, lo: real, hi: real)
    requires
        p >= 0real,
        p > 0real ==> lo <= x <= hi,
    ensures
        lo * p <= p * x <= hi * p,
{
    if p > 0real {
        assert(lo * p <= p * x && p * x <= hi * p) by (nonlinear_arith)
            requires
                p > 0real,
                lo <= x <= hi,
        ;
    } else {
        assert(lo * p == 0real && p * x == 0real && hi * p == 0real) by (nonlinear_arith)
            requires
                p == 0real,
        ;
    }
}

/// The rate read lies between those of the neighbours.
proof fn lemma_between_rates<R, A: Arithmetic<R>>(
    a: &A,
    m: Meaning<R>,
    rates: Seq<R>,
    row: Seq<R>,
    i2: int,
    q: R,
    rate: R,
)
    requires
        faithful(a, m),
        faithful_exponentials(a, m),
        0 <= i2 < row.len(),
        row.len() == rates.len(),
        rising(m, rates),
        power_about(m, row, i2) > 0real,
        m.of(q) * power_about(m, row, i2) == moment_about(a, m, rates, row, i2),
        rate == exponential(a, q),
    ensures
        within_neighbours(m, rates, i2, m.of(rate)),
{
    let lo = if i2 > 0 {
        i2 - 1
    } else {
        i2
    };
    let hi = if i2 + 1 < rates.len() {
        i2 + 1
    } else {
        i2
    };
    let (l, h) = (m.of(logarithm(a, rates[lo])), m.of(logarithm(a, rates[hi])));
    assert(m.of(rates[lo]) <= m.of(rates[i2]) <= m.of(rates[hi]));
    assert(m.of(rates[lo]) > 0real && m.of(rates[i2]) > 0real);
    assert(m.of(rates[lo]) <= m.of(rates[hi]));
    assert(l <= m.of(logarithm(a, rates[i2])) <= h && l <= h) by {
        reveal(faithful_exponentials);
    }
    let (x, y, z) = (
        m.of(logarithm(a, rates[i2 - 1])),
        m.of(logarithm(a, rates[i2])),
        m.of(logarithm(a, rates[i2 + 1])),
    );
    let (p, s, r) = (
        square_at(m, row, i2 - 1),
        square_at(m, row, i2),
        square_at(m, row, i2 + 1),
    );
    lemma_square(m.of(row[i2 - 1]));
    lemma_square(m.of(row[i2]));
    lemma_square(m.of(row[i2 + 1]));
    lemma_weighted(p, s, r, x, y, z, l, h);
    let (e, v) = (power_about(m, row, i2), m.of(q));
    if v < l {
        assert(v * e < l * e) by (nonlinear_arith)
            requires
                v < l,
                e > 0real,
        ;
    }
    if v > h {
        assert(v * e > h * e) by (nonlinear_arith)
            requires
                v > h,
                e > 0real,
        ;
    }
    reveal(faithful_exponentials);
    assert(m.of(exponential(a, logarithm(a, rates[lo]))) == m.of(rates[lo]));
    assert(m.of(exponential(a, logarithm(a, rates[hi]))) == m.of(rates[hi]));
}

/// The marker follows the depths: where those of one result are `c` times those of
/// another in a band, at the same rates, the depth read is `c` times as large, and the
/// rate read is the same.
pub proof fn law_marker_follows_the_depths<R: Copy, A: Arithmetic<R>>(
    a: &A,
    m: Meaning<R>,
    c: real,
    out: &Scattergram<R>,
    loud: &Scattergram<R>,
    i1: usize,
    depth: Vec<Vec<R>>,
    large: Vec<Vec<R>>,
    r: Option<(R, R)>,
    s: Option<(R, R)>,
)
    requires
        faithful(a, m),
        faithful_powers(a, m),
        faithful_exponentials(a, m),
        c > 0real,
        out.wf(),
        loud.wf(),
        out.lambda2_hz@ == loud.lambda2_hz@,
        call_ensures(Scattergram::<R>::modulation_depth::<A>, (out, a), depth),
        call_ensures(Scattergram::<R>::modulation_depth::<A>, (loud, a), large),
        i1 < depth@.len(),
        i1 < large@.len(),
        times_as_large(m, c, depth@[i1 as int]@, large@[i1 as int]@),
        call_ensures(Scattergram::<R>::modulation_peak::<A>, (out, a, i1), r),
        call_ensures(Scattergram::<R>::modulation_peak::<A>, (loud, a, i1), s),
    ensures
        r is Some <==> s is Some,
        r is Some ==> m.of((s->0).0) == m.of((r->0).0) && m.of((s->0).1) == c * m.of((r->0).1),
{
    law_marker_reads_the_strongest_modulation(a, m, out, i1, depth, r);
    law_marker_reads_the_strongest_modulation(a, m, loud, i1, large, s);
    if r is Some {
        let (x, y) = (depth@[i1 as int]@, large@[i1 as int]@);
        let rates = out.lambda2_hz@;
        lemma_first_peak(a, m, x);
        lemma_first_peak(a, m, y);
        assert(x.len() > 0) by {
            let i = choose|i: int| is_first_peak(m, x, i);
        }
        let i = peak_index(a, x)->0;
        let j = peak_index(a, y)->0;
        lemma_one_peak(m, c, x, y, i, j);
        assert forall|k: int| is_first_peak(m, x, k) implies k == i by {
            assert(m.of(x[k]) <= m.of(x[i]) && m.of(x[i]) <= m.of(x[k]));
        }
        assert forall|k: int| is_first_peak(m, y, k) implies k == i by {
            assert(m.of(y[k]) <= m.of(y[i]) && m.of(y[i]) <= m.of(y[k]));
        }
        let (p, q) = (m.of(x[i]), m.of(y[i]));
        assert(q == c * p);
        let ((rate, read), (rate2, read2)) = (r->0, s->0);
        if p > 0real {
            assert(q > 0real) by (nonlinear_arith)
                requires
                    q == c * p,
                    p > 0real,
                    c > 0real,
            ;
            lemma_about_scaled(a, m, c, rates, x, y, i);
            let (u, v, cc) = (m.of(read), m.of(read2), c * c);
            lemma_squares(c, u);
            assert(c * u >= 0real) by (nonlinear_arith)
                requires
                    c > 0real,
                    u > 0real,
            ;
            lemma_one_root(v, c * u);
            // The logarithms of the rates are the same.
            let (l, k) = (m.of(logarithm(a, rate)), m.of(logarithm(a, rate2)));
            let e = power_about(m, x, i);
            let e2 = cc * e;
            assert(e2 > 0real) by {
                assert(u * u > 0real) by (nonlinear_arith)
                    requires
                        u > 0real,
                ;
                assert(cc > 0real) by (nonlinear_arith)
                    requires
                        cc == c * c,
                        c > 0real,
                ;
                assert(cc * e > 0real) by (nonlinear_arith)
                    requires
                        cc > 0real,
                        e > 0real,
                ;
            }
            assert(l * (cc * e) == cc * (l * e)) by (nonlinear_arith);
            lemma_same(e2, k, l);
            reveal(faithful_exponentials);
            assert(m.of(exponential(a, logarithm(a, rate))) == m.of(rate));
            assert(m.of(exponential(a, logarithm(a, rate2))) == m.of(rate2));
        } else {
            assert(q <= 0real) by (nonlinear_arith)
                requires
                    q == c * p,
                    p <= 0real,
                    c > 0real,
            ;
            assert(c * 0real == 0real) by (nonlinear_arith);
        }
    }
}

/// Scaling moves no peak.
proof fn lemma_one_peak<R>(m: Meaning<R>, c: real, x: Seq<R>, y: Seq<R>, i: int, j: int)
    requires
        c > 0real,
        times_as_large(m, c, x, y),
        is_first_peak(m, x, i),
        is_first_peak(m, y, j),
    ensures
        i == j,
{
    let (p, q) = (m.of(x[i]), m.of(x[j]));
    assert(m.of(y[i]) == c * p && m.of(y[j]) == c * q);
    if p > q {
        assert(c * p > c * q) by (nonlinear_arith)
            requires
                p > q,
                c > 0real,
        ;
    }
    if i < j {
        assert(m.of(y[i]) < m.of(y[j]));
    }
    if j < i {
        assert(m.of(x[j]) < m.of(x[i]));
    }
}

proof fn lemma_about_scaled<R, A: Arithmetic<R>>(
    a: &A,
    m: Meaning<R>,
    c: real,
    rates: Seq<R>,
    x: Seq<R>,
    y: Seq<R>,
    i: int,
)
    requires
        times_as_large(m, c, x, y),
        0 <= i < x.len(),
    ensures
        power_about(m, y, i) == (c * c) * power_about(m, x, i),
        moment_about(a, m, rates, y, i) == (c * c) * moment_about(a, m, rates, x, i),
{
    lemma_square_scaled(m, c, x, y, i - 1);
    lemma_square_scaled(m, c, x, y, i);
    lemma_square_scaled(m, c, x, y, i + 1);
    let cc = c * c;
    let (p, q, r) = (square_at(m, x, i - 1), square_at(m, x, i), square_at(m, x, i + 1));
    assert(cc * (p + q + r) == cc * p + cc * q + cc * r) by (nonlinear_arith);
    let (u, v, w) = (
        m.of(logarithm(a, rates[i - 1])),
        m.of(logarithm(a, rates[i])),
        m.of(logarithm(a, rates[i + 1])),
    );
    lemma_group(cc, p, u);
    lemma_group(cc, q, v);
    lemma_group(cc, r, w);
    let (s, t, z) = (p * u, q * v, r * w);
    assert(cc * (s + t + z) == cc * s + cc * t + cc * z) by (nonlinear_arith);
}

proof fn lemma_square_scaled<R>(m: Meaning<R>, c: real, x: Seq<R>, y: Seq<R>, i: int)
    requires
        times_as_large(m, c, x, y),
    ensures
        square_at(m, y, i) == (c * c) * square_at(m, x, i),
{
    if 0 <= i < x.len() {
        assert(m.of(y[i]) == c * m.of(x[i]));
        lemma_squares(c, m.of(x[i]));
    } else {
        let cc = c * c;
        assert(cc * 0real == 0real) by (nonlinear_arith);
    }
}

/// Depths follow the second order: where the rows of one band of a result are `c` times
/// those of another with the same first order, so are its depths.
pub proof fn law_depths_follow_the_second_order<R: Copy, A: Arithmetic<R>>(
    a: &A,
    m: Meaning<R>,
    c: real,
    out: &Scattergram<R>,
    loud: &Scattergram<R>,
    i: int,
    depth: Vec<Vec<R>>,
    large: Vec<Vec<R>>,
    s1: Vec<R>,
    top: int,
)
    requires
        faithful(a, m),
        out.wf(),
        loud.wf(),
        loud.out_rate_hz == out.out_rate_hz,
        loud.edge_margin_s == out.edge_margin_s,
        loud.s0@.len() == out.s0@.len(),
        loud.s1 == out.s1,
        loud.s2@.len() == out.s2@.len(),
        0 <= i < out.s2@.len(),
        loud.s2@[i]@.len() == out.s2@[i]@.len(),
        forall|j: int|
            0 <= j < out.s2@[i]@.len() ==> times_as_large(
                m,
                c,
                out.s2@[i]@[j]@,
                (#[trigger] loud.s2@[i]@[j])@,
            ),
        call_ensures(Scattergram::<R>::modulation_depth::<A>, (out, a), depth),
        call_ensures(Scattergram::<R>::modulation_depth::<A>, (loud, a), large),
        call_ensures(Scattergram::<R>::s1_mean::<A>, (out, a), s1),
        0 <= top < s1@.len(),
        m.of(s1@[top]) > 0real,
    ensures
        times_as_large(m, c, depth@[i]@, large@[i]@),
{
    lemma_largest(a, m, s1@);
    let high = largest(a, num(a, 0), s1@);
    assert(m.of(high) >= m.of(s1@[top]));
    let floor = product(a, high, fraction(a, 1, 1000));
    lemma_fraction_value(a, m, 1, 1000);
    let (t, f) = (m.of(high), m.of(fraction(a, 1, 1000)));
    assert(t * f > 0real) by (nonlinear_arith)
        requires
            t > 0real,
            f * 1000real == 1real,
    ;
    let carrier = larger(a, s1@[i], floor);
    assert(m.of(carrier) > 0real) by {
        reveal(faithful);
    }
    assert(loud.means1(a) =~= out.means1(a));
    assert forall|j: int| 0 <= j < depth@[i]@.len() implies m.of(#[trigger] large@[i]@[j]) == c
        * m.of(depth@[i]@[j]) by {
        let (x, y) = (out.clear(a, out.s2@[i]@[j]@), loud.clear(a, loud.s2@[i]@[j]@));
        assert(times_as_large(m, c, out.s2@[i]@[j]@, loud.s2@[i]@[j]@));
        assert(out.s0@.len() == out.s0.len());
        let (from, to) = trimmed(out.s0@.len() as int, out.margin(a));
        assert(out.margin(a) >= 0);
        assert forall|k: int| 0 <= k < x.len() implies m.of(#[trigger] y[k]) == c * m.of(x[k]) by {
            assert(x[k] == out.s2@[i]@[j]@[from + k] && y[k] == loud.s2@[i]@[j]@[from + k]);
        }
        lemma_mean(a, m, c, x, y);
        let (u, v) = (mean_of(a, x), mean_of(a, y));
        assert(out.means2(a)[i][j] == u && loud.means2(a)[i][j] == v);
        let (p, q) = (product(a, num(a, 2), u), product(a, num(a, 2), v));
        lemma_quotient(a, m, p, carrier);
        lemma_quotient(a, m, q, carrier);
        assert(m.of(p) == 2real * m.of(u) && m.of(q) == 2real * m.of(v)) by {
            reveal(faithful);
            assert(m.of(num(a, 2)) == 2real);
        }
        let (k, d, uv) = (m.of(carrier), m.of(depth@[i]@[j]), m.of(u));
        assert(2real * (c * uv) == c * (2real * uv)) by (nonlinear_arith);
        lemma_group(c, d, k);
        lemma_same(k, m.of(large@[i]@[j]), c * d);
    }
}

} // verus!
