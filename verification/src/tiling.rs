//! Where neighbouring filters cross.

use vstd::prelude::*;

use crate::arithmetic::{
    difference, exponential, fraction, logarithm, negative, num, power, product, quotient, root,
    sum, Arithmetic,
};
use crate::filterbank::{gauss, half_power_level, twice_square, BankSpec};
use crate::planes::lemma_same;
use crate::reals::{faithful, lemma_fraction_value, lemma_quotient, Meaning};

verus! {

/// Whether roots, logarithms, exponentials and powers of two are those of the real
/// numbers that values stand for.
#[verifier::opaque]
pub open spec fn faithful_powers<R, A: Arithmetic<R>>(a: &A, m: Meaning<R>) -> bool {
    &&& forall|x: R| #[trigger] m.of(negative(a, x)) == -m.of(x)
    &&& forall|x: R|
        m.of(x) >= 0real ==> m.of(#[trigger] root(a, x)) * m.of(root(a, x)) == m.of(x)
    &&& forall|x: R| m.of(x) > 1real ==> m.of(#[trigger] logarithm(a, x)) > 0real
    &&& forall|x: R, y: R|
        m.of(x) > 0real && m.of(y) == -m.of(#[trigger] logarithm(a, x)) ==> m.of(
            #[trigger] exponential(a, y),
        ) * m.of(x) == 1real
    &&& forall|x: R| #[trigger] m.of(power(a, num(a, 2), x)) > 0real
    &&& forall|x: R| m.of(x) < 0real ==> #[trigger] m.of(power(a, num(a, 2), x)) < 1real
    &&& forall|x: R|
        m.of(x) >= -1real ==> 2real * #[trigger] m.of(power(a, num(a, 2), x)) >= 1real
    &&& forall|x: R, y: R, z: R|
        m.of(z) == m.of(x) + m.of(y) ==> m.of(#[trigger] power(a, num(a, 2), z)) == m.of(
            #[trigger] power(a, num(a, 2), x),
        ) * m.of(#[trigger] power(a, num(a, 2), y))
}

/// How much lower each centre frequency is than the one before it.
pub open spec fn step<R: Copy, A: Arithmetic<R>>(a: &A, spec: &BankSpec<R>) -> R {
    power(
        a,
        num(a, 2),
        quotient(a, negative(a, num(a, 1)), num(a, spec.density(a) as u64)),
    )
}

/// How many widths from its centre a filter is down to the crossing level.
pub open spec fn reach<R: Copy, A: Arithmetic<R>>(a: &A, spec: &BankSpec<R>) -> R {
    root(a, product(a, num(a, 2), logarithm(a, quotient(a, num(a, 1), spec.r))))
}

/// Centre frequencies go down by one step at a time, by no more than an octave.
pub proof fn lemma_step<R: Copy, A: Arithmetic<R>>(
    a: &A,
    m: Meaning<R>,
    spec: &BankSpec<R>,
    j: usize,
)
    requires
        faithful(a, m),
        faithful_powers(a, m),
        spec.density(a) >= 1,
        m.of(spec.xi_max) > 0real,
        j < usize::MAX,
    ensures
        m.of(spec.centre(a, j)) > 0real,
        0real < m.of(step(a, spec)) < 1real,
        2real * m.of(step(a, spec)) >= 1real,
        m.of(spec.centre(a, (j + 1) as usize)) == m.of(spec.centre(a, j)) * m.of(step(a, spec)),
{
    let n = num(a, spec.density(a) as u64);
    let (x, y, z) = (
        quotient(a, negative(a, num(a, j as u64)), n),
        quotient(a, negative(a, num(a, 1)), n),
        quotient(a, negative(a, num(a, (j + 1) as u64)), n),
    );
    assert(m.of(n) >= 1real && m.of(negative(a, num(a, j as u64))) == -(j as real) && m.of(
        negative(a, num(a, 1)),
    ) == -1real && m.of(negative(a, num(a, (j + 1) as u64))) == -((j + 1) as real)) by {
        reveal(faithful);
        reveal(faithful_powers);
    }
    lemma_quotient(a, m, negative(a, num(a, j as u64)), n);
    lemma_quotient(a, m, negative(a, num(a, 1)), n);
    lemma_quotient(a, m, negative(a, num(a, (j + 1) as u64)), n);
    let (p, q, r, k) = (m.of(x), m.of(y), m.of(z), m.of(n));
    assert((p + q) * k == p * k + q * k) by (nonlinear_arith);
    lemma_same(k, r, p + q);
    assert(-1real <= q < 0real) by (nonlinear_arith)
        requires
            q * k == -1real,
            k >= 1real,
    ;
    reveal(faithful);
    reveal(faithful_powers);
    let two = num(a, 2);
    let (t, u) = (m.of(power(a, two, x)), m.of(power(a, two, y)));
    assert(m.of(power(a, two, z)) == t * u);
    let top = m.of(spec.xi_max);
    assert(top * (t * u) == (top * t) * u) by (nonlinear_arith);
    assert(top * t > 0real) by (nonlinear_arith)
        requires
            top > 0real,
            t > 0real,
    ;
}

proof fn lemma_reach_value<R: Copy, A: Arithmetic<R>>(a: &A, m: Meaning<R>, spec: &BankSpec<R>)
    requires
        faithful(a, m),
        faithful_powers(a, m),
        0real < m.of(spec.r) < 1real,
    ensures
        m.of(quotient(a, num(a, 1), spec.r)) * m.of(spec.r) == 1real,
        m.of(quotient(a, num(a, 1), spec.r)) > 1real,
        m.of(reach(a, spec)) > 0real,
        m.of(reach(a, spec)) * m.of(reach(a, spec)) == 2real * m.of(
            logarithm(a, quotient(a, num(a, 1), spec.r)),
        ),
{
    lemma_quotient(a, m, num(a, 1), spec.r);
    let whole = quotient(a, num(a, 1), spec.r);
    let (q, r) = (m.of(whole), m.of(spec.r));
    assert(q * r == 1real) by {
        reveal(faithful);
        assert(m.of(num(a, 1)) == 1real);
    }
    assert(q > 1real) by (nonlinear_arith)
        requires
            q * r == 1real,
            0real < r < 1real,
    ;
    reveal(faithful);
    reveal(faithful_powers);
    assert(m.of(num(a, 2)) == 2real);
    let c = product(a, num(a, 2), logarithm(a, whole));
    assert(m.of(c) == 2real * m.of(logarithm(a, whole)));
    let p = m.of(root(a, c));
    assert(p * p == m.of(c));
    if p == 0real {
        assert(p * p == 0real) by (nonlinear_arith)
            requires
                p == 0real,
        ;
    }
}

/// A Gaussian, that many widths from its centre, is down to the crossing level.
proof fn lemma_level<R: Copy, A: Arithmetic<R>>(
    a: &A,
    m: Meaning<R>,
    spec: &BankSpec<R>,
    off: R,
    sigma: R,
)
    requires
        faithful(a, m),
        faithful_powers(a, m),
        0real < m.of(spec.r) < 1real,
        m.of(sigma) > 0real,
        m.of(off) == m.of(sigma) * m.of(reach(a, spec)),
    ensures
        m.of(gauss(a, off, sigma)) == m.of(spec.r),
{
    lemma_reach_value(a, m, spec);
    let whole = quotient(a, num(a, 1), spec.r);
    let e = quotient(a, product(a, negative(a, off), off), twice_square(a, sigma));
    let (s, p, l, u) = (
        m.of(sigma),
        m.of(reach(a, spec)),
        m.of(logarithm(a, whole)),
        m.of(off),
    );
    let ss = s * s;
    assert(ss > 0real) by (nonlinear_arith)
        requires
            ss == s * s,
            s > 0real,
    ;
    let t = m.of(twice_square(a, sigma));
    assert(t == 2real * ss && m.of(product(a, negative(a, off), off)) == (-u) * u) by {
        reveal(faithful);
        reveal(faithful_powers);
        assert(m.of(num(a, 2)) == 2real);
        assert((2real * s) * s == 2real * (s * s)) by (nonlinear_arith);
    }
    lemma_quotient(a, m, product(a, negative(a, off), off), twice_square(a, sigma));
    let x = m.of(e);
    assert((-u) * u == -(u * u)) by (nonlinear_arith);
    assert((s * p) * (s * p) == (s * s) * (p * p)) by (nonlinear_arith);
    assert(ss * (2real * l) == l * (2real * ss)) by (nonlinear_arith);
    assert((-l) * t == -(l * t)) by (nonlinear_arith);
    assert(x * t == -(l * t));
    lemma_same(t, x, -l);
    let g = m.of(gauss(a, off, sigma));
    let (q, r) = (m.of(whole), m.of(spec.r));
    assert(g * q == 1real) by {
        reveal(faithful_powers);
    }
    assert(r * q == q * r) by (nonlinear_arith);
    lemma_same(q, g, r);
}

proof fn lemma_width<R: Copy, A: Arithmetic<R>>(
    a: &A,
    m: Meaning<R>,
    spec: &BankSpec<R>,
    xi: R,
    share: real,
)
    requires
        faithful(a, m),
        faithful_powers(a, m),
        0real < m.of(spec.r) < 1real,
        0real < m.of(step(a, spec)) < 1real,
        share * (1real + m.of(step(a, spec))) == 1real - m.of(step(a, spec)),
    ensures
        m.of(spec.width(a, xi)) * m.of(reach(a, spec)) == m.of(xi) * share,
{
    lemma_reach_value(a, m, spec);
    let s = m.of(step(a, spec));
    let (down, up) = (
        difference(a, num(a, 1), step(a, spec)),
        sum(a, num(a, 1), step(a, spec)),
    );
    assert(m.of(down) == 1real - s && m.of(up) == 1real + s) by {
        reveal(faithful);
        assert(m.of(num(a, 1)) == 1real);
    }
    let gap = quotient(a, down, up);
    lemma_quotient(a, m, down, up);
    lemma_same(1real + s, m.of(gap), share);
    lemma_quotient(a, m, product(a, xi, gap), reach(a, spec));
    reveal(faithful);
}

/// A filter and the next one down cross at the level that the bank asks for: at the
/// frequency between them that is as many widths from the one as from the other,
/// both are down to that level. Where that is the usual level, their squared
/// responses there sum to one. `above` and `below` are how far that frequency is
/// below the higher centre and above the lower one.
pub proof fn law_neighbours_cross_at_their_level<R: Copy, A: Arithmetic<R>>(
    a: &A,
    m: Meaning<R>,
    spec: &BankSpec<R>,
    j: usize,
    above: R,
    below: R,
)
    requires
        faithful(a, m),
        faithful_powers(a, m),
        spec.density(a) >= 1,
        m.of(spec.xi_max) > 0real,
        0real < m.of(spec.r) < 1real,
        j < usize::MAX,
        m.of(above) + m.of(below) == m.of(spec.centre(a, j)) - m.of(
            spec.centre(a, (j + 1) as usize),
        ),
        m.of(above) * m.of(spec.width(a, spec.centre(a, (j + 1) as usize))) == m.of(below) * m.of(
            spec.width(a, spec.centre(a, j)),
        ),
    ensures
        ({
            let (hi, lo) = (spec.centre(a, j), spec.centre(a, (j + 1) as usize));
            let (g, h) = (
                m.of(gauss(a, above, spec.width(a, hi))),
                m.of(gauss(a, below, spec.width(a, lo))),
            );
            &&& g == m.of(spec.r)
            &&& h == m.of(spec.r)
            &&& spec.r == half_power_level(a) ==> g * g + h * h == 1real
        }),
{
    let (hi, lo) = (spec.centre(a, j), spec.centre(a, (j + 1) as usize));
    lemma_step(a, m, spec, j);
    lemma_reach_value(a, m, spec);
    let (s, p) = (m.of(step(a, spec)), m.of(reach(a, spec)));
    let (x, u, v) = (m.of(hi), m.of(above), m.of(below));
    let (wide, narrow) = (m.of(spec.width(a, hi)), m.of(spec.width(a, lo)));
    let k = 1real + s;
    let g = (1real - s) / k;
    assert(g * k == 1real - s) by (nonlinear_arith)
        requires
            g == (1real - s) / k,
            k > 0real,
    ;
    assert(g > 0real) by (nonlinear_arith)
        requires
            g * k == 1real - s,
            k > 0real,
            s < 1real,
    ;
    lemma_width(a, m, spec, hi, g);
    lemma_width(a, m, spec, lo, g);
    // The lower filter is narrower by the step.
    assert((s * wide) * p == s * (wide * p)) by (nonlinear_arith);
    assert(s * (x * g) == (x * s) * g) by (nonlinear_arith);
    lemma_same(p, narrow, s * wide);
    let xg = x * g;
    assert(xg > 0real) by (nonlinear_arith)
        requires
            xg == x * g,
            x > 0real,
            g > 0real,
    ;
    assert(wide > 0real) by (nonlinear_arith)
        requires
            wide * p == xg,
            xg > 0real,
            p > 0real,
    ;
    // So the crossing is nearer the lower centre by the step.
    assert(u * (s * wide) == (u * s) * wide) by (nonlinear_arith);
    lemma_same(wide, v, u * s);
    assert(u * k == u + u * s) by (nonlinear_arith)
        requires
            k == 1real + s,
    ;
    assert(x - x * s == x * (1real - s)) by (nonlinear_arith);
    assert(x * (g * k) == (x * g) * k) by (nonlinear_arith);
    lemma_same(k, u, x * g);
    lemma_level(a, m, spec, above, spec.width(a, hi));
    assert((wide * p) * s == (s * wide) * p) by (nonlinear_arith);
    assert(narrow > 0real) by (nonlinear_arith)
        requires
            narrow == s * wide,
            s > 0real,
            wide > 0real,
    ;
    lemma_level(a, m, spec, below, spec.width(a, lo));
    if spec.r == half_power_level(a) {
        lemma_fraction_value(a, m, 1, 2);
        reveal(faithful_powers);
        assert(m.of(fraction(a, 1, 2)) * 2real == 1real);
    }
}

} // verus!
