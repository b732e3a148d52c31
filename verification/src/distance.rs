//! The transform brings no two blocks further apart than they are.

use vstd::prelude::*;

use crate::arithmetic::{fraction, num, Arithmetic};
use crate::complex::{
    envelope, modulus, real_parts, scaled, scaled_all, take_envelope, take_real_parts, Complex,
};
use crate::fft::{
    decimated, decimation_source, inverted, keeps_length, transformed, Direction, Engine,
};
use crate::filterbank::FilterBank;
use crate::laws::law_extraction_shifts_bins;
use crate::planes::lemma_triangle;
use crate::powers::{lemma_divides, lemma_double, power_of_two};
use crate::reals::{faithful, lemma_fraction_value, Meaning};
use crate::runs::lemma_envelope_length;
use crate::transform::{
    averaged, band_source, extracted, filtered, lemma_reach, Band, Geometry, Scattergram,
};

verus! {

/// `f(0) + f(1) + .. + f(n - 1)`.
pub open spec fn summed(f: spec_fn(int) -> real, n: int) -> real
    decreases n,
{
    if n <= 0 {
        0real
    } else {
        summed(f, n - 1) + f(n - 1)
    }
}

/// The square of the distance between two complex values.
pub open spec fn gap<R>(m: Meaning<R>, u: Complex<R>, v: Complex<R>) -> real {
    (m.of(u.re) - m.of(v.re)) * (m.of(u.re) - m.of(v.re)) + (m.of(u.im) - m.of(v.im)) * (m.of(
        u.im,
    ) - m.of(v.im))
}

/// The square of the distance between two buffers.
pub open spec fn apart<R>(m: Meaning<R>, x: Seq<Complex<R>>, y: Seq<Complex<R>>) -> real {
    summed(|k: int| gap(m, x[k], y[k]), x.len() as int)
}

/// The square of the distance between two rows of coefficients.
pub open spec fn rows_apart<R>(m: Meaning<R>, p: Seq<R>, q: Seq<R>) -> real {
    summed(|t: int| (m.of(p[t]) - m.of(q[t])) * (m.of(p[t]) - m.of(q[t])), p.len() as int)
}

/// Whether a distance from the origin is that of the complex number which a pair
/// of values stands for.
#[verifier::opaque]
pub open spec fn faithful_distances<R, A: Arithmetic<R>>(a: &A, m: Meaning<R>) -> bool {
    forall|u: Complex<R>|
        {
            &&& m.of(#[trigger] modulus(a, u)) >= 0real
            &&& m.of(modulus(a, u)) * m.of(modulus(a, u)) == m.of(u.re) * m.of(u.re) + m.of(u.im)
                * m.of(u.im)
        }
}

/// Whether transforms keep distances, up to the factor of the length.
#[verifier::opaque]
pub open spec fn isometric<R, P, E: Engine<R, P>>(engine: &E, m: Meaning<R>) -> bool {
    forall|
        direction: Direction,
        x: Seq<Complex<R>>,
        x2: Seq<Complex<R>>,
        y: Seq<Complex<R>>,
        y2: Seq<Complex<R>>,
    |
        x.len() == y.len() && #[trigger] transformed::<R, P, E>(engine, direction, x, x2)
            && #[trigger] transformed::<R, P, E>(engine, direction, y, y2) ==> apart(m, x2, y2)
            == (x.len() as real) * apart(m, x, y)
}

pub proof fn lemma_summed_at_most(f: spec_fn(int) -> real, g: spec_fn(int) -> real, n: int)
    requires
        forall|k: int| 0 <= k < n ==> #[trigger] f(k) <= g(k),
    ensures
        summed(f, n) <= summed(g, n),
    decreases n,
{
    if n > 0 {
        lemma_summed_at_most(f, g, n - 1);
    }
}

pub proof fn lemma_summed_scaled(f: spec_fn(int) -> real, g: spec_fn(int) -> real, c: real, n: int)
    requires
        forall|k: int| 0 <= k < n ==> #[trigger] f(k) == c * g(k),
    ensures
        summed(f, n) == c * summed(g, n),
    decreases n,
{
    if n > 0 {
        lemma_summed_scaled(f, g, c, n - 1);
        let (x, y) = (summed(g, n - 1), g(n - 1));
        assert(c * (x + y) == c * x + c * y) by (nonlinear_arith);
    } else {
        assert(c * 0real == 0real) by (nonlinear_arith);
    }
}

pub proof fn lemma_summed_added(
    f: spec_fn(int) -> real,
    g: spec_fn(int) -> real,
    h: spec_fn(int) -> real,
    n: int,
)
    requires
        forall|k: int| 0 <= k < n ==> #[trigger] h(k) == f(k) + g(k),
    ensures
        summed(h, n) == summed(f, n) + summed(g, n),
    decreases n,
{
    if n > 0 {
        lemma_summed_added(f, g, h, n - 1);
    }
}

pub proof fn lemma_summed_positive(f: spec_fn(int) -> real, n: int)
    requires
        forall|k: int| 0 <= k < n ==> #[trigger] f(k) >= 0real,
    ensures
        summed(f, n) >= 0real,
    decreases n,
{
    if n > 0 {
        lemma_summed_positive(f, n - 1);
    }
}

/// One term set to nothing takes that term off the sum.
proof fn lemma_summed_without(f: spec_fn(int) -> real, g: spec_fn(int) -> real, j: int, n: int)
    requires
        0 <= j,
        forall|k: int| 0 <= k < n ==> #[trigger] g(k) == (if k == j {
            0real
        } else {
            f(k)
        }),
    ensures
        summed(g, n) == summed(f, n) - (if j < n {
            f(j)
        } else {
            0real
        }),
    decreases n,
{
    if n > 0 {
        lemma_summed_without(f, g, j, n - 1);
        assert(g(n - 1) == (if n - 1 == j {
            0real
        } else {
            f(n - 1)
        }));
    }
}

/// Some of the terms of a sum, none taken twice, come to no more than all.
pub proof fn lemma_summed_some(
    f: spec_fn(int) -> real,
    from: spec_fn(int) -> int,
    part: spec_fn(int) -> real,
    count: int,
    n: int,
)
    requires
        0 <= count,
        forall|k: int| 0 <= k < n ==> #[trigger] f(k) >= 0real,
        forall|q: int| 0 <= q < count ==> 0 <= #[trigger] from(q) < n,
        forall|q: int, r: int| 0 <= q < r < count ==> #[trigger] from(q) != #[trigger] from(r),
        forall|q: int| 0 <= q < count ==> #[trigger] part(q) == f(from(q)),
    ensures
        summed(part, count) <= summed(f, n),
    decreases count,
{
    if count == 0 {
        lemma_summed_positive(f, n);
    } else {
        let j = from(count - 1);
        let g = |k: int|
            if k == j {
                0real
            } else {
                f(k)
            };
        lemma_summed_without(f, g, j, n);
        assert forall|q: int| 0 <= q < count - 1 implies #[trigger] part(q) == g(from(q)) by {
            assert(from(q) != from(count - 1));
        }
        assert forall|k: int| 0 <= k < n implies #[trigger] g(k) >= 0real by {
            assert(f(k) >= 0real);
        }
        lemma_summed_some(g, from, part, count - 1, n);
        assert(part(count - 1) == f(j));
    }
}

pub proof fn lemma_square(x: real)
    ensures
        x * x >= 0real,
{
    assert(x * x >= 0real) by (nonlinear_arith);
}

pub proof fn lemma_gap_positive<R>(m: Meaning<R>, u: Complex<R>, v: Complex<R>)
    ensures
        gap(m, u, v) >= 0real,
{
    lemma_square(m.of(u.re) - m.of(v.re));
    lemma_square(m.of(u.im) - m.of(v.im));
}

pub proof fn lemma_gap_scaled<R, A: Arithmetic<R>>(
    a: &A,
    m: Meaning<R>,
    u: Complex<R>,
    v: Complex<R>,
    s: R,
)
    requires
        faithful(a, m),
    ensures
        gap(m, scaled(a, u, s), scaled(a, v, s)) == (m.of(s) * m.of(s)) * gap(m, u, v),
{
    reveal(faithful);
    let c = m.of(s);
    lemma_difference_scaled(m.of(u.re), m.of(v.re), c);
    lemma_difference_scaled(m.of(u.im), m.of(v.im), c);
    let (x, y) = (m.of(u.re) - m.of(v.re), m.of(u.im) - m.of(v.im));
    assert((c * c) * (x * x + y * y) == (c * c) * (x * x) + (c * c) * (y * y))
        by (nonlinear_arith);
}

proof fn lemma_difference_scaled(x: real, y: real, c: real)
    ensures
        (x * c - y * c) * (x * c - y * c) == (c * c) * ((x - y) * (x - y)),
{
    let d = x - y;
    assert(x * c - y * c == d * c) by (nonlinear_arith)
        requires
            d == x - y,
    ;
    assert((d * c) * (d * c) == (c * c) * (d * d)) by (nonlinear_arith);
}

proof fn lemma_apart_scaled<R, A: Arithmetic<R>>(
    a: &A,
    m: Meaning<R>,
    x: Seq<Complex<R>>,
    y: Seq<Complex<R>>,
    s: R,
)
    requires
        faithful(a, m),
        x.len() == y.len(),
    ensures
        apart(m, scaled_all(a, x, s), scaled_all(a, y, s)) == (m.of(s) * m.of(s)) * apart(m, x, y),
{
    let f = |k: int| gap(m, scaled_all(a, x, s)[k], scaled_all(a, y, s)[k]);
    let g = |k: int| gap(m, x[k], y[k]);
    assert forall|k: int| 0 <= k < x.len() implies #[trigger] f(k) == (m.of(s) * m.of(s)) * g(
        k,
    ) by {
        lemma_gap_scaled(a, m, x[k], y[k], s);
    }
    lemma_summed_scaled(f, g, m.of(s) * m.of(s), x.len() as int);
}

pub proof fn lemma_forward_apart<R, P, E: Engine<R, P>>(
    engine: &E,
    m: Meaning<R>,
    direction: Direction,
    x: Seq<Complex<R>>,
    x2: Seq<Complex<R>>,
    y: Seq<Complex<R>>,
    y2: Seq<Complex<R>>,
)
    requires
        isometric::<R, P, E>(engine, m),
        x.len() == y.len(),
        transformed::<R, P, E>(engine, direction, x, x2),
        transformed::<R, P, E>(engine, direction, y, y2),
    ensures
        apart(m, x2, y2) == (x.len() as real) * apart(m, x, y),
{
    reveal(isometric);
}

pub proof fn lemma_inverse_apart<R, P, A: Arithmetic<R>, E: Engine<R, P>>(
    a: &A,
    engine: &E,
    m: Meaning<R>,
    x: Seq<Complex<R>>,
    x2: Seq<Complex<R>>,
    y: Seq<Complex<R>>,
    y2: Seq<Complex<R>>,
)
    requires
        faithful(a, m),
        isometric::<R, P, E>(engine, m),
        keeps_length::<R, P, E>(engine),
        x.len() == y.len(),
        0 < x.len() <= usize::MAX,
        inverted::<R, P, A, E>(a, engine, x, x2),
        inverted::<R, P, A, E>(a, engine, y, y2),
    ensures
        (x.len() as real) * apart(m, x2, y2) == apart(m, x, y),
{
    let n = x.len() as u64;
    let s = fraction(a, 1, n);
    let u = choose|z: Seq<Complex<R>>|
        #[trigger] transformed::<R, P, E>(engine, Direction::Inverse, x, z) && x2 == scaled_all(
            a,
            z,
            s,
        );
    let v = choose|z: Seq<Complex<R>>|
        #[trigger] transformed::<R, P, E>(engine, Direction::Inverse, y, z) && y2 == scaled_all(
            a,
            z,
            s,
        );
    lemma_forward_apart::<R, P, E>(engine, m, Direction::Inverse, x, u, y, v);
    lemma_apart_scaled(a, m, u, v, s);
    lemma_fraction_value(a, m, 1, n);
    let (r, c, d) = (n as real, m.of(s), apart(m, x, y));
    let e = r * d;
    assert(r * ((c * c) * e) == (r * c) * (c * e)) by (nonlinear_arith);
    assert(r * c == 1real) by (nonlinear_arith)
        requires
            c * r == 1real,
    ;
    assert(1real * (c * e) == c * e) by (nonlinear_arith);
    assert(c * (r * d) == (c * r) * d) by (nonlinear_arith);
    assert(1real * d == d) by (nonlinear_arith);
}

pub proof fn lemma_envelope_apart<R, A: Arithmetic<R>>(
    a: &A,
    m: Meaning<R>,
    x: Seq<Complex<R>>,
    y: Seq<Complex<R>>,
)
    requires
        faithful_distances(a, m),
        x.len() == y.len(),
    ensures
        apart(m, envelope(a, x), envelope(a, y)) <= apart(m, x, y),
{
    let f = |k: int| gap(m, envelope(a, x)[k], envelope(a, y)[k]);
    let g = |k: int| gap(m, x[k], y[k]);
    assert forall|k: int| 0 <= k < x.len() implies #[trigger] f(k) <= g(k) by {
        reveal(faithful_distances);
        let z = m.of(num(a, 0));
        assert((z - z) * (z - z) == 0real) by (nonlinear_arith);
        lemma_triangle(
            m.of(x[k].re),
            m.of(x[k].im),
            m.of(y[k].re),
            m.of(y[k].im),
            m.of(modulus(a, x[k])),
            m.of(modulus(a, y[k])),
        );
    }
    lemma_summed_at_most(f, g, x.len() as int);
}

/// Whether a response amplifies nothing.
pub open spec fn passive<R>(m: Meaning<R>, phi: Seq<R>) -> bool {
    forall|k: int| 0 <= k < phi.len() ==> m.of(#[trigger] phi[k]) * m.of(phi[k]) <= 1real
}

/// The square of the distance between two spectra, as a filter weighs them.
pub open spec fn weighed<R>(
    m: Meaning<R>,
    psi: Seq<R>,
    x: Seq<Complex<R>>,
    y: Seq<Complex<R>>,
) -> real {
    summed(|j: int| (m.of(psi[j]) * m.of(psi[j])) * gap(m, x[j], y[j]), x.len() as int)
}

pub proof fn lemma_weight_positive<R>(m: Meaning<R>, c: R, u: Complex<R>, v: Complex<R>)
    ensures
        (m.of(c) * m.of(c)) * gap(m, u, v) >= 0real,
{
    lemma_square(m.of(c));
    lemma_gap_positive(m, u, v);
    let (x, y) = (m.of(c) * m.of(c), gap(m, u, v));
    assert(x * y >= 0real) by (nonlinear_arith)
        requires
            x >= 0real,
            y >= 0real,
    ;
}

proof fn lemma_filtered_weighed<R, A: Arithmetic<R>>(
    a: &A,
    m: Meaning<R>,
    phi: Seq<R>,
    x: Seq<Complex<R>>,
    y: Seq<Complex<R>>,
)
    requires
        faithful(a, m),
        x.len() == y.len() == phi.len(),
    ensures
        apart(m, filtered(a, x, phi), filtered(a, y, phi)) == weighed(m, phi, x, y),
{
    let f = |k: int| gap(m, filtered(a, x, phi)[k], filtered(a, y, phi)[k]);
    let g = |k: int| (m.of(phi[k]) * m.of(phi[k])) * gap(m, x[k], y[k]);
    assert forall|k: int| 0 <= k < x.len() implies #[trigger] f(k) == g(k) by {
        lemma_gap_scaled(a, m, x[k], y[k], phi[k]);
    }
    lemma_summed_at_most(f, g, x.len() as int);
    assert forall|k: int| 0 <= k < x.len() implies #[trigger] g(k) <= f(k) by {
        assert(f(k) == g(k));
    }
    lemma_summed_at_most(g, f, x.len() as int);
}

pub proof fn lemma_weighed_passively<R>(
    m: Meaning<R>,
    phi: Seq<R>,
    x: Seq<Complex<R>>,
    y: Seq<Complex<R>>,
)
    requires
        passive(m, phi),
        x.len() == y.len() == phi.len(),
    ensures
        weighed(m, phi, x, y) <= apart(m, x, y),
{
    let f = |k: int| (m.of(phi[k]) * m.of(phi[k])) * gap(m, x[k], y[k]);
    let g = |k: int| gap(m, x[k], y[k]);
    assert forall|k: int| 0 <= k < x.len() implies #[trigger] f(k) <= g(k) by {
        lemma_gap_positive(m, x[k], y[k]);
        let (c, d) = (m.of(phi[k]) * m.of(phi[k]), gap(m, x[k], y[k]));
        assert(c * d <= d) by (nonlinear_arith)
            requires
                c <= 1real,
                d >= 0real,
        ;
    }
    lemma_summed_at_most(f, g, x.len() as int);
}

pub proof fn lemma_decimated_apart<R, A: Arithmetic<R>>(
    a: &A,
    m: Meaning<R>,
    x: Seq<Complex<R>>,
    y: Seq<Complex<R>>,
    d: int,
)
    requires
        faithful(a, m),
        x.len() == y.len(),
        0 < x.len() <= usize::MAX,
        1 <= d <= x.len(),
        x.len() as int % d == 0,
    ensures
        ((d as real) * (d as real)) * apart(m, decimated(a, x, d), decimated(a, y, d)) <= apart(
            m,
            x,
            y,
        ),
{
    let n = x.len() as int;
    let r = d as real;
    if d == 1 {
        let e = apart(m, x, y);
        assert((r * r) * e == e) by (nonlinear_arith)
            requires
                r == 1real,
        ;
    } else {
        let count = n / d;
        vstd::arithmetic::div_mod::lemma_fundamental_div_mod(n, d);
        assert(0 < count && 2 * count <= n) by (nonlinear_arith)
            requires
                n == d * count,
                d >= 2,
                n > 0,
        ;
        let s = fraction(a, 1, d as u64);
        let (x2, y2) = (decimated(a, x, d), decimated(a, y, d));
        let f = |k: int| gap(m, x[k], y[k]);
        let from = |q: int| decimation_source(n, d, q);
        let part = |q: int| f(from(q));
        let h = |q: int| gap(m, x2[q], y2[q]);
        let c = m.of(s) * m.of(s);
        assert forall|q: int| 0 <= q < count implies #[trigger] h(q) == c * part(q) by {
            let j = decimation_source(n, d, q);
            lemma_gap_scaled(a, m, x[j], y[j], s);
        }
        lemma_summed_scaled(h, part, c, count);
        assert forall|k: int| 0 <= k < n implies #[trigger] f(k) >= 0real by {
            lemma_gap_positive(m, x[k], y[k]);
        }
        lemma_summed_some(f, from, part, count, n);
        lemma_fraction_value(a, m, 1, d as u64);
        let (v, w, e) = (m.of(s), summed(part, count), apart(m, x, y));
        assert((r * r) * ((v * v) * w) == ((v * r) * (v * r)) * w) by (nonlinear_arith);
        assert((1real * 1real) * w == w) by (nonlinear_arith);
        assert(apart(m, x2, y2) == c * w);
    }
}

proof fn lemma_real_parts_apart<R>(m: Meaning<R>, x: Seq<Complex<R>>, y: Seq<Complex<R>>)
    requires
        x.len() == y.len(),
    ensures
        rows_apart(m, real_parts(x), real_parts(y)) <= apart(m, x, y),
{
    let (p, q) = (real_parts(x), real_parts(y));
    let f = |t: int| (m.of(p[t]) - m.of(q[t])) * (m.of(p[t]) - m.of(q[t]));
    let g = |k: int| gap(m, x[k], y[k]);
    assert forall|k: int| 0 <= k < x.len() implies #[trigger] f(k) <= g(k) by {
        lemma_square(m.of(x[k].im) - m.of(y[k].im));
    }
    lemma_summed_at_most(f, g, x.len() as int);
}

/// An average of spectra of `len` bins at `out_len` samples.
pub proof fn lemma_average_weighed<R, P, A: Arithmetic<R>, E: Engine<R, P>>(
    a: &A,
    engine: &E,
    m: Meaning<R>,
    phi: Seq<R>,
    out_len: int,
    x: Seq<Complex<R>>,
    y: Seq<Complex<R>>,
    p: Seq<R>,
    q: Seq<R>,
)
    requires
        faithful(a, m),
        isometric::<R, P, E>(engine, m),
        keeps_length::<R, P, E>(engine),
        x.len() == y.len() == phi.len(),
        x.len() <= usize::MAX,
        power_of_two(x.len() as int),
        power_of_two(out_len),
        out_len <= x.len(),
        averaged::<R, P, A, E>(a, engine, phi, out_len, x, p),
        averaged::<R, P, A, E>(a, engine, phi, out_len, y, q),
    ensures
        ({
            let d = (x.len() as int / out_len) as real;
            (d * d) * ((out_len as real) * rows_apart(m, p, q)) <= weighed(m, phi, x, y)
        }),
{
    lemma_reach(x.len() as int, out_len);
    lemma_double(out_len);
    let d = x.len() as int / out_len;
    lemma_divides(out_len, x.len() as int);
    let (fx, fy) = (filtered(a, x, phi), filtered(a, y, phi));
    let (sx, sy) = (decimated(a, fx, d), decimated(a, fy, d));
    let zx = choose|z: Seq<Complex<R>>|
        #[trigger] inverted::<R, P, A, E>(a, engine, sx, z) && p == real_parts(z);
    let zy = choose|z: Seq<Complex<R>>|
        #[trigger] inverted::<R, P, A, E>(a, engine, sy, z) && q == real_parts(z);
    lemma_filtered_weighed(a, m, phi, x, y);
    lemma_decimated_apart(a, m, fx, fy, d);
    assert(sx.len() == out_len && sy.len() == out_len) by {
        if d == 1 {
            assert(x.len() as int / 1 == x.len());
        }
    }
    lemma_inverse_apart::<R, P, A, E>(a, engine, m, sx, zx, sy, zy);
    assert(zx.len() == sx.len() && zy.len() == sy.len());
    lemma_real_parts_apart(m, zx, zy);
    let (r, o) = (d as real, out_len as real);
    let (w, z, s) = (rows_apart(m, p, q), apart(m, zx, zy), apart(m, sx, sy));
    assert(o * w <= o * z) by (nonlinear_arith)
        requires
            w <= z,
            o >= 1real,
    ;
    let (u, v) = (o * w, s);
    assert((r * r) * u <= (r * r) * v) by (nonlinear_arith)
        requires
            u <= v,
            r >= 1real,
    ;
}

proof fn lemma_extracted_apart<R, A: Arithmetic<R>>(
    a: &A,
    m: Meaning<R>,
    x: Seq<Complex<R>>,
    y: Seq<Complex<R>>,
    psi: Seq<R>,
    band: Band,
)
    requires
        faithful(a, m),
        x.len() == y.len() == psi.len(),
        x.len() <= usize::MAX,
        1 <= band.len <= x.len(),
    ensures
        ({
            let (n, len) = (x.len() as real, band.len as real);
            (n * n) * apart(m, extracted(a, x, psi, band), extracted(a, y, psi, band)) <= (len
                * len) * weighed(m, psi, x, y)
        }),
{
    let n = x.len() as int;
    let (len, centre) = (band.len as int, band.centre_bin as int);
    let s = fraction(a, len as u64, n as u64);
    let (ex, ey) = (extracted(a, x, psi, band), extracted(a, y, psi, band));
    let f = |j: int| (m.of(psi[j]) * m.of(psi[j])) * gap(m, x[j], y[j]);
    let from = |q: int| band_source(n, centre, len, q);
    let part = |q: int| f(from(q));
    let h = |q: int| gap(m, ex[q], ey[q]);
    let c = m.of(s) * m.of(s);
    assert forall|q: int| 0 <= q < len implies #[trigger] h(q) == c * part(q) by {
        let j = band_source(n, centre, len, q);
        law_extraction_shifts_bins(n, centre, len, q, q);
        lemma_gap_scaled(a, m, x[j], y[j], psi[j]);
        lemma_gap_scaled(a, m, scaled(a, x[j], psi[j]), scaled(a, y[j], psi[j]), s);
    }
    lemma_summed_scaled(h, part, c, len);
    assert forall|k: int| 0 <= k < n implies #[trigger] f(k) >= 0real by {
        lemma_weight_positive(m, psi[k], x[k], y[k]);
    }
    assert forall|q: int| 0 <= q < len implies 0 <= #[trigger] from(q) < n by {
        law_extraction_shifts_bins(n, centre, len, q, q);
    }
    assert forall|q: int, r: int| 0 <= q < r < len implies #[trigger] from(q)
        != #[trigger] from(r) by {
        law_extraction_shifts_bins(n, centre, len, q, r);
    }
    lemma_summed_some(f, from, part, len, n);
    lemma_fraction_value(a, m, len as u64, n as u64);
    let (r, l, v) = (n as real, len as real, m.of(s));
    let (w, all) = (summed(part, len), weighed(m, psi, x, y));
    assert((r * r) * ((v * v) * w) == ((v * r) * (v * r)) * w) by (nonlinear_arith);
    lemma_square(l);
    let ll = l * l;
    assert(ll * w <= ll * all) by (nonlinear_arith)
        requires
            w <= all,
            ll >= 0real,
    ;
}

pub proof fn lemma_cancel(k: real, x: real, y: real)
    requires
        k > 0real,
        k * x <= k * y,
    ensures
        x <= y,
{
    if x > y {
        assert(k * x > k * y) by (nonlinear_arith)
            requires
                x > y,
                k > 0real,
        ;
    }
}

/// A channel of a filter bank, from a spectrum to the spectrum of the band's
/// envelope.
pub open spec fn channelled<R, P, A: Arithmetic<R>, E: Engine<R, P>>(
    a: &A,
    engine: &E,
    psi: Seq<R>,
    band: Band,
    x: Seq<Complex<R>>,
    v: Seq<Complex<R>>,
) -> bool {
    exists|sub: Seq<Complex<R>>|
        #[trigger] inverted::<R, P, A, E>(a, engine, extracted(a, x, psi, band), sub)
            && transformed::<R, P, E>(engine, Direction::Forward, envelope(a, sub), v)
}

proof fn lemma_channel_apart<R, P, A: Arithmetic<R>, E: Engine<R, P>>(
    a: &A,
    engine: &E,
    m: Meaning<R>,
    psi: Seq<R>,
    band: Band,
    x: Seq<Complex<R>>,
    y: Seq<Complex<R>>,
    vx: Seq<Complex<R>>,
    vy: Seq<Complex<R>>,
)
    requires
        faithful(a, m),
        faithful_distances(a, m),
        isometric::<R, P, E>(engine, m),
        keeps_length::<R, P, E>(engine),
        x.len() == y.len() == psi.len(),
        x.len() <= usize::MAX,
        1 <= band.len <= x.len(),
        channelled::<R, P, A, E>(a, engine, psi, band, x, vx),
        channelled::<R, P, A, E>(a, engine, psi, band, y, vy),
    ensures
        vx.len() == band.len,
        vy.len() == band.len,
        ({
            let (n, len) = (x.len() as real, band.len as real);
            (n * n) * apart(m, vx, vy) <= (len * len) * weighed(m, psi, x, y)
        }),
{
    let (ex, ey) = (extracted(a, x, psi, band), extracted(a, y, psi, band));
    let sx = choose|sub: Seq<Complex<R>>|
        #[trigger] inverted::<R, P, A, E>(a, engine, ex, sub) && transformed::<R, P, E>(
            engine,
            Direction::Forward,
            envelope(a, sub),
            vx,
        );
    let sy = choose|sub: Seq<Complex<R>>|
        #[trigger] inverted::<R, P, A, E>(a, engine, ey, sub) && transformed::<R, P, E>(
            engine,
            Direction::Forward,
            envelope(a, sub),
            vy,
        );
    lemma_extracted_apart(a, m, x, y, psi, band);
    lemma_inverse_apart::<R, P, A, E>(a, engine, m, ex, sx, ey, sy);
    assert(sx.len() == band.len && sy.len() == band.len);
    lemma_envelope_apart(a, m, sx, sy);
    let (ax, ay) = (envelope(a, sx), envelope(a, sy));
    lemma_forward_apart::<R, P, E>(engine, m, Direction::Forward, ax, vx, ay, vy);
    let (len, env, sub) = (band.len as real, apart(m, ax, ay), apart(m, sx, sy));
    assert(len * env <= len * sub) by (nonlinear_arith)
        requires
            env <= sub,
            len >= 1real,
    ;
    let (nn, u, v) = (x.len() as real * x.len() as real, len * env, apart(m, ex, ey));
    lemma_square(x.len() as real);
    assert(nn * u <= nn * v) by (nonlinear_arith)
        requires
            u <= v,
            nn >= 0real,
    ;
}

/// Two spectra of envelopes of a carrier band are no further apart, each to its
/// own length, than the band weighs the spectra that they come from.
proof fn lemma_carrier_apart<R: Copy, P, A: Arithmetic<R>, E: Engine<R, P>>(
    sa: &Geometry<R>,
    a: &A,
    engine: &E,
    m: Meaning<R>,
    i1: int,
    x: Seq<Complex<R>>,
    y: Seq<Complex<R>>,
    ux: Seq<Complex<R>>,
    uy: Seq<Complex<R>>,
)
    requires
        sa.wf(),
        0 <= i1 < sa.bank1.wavelets@.len(),
        faithful(a, m),
        faithful_distances(a, m),
        isometric::<R, P, E>(engine, m),
        keeps_length::<R, P, E>(engine),
        x.len() == y.len() == sa.n,
        sa.band_envelope::<P, A, E>(a, engine, i1, x, ux),
        sa.band_envelope::<P, A, E>(a, engine, i1, y, uy),
    ensures
        (sa.n as real * sa.n as real) * apart(m, ux, uy) <= (sa.n1() as real * sa.n1() as real)
            * weighed(m, sa.bank1.wavelets@[i1].spectrum@, x, y),
{
    sa.lemma_grids();
    let band = sa.bands1@[i1];
    let psi = sa.bank1.wavelets@[i1].spectrum@;
    let (len, n1) = (band.len as int, sa.n1());
    lemma_reach(len, n1);
    lemma_divides(n1, len);
    let d = len / n1;
    let (sx, vx) = choose|sub: Seq<Complex<R>>, env: Seq<Complex<R>>|
        {
            &&& #[trigger] inverted::<R, P, A, E>(a, engine, extracted(a, x, psi, band), sub)
            &&& #[trigger] transformed::<R, P, E>(
                engine,
                Direction::Forward,
                envelope(a, sub),
                env,
            )
            &&& ux == decimated(a, env, d)
        };
    let (sy, vy) = choose|sub: Seq<Complex<R>>, env: Seq<Complex<R>>|
        {
            &&& #[trigger] inverted::<R, P, A, E>(a, engine, extracted(a, y, psi, band), sub)
            &&& #[trigger] transformed::<R, P, E>(
                engine,
                Direction::Forward,
                envelope(a, sub),
                env,
            )
            &&& uy == decimated(a, env, d)
        };
    assert(channelled::<R, P, A, E>(a, engine, psi, band, x, vx));
    assert(channelled::<R, P, A, E>(a, engine, psi, band, y, vy));
    lemma_channel_apart::<R, P, A, E>(a, engine, m, psi, band, x, y, vx, vy);
    lemma_decimated_apart(a, m, vx, vy, d);
    let (n, r, dr) = (sa.n as real, n1 as real, d as real);
    assert(len as real == r * dr) by (nonlinear_arith)
        requires
            len == n1 * d,
            dr == d as real,
            r == n1 as real,
    ;
    lemma_shrunk(n, r, dr, weighed(m, psi, x, y), apart(m, vx, vy), apart(m, ux, uy));
}

/// What is left of a bound for a spectrum of `r d` bins, where `r` are kept.
proof fn lemma_shrunk(n: real, r: real, d: real, w: real, long: real, short: real)
    requires
        d >= 1real,
        (n * n) * long <= ((r * d) * (r * d)) * w,
        (d * d) * short <= long,
    ensures
        (n * n) * short <= (r * r) * w,
{
    let (nn, dd) = (n * n, d * d);
    lemma_square(n);
    let u = dd * short;
    assert(nn * u <= nn * long) by (nonlinear_arith)
        requires
            u <= long,
            nn >= 0real,
    ;
    assert(nn * (dd * short) == dd * (nn * short)) by (nonlinear_arith);
    assert(((r * d) * (r * d)) * w == (d * d) * ((r * r) * w)) by (nonlinear_arith);
    assert(dd >= 1real) by (nonlinear_arith)
        requires
            dd == d * d,
            d >= 1real,
    ;
    lemma_cancel(dd, nn * short, (r * r) * w);
}

/// What an average of `out e` bins at `out` samples leaves of a bound.
pub proof fn lemma_averaged_bound(n: real, out: real, e: real, w: real, spectrum: real, rows: real)
    requires
        e >= 1real,
        out >= 1real,
        (n * n) * spectrum <= ((out * e) * (out * e)) * w,
        (e * e) * (out * rows) <= spectrum,
    ensures
        (n * n) * rows <= out * w,
{
    lemma_shrunk(n, out, e, w, spectrum, out * rows);
    let nn = n * n;
    assert(nn * (out * rows) == out * (nn * rows)) by (nonlinear_arith);
    assert((out * out) * w == out * (out * w)) by (nonlinear_arith);
    lemma_cancel(out, nn * rows, out * w);
}

/// An average at the output's rate, of spectra of `len` bins.
proof fn lemma_output_apart<R, P, A: Arithmetic<R>, E: Engine<R, P>>(
    a: &A,
    engine: &E,
    m: Meaning<R>,
    phi: Seq<R>,
    out: int,
    n: real,
    w: real,
    x: Seq<Complex<R>>,
    y: Seq<Complex<R>>,
    p: Seq<R>,
    q: Seq<R>,
)
    requires
        faithful(a, m),
        isometric::<R, P, E>(engine, m),
        keeps_length::<R, P, E>(engine),
        passive(m, phi),
        x.len() == y.len() == phi.len(),
        x.len() <= usize::MAX,
        power_of_two(x.len() as int),
        power_of_two(out),
        out <= x.len(),
        (n * n) * apart(m, x, y) <= (x.len() as real * x.len() as real) * w,
        averaged::<R, P, A, E>(a, engine, phi, out, x, p),
        averaged::<R, P, A, E>(a, engine, phi, out, y, q),
    ensures
        (n * n) * rows_apart(m, p, q) <= (out as real) * w,
{
    let len = x.len() as int;
    lemma_reach(len, out);
    lemma_divides(out, len);
    lemma_double(out);
    let e = len / out;
    lemma_average_weighed::<R, P, A, E>(a, engine, m, phi, out, x, y, p, q);
    lemma_weighed_passively(m, phi, x, y);
    let (o, er) = (out as real, e as real);
    assert(len as real == o * er) by (nonlinear_arith)
        requires
            len == out * e,
            er == e as real,
            o == out as real,
    ;
    lemma_averaged_bound(n, o, er, w, apart(m, x, y), rows_apart(m, p, q));
}

/// The sum of the squared responses of the first `count` filters of a bank at bin
/// `j`.
pub open spec fn responses<R>(
    bank: &FilterBank<R>,
    m: Meaning<R>,
    j: int,
    count: int,
) -> real {
    summed(
        |i: int| m.of(bank.wavelets@[i].spectrum@[j]) * m.of(bank.wavelets@[i].spectrum@[j]),
        count,
    )
}

/// The square of the distance between two spectra, as the first `count` filters
/// of a bank weigh them together.
pub open spec fn weighed_together<R>(
    bank: &FilterBank<R>,
    m: Meaning<R>,
    x: Seq<Complex<R>>,
    y: Seq<Complex<R>>,
    count: int,
) -> real {
    summed(|j: int| responses(bank, m, j, count) * gap(m, x[j], y[j]), x.len() as int)
}

proof fn lemma_together<R>(
    bank: &FilterBank<R>,
    m: Meaning<R>,
    x: Seq<Complex<R>>,
    y: Seq<Complex<R>>,
    count: int,
)
    requires
        count > 0,
    ensures
        weighed_together(bank, m, x, y, count) == weighed_together(bank, m, x, y, count - 1)
            + weighed(m, bank.wavelets@[count - 1].spectrum@, x, y),
{
    let psi = bank.wavelets@[count - 1].spectrum@;
    let f = |j: int| responses(bank, m, j, count - 1) * gap(m, x[j], y[j]);
    let g = |j: int| (m.of(psi[j]) * m.of(psi[j])) * gap(m, x[j], y[j]);
    let h = |j: int| responses(bank, m, j, count) * gap(m, x[j], y[j]);
    assert forall|j: int| 0 <= j < x.len() implies #[trigger] h(j) == f(j) + g(j) by {
        let (u, v, w) = (
            responses(bank, m, j, count - 1),
            m.of(psi[j]) * m.of(psi[j]),
            gap(m, x[j], y[j]),
        );
        assert((u + v) * w == u * w + v * w) by (nonlinear_arith);
    }
    lemma_summed_added(f, g, h, x.len() as int);
}

proof fn lemma_together_none<R>(
    bank: &FilterBank<R>,
    m: Meaning<R>,
    x: Seq<Complex<R>>,
    y: Seq<Complex<R>>,
)
    ensures
        weighed_together(bank, m, x, y, 0) >= 0real,
{
    let f = |j: int| responses(bank, m, j, 0) * gap(m, x[j], y[j]);
    assert forall|j: int| 0 <= j < x.len() implies #[trigger] f(j) >= 0real by {
        let w = gap(m, x[j], y[j]);
        assert(responses(bank, m, j, 0) == 0real);
        assert(0real * w == 0real) by (nonlinear_arith);
    }
    lemma_summed_positive(f, x.len() as int);
}

/// Where every part is at most `c` times what a filter weighs, the parts together
/// are at most `c` times what the filters weigh together.
proof fn lemma_parts_together<R>(
    bank: &FilterBank<R>,
    m: Meaning<R>,
    x: Seq<Complex<R>>,
    y: Seq<Complex<R>>,
    part: spec_fn(int) -> real,
    k: real,
    c: real,
    count: int,
)
    requires
        0 <= count,
        c >= 0real,
        forall|i: int|
            0 <= i < count ==> k * #[trigger] part(i) <= c * weighed(
                m,
                bank.wavelets@[i].spectrum@,
                x,
                y,
            ),
    ensures
        k * summed(part, count) <= c * weighed_together(bank, m, x, y, count),
    decreases count,
{
    if count == 0 {
        lemma_together_none(bank, m, x, y);
        let w = weighed_together(bank, m, x, y, 0);
        assert(k * 0real <= c * w) by (nonlinear_arith)
            requires
                c >= 0real,
                w >= 0real,
        ;
    } else {
        lemma_parts_together(bank, m, x, y, part, k, c, count - 1);
        lemma_together(bank, m, x, y, count);
        let (u, v) = (summed(part, count - 1), part(count - 1));
        assert(k * (u + v) == k * u + k * v) by (nonlinear_arith);
        let (s, t) = (
            weighed_together(bank, m, x, y, count - 1),
            weighed(m, bank.wavelets@[count - 1].spectrum@, x, y),
        );
        assert(c * (s + t) == c * s + c * t) by (nonlinear_arith);
    }
}

/// Where the squared responses add up to no more than `most`, the filters
/// together weigh two spectra at no more than `most` times their distance.
proof fn lemma_together_at_most<R>(
    bank: &FilterBank<R>,
    m: Meaning<R>,
    x: Seq<Complex<R>>,
    y: Seq<Complex<R>>,
    most: real,
    count: int,
)
    requires
        forall|j: int| 0 <= j < x.len() ==> #[trigger] responses(bank, m, j, count) <= most,
    ensures
        weighed_together(bank, m, x, y, count) <= most * apart(m, x, y),
{
    let f = |j: int| responses(bank, m, j, count) * gap(m, x[j], y[j]);
    let g = |j: int| gap(m, x[j], y[j]);
    let h = |j: int| most * g(j);
    assert forall|j: int| 0 <= j < x.len() implies #[trigger] f(j) <= h(j) by {
        lemma_gap_positive(m, x[j], y[j]);
        let (u, w) = (responses(bank, m, j, count), gap(m, x[j], y[j]));
        assert(u * w <= most * w) by (nonlinear_arith)
            requires
                u <= most,
                w >= 0real,
        ;
    }
    lemma_summed_at_most(f, h, x.len() as int);
    lemma_summed_scaled(h, g, most, x.len() as int);
}

/// The square of the distance between the second orders of a carrier.
pub open spec fn second_order_apart<R>(
    m: Meaning<R>,
    p: Seq<Vec<R>>,
    q: Seq<Vec<R>>,
) -> real {
    summed(|i: int| rows_apart(m, p[i]@, q[i]@), p.len() as int)
}

/// The square of the distance between the first orders of two results.
pub open spec fn first_order_apart<R>(
    m: Meaning<R>,
    p: &Scattergram<R>,
    q: &Scattergram<R>,
) -> real {
    summed(|i: int| rows_apart(m, p.s1@[i]@, q.s1@[i]@), p.s1@.len() as int)
}

/// The square of the distance between two results, over all their orders.
pub open spec fn results_apart<R>(
    m: Meaning<R>,
    p: &Scattergram<R>,
    q: &Scattergram<R>,
) -> real {
    rows_apart(m, p.s0@, q.s0@) + summed(
        |i: int|
            rows_apart(m, p.s1@[i]@, q.s1@[i]@) + second_order_apart(m, p.second(i), q.second(i)),
        p.s1@.len() as int,
    )
}

/// Whether no averaging kernel of an analyser amplifies anything.
pub open spec fn averages_passively<R: Copy>(sa: &Geometry<R>, m: Meaning<R>) -> bool {
    forall|len: usize| #[trigger]
        sa.phi_cache@.contains_key(len) ==> passive(m, sa.phi(len as int))
}

proof fn lemma_flat<R>(m: Meaning<R>, p: Seq<R>)
    ensures
        rows_apart(m, p, p) == 0real,
{
    let f = |t: int| (m.of(p[t]) - m.of(p[t])) * (m.of(p[t]) - m.of(p[t]));
    let g = |t: int| 0real;
    assert forall|t: int| 0 <= t < p.len() implies #[trigger] f(t) == 0real * g(t) by {
        assert(0real * 0real == 0real) by (nonlinear_arith);
    }
    lemma_summed_scaled(f, g, 0real, p.len() as int);
    let s = summed(g, p.len() as int);
    assert(0real * s == 0real) by (nonlinear_arith);
}

/// One row of the second order.
pub proof fn lemma_rate_apart<R: Copy, P, A: Arithmetic<R>, E: Engine<R, P>>(
    sa: &Geometry<R>,
    a: &A,
    engine: &E,
    m: Meaning<R>,
    i1: int,
    i2: int,
    x: Seq<Complex<R>>,
    y: Seq<Complex<R>>,
    p: Seq<R>,
    q: Seq<R>,
)
    requires
        sa.wf(),
        0 <= i2 < sa.bank2.wavelets@.len(),
        faithful(a, m),
        faithful_distances(a, m),
        isometric::<R, P, E>(engine, m),
        keeps_length::<R, P, E>(engine),
        averages_passively(sa, m),
        x.len() == y.len() == sa.n1(),
        sa.second_order::<P, A, E>(a, engine, i1, i2, x, p),
        sa.second_order::<P, A, E>(a, engine, i1, i2, y, q),
    ensures
        (sa.n1() as real * sa.n1() as real) * rows_apart(m, p, q) <= (sa.n_out as real) * weighed(
            m,
            sa.bank2.wavelets@[i2].spectrum@,
            x,
            y,
        ),
{
    sa.lemma_grids();
    let band = sa.bands2@[i2];
    let psi = sa.bank2.wavelets@[i2].spectrum@;
    let n1 = sa.n1() as real;
    if sa.beyond(a, i1, i2) {
        lemma_flat(m, p);
        let f = |j: int| (m.of(psi[j]) * m.of(psi[j])) * gap(m, x[j], y[j]);
        assert forall|j: int| 0 <= j < x.len() implies #[trigger] f(j) >= 0real by {
            lemma_weight_positive(m, psi[j], x[j], y[j]);
        }
        lemma_summed_positive(f, x.len() as int);
        let (k, o, w) = (n1 * n1, sa.n_out as real, weighed(m, psi, x, y));
        assert(k * 0real <= o * w) by (nonlinear_arith)
            requires
                o >= 0real,
                w >= 0real,
        ;
    } else {
        let (phi, out) = (sa.phi(band.len as int), sa.n_out as int);
        let (sx, vx) = choose|sub: Seq<Complex<R>>, env: Seq<Complex<R>>|
            {
                &&& #[trigger] inverted::<R, P, A, E>(a, engine, extracted(a, x, psi, band), sub)
                &&& #[trigger] transformed::<R, P, E>(
                    engine,
                    Direction::Forward,
                    envelope(a, sub),
                    env,
                )
                &&& averaged::<R, P, A, E>(a, engine, phi, out, env, p)
            };
        let (sy, vy) = choose|sub: Seq<Complex<R>>, env: Seq<Complex<R>>|
            {
                &&& #[trigger] inverted::<R, P, A, E>(a, engine, extracted(a, y, psi, band), sub)
                &&& #[trigger] transformed::<R, P, E>(
                    engine,
                    Direction::Forward,
                    envelope(a, sub),
                    env,
                )
                &&& averaged::<R, P, A, E>(a, engine, phi, out, env, q)
            };
        assert(channelled::<R, P, A, E>(a, engine, psi, band, x, vx));
        assert(channelled::<R, P, A, E>(a, engine, psi, band, y, vy));
        lemma_channel_apart::<R, P, A, E>(a, engine, m, psi, band, x, y, vx, vy);
        assert(sa.phi_cache@.contains_key(band.len));
        let w = weighed(m, psi, x, y);
        lemma_output_apart::<R, P, A, E>(a, engine, m, phi, out, n1, w, vx, vy, p, q);
    }
}

/// The first order of one carrier.
proof fn lemma_first_apart<R: Copy, P, A: Arithmetic<R>, E: Engine<R, P>>(
    sa: &Geometry<R>,
    a: &A,
    engine: &E,
    m: Meaning<R>,
    i1: int,
    x: Seq<Complex<R>>,
    y: Seq<Complex<R>>,
    p: Seq<R>,
    prows: Seq<Vec<R>>,
    q: Seq<R>,
    qrows: Seq<Vec<R>>,
)
    requires
        sa.wf(),
        0 <= i1 < sa.bank1.wavelets@.len(),
        faithful(a, m),
        faithful_distances(a, m),
        isometric::<R, P, E>(engine, m),
        keeps_length::<R, P, E>(engine),
        averages_passively(sa, m),
        x.len() == y.len() == sa.n,
        sa.band_result::<P, A, E>(a, engine, i1, x, p, prows),
        sa.band_result::<P, A, E>(a, engine, i1, y, q, qrows),
    ensures
        (sa.n as real * sa.n as real) * rows_apart(m, p, q) <= (sa.n_out as real) * weighed(
            m,
            sa.bank1.wavelets@[i1].spectrum@,
            x,
            y,
        ),
{
    sa.lemma_grids();
    let (phi, out) = (sa.phi(sa.n1()), sa.n_out as int);
    let w = weighed(m, sa.bank1.wavelets@[i1].spectrum@, x, y);
    let ux = choose|u: Seq<Complex<R>>|
        #[trigger] sa.band_envelope::<P, A, E>(a, engine, i1, x, u) && averaged::<R, P, A, E>(
            a,
            engine,
            phi,
            out,
            u,
            p,
        );
    let uy = choose|u: Seq<Complex<R>>|
        #[trigger] sa.band_envelope::<P, A, E>(a, engine, i1, y, u) && averaged::<R, P, A, E>(
            a,
            engine,
            phi,
            out,
            u,
            q,
        );
    lemma_envelope_length::<R, P, A, E>(sa, a, engine, i1, x, ux);
    lemma_envelope_length::<R, P, A, E>(sa, a, engine, i1, y, uy);
    lemma_carrier_apart::<R, P, A, E>(sa, a, engine, m, i1, x, y, ux, uy);
    assert(sa.phi_cache@.contains_key(sa.n1() as usize));
    lemma_output_apart::<R, P, A, E>(a, engine, m, phi, out, sa.n as real, w, ux, uy, p, q);
}

/// The second order of one carrier, where the squared responses of the rate
/// filters add up to at most `most`.
proof fn lemma_second_apart<R: Copy, P, A: Arithmetic<R>, E: Engine<R, P>>(
    sa: &Geometry<R>,
    a: &A,
    engine: &E,
    m: Meaning<R>,
    most: real,
    i1: int,
    x: Seq<Complex<R>>,
    y: Seq<Complex<R>>,
    p: Seq<R>,
    prows: Seq<Vec<R>>,
    q: Seq<R>,
    qrows: Seq<Vec<R>>,
)
    requires
        sa.wf(),
        0 <= i1 < sa.bank1.wavelets@.len(),
        faithful(a, m),
        faithful_distances(a, m),
        isometric::<R, P, E>(engine, m),
        keeps_length::<R, P, E>(engine),
        averages_passively(sa, m),
        most >= 0real,
        forall|j: int|
            0 <= j < sa.n1() ==> #[trigger] responses(&sa.bank2, m, j, prows.len() as int) <= most,
        x.len() == y.len() == sa.n,
        sa.band_result::<P, A, E>(a, engine, i1, x, p, prows),
        sa.band_result::<P, A, E>(a, engine, i1, y, q, qrows),
    ensures
        (sa.n as real * sa.n as real) * second_order_apart(m, prows, qrows) <= (sa.n_out as real
            * most) * weighed(m, sa.bank1.wavelets@[i1].spectrum@, x, y),
{
    sa.lemma_grids();
    let (n, n1, o) = (sa.n as real, sa.n1() as real, sa.n_out as real);
    let w = weighed(m, sa.bank1.wavelets@[i1].spectrum@, x, y);
    let ux = choose|u: Seq<Complex<R>>|
        #[trigger] sa.band_envelope::<P, A, E>(a, engine, i1, x, u) && forall|i2: int|
            0 <= i2 < prows.len() ==> sa.second_order::<P, A, E>(
                a,
                engine,
                i1,
                i2,
                u,
                (#[trigger] prows[i2])@,
            );
    let uy = choose|u: Seq<Complex<R>>|
        #[trigger] sa.band_envelope::<P, A, E>(a, engine, i1, y, u) && forall|i2: int|
            0 <= i2 < qrows.len() ==> sa.second_order::<P, A, E>(
                a,
                engine,
                i1,
                i2,
                u,
                (#[trigger] qrows[i2])@,
            );
    lemma_envelope_length::<R, P, A, E>(sa, a, engine, i1, x, ux);
    lemma_envelope_length::<R, P, A, E>(sa, a, engine, i1, y, uy);
    lemma_carrier_apart::<R, P, A, E>(sa, a, engine, m, i1, x, y, ux, uy);
    let part = |i2: int| rows_apart(m, prows[i2]@, qrows[i2]@);
    assert forall|i2: int| 0 <= i2 < prows.len() implies (n1 * n1) * #[trigger] part(i2) <= o
        * weighed(m, sa.bank2.wavelets@[i2].spectrum@, ux, uy) by {
        let (r, s) = (prows[i2]@, qrows[i2]@);
        lemma_rate_apart::<R, P, A, E>(sa, a, engine, m, i1, i2, ux, uy, r, s);
    }
    let count = prows.len() as int;
    lemma_parts_together(&sa.bank2, m, ux, uy, part, n1 * n1, o, count);
    lemma_together_at_most(&sa.bank2, m, ux, uy, most, count);
    let (t, u, s) = (
        weighed_together(&sa.bank2, m, ux, uy, count),
        apart(m, ux, uy),
        summed(part, count),
    );
    lemma_second_bound(n, n1, o, most, w, u, t, s);
}

proof fn lemma_second_bound(
    n: real,
    n1: real,
    o: real,
    most: real,
    w: real,
    u: real,
    t: real,
    s: real,
)
    requires
        n1 >= 1real,
        o >= 0real,
        most >= 0real,
        (n1 * n1) * s <= o * t,
        t <= most * u,
        (n * n) * u <= (n1 * n1) * w,
    ensures
        (n * n) * s <= (o * most) * w,
{
    let (nn, mm) = (n * n, n1 * n1);
    lemma_square(n);
    let mu = most * u;
    assert(o * t <= o * mu) by (nonlinear_arith)
        requires
            t <= mu,
            o >= 0real,
    ;
    let (l, r) = (mm * s, o * mu);
    assert(nn * l <= nn * r) by (nonlinear_arith)
        requires
            l <= r,
            nn >= 0real,
    ;
    let om = o * most;
    assert(om >= 0real) by (nonlinear_arith)
        requires
            om == o * most,
            o >= 0real,
            most >= 0real,
    ;
    let (v, z) = (nn * u, mm * w);
    assert(om * v <= om * z) by (nonlinear_arith)
        requires
            v <= z,
            om >= 0real,
    ;
    assert(nn * (o * (most * u)) == (o * most) * (nn * u)) by (nonlinear_arith);
    assert(nn * (mm * s) == mm * (nn * s)) by (nonlinear_arith);
    assert(om * (mm * w) == mm * (om * w)) by (nonlinear_arith);
    assert(mm >= 1real) by (nonlinear_arith)
        requires
            mm == n1 * n1,
            n1 >= 1real,
    ;
    lemma_cancel(mm, nn * s, om * w);
}

/// The zeroth order.
proof fn lemma_zeroth_apart<R: Copy, P, A: Arithmetic<R>, E: Engine<R, P>>(
    sa: &Geometry<R>,
    a: &A,
    engine: &E,
    m: Meaning<R>,
    x: Seq<Complex<R>>,
    y: Seq<Complex<R>>,
    p: Seq<R>,
    q: Seq<R>,
)
    requires
        sa.wf(),
        faithful(a, m),
        faithful_distances(a, m),
        isometric::<R, P, E>(engine, m),
        keeps_length::<R, P, E>(engine),
        averages_passively(sa, m),
        x.len() == y.len() == sa.n,
        sa.zeroth_order::<P, A, E>(a, engine, x, p),
        sa.zeroth_order::<P, A, E>(a, engine, y, q),
    ensures
        (sa.n as real) * rows_apart(m, p, q) <= (sa.n_out as real) * apart(m, x, y),
{
    sa.lemma_grids();
    let (phi, out, d) = (sa.phi(sa.n1()), sa.n_out as int, sa.d1 as int);
    let vx = choose|env: Seq<Complex<R>>|
        #[trigger] transformed::<R, P, E>(engine, Direction::Forward, envelope(a, x), env)
            && averaged::<R, P, A, E>(a, engine, phi, out, decimated(a, env, d), p);
    let vy = choose|env: Seq<Complex<R>>|
        #[trigger] transformed::<R, P, E>(engine, Direction::Forward, envelope(a, y), env)
            && averaged::<R, P, A, E>(a, engine, phi, out, decimated(a, env, d), q);
    let (ux, uy) = (decimated(a, vx, d), decimated(a, vy, d));
    lemma_envelope_apart(a, m, x, y);
    let (ax, ay) = (envelope(a, x), envelope(a, y));
    lemma_forward_apart::<R, P, E>(engine, m, Direction::Forward, ax, vx, ay, vy);
    assert(vx.len() == sa.n && vy.len() == sa.n);
    lemma_decimated_apart(a, m, vx, vy, d);
    if d == 1 {
        assert(sa.n as int / 1 == sa.n1());
    }
    assert(ux.len() == sa.n1() && uy.len() == sa.n1());
    assert(sa.phi_cache@.contains_key(sa.n1() as usize));
    let (n, n1, dr) = (sa.n as real, sa.n1() as real, d as real);
    let (long, short, far) = (apart(m, vx, vy), apart(m, ux, uy), n * apart(m, x, y));
    let (env, whole) = (apart(m, ax, ay), apart(m, x, y));
    assert(n * env <= n * whole) by (nonlinear_arith)
        requires
            env <= whole,
            n >= 0real,
    ;
    let (dint, n1int, nint) = (d, sa.n1(), sa.n as int);
    vstd::arithmetic::div_mod::lemma_fundamental_div_mod(nint, dint);
    assert(n == n1 * dr) by (nonlinear_arith)
        requires
            nint == dint * n1int,
            dr == dint as real,
            n1 == n1int as real,
            n == nint as real,
    ;
    lemma_square(n);
    let nn = n * n;
    assert(nn * long <= nn * far) by (nonlinear_arith)
        requires
            long <= far,
            nn >= 0real,
    ;
    lemma_shrunk(n, n1, dr, far, long, short);
    lemma_output_apart::<R, P, A, E>(a, engine, m, phi, out, n, far, ux, uy, p, q);
    let (rows, o) = (rows_apart(m, p, q), sa.n_out as real);
    assert((n * n) * rows == n * (n * rows)) by (nonlinear_arith);
    assert(o * (n * whole) == n * (o * whole)) by (nonlinear_arith);
    lemma_cancel(n, n * rows, o * whole);
}

/// Where `z` and `c` times the squared responses come to at most `n` at every
/// bin, so do the distances that they weigh.
proof fn lemma_whole_bound<R>(
    bank: &FilterBank<R>,
    m: Meaning<R>,
    x: Seq<Complex<R>>,
    y: Seq<Complex<R>>,
    z: real,
    c: real,
    n: real,
    count: int,
)
    requires
        forall|j: int| 0 <= j < x.len() ==> z + c * #[trigger] responses(bank, m, j, count) <= n,
    ensures
        z * apart(m, x, y) + c * weighed_together(bank, m, x, y, count) <= n * apart(m, x, y),
{
    let len = x.len() as int;
    let f = |j: int| responses(bank, m, j, count) * gap(m, x[j], y[j]);
    let g = |j: int| gap(m, x[j], y[j]);
    let cf = |j: int| c * f(j);
    let zg = |j: int| z * g(j);
    let ng = |j: int| n * g(j);
    let both = |j: int| zg(j) + cf(j);
    assert forall|j: int| 0 <= j < len implies #[trigger] both(j) <= ng(j) by {
        lemma_gap_positive(m, x[j], y[j]);
        let (u, w) = (responses(bank, m, j, count), gap(m, x[j], y[j]));
        let v = z + c * u;
        assert(v * w <= n * w) by (nonlinear_arith)
            requires
                v <= n,
                w >= 0real,
        ;
        assert((z + c * u) * w == z * w + c * (u * w)) by (nonlinear_arith);
    }
    lemma_summed_at_most(both, ng, len);
    lemma_summed_added(zg, cf, both, len);
    lemma_summed_scaled(zg, g, z, len);
    lemma_summed_scaled(cf, f, c, len);
    lemma_summed_scaled(ng, g, n, len);
}

/// From distances of spectra of `n` bins back to those of blocks.
proof fn lemma_back(n: real, s: real, d: real)
    requires
        n >= 1real,
        (n * n) * s <= n * (n * d),
    ensures
        s <= d,
{
    assert(n * (n * d) == (n * n) * d) by (nonlinear_arith);
    assert(n * n >= 1real) by (nonlinear_arith)
        requires
            n >= 1real,
    ;
    lemma_cancel(n * n, s, d);
}

/// The spectrum behind a result.
spec fn spectrum_of<R: Copy, P, A: Arithmetic<R>, E: Engine<R, P>>(
    sa: &Geometry<R>,
    a: &A,
    engine: &E,
    x: Seq<Complex<R>>,
    p: &Scattergram<R>,
) -> Seq<Complex<R>> {
    choose|s: Seq<Complex<R>>|
        {
            &&& #[trigger] transformed::<R, P, E>(engine, Direction::Forward, x, s)
            &&& forall|i: int|
                0 <= i < p.s1@.len() ==> sa.band_result::<P, A, E>(
                    a,
                    engine,
                    i,
                    s,
                    (#[trigger] p.s1@[i])@,
                    p.second(i),
                )
        }
}

/// The first order is non-expansive: the first orders of two blocks are no
/// further apart than the blocks, where no averaging kernel amplifies anything
/// and the squared responses of the carrier filters add up, at any bin, to no
/// more than there are input samples to an output sample.
pub proof fn law_first_order_is_non_expansive<R: Copy, P, A: Arithmetic<R>, E: Engine<R, P>>(
    sa: &Geometry<R>,
    a: &A,
    engine: &E,
    m: Meaning<R>,
    x: Seq<Complex<R>>,
    y: Seq<Complex<R>>,
    p: &Scattergram<R>,
    q: &Scattergram<R>,
)
    requires
        sa.wf(),
        faithful(a, m),
        faithful_distances(a, m),
        isometric::<R, P, E>(engine, m),
        keeps_length::<R, P, E>(engine),
        averages_passively(sa, m),
        forall|j: int|
            0 <= j < sa.n ==> (sa.n_out as real) * #[trigger] responses(
                &sa.bank1,
                m,
                j,
                sa.bank1.wavelets@.len() as int,
            ) <= sa.n as real,
        x.len() == y.len() == sa.n,
        sa.analysed::<P, A, E>(a, engine, x, p),
        sa.analysed::<P, A, E>(a, engine, y, q),
    ensures
        first_order_apart(m, p, q) <= apart(m, x, y),
{
    sa.lemma_grids();
    let count = sa.bank1.wavelets@.len() as int;
    let xs = spectrum_of::<R, P, A, E>(sa, a, engine, x, p);
    let ys = spectrum_of::<R, P, A, E>(sa, a, engine, y, q);
    assert(xs.len() == sa.n && ys.len() == sa.n);
    let (n, o) = (sa.n as real, sa.n_out as real);
    let part = |i: int| rows_apart(m, p.s1@[i]@, q.s1@[i]@);
    assert forall|i: int| 0 <= i < count implies (n * n) * #[trigger] part(i) <= o * weighed(
        m,
        sa.bank1.wavelets@[i].spectrum@,
        xs,
        ys,
    ) by {
        let (r, s) = (p.s1@[i]@, q.s1@[i]@);
        let (r2, s2) = (p.second(i), q.second(i));
        lemma_first_apart::<R, P, A, E>(sa, a, engine, m, i, xs, ys, r, r2, s, s2);
    }
    lemma_parts_together(&sa.bank1, m, xs, ys, part, n * n, o, count);
    lemma_forward_apart::<R, P, E>(engine, m, Direction::Forward, x, xs, y, ys);
    lemma_whole_bound(&sa.bank1, m, xs, ys, 0real, o, n, count);
    let d = apart(m, xs, ys);
    assert(0real * d == 0real) by (nonlinear_arith);
    lemma_back(n, first_order_apart(m, p, q), apart(m, x, y));
}

/// The transform is non-expansive: the results of two blocks, all orders taken
/// together, are no further apart than the blocks, where no averaging kernel
/// amplifies anything, the squared responses of the rate filters add up to at
/// most `most`, and those of the carrier filters are small enough beside the
/// number of input samples to an output sample.
pub proof fn law_transform_is_non_expansive<R: Copy, P, A: Arithmetic<R>, E: Engine<R, P>>(
    sa: &Geometry<R>,
    a: &A,
    engine: &E,
    m: Meaning<R>,
    most: real,
    x: Seq<Complex<R>>,
    y: Seq<Complex<R>>,
    p: &Scattergram<R>,
    q: &Scattergram<R>,
)
    requires
        sa.wf(),
        faithful(a, m),
        faithful_distances(a, m),
        isometric::<R, P, E>(engine, m),
        keeps_length::<R, P, E>(engine),
        averages_passively(sa, m),
        most >= 0real,
        sa.config.order2 ==> forall|j: int|
            0 <= j < sa.n1() ==> #[trigger] responses(
                &sa.bank2,
                m,
                j,
                sa.bank2.wavelets@.len() as int,
            ) <= most,
        forall|j: int|
            0 <= j < sa.n ==> (sa.n_out as real) * (1real + (1real + most) * #[trigger] responses(
                &sa.bank1,
                m,
                j,
                sa.bank1.wavelets@.len() as int,
            )) <= sa.n as real,
        x.len() == y.len() == sa.n,
        sa.analysed::<P, A, E>(a, engine, x, p),
        sa.analysed::<P, A, E>(a, engine, y, q),
    ensures
        results_apart(m, p, q) <= apart(m, x, y),
{
    sa.lemma_grids();
    let count = sa.bank1.wavelets@.len() as int;
    let xs = spectrum_of::<R, P, A, E>(sa, a, engine, x, p);
    let ys = spectrum_of::<R, P, A, E>(sa, a, engine, y, q);
    assert(xs.len() == sa.n && ys.len() == sa.n);
    let (n, o) = (sa.n as real, sa.n_out as real);
    let c = o * (1real + most);
    let part = |i: int|
        rows_apart(m, p.s1@[i]@, q.s1@[i]@) + second_order_apart(m, p.second(i), q.second(i));
    assert forall|i: int| 0 <= i < count implies (n * n) * #[trigger] part(i) <= c * weighed(
        m,
        sa.bank1.wavelets@[i].spectrum@,
        xs,
        ys,
    ) by {
        let (r, s) = (p.s1@[i]@, q.s1@[i]@);
        let (r2, s2) = (p.second(i), q.second(i));
        assert(sa.band_result::<P, A, E>(a, engine, i, xs, r, r2));
        assert forall|j: int| 0 <= j < sa.n1() implies #[trigger] responses(
            &sa.bank2,
            m,
            j,
            r2.len() as int,
        ) <= most by {}
        lemma_first_apart::<R, P, A, E>(sa, a, engine, m, i, xs, ys, r, r2, s, s2);
        lemma_second_apart::<R, P, A, E>(sa, a, engine, m, most, i, xs, ys, r, r2, s, s2);
        let (k, u, v) = (n * n, rows_apart(m, r, s), second_order_apart(m, r2, s2));
        let w = weighed(m, sa.bank1.wavelets@[i].spectrum@, xs, ys);
        assert(k * (u + v) == k * u + k * v) by (nonlinear_arith);
        assert((o * (1real + most)) * w == o * w + (o * most) * w) by (nonlinear_arith);
    }
    assert(c >= 0real) by (nonlinear_arith)
        requires
            c == o * (1real + most),
            o >= 0real,
            most >= 0real,
    ;
    lemma_parts_together(&sa.bank1, m, xs, ys, part, n * n, c, count);
    lemma_forward_apart::<R, P, E>(engine, m, Direction::Forward, x, xs, y, ys);
    lemma_zeroth_apart::<R, P, A, E>(sa, a, engine, m, x, y, p.s0@, q.s0@);
    assert forall|j: int| 0 <= j < xs.len() implies o + c * #[trigger] responses(
        &sa.bank1,
        m,
        j,
        count,
    ) <= n by {
        let r = responses(&sa.bank1, m, j, count);
        assert(o * (1real + (1real + most) * r) == o + (o * (1real + most)) * r)
            by (nonlinear_arith);
    }
    lemma_whole_bound(&sa.bank1, m, xs, ys, o, c, n, count);
    let (d, r0, rest) = (apart(m, x, y), rows_apart(m, p.s0@, q.s0@), summed(part, count));
    let (l, r) = (n * r0, o * d);
    assert(n * l <= n * r) by (nonlinear_arith)
        requires
            l <= r,
            n >= 0real,
    ;
    assert(n * (n * r0) == (n * n) * r0) by (nonlinear_arith);
    assert(n * (o * d) == o * (n * d)) by (nonlinear_arith);
    assert((n * n) * (r0 + rest) == (n * n) * r0 + (n * n) * rest) by (nonlinear_arith);
    lemma_back(n, r0 + rest, d);
}

/// Complex values add and scale part by part, and a norm is the distance from the origin.
pub proof fn law_norm_is_the_distance_from_zero<R: Copy, A: Arithmetic<R>>(
    a: &A,
    m: Meaning<R>,
    z: Complex<R>,
    other: Complex<R>,
    s: R,
    large: Complex<R>,
    both: Complex<R>,
    r: R,
)
    requires
        faithful(a, m),
        faithful_distances(a, m),
        call_ensures(Complex::<R>::scale::<A>, (z, a, s), large),
        call_ensures(Complex::<R>::plus::<A>, (z, a, other), both),
        call_ensures(Complex::<R>::norm::<A>, (z, a), r),
    ensures
        m.of(large.re) == m.of(z.re) * m.of(s),
        m.of(large.im) == m.of(z.im) * m.of(s),
        m.of(both.re) == m.of(z.re) + m.of(other.re),
        m.of(both.im) == m.of(z.im) + m.of(other.im),
        m.of(r) >= 0real,
        m.of(r) * m.of(r) == m.of(z.re) * m.of(z.re) + m.of(z.im) * m.of(z.im),
{
    reveal(faithful);
    assert(r == modulus(a, z));
    reveal(faithful_distances);
}

/// The envelope of a signal is how far each sample is from the origin, on the real axis;
/// and the real parts of a signal are those of its samples.
pub proof fn law_envelopes_are_distances<R: Copy, A: Arithmetic<R>>(
    a: &A,
    m: Meaning<R>,
    xs: &[Complex<R>],
    out: Vec<Complex<R>>,
    parts: Vec<R>,
    i: int,
)
    requires
        faithful(a, m),
        faithful_distances(a, m),
        call_ensures(take_envelope::<R, A>, (a, xs), out),
        call_ensures(take_real_parts::<R>, (xs,), parts),
        0 <= i < xs@.len(),
    ensures
        out@.len() == xs@.len(),
        m.of(out@[i].im) == 0real,
        m.of(out@[i].re) >= 0real,
        m.of(out@[i].re) * m.of(out@[i].re) == m.of(xs@[i].re) * m.of(xs@[i].re) + m.of(xs@[i].im)
            * m.of(xs@[i].im),
        parts@.len() == xs@.len(),
        parts@[i] == xs@[i].re,
{
    assert(out@[i].re == modulus(a, xs@[i]));
    assert(m.of(num(a, 0)) == 0real) by {
        reveal(faithful);
    }
    reveal(faithful_distances);
}

} // verus!
