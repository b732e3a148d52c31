//! From an amplitude-modulated block to the depth that is read of it.
//!
//! Such a block is a carrier and two sidebands. A band that passes all three alike
//! has an envelope of a constant and one line on either side of it; one that does not
//! comes as close to that as its gains are to each other.

use vstd::prelude::*;

use crate::arithmetic::{fraction, magnitude, num, product, Arithmetic};
use crate::complex::{envelope, modulus, on_axis, scaled, scaled_all, turned, zero, Complex};
use crate::distance::{
    apart, averages_passively, faithful_distances, gap, lemma_cancel, lemma_decimated_apart,
    lemma_envelope_apart, lemma_forward_apart, lemma_inverse_apart, lemma_square,
    lemma_summed_added, lemma_summed_at_most, lemma_summed_scaled, lemma_weighed_passively, passive,
    summed, weighed,
};
use crate::exact::{exact, exact_sizes, lemma_fraction, lemma_modulus, lemma_zero, rate_gain};
use crate::fft::{decimated, decimation_source, inverted, transformed, Direction, Engine};
use crate::laws::law_extraction_shifts_bins;
use crate::leakage::{
    constant, holds_modulation, is_modulated, kept, law_modulation_depth_is_recovered,
    law_second_order_peaks_at_the_rate, leakage, leaks_at_most, lemma_answer, only, outdoes,
    real_fourier, sideline,
};
use crate::pairs::keeps_up;
use crate::phasors::{
    above, alike, circular, lemma_envelope_of_sidebands, lemma_gather_sidebands, lemma_scaled,
    lemma_spin, lemma_spread_lines, lemma_swing_positive, lemma_swung, lemma_swung_size,
    lemma_turned, lines, real_phasors, same, sidebands, swing, under,
};
use crate::planes::{
    lemma_exchange, lemma_group, lemma_square_of_difference, lemma_square_of_sum, lemma_squares,
};
use crate::powers::lemma_divides;
use crate::reals::{faithful, lemma_fraction_value, Meaning};
use crate::runs::lemma_envelope_length;
use crate::shift::{unity, Roots};
use crate::transform::{
    band_source, extracted, lemma_reach, peak_index, Band, Geometry, Scattergram,
};

verus! {

/// A sum of which only two terms may be other than zero.
proof fn lemma_two(n: int, i: int, j: int, x: real, y: real)
    requires
        0 <= i,
        0 <= j,
        i != j,
    ensures
        summed(
            |q: int|
                if q == i {
                    x
                } else if q == j {
                    y
                } else {
                    0real
                },
            n,
        ) == (if i < n {
            x
        } else {
            0real
        }) + (if j < n {
            y
        } else {
            0real
        }),
    decreases n,
{
    if n > 0 {
        lemma_two(n - 1, i, j, x, y);
    }
}

/// Whether a band of an `n`-point spectrum holds, about its bin `p`, a carrier in bin
/// `c` and its sidebands `k` bins above and below.
pub open spec fn takes_in_all(n: int, band: Band, p: int, c: int, k: int) -> bool {
    let (centre, len) = (band.centre_bin as int, band.len as int);
    &&& 0 <= p < len
    &&& 2 * k < len
    &&& band_source(n, centre, len, p) == c
    &&& band_source(n, centre, len, above(len, p, k)) == above(n, c, k)
    &&& band_source(n, centre, len, under(len, p, k)) == under(n, c, k)
}

/// How unevenly a filter passes a carrier in bin `c` and its sidebands: the sum of the
/// squares of what the gains differ by.
pub open spec fn unevenness<R>(m: Meaning<R>, psi: Seq<R>, c: int, k: int) -> real {
    let n = psi.len() as int;
    let (high, low) = (
        m.of(psi[above(n, c, k)]) - m.of(psi[c]),
        m.of(psi[under(n, c, k)]) - m.of(psi[c]),
    );
    high * high + low * low
}

/// What a band holds of a carrier, before the two sidebands are passed any differently.
pub open spec fn held<R, A: Arithmetic<R>>(
    a: &A,
    n: int,
    psi: Seq<R>,
    band: Band,
    c: int,
    v: Complex<R>,
) -> Complex<R> {
    scaled(
        a,
        scaled(a, scaled(a, v, num(a, n as u64)), psi[c]),
        fraction(a, band.len as u64, n as u64),
    )
}

/// How far one part of a sideband is from what it would be at the carrier's gain.
proof fn lemma_part_off(x: real, h: real, n: real, g: real, c: real, s: real)
    ensures
        (((x * h) * n) * g) * s - (((x * n) * c) * s) * h == x * ((h * (n * s)) * (g - c)),
{
    let b = h * (n * s);
    lemma_group(x, h, n);
    lemma_group(x, h * n, g);
    lemma_group(x, (h * n) * g, s);
    lemma_exchange(h * n, g, s);
    lemma_group(h, n, s);
    assert((((x * h) * n) * g) * s == x * (b * g));
    lemma_group(x, n, c);
    lemma_group(x, n * c, s);
    lemma_group(x, (n * c) * s, h);
    lemma_exchange(n, c, s);
    lemma_exchange(n * s, c, h);
    assert((n * s) * h == h * (n * s)) by (nonlinear_arith);
    assert((((x * n) * c) * s) * h == x * (b * c));
    assert(b * (g - c) == b * g - b * c) by (nonlinear_arith);
    let (p, q) = (b * g, b * c);
    assert(x * (p - q) == x * p - x * q) by (nonlinear_arith);
}

/// How far a sideband is from what it would be at the carrier's gain.
proof fn lemma_sideband_off<R, A: Arithmetic<R>>(
    a: &A,
    m: Meaning<R>,
    n: int,
    psi: Seq<R>,
    band: Band,
    c: int,
    j: int,
    v: Complex<R>,
    half: R,
    y: Complex<R>,
)
    requires
        faithful(a, m),
        faithful_distances(a, m),
        0 < n <= usize::MAX,
        alike(m, y, scaled(a, scaled(a, v, half), num(a, n as u64))),
    ensures
        ({
            let e = scaled(a, scaled(a, y, psi[j]), fraction(a, band.len as u64, n as u64));
            let w = (m.of(half) * (band.len as real)) * (m.of(psi[j]) - m.of(psi[c]));
            let size = m.of(modulus(a, v));
            gap(m, e, scaled(a, held(a, n, psi, band, c, v), half)) == (size * size) * (w * w)
        }),
{
    let s = fraction(a, band.len as u64, n as u64);
    let count = num(a, n as u64);
    let e = scaled(a, scaled(a, y, psi[j]), s);
    let z = held(a, n, psi, band, c, v);
    lemma_fraction_value(a, m, band.len as u64, n as u64);
    assert(m.of(count) == n as real) by {
        reveal(faithful);
    }
    lemma_scaled(a, m, v, half);
    lemma_scaled(a, m, scaled(a, v, half), count);
    lemma_scaled(a, m, y, psi[j]);
    lemma_scaled(a, m, scaled(a, y, psi[j]), s);
    lemma_scaled(a, m, v, count);
    lemma_scaled(a, m, scaled(a, v, count), psi[c]);
    lemma_scaled(a, m, scaled(a, scaled(a, v, count), psi[c]), s);
    lemma_scaled(a, m, z, half);
    let (h, r, sv, g, gc) = (m.of(half), n as real, m.of(s), m.of(psi[j]), m.of(psi[c]));
    let (x, y2) = (m.of(v.re), m.of(v.im));
    lemma_part_off(x, h, r, g, gc, sv);
    lemma_part_off(y2, h, r, g, gc, sv);
    assert(r * sv == sv * r) by (nonlinear_arith);
    let w = (h * (band.len as real)) * (g - gc);
    lemma_squares(x, w);
    lemma_squares(y2, w);
    let size = m.of(modulus(a, v));
    assert(size * size == x * x + y2 * y2) by {
        reveal(faithful_distances);
    }
    let (xx, yy, ww) = (x * x, y2 * y2, w * w);
    assert((xx + yy) * ww == xx * ww + yy * ww) by (nonlinear_arith);
    let target = scaled(a, z, half);
    assert(m.of(e.re) - m.of(target.re) == x * w);
    assert(m.of(e.im) - m.of(target.im) == y2 * w);
}

/// How far what a band extracts of a carrier and its sidebands is from what it would
/// extract if it passed all three alike.
proof fn lemma_uneven<R: Copy, A: Arithmetic<R>>(
    a: &A,
    m: Meaning<R>,
    spectrum: Seq<Complex<R>>,
    psi: Seq<R>,
    band: Band,
    p: int,
    c: int,
    k: int,
    v: Complex<R>,
    half: R,
)
    requires
        exact(a),
        faithful(a, m),
        faithful_distances(a, m),
        spectrum.len() == psi.len(),
        0 < spectrum.len() <= usize::MAX,
        1 <= band.len <= spectrum.len(),
        0 <= c < psi.len(),
        0 < k,
        takes_in_all(psi.len() as int, band, p, c, k),
        same(
            m,
            spectrum,
            lines(
                a,
                psi.len() as int,
                c,
                k,
                scaled(a, v, num(a, psi.len() as u64)),
                scaled(a, scaled(a, v, half), num(a, psi.len() as u64)),
            ),
        ),
    ensures
        ({
            let z = held(a, psi.len() as int, psi, band, c, v);
            let q = (m.of(modulus(a, v)) * m.of(half)) * (band.len as real);
            apart(
                m,
                extracted(a, spectrum, psi, band),
                lines(a, band.len as int, p, k, z, scaled(a, z, half)),
            ) <= (q * q) * unevenness(m, psi, c, k)
        }),
{
    let n = psi.len() as int;
    let (len, centre) = (band.len as int, band.centre_bin as int);
    let z = held(a, n, psi, band, c, v);
    let e = extracted(a, spectrum, psi, band);
    let ideal = lines(a, len, p, k, z, scaled(a, z, half));
    let count = num(a, n as u64);
    let big = lines(
        a,
        n,
        c,
        k,
        scaled(a, v, count),
        scaled(a, scaled(a, v, half), count),
    );
    let (i, j) = (above(len, p, k), under(len, p, k));
    let (up, down) = (above(n, c, k), under(n, c, k));
    let size = m.of(modulus(a, v));
    let b = m.of(half) * (band.len as real);
    let (dx, dy) = (m.of(psi[up]) - m.of(psi[c]), m.of(psi[down]) - m.of(psi[c]));
    let (x, y) = (
        (size * size) * ((b * dx) * (b * dx)),
        (size * size) * ((b * dy) * (b * dy)),
    );
    let f = |q: int| gap(m, e[q], ideal[q]);
    let g = |q: int|
        if q == i {
            x
        } else if q == j {
            y
        } else {
            0real
        };
    let s = fraction(a, len as u64, n as u64);
    assert forall|q: int| 0 <= q < len implies #[trigger] f(q) <= g(q) by {
        let at = band_source(n, centre, len, q);
        law_extraction_shifts_bins(n, centre, len, q, p);
        law_extraction_shifts_bins(n, centre, len, q, i);
        law_extraction_shifts_bins(n, centre, len, q, j);
        assert(alike(m, spectrum[at], big[at]));
        assert(e[q] == scaled(a, scaled(a, spectrum[at], psi[at]), s));
        if q == i {
            lemma_sideband_off(a, m, n, psi, band, c, up, v, half, spectrum[at]);
        } else if q == j {
            lemma_sideband_off(a, m, n, psi, band, c, down, v, half, spectrum[at]);
        } else {
            let other = scaled(a, scaled(a, big[at], psi[at]), s);
            lemma_scaled(a, m, spectrum[at], psi[at]);
            lemma_scaled(a, m, big[at], psi[at]);
            lemma_scaled(a, m, scaled(a, spectrum[at], psi[at]), s);
            lemma_scaled(a, m, scaled(a, big[at], psi[at]), s);
            if q != p {
                lemma_zero(a);
            }
            assert(other == ideal[q]);
            assert(alike(m, e[q], ideal[q]));
            lemma_alike_gap(m, e[q], ideal[q]);
        }
    }
    lemma_summed_at_most(f, g, len);
    lemma_two(len, i, j, x, y);
    // Both terms, in the amplitude of the sidebands.
    lemma_gather_square(size, b, dx);
    lemma_gather_square(size, b, dy);
    let q = (size * m.of(half)) * (band.len as real);
    assert(size * (m.of(half) * (band.len as real)) == q) by {
        let (h, l) = (m.of(half), band.len as real);
        assert(size * (h * l) == (size * h) * l) by (nonlinear_arith);
    }
    let (qq, u, w) = (q * q, dx * dx, dy * dy);
    assert(qq * (u + w) == qq * u + qq * w) by (nonlinear_arith);
}

proof fn lemma_gather_square(size: real, b: real, d: real)
    ensures
        (size * size) * ((b * d) * (b * d)) == ((size * b) * (size * b)) * (d * d),
{
    lemma_squares(size, b * d);
    assert(size * (b * d) == (size * b) * d) by (nonlinear_arith);
    lemma_squares(size * b, d);
}

proof fn lemma_alike_gap<R>(m: Meaning<R>, u: Complex<R>, v: Complex<R>)
    requires
        alike(m, u, v),
    ensures
        gap(m, u, v) == 0real,
{
    assert(0real * 0real == 0real) by (nonlinear_arith);
    assert(m.of(u.re) - m.of(v.re) == 0real);
    assert(m.of(u.im) - m.of(v.im) == 0real);
}

/// What is apart from a buffer is as far apart from one that stands for the same.
proof fn lemma_apart_from_same<R>(
    m: Meaning<R>,
    x: Seq<Complex<R>>,
    y: Seq<Complex<R>>,
    z: Seq<Complex<R>>,
)
    requires
        x.len() == y.len(),
        same(m, y, z),
    ensures
        apart(m, x, z) <= apart(m, x, y),
{
    let f = |t: int| gap(m, x[t], z[t]);
    let g = |t: int| gap(m, x[t], y[t]);
    assert forall|t: int| 0 <= t < x.len() implies #[trigger] f(t) <= g(t) by {
        assert(alike(m, y[t], z[t]));
    }
    lemma_summed_at_most(f, g, x.len() as int);
}

/// Decimation keeps lines near DC.
proof fn lemma_decimated_lines<R, A: Arithmetic<R>>(
    a: &A,
    m: Meaning<R>,
    y: Seq<Complex<R>>,
    k: int,
    z: Complex<R>,
    s: Complex<R>,
    d: int,
    short: int,
    z2: Complex<R>,
    s2: Complex<R>,
)
    requires
        faithful(a, m),
        d >= 1,
        0 < k,
        2 * k < short,
        y.len() == short * d,
        y.len() <= usize::MAX,
        same(m, y, lines(a, y.len() as int, 0, k, z, s)),
        m.of(z.re) == m.of(z2.re) * (d as real),
        m.of(z.im) == m.of(z2.im) * (d as real),
        m.of(s.re) == m.of(s2.re) * (d as real),
        m.of(s.im) == m.of(s2.im) * (d as real),
    ensures
        same(m, decimated(a, y, d), lines(a, short, 0, k, z2, s2)),
{
    let n = y.len() as int;
    let (long, made) = (lines(a, n, 0, k, z, s), lines(a, short, 0, k, z2, s2));
    vstd::arithmetic::div_mod::lemma_fundamental_div_mod_converse(n, d, short, 0);
    let x = decimated(a, y, d);
    let r = d as real;
    if d == 1 {
        assert forall|q: int| 0 <= q < short implies #[trigger] alike(m, x[q], made[q]) by {
            assert(alike(m, y[q], long[q]));
            let (u, v) = (made[q].re, made[q].im);
            assert(m.of(u) * 1real == m.of(u) && m.of(v) * 1real == m.of(v)) by {
                let (p, q) = (m.of(u), m.of(v));
                assert(p * 1real == p && q * 1real == q) by (nonlinear_arith);
            }
        }
    } else {
        assert(2 * short <= n && d <= n) by (nonlinear_arith)
            requires
                n == short * d,
                d >= 2,
                short >= 1,
        ;
        let f = fraction(a, 1, d as u64);
        lemma_fraction_value(a, m, 1, d as u64);
        assert(m.of(num(a, 0)) == 0real) by {
            reveal(faithful);
        }
        assert forall|q: int| 0 <= q < short implies #[trigger] alike(m, x[q], made[q]) by {
            let j = decimation_source(n, d, q);
            assert(alike(m, y[j], long[j]));
            lemma_scaled(a, m, y[j], f);
            let fv = m.of(f);
            let (u, v) = (m.of(made[q].re), m.of(made[q].im));
            assert((u * r) * fv == u * (fv * r)) by (nonlinear_arith);
            assert((v * r) * fv == v * (fv * r)) by (nonlinear_arith);
            assert(u * 1real == u && v * 1real == v && 0real * fv == 0real && 0real * r == 0real)
                by (nonlinear_arith);
            assert(m.of(long[j].re) == u * r);
            assert(m.of(long[j].im) == v * r);
        }
    }
}

/// Half of a modulation depth.
pub open spec fn half_of<R, A: Arithmetic<R>>(a: &A, depth: R) -> R {
    product(a, depth, fraction(a, 1, 2))
}

/// The amplitude at which a carrier filter passes a carrier of the given amplitude in
/// bin `c`.
pub open spec fn passed<R, A: Arithmetic<R>>(a: &A, psi: Seq<R>, c: int, amplitude: R) -> R {
    product(a, amplitude, magnitude(a, psi[c]))
}

/// The line that a modulation puts into an envelope of `n` bins.
pub open spec fn line_of<R, A: Arithmetic<R>>(a: &A, n: int, amplitude: R, depth: R) -> Complex<
    R,
> {
    on_axis(a, product(a, sideline(a, amplitude, depth), num(a, n as u64)))
}

/// The spectrum of the envelope of a modulated carrier, and of nothing else.
pub open spec fn ideal_envelope<R: Copy, A: Arithmetic<R>>(
    sa: &Geometry<R>,
    a: &A,
    k: int,
    amplitude: R,
    depth: R,
) -> Seq<Complex<R>> {
    lines(
        a,
        sa.n1(),
        0,
        k,
        constant(sa, a, amplitude),
        line_of(a, sa.n1(), amplitude, depth),
    )
}

proof fn lemma_halves<R, A: Arithmetic<R>>(a: &A, m: Meaning<R>, amplitude: R, depth: R)
    requires
        faithful(a, m),
    ensures
        2real * m.of(half_of(a, depth)) == m.of(depth),
        m.of(sideline(a, amplitude, depth)) == m.of(amplitude) * m.of(half_of(a, depth)),
{
    lemma_fraction_value(a, m, 1, 2);
    let f = m.of(fraction(a, 1, 2));
    assert(m.of(half_of(a, depth)) == m.of(depth) * f && m.of(sideline(a, amplitude, depth)) == (
    m.of(amplitude) * m.of(depth)) * f) by {
        reveal(faithful);
    }
    let (x, d) = (m.of(amplitude), m.of(depth));
    assert((x * d) * f == x * (d * f)) by (nonlinear_arith);
    assert(2real * (d * f) == d * (f * 2real)) by (nonlinear_arith);
    assert(d * 1real == d) by (nonlinear_arith);
}

/// How large what a band holds of a carrier is, to its length.
proof fn lemma_held<R, A: Arithmetic<R>>(
    a: &A,
    m: Meaning<R>,
    n: int,
    psi: Seq<R>,
    band: Band,
    c: int,
    v: Complex<R>,
    amplitude: R,
)
    requires
        exact(a),
        faithful(a, m),
        0 < n <= usize::MAX,
        band.len >= 1,
        modulus(a, v) == amplitude,
    ensures
        ({
            let z = held(a, n, psi, band, c, v);
            let f = fraction(a, 1, band.len as u64);
            m.of(product(a, modulus(a, z), f)) == m.of(passed(a, psi, c, amplitude))
        }),
{
    let count = num(a, n as u64);
    let s = fraction(a, band.len as u64, n as u64);
    let f = fraction(a, 1, band.len as u64);
    let z = held(a, n, psi, band, c, v);
    lemma_modulus(a, v, count);
    lemma_modulus(a, scaled(a, v, count), psi[c]);
    lemma_modulus(a, scaled(a, scaled(a, v, count), psi[c]), s);
    lemma_fraction(a, band.len as u64, n as u64);
    assert(magnitude(a, count) == count) by {
        reveal(exact_sizes);
    }
    lemma_fraction_value(a, m, band.len as u64, n as u64);
    lemma_fraction_value(a, m, 1, band.len as u64);
    let (x, r, g, sv, fv, l) = (
        m.of(amplitude),
        n as real,
        m.of(magnitude(a, psi[c])),
        m.of(s),
        m.of(f),
        band.len as real,
    );
    assert(m.of(product(a, modulus(a, z), f)) == (((x * r) * g) * sv) * fv && m.of(
        passed(a, psi, c, amplitude),
    ) == x * g) by {
        reveal(faithful);
    }
    let y = x * g;
    lemma_exchange(x, r, g);
    lemma_group(y, r, sv);
    lemma_group(y, r * sv, fv);
    assert(r * sv == sv * r) by (nonlinear_arith);
    assert(l * fv == fv * l) by (nonlinear_arith);
    assert(y * 1real == y) by (nonlinear_arith);
}

/// How far the envelope of a band is from that of a carrier whose sidebands are passed
/// as it is.
proof fn lemma_near<R: Copy, P, A: Arithmetic<R>, E: Engine<R, P>>(
    sa: &Geometry<R>,
    a: &A,
    engine: &E,
    m: Meaning<R>,
    roots: Roots<R>,
    i1: int,
    p: int,
    c: int,
    k: int,
    v: Complex<R>,
    amplitude: R,
    depth: R,
    spectrum: Seq<Complex<R>>,
    u1: Seq<Complex<R>>,
)
    requires
        sa.wf(),
        0 <= i1 < sa.bank1.wavelets@.len(),
        real_phasors::<R, P, A, E>(a, engine, m, roots),
        modulus(a, v) == amplitude,
        0real <= m.of(depth) <= 1real,
        0 <= c < sa.n,
        0 < k,
        2 * k < sa.n1(),
        takes_in_all(sa.n as int, sa.bands1@[i1], p, c, k),
        spectrum.len() == sa.n,
        same(
            m,
            spectrum,
            lines(
                a,
                sa.n as int,
                c,
                k,
                scaled(a, v, num(a, sa.n as u64)),
                scaled(a, scaled(a, v, half_of(a, depth)), num(a, sa.n as u64)),
            ),
        ),
        sa.band_envelope::<P, A, E>(a, engine, i1, spectrum, u1),
    ensures
        u1.len() == sa.n1(),
        ({
            let psi = sa.bank1.wavelets@[i1].spectrum@;
            let q = (m.of(amplitude) * m.of(half_of(a, depth))) * (sa.n1() as real);
            apart(m, u1, ideal_envelope(sa, a, k, passed(a, psi, c, amplitude), depth)) <= (q * q)
                * unevenness(m, psi, c, k)
        }),
{
    sa.lemma_grids();
    let n = sa.n as int;
    let band = sa.bands1@[i1];
    let psi = sa.bank1.wavelets@[i1].spectrum@;
    let half = half_of(a, depth);
    let (len, short) = (band.len as int, sa.n1());
    lemma_reach(len, short);
    lemma_divides(short, len);
    let d = len / short;
    lemma_envelope_length::<R, P, A, E>(sa, a, engine, i1, spectrum, u1);
    let e = extracted(a, spectrum, psi, band);
    let (sub, env) = choose|sub: Seq<Complex<R>>, env: Seq<Complex<R>>|
        {
            &&& #[trigger] inverted::<R, P, A, E>(a, engine, e, sub)
            &&& #[trigger] transformed::<R, P, E>(
                engine,
                Direction::Forward,
                envelope(a, sub),
                env,
            )
            &&& u1 == decimated(a, env, d)
        };
    lemma_halves(a, m, amplitude, depth);
    // The same, with all three passed alike.
    let z = held(a, n, psi, band, c, v);
    let e2 = lines(a, len, p, k, z, scaled(a, z, half));
    let w = lemma_answer::<R, P, E>(engine, Direction::Inverse, e2);
    lemma_spread_lines::<R, P, A, E>(a, engine, m, roots, len, p, k, z, scaled(a, z, half), w);
    lemma_envelope_of_sidebands(a, m, roots, len, p, k, z, half, w);
    let f = fraction(a, 1, len as u64);
    let sub2 = scaled_all(a, w, f);
    assert(inverted::<R, P, A, E>(a, engine, e2, sub2));
    let level = on_axis(a, product(a, modulus(a, z), f));
    let env2 = lemma_answer::<R, P, E>(engine, Direction::Forward, envelope(a, sub2));
    let side = scaled(a, level, half);
    lemma_gather_sidebands::<R, P, A, E>(
        a,
        engine,
        m,
        roots,
        len,
        0,
        k,
        level,
        side,
        envelope(a, sub2),
        env2,
    );
    let amp = passed(a, psi, c, amplitude);
    lemma_held(a, m, n, psi, band, c, v, amplitude);
    let count = num(a, len as u64);
    let (big, line) = (scaled(a, level, count), scaled(a, side, count));
    let (dc, one) = (constant(sa, a, amp), line_of(a, short, amp, depth));
    lemma_levels(a, m, level, half, len, short, d, amp, depth, dc, one);
    assert(len == short * d);
    lemma_decimated_lines(a, m, env2, k, big, line, d, short, dc, one);
    let u2 = decimated(a, env2, d);
    let ideal = ideal_envelope(sa, a, k, amp, depth);
    // How far apart the two are, stage by stage.
    lemma_uneven(a, m, spectrum, psi, band, p, c, k, v, half);
    lemma_inverse_apart::<R, P, A, E>(a, engine, m, e, sub, e2, sub2);
    assert(sub.len() == len && sub2.len() == len);
    lemma_envelope_apart(a, m, sub, sub2);
    let (ax, ay) = (envelope(a, sub), envelope(a, sub2));
    lemma_forward_apart::<R, P, E>(engine, m, Direction::Forward, ax, env, ay, env2);
    assert(env.len() == len && env2.len() == len);
    lemma_decimated_apart(a, m, env, env2, d);
    lemma_apart_from_same(m, u1, u2, ideal);
    let (lr, sr, dr) = (len as real, short as real, d as real);
    assert(lr == sr * dr) by (nonlinear_arith)
        requires
            len == short * d,
            lr == len as real,
            sr == short as real,
            dr == d as real,
    ;
    lemma_stages(
        lr,
        sr,
        dr,
        m.of(amplitude) * m.of(half),
        unevenness(m, psi, c, k),
        apart(m, e, e2),
        apart(m, sub, sub2),
        apart(m, ax, ay),
        apart(m, env, env2),
        apart(m, u1, u2),
    );
}

/// What the lines of the ideal envelope are, before and after decimation.
proof fn lemma_levels<R, A: Arithmetic<R>>(
    a: &A,
    m: Meaning<R>,
    level: Complex<R>,
    half: R,
    len: int,
    short: int,
    d: int,
    amp: R,
    depth: R,
    dc: Complex<R>,
    one: Complex<R>,
)
    requires
        faithful(a, m),
        0 < len <= usize::MAX,
        0 < short,
        0 < d,
        len == short * d,
        level == on_axis(a, level.re),
        m.of(level.re) == m.of(amp),
        half == half_of(a, depth),
        dc == on_axis(a, product(a, amp, num(a, short as u64))),
        one == line_of(a, short, amp, depth),
    ensures
        ({
            let (big, line) = (
                scaled(a, level, num(a, len as u64)),
                scaled(a, scaled(a, level, half), num(a, len as u64)),
            );
            &&& m.of(big.re) == m.of(dc.re) * (d as real)
            &&& m.of(big.im) == m.of(dc.im) * (d as real)
            &&& m.of(line.re) == m.of(one.re) * (d as real)
            &&& m.of(line.im) == m.of(one.im) * (d as real)
        }),
{
    assert(short <= len) by (nonlinear_arith)
        requires
            len == short * d,
            short > 0,
            d > 0,
    ;
    lemma_halves(a, m, amp, depth);
    let count = num(a, len as u64);
    lemma_scaled(a, m, level, count);
    lemma_scaled(a, m, level, half);
    lemma_scaled(a, m, scaled(a, level, half), count);
    let (x, h, l, s, r) = (m.of(amp), m.of(half), len as real, short as real, d as real);
    assert(l == s * r) by (nonlinear_arith)
        requires
            len == short * d,
            l == len as real,
            s == short as real,
            r == d as real,
    ;
    assert(m.of(count) == l && m.of(num(a, short as u64)) == s && m.of(num(a, 0)) == 0real
        && m.of(dc.re) == x * s && m.of(one.re) == (x * h) * s) by {
        reveal(faithful);
        assert(m.of(num(a, 0)) == 0real);
    }
    assert(x * (s * r) == (x * s) * r) by (nonlinear_arith);
    let y = x * h;
    assert(y * (s * r) == (y * s) * r) by (nonlinear_arith);
    assert(0real * l == 0real && 0real * h == 0real && 0real * r == 0real) by (nonlinear_arith);
}

/// What the factors of the stages come to.
proof fn lemma_stages(
    len: real,
    short: real,
    d: real,
    q: real,
    uneven: real,
    e: real,
    sub: real,
    env: real,
    long: real,
    last: real,
)
    requires
        len >= 1real,
        d >= 1real,
        len == short * d,
        e <= ((q * len) * (q * len)) * uneven,
        len * sub == e,
        env <= sub,
        long == len * env,
        (d * d) * last <= long,
    ensures
        last <= ((q * short) * (q * short)) * uneven,
{
    assert(len * env <= len * sub) by (nonlinear_arith)
        requires
            env <= sub,
            len >= 1real,
    ;
    let qs = q * short;
    assert(q * (short * d) == (q * short) * d) by (nonlinear_arith);
    lemma_squares(qs, d);
    let (a, b) = (qs * qs, d * d);
    assert((a * b) * uneven == b * (a * uneven)) by (nonlinear_arith);
    assert(b >= 1real) by (nonlinear_arith)
        requires
            b == d * d,
            d >= 1real,
    ;
    lemma_cancel(b, last, a * uneven);
}

// What modulation filters and the averaging kernel let through of it.

/// Two steps take no more than twice the squares of both.
proof fn lemma_two_steps(x: real, y: real, z: real)
    ensures
        (x - z) * (x - z) <= 2real * ((x - y) * (x - y)) + 2real * ((y - z) * (y - z)),
{
    let (s, t) = (x - y, y - z);
    lemma_square(s - t);
    lemma_square_of_sum(s, t);
    lemma_square_of_difference(s, t);
    assert(x - z == s + t);
}

proof fn lemma_between<R>(
    m: Meaning<R>,
    psi: Seq<R>,
    x: Seq<Complex<R>>,
    y: Seq<Complex<R>>,
    z: Seq<Complex<R>>,
)
    requires
        x.len() == y.len() == z.len(),
    ensures
        weighed(m, psi, x, z) <= 2real * weighed(m, psi, x, y) + 2real * weighed(m, psi, y, z),
{
    let n = x.len() as int;
    let f = |j: int| (m.of(psi[j]) * m.of(psi[j])) * gap(m, x[j], z[j]);
    let g = |j: int| (m.of(psi[j]) * m.of(psi[j])) * gap(m, x[j], y[j]);
    let h = |j: int| (m.of(psi[j]) * m.of(psi[j])) * gap(m, y[j], z[j]);
    let g2 = |j: int| 2real * g(j);
    let h2 = |j: int| 2real * h(j);
    let both = |j: int| g2(j) + h2(j);
    assert forall|j: int| 0 <= j < n implies #[trigger] f(j) <= both(j) by {
        lemma_two_steps(m.of(x[j].re), m.of(y[j].re), m.of(z[j].re));
        lemma_two_steps(m.of(x[j].im), m.of(y[j].im), m.of(z[j].im));
        lemma_square(m.of(psi[j]));
        let c = m.of(psi[j]) * m.of(psi[j]);
        let (u, v, w) = (gap(m, x[j], z[j]), gap(m, x[j], y[j]), gap(m, y[j], z[j]));
        let t = 2real * v + 2real * w;
        assert(c * u <= c * t) by (nonlinear_arith)
            requires
                u <= t,
                c >= 0real,
        ;
        assert(c * (2real * v + 2real * w) == 2real * (c * v) + 2real * (c * w))
            by (nonlinear_arith);
    }
    lemma_summed_at_most(f, both, n);
    lemma_summed_added(g2, h2, both, n);
    lemma_summed_scaled(g2, g, 2real, n);
    lemma_summed_scaled(h2, h, 2real, n);
}

/// What a filter lets through of the ideal envelope, beside one of its lines.
proof fn lemma_beside<R, A: Arithmetic<R>>(
    a: &A,
    m: Meaning<R>,
    psi: Seq<R>,
    n: int,
    k: int,
    z: Complex<R>,
    s: Complex<R>,
)
    requires
        0 < k,
        2 * k < n,
    ensures
        ({
            let x = lines(a, n, 0, k, z, s);
            let (g, h) = (gap(m, z, zero(a)), gap(m, s, zero(a)));
            let (p, q, r) = (m.of(psi[0]), m.of(psi[k]), m.of(psi[n - k]));
            &&& weighed(m, psi, x, only(a, n as nat, k, s)) <= (p * p) * g + (r * r) * h
            &&& weighed(m, psi, x, only(a, n as nat, 0, z)) <= (q * q) * h + (r * r) * h
        }),
{
    let x = lines(a, n, 0, k, z, s);
    let (y1, y2) = (only(a, n as nat, k, s), only(a, n as nat, 0, z));
    let (g, h) = (gap(m, z, zero(a)), gap(m, s, zero(a)));
    let (p, q, r) = (m.of(psi[0]), m.of(psi[k]), m.of(psi[n - k]));
    let (a0, a1, a2) = ((p * p) * g, (q * q) * h, (r * r) * h);
    let f1 = |j: int| (m.of(psi[j]) * m.of(psi[j])) * gap(m, x[j], y1[j]);
    let f2 = |j: int| (m.of(psi[j]) * m.of(psi[j])) * gap(m, x[j], y2[j]);
    let g1 = |j: int|
        if j == 0 {
            a0
        } else if j == n - k {
            a2
        } else {
            0real
        };
    let g2 = |j: int|
        if j == k {
            a1
        } else if j == n - k {
            a2
        } else {
            0real
        };
    assert forall|j: int| 0 <= j < n implies #[trigger] f1(j) <= g1(j) by {
        lemma_alike_gap(m, x[j], x[j]);
        let c = m.of(psi[j]) * m.of(psi[j]);
        assert(c * 0real == 0real) by (nonlinear_arith);
    }
    assert forall|j: int| 0 <= j < n implies #[trigger] f2(j) <= g2(j) by {
        lemma_alike_gap(m, x[j], x[j]);
        let c = m.of(psi[j]) * m.of(psi[j]);
        assert(c * 0real == 0real) by (nonlinear_arith);
    }
    lemma_summed_at_most(f1, g1, n);
    lemma_summed_at_most(f2, g2, n);
    lemma_two(n, 0, n - k, a0, a2);
    lemma_two(n, k, n - k, a1, a2);
}

/// The square of a value on the real axis.
proof fn lemma_axis_size<R, A: Arithmetic<R>>(a: &A, m: Meaning<R>, x: R)
    requires
        faithful(a, m),
    ensures
        gap(m, on_axis(a, x), zero(a)) == m.of(x) * m.of(x),
{
    assert(m.of(num(a, 0)) == 0real) by {
        reveal(faithful);
    }
    assert((0real - 0real) * (0real - 0real) == 0real) by (nonlinear_arith);
}

/// The sum of the squares of what an averaging kernel lets through of the envelope of
/// a modulated carrier, beside its mean, and of what the band has made of it.
pub open spec fn carrier_spill<R: Copy, A: Arithmetic<R>>(
    sa: &Geometry<R>,
    a: &A,
    m: Meaning<R>,
    i1: int,
    c: int,
    k: int,
    amplitude: R,
    depth: R,
) -> real {
    let psi = sa.bank1.wavelets@[i1].spectrum@;
    let phi = sa.phi(sa.n1());
    let half = m.of(half_of(a, depth));
    let side = m.of(amplitude) * half;
    let line = m.of(passed(a, psi, c, amplitude)) * half;
    let (p, q) = (m.of(phi[k]), m.of(phi[sa.n1() - k]));
    2real * ((side * side) * unevenness(m, psi, c, k)) + 2real * ((p * p) * (line * line) + (q * q)
        * (line * line))
}

/// The sum of the squares of what modulation filter `i` lets through of the envelope of
/// a modulated carrier, beside the line above its mean, and of what the band has made
/// of it: the mean itself, and the line below it.
pub open spec fn rate_spill<R: Copy, A: Arithmetic<R>>(
    sa: &Geometry<R>,
    a: &A,
    m: Meaning<R>,
    i1: int,
    i: int,
    c: int,
    k: int,
    amplitude: R,
    depth: R,
) -> real {
    let psi = sa.bank1.wavelets@[i1].spectrum@;
    let rate = sa.bank2.wavelets@[i].spectrum@;
    let half = m.of(half_of(a, depth));
    let side = m.of(amplitude) * half;
    let mean = m.of(passed(a, psi, c, amplitude));
    let line = mean * half;
    let (p, q) = (m.of(rate[0]), m.of(rate[sa.n1() - k]));
    2real * ((side * side) * unevenness(m, psi, c, k)) + 2real * ((p * p) * (mean * mean) + (q * q)
        * (line * line))
}

/// Whether so little is spilt that the mean of the first order is off by at most
/// `blur`, and that of the second order at modulation filter `i` by at most `off(i)`.
pub open spec fn spills_at_most<R: Copy, A: Arithmetic<R>>(
    sa: &Geometry<R>,
    a: &A,
    m: Meaning<R>,
    out: &Scattergram<R>,
    i1: int,
    c: int,
    k: int,
    amplitude: R,
    depth: R,
    blur: real,
    off: spec_fn(int) -> real,
) -> bool {
    let (count, rate) = (kept(a, out) as real, sa.n_out as real);
    &&& blur >= 0real
    &&& rate * carrier_spill(sa, a, m, i1, c, k, amplitude, depth) <= count * (blur * blur)
    &&& forall|i: int|
        0 <= i < sa.bank2.wavelets@.len() && keeps_up(sa, m, i1, i) ==> #[trigger] off(i) >= 0real
            && rate * rate_spill(sa, a, m, i1, i, c, k, amplitude, depth) <= count * (off(i) * off(
            i,
        ))
}

/// From parts in bins to parts of one.
proof fn lemma_spill(
    n: real,
    out: real,
    count: real,
    side: real,
    uneven: real,
    x: real,
    y: real,
    leak: real,
    near: real,
    beside: real,
    off: real,
    xs: real,
    ys: real,
    p: real,
    q: real,
)
    requires
        out >= 0real,
        leak <= 2real * near + 2real * beside,
        near <= ((side * n) * (side * n)) * uneven,
        beside <= (p * p) * (xs * xs) + (q * q) * (ys * ys),
        xs == x * n,
        ys == y * n,
        out * (2real * ((side * side) * uneven) + 2real * ((p * p) * (x * x) + (q * q) * (y * y)))
            <= count * (off * off),
    ensures
        out * leak <= ((n * n) * count) * (off * off),
{
    let (nn, pp, qq, xx, yy, ss, oo) = (
        n * n,
        p * p,
        q * q,
        x * x,
        y * y,
        side * side,
        off * off,
    );
    lemma_squares(side, n);
    lemma_squares(x, n);
    lemma_squares(y, n);
    assert((ss * nn) * uneven == nn * (ss * uneven)) by (nonlinear_arith);
    assert(pp * (xx * nn) == nn * (pp * xx)) by (nonlinear_arith);
    assert(qq * (yy * nn) == nn * (qq * yy)) by (nonlinear_arith);
    let (u, v, w) = (ss * uneven, pp * xx, qq * yy);
    let t = 2real * u + 2real * (v + w);
    assert(nn * (2real * u + 2real * (v + w)) == 2real * (nn * u) + 2real * (nn * v + nn * w))
        by (nonlinear_arith);
    let nt = nn * t;
    assert(leak <= nt);
    assert(out * leak <= out * nt) by (nonlinear_arith)
        requires
            leak <= nt,
            out >= 0real,
    ;
    assert(out * (nn * t) == nn * (out * t)) by (nonlinear_arith);
    lemma_square(n);
    let (l, r) = (out * t, count * oo);
    assert(nn * l <= nn * r) by (nonlinear_arith)
        requires
            l <= r,
            nn >= 0real,
    ;
    assert(nn * (count * oo) == (nn * count) * oo) by (nonlinear_arith);
}

/// Whether `x` is a carrier of the given amplitude in bin `c`, starting at `v`,
/// modulated in amplitude to the given depth at the rate of bin `k`.
pub open spec fn is_am<R, A: Arithmetic<R>>(
    a: &A,
    m: Meaning<R>,
    roots: Roots<R>,
    x: Seq<Complex<R>>,
    c: int,
    k: int,
    v: Complex<R>,
    amplitude: R,
    depth: R,
) -> bool {
    &&& same(
        m,
        x,
        sidebands(a, roots, x.len() as int, c, k, v, scaled(a, v, half_of(a, depth))),
    )
    &&& modulus(a, v) == amplitude
    &&& magnitude(a, amplitude) == amplitude
    &&& magnitude(a, depth) == depth
    &&& 0real <= m.of(depth) <= 1real
}

/// An amplitude-modulated block is a carrier that swings with the modulation: at every
/// sample its distance from the origin is the amplitude times one plus the depth times
/// the cosine of the modulation.
pub proof fn law_modulated_blocks_swing<R, A: Arithmetic<R>>(
    a: &A,
    m: Meaning<R>,
    roots: Roots<R>,
    x: Seq<Complex<R>>,
    c: int,
    k: int,
    v: Complex<R>,
    amplitude: R,
    depth: R,
    t: int,
)
    requires
        faithful(a, m),
        faithful_distances(a, m),
        unity(a, roots),
        circular(m, roots),
        is_am(a, m, roots, x, c, k, v, amplitude, depth),
        0 <= t < x.len(),
    ensures
        m.of(modulus(a, x[t])) == m.of(amplitude) * (1real + m.of(depth) * m.of(
            roots.at(x.len() as int, k * t).re,
        )),
{
    let n = x.len() as int;
    let half = half_of(a, depth);
    lemma_halves(a, m, amplitude, depth);
    let trio = sidebands(a, roots, n, c, k, v, scaled(a, v, half));
    assert(alike(m, x[t], trio[t]));
    lemma_swung(a, m, roots, n, c, k, v, half, t);
    lemma_swing_positive(m, roots, n, k, half, t);
    let g = swing(m, roots, n, k, half, t);
    let pp = roots.at(n, c * t);
    let u = turned(a, v, pp);
    lemma_turned(a, m, v, pp);
    assert(m.of(pp.re) * m.of(pp.re) + m.of(pp.im) * m.of(pp.im) == 1real) by {
        reveal(circular);
    }
    lemma_spin(m.of(v.re), m.of(v.im), m.of(pp.re), m.of(pp.im));
    let (size, high) = (m.of(modulus(a, v)), m.of(modulus(a, x[t])));
    assert(size >= 0real && size * size == m.of(v.re) * m.of(v.re) + m.of(v.im) * m.of(v.im)
        && high >= 0real && high * high == m.of(x[t].re) * m.of(x[t].re) + m.of(x[t].im) * m.of(
        x[t].im,
    )) by {
        reveal(faithful_distances);
    }
    let (p, q) = (m.of(u.re), m.of(u.im));
    assert((p * g) * 1real == p * g && (q * g) * 1real == q * g && (size * 1real) * g == size * g)
        by (nonlinear_arith);
    lemma_swung_size(p, q, g, 1real, size, high);
    let (h, w) = (m.of(half), m.of(roots.at(n, k * t).re));
    assert(2real * (h * w) == (2real * h) * w) by (nonlinear_arith);
}

/// A band that takes in an amplitude-modulated carrier and both its sidebands has the
/// envelope of a modulated carrier, as far as it passes the three alike.
pub proof fn law_modulated_blocks_hold_modulation<R: Copy, P, A: Arithmetic<R>, E: Engine<R, P>>(
    sa: &Geometry<R>,
    a: &A,
    engine: &E,
    m: Meaning<R>,
    roots: Roots<R>,
    x: Seq<Complex<R>>,
    out: &Scattergram<R>,
    i1: int,
    p: int,
    c: int,
    k: int,
    v: Complex<R>,
    amplitude: R,
    depth: R,
    blur: real,
    off: spec_fn(int) -> real,
)
    requires
        sa.wf(),
        0 <= i1 < sa.bank1.wavelets@.len(),
        real_phasors::<R, P, A, E>(a, engine, m, roots),
        averages_passively(sa, m),
        forall|i: int|
            0 <= i < sa.bank2.wavelets@.len() ==> passive(
                m,
                (#[trigger] sa.bank2.wavelets@[i]).spectrum@,
            ),
        x.len() == sa.n,
        is_am(a, m, roots, x, c, k, v, amplitude, depth),
        0 <= c < sa.n,
        0 < k,
        2 * k < sa.n1(),
        takes_in_all(sa.n as int, sa.bands1@[i1], p, c, k),
        spills_at_most(sa, a, m, out, i1, c, k, amplitude, depth, blur, off),
    ensures
        ({
            let amp = passed(a, sa.bank1.wavelets@[i1].spectrum@, c, amplitude);
            holds_modulation::<R, P, A, E>(
                sa,
                a,
                engine,
                m,
                x,
                out,
                i1,
                k,
                line_of(a, sa.n1(), amp, depth),
                amp,
                depth,
                blur,
                off,
            )
        }),
{
    sa.lemma_grids();
    let n = sa.n as int;
    let n1 = sa.n1();
    let psi = sa.bank1.wavelets@[i1].spectrum@;
    let amp = passed(a, psi, c, amplitude);
    let half = half_of(a, depth);
    let (dc, one) = (constant(sa, a, amp), line_of(a, n1, amp, depth));
    let ideal = ideal_envelope(sa, a, k, amp, depth);
    lemma_halves(a, m, amp, depth);
    lemma_line_size(a, n1, psi, c, amplitude, depth);
    let (xs, ys) = (m.of(dc.re), m.of(one.re));
    let (r, av, h) = (n1 as real, m.of(amp), m.of(half));
    assert(xs == av * r && ys == (av * h) * r) by {
        reveal(faithful);
    }
    lemma_axis_size(a, m, dc.re);
    lemma_axis_size(a, m, one.re);
    let side = m.of(amplitude) * h;
    let uneven = unevenness(m, psi, c, k);
    assert forall|spectrum: Seq<Complex<R>>, u1: Seq<Complex<R>>|
        #[trigger] transformed::<R, P, E>(engine, Direction::Forward, x, spectrum)
            && #[trigger] sa.band_envelope::<P, A, E>(
            a,
            engine,
            i1,
            spectrum,
            u1,
        ) implies is_modulated(sa, a, m, out, i1, u1, k, one, amp, depth, blur, off) by {
        assert(spectrum.len() == n);
        lemma_gather_sidebands::<R, P, A, E>(
            a,
            engine,
            m,
            roots,
            n,
            c,
            k,
            v,
            scaled(a, v, half),
            x,
            spectrum,
        );
        lemma_near::<R, P, A, E>(
            sa,
            a,
            engine,
            m,
            roots,
            i1,
            p,
            c,
            k,
            v,
            amplitude,
            depth,
            spectrum,
            u1,
        );
        let far = apart(m, u1, ideal);
        let phi = sa.phi(n1);
        assert(sa.phi_cache@.contains_key(n1 as usize));
        lemma_between(m, phi, u1, ideal, only(a, n1 as nat, 0, dc));
        lemma_weighed_passively(m, phi, u1, ideal);
        lemma_beside(a, m, phi, n1, k, dc, one);
        let level = (kept(a, out) as real);
        lemma_spill(
            r,
            sa.n_out as real,
            level,
            side,
            uneven,
            av * h,
            av * h,
            leakage(a, m, phi, u1, 0, dc),
            far,
            weighed(m, phi, ideal, only(a, n1 as nat, 0, dc)),
            blur,
            ys,
            ys,
            m.of(phi[k]),
            m.of(phi[n1 - k]),
        );
        assert forall|i: int|
            0 <= i < sa.bank2.wavelets@.len() && keeps_up(sa, m, i1, i) implies leaks_at_most(
            sa,
            a,
            m,
            out,
            (#[trigger] sa.bank2.wavelets@[i]).spectrum@,
            u1,
            k,
            one,
            off(i),
        ) by {
            let rate = sa.bank2.wavelets@[i].spectrum@;
            assert(off(i) >= 0real);
            lemma_between(m, rate, u1, ideal, only(a, n1 as nat, k, one));
            lemma_weighed_passively(m, rate, u1, ideal);
            lemma_beside(a, m, rate, n1, k, dc, one);
            lemma_spill(
                r,
                sa.n_out as real,
                level,
                side,
                uneven,
                av,
                av * h,
                leakage(a, m, rate, u1, k, one),
                far,
                weighed(m, rate, ideal, only(a, n1 as nat, k, one)),
                off(i),
                xs,
                ys,
                m.of(rate[0]),
                m.of(rate[n1 - k]),
            );
        }
    }
}

/// The line of a modulation is as large as it is high.
proof fn lemma_line_size<R, A: Arithmetic<R>>(
    a: &A,
    n: int,
    psi: Seq<R>,
    c: int,
    amplitude: R,
    depth: R,
)
    requires
        exact(a),
        magnitude(a, amplitude) == amplitude,
        magnitude(a, depth) == depth,
    ensures
        ({
            let amp = passed(a, psi, c, amplitude);
            modulus(a, line_of(a, n, amp, depth)) == product(
                a,
                sideline(a, amp, depth),
                num(a, n as u64),
            )
        }),
{
    reveal(exact_sizes);
    let amp = passed(a, psi, c, amplitude);
    assert(magnitude(a, magnitude(a, psi[c])) == magnitude(a, psi[c]));
    assert(magnitude(a, amp) == amp);
    assert(magnitude(a, product(a, amp, depth)) == product(a, amp, depth));
    assert(magnitude(a, fraction(a, 1, 2)) == fraction(a, 1, 2));
    let side = sideline(a, amp, depth);
    assert(magnitude(a, side) == side);
    assert(magnitude(a, num(a, n as u64)) == num(a, n as u64));
    assert(magnitude(a, product(a, side, num(a, n as u64))) == product(a, side, num(a, n as u64)));
}

/// Amplitude modulation is recovered: of a block that is a modulated carrier, the depth
/// read at a carrier band that takes it in, and a modulation filter whose rate is within
/// the bandwidth of that band, is the depth of the modulation times the gain of that
/// filter at its rate, but for leakage; and it is read at the filter that passes so much
/// more of it than any other that leakage cannot make up for it.
///
/// What is off comes of three things: how unevenly the carrier band passes the carrier
/// and its sidebands, how much of the modulation the averaging kernel lets through, and
/// how much the modulation filter lets through at DC and at the mirrored rate.
pub proof fn law_amplitude_modulation_is_recovered<R: Copy, P, A: Arithmetic<R>, E: Engine<R, P>>(
    sa: &Geometry<R>,
    a: &A,
    engine: &E,
    m: Meaning<R>,
    roots: Roots<R>,
    x: Seq<Complex<R>>,
    out: &Scattergram<R>,
    i1: int,
    i2: int,
    p: int,
    c: int,
    k: int,
    v: Complex<R>,
    amplitude: R,
    depth: R,
    blur: real,
    off: spec_fn(int) -> real,
)
    requires
        sa.wf(),
        sa.realises(a, &sa.config, sa.n),
        real_phasors::<R, P, A, E>(a, engine, m, roots),
        real_fourier::<R, P, A, E>(a, engine, m),
        averages_passively(sa, m),
        forall|i: int|
            0 <= i < sa.bank2.wavelets@.len() ==> passive(
                m,
                (#[trigger] sa.bank2.wavelets@[i]).spectrum@,
            ),
        x.len() == sa.n,
        is_am(a, m, roots, x, c, k, v, amplitude, depth),
        0 <= c < sa.n,
        0 < k,
        2 * k < sa.n1(),
        sa.analysed::<P, A, E>(a, engine, x, out),
        out.wf(),
        0 <= i1 < out.s2@.len(),
        0 <= i2 < out.s2@[i1]@.len(),
        keeps_up(sa, m, i1, i2),
        takes_in_all(sa.n as int, sa.bands1@[i1], p, c, k),
        spills_at_most(sa, a, m, out, i1, c, k, amplitude, depth, blur, off),
        ({
            let amp = m.of(passed(a, sa.bank1.wavelets@[i1].spectrum@, c, amplitude));
            amp - blur > 0real && amp - blur >= m.of(out.noise_floor(a))
        }),
    ensures
        ({
            let amp = passed(a, sa.bank1.wavelets@[i1].spectrum@, c, amplitude);
            let expected = m.of(depth) * m.of(rate_gain(sa, a, i2, k));
            let read = m.of(out.depths(a)[i1][i2]);
            let bound = 2real * off(i2) + expected * blur;
            let line = m.of(sideline(a, amp, depth));
            &&& (m.of(amp) - blur) * (read - expected) <= bound
            &&& (m.of(amp) - blur) * (expected - read) <= bound
            &&& (forall|i: int|
                0 <= i < out.s2@[i1]@.len() && i != i2 ==> #[trigger] outdoes(
                    sa,
                    a,
                    m,
                    i1,
                    i2,
                    i,
                    k,
                    line,
                    off,
                )) ==> peak_index(a, out.depths(a)[i1]) == Some(i2)
        }),
{
    let amp = passed(a, sa.bank1.wavelets@[i1].spectrum@, c, amplitude);
    let z = line_of(a, sa.n1(), amp, depth);
    let line = m.of(sideline(a, amp, depth));
    law_modulated_blocks_hold_modulation::<R, P, A, E>(
        sa,
        a,
        engine,
        m,
        roots,
        x,
        out,
        i1,
        p,
        c,
        k,
        v,
        amplitude,
        depth,
        blur,
        off,
    );
    law_modulation_depth_is_recovered::<R, P, A, E>(
        sa,
        a,
        engine,
        m,
        x,
        out,
        i1,
        i2,
        k,
        z,
        amp,
        depth,
        blur,
        off,
    );
    if forall|i: int|
        0 <= i < out.s2@[i1]@.len() && i != i2 ==> #[trigger] outdoes(
            sa,
            a,
            m,
            i1,
            i2,
            i,
            k,
            line,
            off,
        ) {
        law_second_order_peaks_at_the_rate::<R, P, A, E>(
            sa,
            a,
            engine,
            m,
            x,
            out,
            i1,
            i2,
            k,
            z,
            amp,
            depth,
            blur,
            off,
        );
    }
}

} // verus!
