//! What the sub-band shortcut costs: extracting a band at its own rate in place of
//! filtering at the full rate.

use vstd::prelude::*;

use crate::arithmetic::{fraction, num, Arithmetic};
use crate::complex::{envelope, scaled, zero, Complex};
use crate::distance::{
    apart, faithful_distances, gap, isometric, lemma_envelope_apart, lemma_gap_positive,
    lemma_gap_scaled, lemma_inverse_apart, lemma_summed_at_most, lemma_summed_some,
    lemma_weight_positive, summed,
};
use crate::exact::{exact, lemma_zero, takes_in};
use crate::fft::{inverted, keeps_length, Engine};
use crate::laws::law_extraction_shifts_bins;
use crate::leakage::{answers, lemma_inverse};
use crate::reals::{faithful, lemma_fraction_value, Meaning};
use crate::shift::{lemma_confined_band, samples};
use crate::transform::{band_source, extracted, Band};

verus! {

/// A filter of which only the band is left.
pub open spec fn confined_to<R, A: Arithmetic<R>>(a: &A, psi: Seq<R>, band: Band) -> Seq<R> {
    Seq::new(
        psi.len(),
        |j: int|
            if takes_in(psi.len() as int, band, j) {
                psi[j]
            } else {
                num(a, 0)
            },
    )
}

/// What a filter passes of a spectrum outside a band: the sum of the squares.
pub open spec fn escaped<R, A: Arithmetic<R>>(
    a: &A,
    m: Meaning<R>,
    psi: Seq<R>,
    x: Seq<Complex<R>>,
    band: Band,
) -> real {
    summed(
        |j: int|
            if takes_in(psi.len() as int, band, j) {
                0real
            } else {
                (m.of(psi[j]) * m.of(psi[j])) * gap(m, x[j], zero(a))
            },
        x.len() as int,
    )
}

/// Every `d`th point of a signal, `n` of them.
pub open spec fn every<T>(x: Seq<T>, d: int, n: nat) -> Seq<T> {
    Seq::new(n, |t: int| x[t * d])
}

proof fn lemma_same_band<R, A: Arithmetic<R>>(
    a: &A,
    x: Seq<Complex<R>>,
    psi: Seq<R>,
    band: Band,
)
    requires
        x.len() == psi.len(),
        1 <= band.len <= x.len(),
    ensures
        extracted(a, x, confined_to(a, psi, band), band) == extracted(a, x, psi, band),
{
    let n = x.len() as int;
    let (len, centre) = (band.len as int, band.centre_bin as int);
    let (p, q) = (
        extracted(a, x, confined_to(a, psi, band), band),
        extracted(a, x, psi, band),
    );
    assert forall|k: int| 0 <= k < len implies #[trigger] p[k] == q[k] by {
        let j = band_source(n, centre, len, k);
        law_extraction_shifts_bins(n, centre, len, k, k);
        assert(takes_in(n, band, j));
    }
    assert(p =~= q);
}

/// Leaving out what a filter passes outside a band changes the full-rate spectrum by
/// just that.
proof fn lemma_escaped<R, A: Arithmetic<R>>(
    a: &A,
    m: Meaning<R>,
    x: Seq<Complex<R>>,
    psi: Seq<R>,
    band: Band,
)
    requires
        exact(a),
        faithful(a, m),
        x.len() == psi.len(),
        x.len() <= usize::MAX,
        1 <= band.len <= x.len(),
    ensures
        ({
            let whole = Band { len: x.len() as usize, ..band };
            apart(
                m,
                extracted(a, x, confined_to(a, psi, band), whole),
                extracted(a, x, psi, whole),
            ) <= escaped(a, m, psi, x, band)
        }),
{
    let n = x.len() as int;
    let centre = band.centre_bin as int;
    let whole = Band { len: n as usize, ..band };
    let kept = confined_to(a, psi, band);
    let (p, q) = (extracted(a, x, kept, whole), extracted(a, x, psi, whole));
    let s = fraction(a, n as u64, n as u64);
    let f = |j: int|
        if takes_in(psi.len() as int, band, j) {
            0real
        } else {
            (m.of(psi[j]) * m.of(psi[j])) * gap(m, x[j], zero(a))
        };
    let from = |k: int| band_source(n, centre, n, k);
    let part = |k: int| f(from(k));
    let g = |k: int| gap(m, p[k], q[k]);
    lemma_zero(a);
    lemma_fraction_value(a, m, n as u64, n as u64);
    let (v, r) = (m.of(s), n as real);
    assert(v == 1real) by (nonlinear_arith)
        requires
            v * r == r,
            r >= 1real,
    ;
    assert forall|j: int| 0 <= j < n implies #[trigger] f(j) >= 0real by {
        lemma_weight_positive(m, psi[j], x[j], zero(a));
    }
    assert forall|k: int| 0 <= k < n implies #[trigger] g(k) <= part(k) by {
        let j = band_source(n, centre, n, k);
        law_extraction_shifts_bins(n, centre, n, k, k);
        let (u, z) = (scaled(a, x[j], kept[j]), scaled(a, x[j], psi[j]));
        if takes_in(n, band, j) {
            lemma_no_gap(m, p[k]);
        } else {
            assert(u == zero(a)) by {
                lemma_nothing(a, x[j]);
            }
            lemma_gap_scaled(a, m, u, z, s);
            assert(scaled(a, zero(a), psi[j]) == zero(a));
            lemma_gap_scaled(a, m, zero(a), x[j], psi[j]);
            lemma_gap_swap(m, zero(a), x[j]);
            let w = gap(m, u, z);
            assert((1real * 1real) * w == w) by (nonlinear_arith);
        }
    }
    lemma_summed_at_most(g, part, n);
    assert forall|k: int| 0 <= k < n implies 0 <= #[trigger] from(k) < n by {
        law_extraction_shifts_bins(n, centre, n, k, k);
    }
    assert forall|k: int, l: int| 0 <= k < l < n implies #[trigger] from(k)
        != #[trigger] from(l) by {
        law_extraction_shifts_bins(n, centre, n, k, l);
    }
    lemma_summed_some(f, from, part, n, n);
}

proof fn lemma_nothing<R, A: Arithmetic<R>>(a: &A, z: Complex<R>)
    requires
        exact(a),
    ensures
        scaled(a, z, num(a, 0)) == zero(a),
{
    lemma_zero(a);
}

proof fn lemma_no_gap<R>(m: Meaning<R>, z: Complex<R>)
    ensures
        gap(m, z, z) == 0real,
{
    let (x, y) = (m.of(z.re), m.of(z.im));
    assert((x - x) * (x - x) == 0real) by (nonlinear_arith);
    assert((y - y) * (y - y) == 0real) by (nonlinear_arith);
}

proof fn lemma_gap_swap<R>(m: Meaning<R>, u: Complex<R>, v: Complex<R>)
    ensures
        gap(m, u, v) == gap(m, v, u),
{
    let (x, y) = (m.of(u.re), m.of(v.re));
    assert((x - y) * (x - y) == (y - x) * (y - x)) by (nonlinear_arith);
    let (p, q) = (m.of(u.im), m.of(v.im));
    assert((p - q) * (p - q) == (q - p) * (q - p)) by (nonlinear_arith);
}

/// Signals that are close are close at every `d`th point.
proof fn lemma_every<R>(
    m: Meaning<R>,
    x: Seq<Complex<R>>,
    y: Seq<Complex<R>>,
    d: int,
    len: int,
)
    requires
        d >= 1,
        len >= 0,
        x.len() == y.len() == len * d,
    ensures
        apart(m, every(x, d, len as nat), every(y, d, len as nat)) <= apart(m, x, y),
{
    let f = |k: int| gap(m, x[k], y[k]);
    let from = |t: int| t * d;
    let (p, q) = (every(x, d, len as nat), every(y, d, len as nat));
    let part = |t: int| gap(m, p[t], q[t]);
    assert forall|k: int| 0 <= k < x.len() implies #[trigger] f(k) >= 0real by {
        lemma_gap_positive(m, x[k], y[k]);
    }
    assert forall|t: int| 0 <= t < len implies 0 <= #[trigger] from(t) < x.len() by {
        assert(0 <= t * d < len * d) by (nonlinear_arith)
            requires
                0 <= t < len,
                d >= 1,
        ;
    }
    assert forall|t: int, s: int| 0 <= t < s < len implies #[trigger] from(t)
        != #[trigger] from(s) by {
        assert(t * d < s * d) by (nonlinear_arith)
            requires
                t < s,
                d >= 1,
        ;
    }
    lemma_summed_some(f, from, part, len, x.len() as int);
}

/// The sub-band shortcut samples, up to leakage: the signal of a band is every `d`th
/// point of the signal that filtering at the full rate gives, and its envelope every
/// `d`th point of the envelope, but for what the filter passes outside the band.
pub proof fn law_subband_samples_the_full_rate_signal<
    R: Copy,
    P,
    A: Arithmetic<R>,
    E: Engine<R, P>,
>(
    a: &A,
    engine: &E,
    m: Meaning<R>,
    spectrum: Seq<Complex<R>>,
    psi: Seq<R>,
    band: Band,
    d: int,
    sub: Seq<Complex<R>>,
    full: Seq<Complex<R>>,
)
    requires
        exact(a),
        faithful(a, m),
        faithful_distances(a, m),
        samples::<R, P, A, E>(a, engine),
        isometric::<R, P, E>(engine, m),
        answers::<R, P, E>(engine),
        keeps_length::<R, P, E>(engine),
        spectrum.len() == psi.len(),
        spectrum.len() <= usize::MAX,
        d >= 1,
        band.len > 0,
        spectrum.len() == band.len * d,
        inverted::<R, P, A, E>(a, engine, extracted(a, spectrum, psi, band), sub),
        inverted::<R, P, A, E>(
            a,
            engine,
            extracted(a, spectrum, psi, Band { len: spectrum.len() as usize, ..band }),
            full,
        ),
    ensures
        sub.len() == band.len,
        ({
            let n = spectrum.len() as real;
            let points = every(full, d, sub.len());
            &&& n * apart(m, sub, points) <= escaped(a, m, psi, spectrum, band)
            &&& n * apart(m, envelope(a, sub), envelope(a, points)) <= escaped(
                a,
                m,
                psi,
                spectrum,
                band,
            )
        }),
{
    let n = spectrum.len() as int;
    let len = band.len as int;
    assert(len <= n) by (nonlinear_arith)
        requires
            n == len * d,
            len > 0,
            d >= 1,
    ;
    let whole = Band { len: n as usize, ..band };
    let kept = confined_to(a, psi, band);
    let (p, q) = (extracted(a, spectrum, kept, whole), extracted(a, spectrum, psi, whole));
    let near = lemma_inverse::<R, P, A, E>(a, engine, p);
    lemma_same_band(a, spectrum, psi, band);
    assert(sub.len() == len && full.len() == n);
    let (x, y) = (every(near, d, len as nat), every(full, d, len as nat));
    assert forall|t: int| 0 <= t < len implies #[trigger] sub[t] == x[t] by {
        lemma_confined_band::<R, P, A, E>(a, engine, spectrum, kept, band, d, sub, near, t);
    }
    assert(sub =~= x);
    lemma_inverse_apart::<R, P, A, E>(a, engine, m, p, near, q, full);
    lemma_escaped(a, m, spectrum, psi, band);
    lemma_every(m, near, full, d, len);
    lemma_envelope_apart(a, m, sub, y);
    let (r, u, v, w) = (
        n as real,
        apart(m, sub, y),
        apart(m, near, full),
        apart(m, envelope(a, sub), envelope(a, y)),
    );
    assert(r * u <= r * v && r * w <= r * u) by (nonlinear_arith)
        requires
            u <= v,
            w <= u,
            r >= 1real,
    ;
}

} // verus!
