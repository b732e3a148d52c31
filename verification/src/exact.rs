//! What a tone reads in exact arithmetic: its amplitude times the gain of each
//! filter, and a second order that holds nothing but what is left of DC.
//!
//! Floating arithmetic only comes close to this. How close is a matter for
//! measurement.

use vstd::prelude::*;

use crate::arithmetic::{
    below, exponential, fraction, hypotenuse, larger, largest, magnitude, negative, num, product,
    quotient, sum, Arithmetic,
};
use crate::complex::{
    envelope, modulus, on_axis, real_parts, scaled, scaled_all, zero, Complex,
};
use crate::fft::{
    decimated, decimation_source, inverted, keeps_length, transformed, Direction, Engine,
};
use crate::filterbank::{
    bin_frequency, gauss, gauss_shape, kernel, morlet_shape, periodised,
};
use crate::laws::{law_extraction_shifts_bins, law_peak_gain_is_one};
use crate::powers::{lemma_double, power_of_two};
use crate::transform::{
    averaged, band_source, extracted, filtered, lemma_reach, Band, Config, Geometry, Scattergram,
};

verus! {

/// Factors may be exchanged and grouped.
#[verifier::opaque]
pub open spec fn exact_order<R, A: Arithmetic<R>>(a: &A) -> bool {
    &&& forall|x: R, y: R| #[trigger] product(a, x, y) == product(a, y, x)
    &&& forall|x: R, y: R, z: R| #[trigger]
        product(a, product(a, x, y), z) == product(a, x, product(a, y, z))
}

/// Whole numbers and fractions multiply as they should.
#[verifier::opaque]
pub open spec fn exact_counts<R, A: Arithmetic<R>>(a: &A) -> bool {
    &&& forall|x: R| #[trigger] product(a, x, num(a, 1)) == x
    &&& forall|x: R| #[trigger] product(a, x, num(a, 0)) == num(a, 0)
    &&& forall|p: u64, q: u64| #[trigger]
        fraction(a, p, q) == product(a, num(a, p), fraction(a, 1, q))
    &&& forall|n: u64| n >= 1 ==> product(a, num(a, n), #[trigger] fraction(a, 1, n)) == num(a, 1)
    &&& forall|m: u64, n: u64|
        m * n <= u64::MAX ==> num(a, (m * n) as u64) == #[trigger] product(
            a,
            num(a, m),
            num(a, n),
        )
}

/// The laws of exact multiplication and division, as far as a tone needs them.
pub open spec fn exact_products<R, A: Arithmetic<R>>(a: &A) -> bool {
    exact_order(a) && exact_counts(a)
}

/// The laws of exact magnitudes and distances, as far as a tone needs them.
#[verifier::opaque]
pub open spec fn exact_sizes<R, A: Arithmetic<R>>(a: &A) -> bool {
    &&& forall|x: R, y: R, s: R| #[trigger]
        hypotenuse(a, product(a, x, s), product(a, y, s)) == product(
            a,
            hypotenuse(a, x, y),
            magnitude(a, s),
        )
    &&& forall|x: R| #[trigger] hypotenuse(a, x, num(a, 0)) == magnitude(a, x)
    &&& forall|x: R, y: R| #[trigger]
        magnitude(a, product(a, x, y)) == product(a, magnitude(a, x), magnitude(a, y))
    &&& forall|x: R| #[trigger] magnitude(a, magnitude(a, x)) == magnitude(a, x)
    &&& forall|p: u64, q: u64| #[trigger] magnitude(a, fraction(a, p, q)) == fraction(a, p, q)
    &&& forall|n: u64| #[trigger] magnitude(a, num(a, n)) == num(a, n)
}

/// The laws of exact ratios to a positive value, as far as a normalised response
/// needs them.
#[verifier::opaque]
pub open spec fn exact_ratios<R, A: Arithmetic<R>>(a: &A) -> bool {
    &&& forall|x: R| below(a, num(a, 0), #[trigger] exponential(a, x))
    &&& forall|x: R, y: R|
        (x == num(a, 0) || below(a, num(a, 0), x)) && below(a, num(a, 0), y) ==> below(
            a,
            num(a, 0),
            #[trigger] sum(a, x, y),
        )
    &&& forall|p: R| below(a, num(a, 0), p) ==> #[trigger] quotient(a, p, p) == num(a, 1)
    &&& forall|p: R|
        below(a, num(a, 0), p) ==> #[trigger] quotient(a, num(a, 0), p) == num(a, 0)
    &&& forall|x: R, p: R|
        below(a, num(a, 0), p) ==> #[trigger] magnitude(a, quotient(a, x, p)) == quotient(
            a,
            magnitude(a, x),
            p,
        )
    &&& forall|x: R, y: R, p: R|
        below(a, num(a, 0), p) ==> #[trigger] larger(a, quotient(a, x, p), quotient(a, y, p))
            == quotient(a, larger(a, x, y), p)
}

/// Whether multiplication, division and distances are exact.
pub open spec fn exact<R, A: Arithmetic<R>>(a: &A) -> bool {
    exact_products(a) && exact_sizes(a) && exact_ratios(a)
}

/// Whether only bin `k` of a spectrum is occupied.
pub open spec fn lone<R, A: Arithmetic<R>>(a: &A, x: Seq<Complex<R>>, k: int) -> bool {
    &&& 0 <= k < x.len()
    &&& forall|i: int| 0 <= i < x.len() && i != k ==> #[trigger] x[i] == zero(a)
}

/// Whether `x` is the spectrum of a signal of constant value `c`.
pub open spec fn flat<R, A: Arithmetic<R>>(a: &A, x: Seq<Complex<R>>, c: R) -> bool {
    &&& lone(a, x, 0)
    &&& x[0] == on_axis(a, product(a, c, num(a, x.len() as u64)))
}

/// Whether `engine` transforms single bins and constants as the Fourier transform
/// does: a single bin spreads evenly over time, a single bin at DC is a constant,
/// and a constant gathers in a single bin at DC.
#[verifier::opaque]
pub open spec fn fourier<R, P, A: Arithmetic<R>, E: Engine<R, P>>(a: &A, engine: &E) -> bool {
    &&& forall|x: Seq<Complex<R>>, y: Seq<Complex<R>>, k: int, t: int|
        #[trigger] transformed::<R, P, E>(engine, Direction::Inverse, x, y) && #[trigger] lone(
            a,
            x,
            k,
        ) && 0 <= t < y.len() ==> modulus(a, #[trigger] y[t]) == modulus(a, x[k])
    &&& forall|x: Seq<Complex<R>>, y: Seq<Complex<R>>, t: int|
        #[trigger] transformed::<R, P, E>(engine, Direction::Inverse, x, y) && lone(a, x, 0) && 0
            <= t < y.len() ==> #[trigger] y[t] == x[0]
    &&& forall|x: Seq<Complex<R>>, y: Seq<Complex<R>>, c: R|
        #[trigger] transformed::<R, P, E>(engine, Direction::Forward, x, y) && x.len() > 0 && x
            == #[trigger] steady(a, c, x.len()) ==> flat(a, y, c)
}

/// `n` samples of constant value `c`.
pub open spec fn steady<R, A: Arithmetic<R>>(a: &A, c: R, n: nat) -> Seq<Complex<R>> {
    Seq::new(n, |t: int| on_axis(a, c))
}

/// Whether `x` is a tone of the given amplitude at bin `j`: its envelope is that
/// amplitude throughout, and its spectrum that amplitude at that bin.
pub open spec fn is_tone<R, P, A: Arithmetic<R>, E: Engine<R, P>>(
    a: &A,
    engine: &E,
    x: Seq<Complex<R>>,
    j: int,
    amplitude: R,
) -> bool {
    &&& forall|t: int| 0 <= t < x.len() ==> modulus(a, #[trigger] x[t]) == amplitude
    &&& forall|y: Seq<Complex<R>>| #[trigger]
        transformed::<R, P, E>(engine, Direction::Forward, x, y) ==> lone(a, y, j) && modulus(
            a,
            y[j],
        ) == product(a, amplitude, num(a, x.len() as u64))
}

/// Whether a band of an `n`-point spectrum takes in bin `j`.
pub open spec fn takes_in(n: int, band: Band, j: int) -> bool {
    exists|k: int|
        0 <= k < band.len && #[trigger] band_source(
            n,
            band.centre_bin as int,
            band.len as int,
            k,
        ) == j
}

/// The gain at bin `j` of a filter of which only `band` is kept.
pub open spec fn gain<R, A: Arithmetic<R>>(a: &A, psi: Seq<R>, band: Band, j: int) -> R {
    if takes_in(psi.len() as int, band, j) {
        magnitude(a, psi[j])
    } else {
        num(a, 0)
    }
}

/// `x` times `n`, divided by `n`.
proof fn lemma_cancel<R, A: Arithmetic<R>>(a: &A, x: R, n: u64)
    requires
        exact(a),
        n >= 1,
    ensures
        product(a, product(a, x, num(a, n)), fraction(a, 1, n)) == x,
{
    lemma_group(a, x, num(a, n), fraction(a, 1, n));
    lemma_units(a, x, 1, n);
}

/// `x` times `d` times `m`, divided by `d`.
proof fn lemma_divide<R, A: Arithmetic<R>>(a: &A, x: R, d: u64, m: u64)
    requires
        exact(a),
        d >= 1,
        m * d <= u64::MAX,
    ensures
        product(a, product(a, x, num(a, (m * d) as u64)), fraction(a, 1, d)) == product(
            a,
            x,
            num(a, m),
        ),
{
    assert(product(a, x, num(a, (m * d) as u64)) == product(
        a,
        product(a, x, num(a, m)),
        num(a, d),
    )) by {
        lemma_multiple(a, m, d);
        lemma_group(a, x, num(a, m), num(a, d));
    }
    lemma_cancel(a, product(a, x, num(a, m)), d);
}

/// `x` and `s` may change places behind a common factor.
proof fn lemma_swap<R, A: Arithmetic<R>>(a: &A, x: R, y: R, s: R)
    requires
        exact(a),
    ensures
        product(a, product(a, x, y), s) == product(a, product(a, x, s), y),
{
    reveal(exact_order);
    assert(product(a, product(a, x, y), s) == product(a, x, product(a, y, s)));
    assert(product(a, product(a, x, s), y) == product(a, x, product(a, s, y)));
    assert(product(a, y, s) == product(a, s, y));
}

/// Grouping does not matter in a product.
proof fn lemma_group<R, A: Arithmetic<R>>(a: &A, x: R, y: R, z: R)
    requires
        exact(a),
    ensures
        product(a, product(a, x, y), z) == product(a, x, product(a, y, z)),
{
    reveal(exact_order);
}

/// Order does not matter in a product.
proof fn lemma_exchange<R, A: Arithmetic<R>>(a: &A, x: R, y: R)
    requires
        exact(a),
    ensures
        product(a, x, y) == product(a, y, x),
{
    reveal(exact_order);
}

/// Unit fractions, whole numbers and one.
proof fn lemma_units<R, A: Arithmetic<R>>(a: &A, x: R, p: u64, n: u64)
    requires
        exact(a),
        n >= 1,
    ensures
        product(a, num(a, n), fraction(a, 1, n)) == num(a, 1),
        product(a, fraction(a, 1, n), num(a, n)) == num(a, 1),
        product(a, num(a, 1), x) == x,
        product(a, x, num(a, 1)) == x,
        fraction(a, p, n) == product(a, num(a, p), fraction(a, 1, n)),
{
    lemma_exchange(a, fraction(a, 1, n), num(a, n));
    lemma_exchange(a, num(a, 1), x);
    reveal(exact_counts);
}

/// Whole numbers multiply.
proof fn lemma_multiple<R, A: Arithmetic<R>>(a: &A, m: u64, d: u64)
    requires
        exact(a),
        m * d <= u64::MAX,
    ensures
        num(a, (m * d) as u64) == product(a, num(a, m), num(a, d)),
{
    reveal(exact_counts);
}

/// The product of two unit fractions is a unit fraction.
proof fn lemma_unit_fractions<R, A: Arithmetic<R>>(a: &A, m: u64, d: u64)
    requires
        exact(a),
        m >= 1,
        d >= 1,
        m * d <= u64::MAX,
    ensures
        product(a, fraction(a, 1, d), fraction(a, 1, m)) == fraction(a, 1, (m * d) as u64),
{
    let n = (m * d) as u64;
    assert(m * d >= 1) by (nonlinear_arith)
        requires
            m >= 1,
            d >= 1,
    ;
    let (fm, fd) = (fraction(a, 1, m), fraction(a, 1, d));
    let p = product(a, fd, fm);
    lemma_swap(a, fd, fm, num(a, m));
    lemma_cancel(a, fd, m);
    assert(product(a, p, num(a, m)) == fd);
    assert(product(a, p, num(a, n)) == product(a, product(a, p, num(a, m)), num(a, d))) by {
        lemma_group(a, p, num(a, m), num(a, d));
        lemma_multiple(a, m, d);
    }
    lemma_units(a, fd, 1, d);
    assert(product(a, p, num(a, n)) == num(a, 1));
    lemma_cancel(a, p, n);
    lemma_units(a, fraction(a, 1, n), 1, n);
}

/// Dividing by `d` and then by `m` divides by `m * d`; of `m * d`, `m` are one
/// part in `d`, and all are one.
pub proof fn lemma_parts<R, A: Arithmetic<R>>(a: &A, m: u64, d: u64)
    requires
        exact(a),
        m >= 1,
        d >= 1,
        m * d <= u64::MAX,
    ensures
        forall|z: Complex<R>| #[trigger]
            scaled(a, scaled(a, z, fraction(a, 1, d)), fraction(a, 1, m)) == scaled(
                a,
                z,
                fraction(a, 1, (m * d) as u64),
            ),
        fraction(a, m, (m * d) as u64) == fraction(a, 1, d),
        forall|z: Complex<R>| #[trigger]
            scaled(a, z, fraction(a, (m * d) as u64, (m * d) as u64)) == z,
{
    let n = (m * d) as u64;
    assert(m * d >= 1) by (nonlinear_arith)
        requires
            m >= 1,
            d >= 1,
    ;
    let (fm, fd) = (fraction(a, 1, m), fraction(a, 1, d));
    lemma_unit_fractions(a, m, d);
    assert forall|z: Complex<R>| #[trigger]
        scaled(a, scaled(a, z, fd), fm) == scaled(a, z, fraction(a, 1, n)) by {
        lemma_group(a, z.re, fd, fm);
        lemma_group(a, z.im, fd, fm);
    }
    lemma_units(a, fd, m, n);
    lemma_group(a, num(a, m), fd, fm);
    lemma_swap(a, num(a, m), fd, fm);
    lemma_units(a, fd, m, m);
    lemma_units(a, fd, n, n);
    assert forall|z: Complex<R>| #[trigger] scaled(a, z, fraction(a, n, n)) == z by {
        lemma_units(a, z.re, 1, 1);
        lemma_units(a, z.im, 1, 1);
    }
}

/// Nothing, scaled, is nothing.
pub proof fn lemma_zero<R, A: Arithmetic<R>>(a: &A)
    requires
        exact(a),
    ensures
        forall|s: R| #[trigger] scaled(a, zero(a), s) == zero(a),
        forall|x: R, s: R| #[trigger]
            scaled(a, on_axis(a, x), s) == on_axis(a, product(a, x, s)),
        modulus(a, zero(a)) == num(a, 0),
        forall|s: R| #[trigger] product(a, num(a, 0), s) == num(a, 0),
        forall|s: R| #[trigger] product(a, s, num(a, 0)) == num(a, 0),
{
    assert(modulus(a, zero(a)) == num(a, 0)) by {
        reveal(exact_sizes);
    }
    reveal(exact_counts);
    assert forall|s: R| #[trigger] product(a, num(a, 0), s) == num(a, 0) by {
        lemma_exchange(a, num(a, 0), s);
    }
}

proof fn lemma_flat_decimated<R, A: Arithmetic<R>>(a: &A, x: Seq<Complex<R>>, c: R, d: int)
    requires
        exact(a),
        flat(a, x, c),
        1 <= d,
        x.len() <= usize::MAX,
        x.len() as int % d == 0,
        x.len() as int / d >= 1,
    ensures
        flat(a, decimated(a, x, d), c),
{
    if d != 1 {
        let n = x.len() as int;
        let m = n / d;
        vstd::arithmetic::div_mod::lemma_fundamental_div_mod(n, d);
        assert(n == m * d) by (nonlinear_arith)
            requires
                n == d * m,
        ;
        assert(2 * m <= n && d <= n) by (nonlinear_arith)
            requires
                n == m * d,
                d >= 2,
                m >= 1,
        ;
        lemma_divide(a, c, d as u64, m as u64);
        lemma_zero(a);
        let y = decimated(a, x, d);
        assert(y[0] == scaled(a, x[0], fraction(a, 1, d as u64)));
        assert(y[0] == on_axis(a, product(a, c, num(a, m as u64))));
        assert forall|k: int| 0 <= k < y.len() && k != 0 implies #[trigger] y[k] == zero(a) by {
            let j = decimation_source(n, d, k);
            assert(0 < j < n);
            assert(x[j] == zero(a));
        }
    }
}

proof fn lemma_filtered<R, A: Arithmetic<R>>(a: &A, x: Seq<Complex<R>>, c: R, phi: Seq<R>)
    requires
        exact(a),
        lone(a, x, 0),
        x[0] == on_axis(a, product(a, c, num(a, x.len() as u64))),
    ensures
        flat(a, filtered(a, x, phi), product(a, c, phi[0])),
{
    lemma_zero(a);
    lemma_swap(a, c, num(a, x.len() as u64), phi[0]);
    let y = filtered(a, x, phi);
    assert forall|k: int| 0 <= k < y.len() && k != 0 implies #[trigger] y[k] == zero(a) by {
        assert(x[k] == zero(a));
    }
}

/// The average of a constant `c`.
proof fn lemma_dc_averaged<R, P, A: Arithmetic<R>, E: Engine<R, P>>(
    a: &A,
    engine: &E,
    phi: Seq<R>,
    out_len: int,
    x: Seq<Complex<R>>,
    c: R,
    y: Seq<R>,
    t: int,
)
    requires
        exact(a),
        fourier::<R, P, A, E>(a, engine),
        keeps_length::<R, P, E>(engine),
        lone(a, x, 0),
        x[0] == on_axis(a, product(a, c, num(a, x.len() as u64))),
        x.len() <= usize::MAX,
        power_of_two(x.len() as int),
        power_of_two(out_len),
        out_len <= x.len(),
        averaged::<R, P, A, E>(a, engine, phi, out_len, x, y),
        0 <= t < y.len(),
    ensures
        y[t] == product(a, c, phi[0]),
{
    lemma_reach(x.len() as int, out_len);
    let d = x.len() as int / out_len;
    let v = product(a, c, phi[0]);
    lemma_filtered(a, x, c, phi);
    let f = filtered(a, x, phi);
    lemma_double(out_len);
    lemma_flat_decimated(a, f, v, d);
    let small = decimated(a, f, d);
    let z = choose|z: Seq<Complex<R>>|
        #[trigger] inverted::<R, P, A, E>(a, engine, small, z) && y == real_parts(z);
    let s = fraction(a, 1, small.len() as u64);
    let w = choose|w: Seq<Complex<R>>|
        #[trigger] transformed::<R, P, E>(engine, Direction::Inverse, small, w) && z
            == scaled_all(a, w, s);
    assert(w[t] == small[0]) by {
        reveal(fourier);
        assert(lone(a, small, 0));
    }
    lemma_cancel(a, v, small.len() as u64);
    lemma_zero(a);
}

/// `x` times `n`, taken down from `n` to `len`.
proof fn lemma_rescale<R, A: Arithmetic<R>>(a: &A, x: R, n: u64, len: u64)
    requires
        exact(a),
        n >= 1,
    ensures
        product(a, product(a, x, num(a, n)), fraction(a, len, n)) == product(a, x, num(a, len)),
{
    let part = fraction(a, 1, n);
    let big = product(a, x, num(a, n));
    assert(product(a, big, fraction(a, len, n)) == product(
        a,
        product(a, big, part),
        num(a, len),
    )) by {
        lemma_units(a, x, len, n);
        lemma_exchange(a, num(a, len), part);
        lemma_group(a, big, part, num(a, len));
    }
    lemma_cancel(a, x, n);
}

/// Scaling a value scales its distance from the origin.
pub proof fn lemma_modulus<R, A: Arithmetic<R>>(a: &A, z: Complex<R>, s: R)
    requires
        exact(a),
    ensures
        modulus(a, scaled(a, z, s)) == product(a, modulus(a, z), magnitude(a, s)),
{
    reveal(exact_sizes);
}

/// Fractions are not negative.
pub proof fn lemma_fraction<R, A: Arithmetic<R>>(a: &A, p: u64, q: u64)
    requires
        exact(a),
    ensures
        magnitude(a, fraction(a, p, q)) == fraction(a, p, q),
{
    reveal(exact_sizes);
}

/// A single bin spreads evenly over time.
proof fn lemma_spread<R, P, A: Arithmetic<R>, E: Engine<R, P>>(
    a: &A,
    engine: &E,
    x: Seq<Complex<R>>,
    y: Seq<Complex<R>>,
    k: int,
    t: int,
)
    requires
        fourier::<R, P, A, E>(a, engine),
        transformed::<R, P, E>(engine, Direction::Inverse, x, y),
        lone(a, x, k),
        0 <= t < y.len(),
    ensures
        modulus(a, y[t]) == modulus(a, x[k]),
{
    reveal(fourier);
}

/// A constant gathers in a single bin at DC.
proof fn lemma_gather<R, P, A: Arithmetic<R>, E: Engine<R, P>>(
    a: &A,
    engine: &E,
    c: R,
    n: nat,
    y: Seq<Complex<R>>,
)
    requires
        fourier::<R, P, A, E>(a, engine),
        n > 0,
        transformed::<R, P, E>(engine, Direction::Forward, steady(a, c, n), y),
    ensures
        flat(a, y, c),
{
    reveal(fourier);
    assert(steady(a, c, n).len() == n);
}

/// Where the one bin that a spectrum occupies ends up in a band of it, and how
/// large: in one bin, or nowhere.
proof fn lemma_extracted_bin<R, A: Arithmetic<R>>(
    a: &A,
    spectrum: Seq<Complex<R>>,
    j: int,
    amplitude: R,
    psi: Seq<R>,
    band: Band,
) -> (k: int)
    requires
        exact(a),
        lone(a, spectrum, j),
        spectrum.len() == psi.len(),
        spectrum.len() <= usize::MAX,
        modulus(a, spectrum[j]) == product(a, amplitude, num(a, spectrum.len() as u64)),
        1 <= band.len <= spectrum.len(),
    ensures
        lone(a, extracted(a, spectrum, psi, band), k),
        modulus(a, extracted(a, spectrum, psi, band)[k]) == product(
            a,
            product(a, amplitude, gain(a, psi, band, j)),
            num(a, band.len as u64),
        ),
{
    let n = spectrum.len() as int;
    let len = band.len as int;
    let centre = band.centre_bin as int;
    let e = extracted(a, spectrum, psi, band);
    let held = takes_in(n, band, j);
    let k = if held {
        choose|k: int| 0 <= k < band.len && #[trigger] band_source(n, centre, len, k) == j
    } else {
        0
    };
    lemma_zero(a);
    assert forall|i: int| 0 <= i < len && (i != k || !held) implies #[trigger] e[i] == zero(a) by {
        let source = band_source(n, centre, len, i);
        law_extraction_shifts_bins(n, centre, len, i, k);
        assert(source != j);
        assert(spectrum[source] == zero(a));
    }
    let scale = fraction(a, len as u64, n as u64);
    if held {
        let z = spectrum[j];
        let g = magnitude(a, psi[j]);
        assert(e[k] == scaled(a, scaled(a, z, psi[j]), scale));
        lemma_modulus(a, z, psi[j]);
        lemma_modulus(a, scaled(a, z, psi[j]), scale);
        lemma_fraction(a, len as u64, n as u64);
        lemma_swap(a, amplitude, num(a, n as u64), g);
        lemma_rescale(a, product(a, amplitude, g), n as u64, len as u64);
    }
    k
}

/// What a band makes of a spectrum that occupies one bin: an envelope as large as
/// the value in the bin, times the gain of the filter there.
proof fn lemma_band<R, P, A: Arithmetic<R>, E: Engine<R, P>>(
    a: &A,
    engine: &E,
    spectrum: Seq<Complex<R>>,
    j: int,
    amplitude: R,
    psi: Seq<R>,
    band: Band,
    sub: Seq<Complex<R>>,
    env: Seq<Complex<R>>,
)
    requires
        exact(a),
        fourier::<R, P, A, E>(a, engine),
        keeps_length::<R, P, E>(engine),
        lone(a, spectrum, j),
        spectrum.len() == psi.len(),
        spectrum.len() <= usize::MAX,
        modulus(a, spectrum[j]) == product(a, amplitude, num(a, spectrum.len() as u64)),
        1 <= band.len <= spectrum.len(),
        inverted::<R, P, A, E>(a, engine, extracted(a, spectrum, psi, band), sub),
        transformed::<R, P, E>(engine, Direction::Forward, envelope(a, sub), env),
    ensures
        env.len() == band.len,
        flat(a, env, product(a, amplitude, gain(a, psi, band, j))),
{
    let len = band.len as int;
    let c = product(a, amplitude, gain(a, psi, band, j));
    let e = extracted(a, spectrum, psi, band);
    let k = lemma_extracted_bin(a, spectrum, j, amplitude, psi, band);
    let s = fraction(a, 1, len as u64);
    let w = choose|w: Seq<Complex<R>>|
        #[trigger] transformed::<R, P, E>(engine, Direction::Inverse, e, w) && sub
            == scaled_all(a, w, s);
    lemma_cancel(a, c, len as u64);
    lemma_fraction(a, 1, len as u64);
    assert forall|t: int| 0 <= t < len implies #[trigger] envelope(a, sub)[t] == on_axis(
        a,
        c,
    ) by {
        lemma_spread::<R, P, A, E>(a, engine, e, w, k, t);
        lemma_modulus(a, w[t], s);
    }
    assert(envelope(a, sub) =~= steady(a, c, len as nat));
    lemma_gather::<R, P, A, E>(a, engine, c, len as nat, env);
}

/// The averaging kernel has unit gain at DC.
proof fn lemma_kernel<R, A: Arithmetic<R>>(a: &A, n: usize, sigma: R)
    requires
        exact(a),
        n > 0,
    ensures
        kernel(a, n, sigma)[0] == num(a, 1),
{
    reveal(exact_ratios);
    let w = bin_frequency(a, 0, n);
    let below_it = gauss(a, sum(a, w, negative(a, num(a, 1))), sigma);
    let at = gauss(a, sum(a, w, num(a, 0)), sigma);
    let above_it = gauss(a, sum(a, w, num(a, 1)), sigma);
    let first = sum(a, num(a, 0), below_it);
    assert(below(a, num(a, 0), first));
    assert(below(a, num(a, 0), sum(a, first, at)));
    let p = sum(a, sum(a, first, at), above_it);
    assert(below(a, num(a, 0), p));
    assert(periodised(a, n, gauss_shape(a, sigma))[0] == p);
}

/// Every averaging kernel of an analyser has unit gain at DC.
proof fn lemma_phi<R: Copy, A: Arithmetic<R>>(
    sa: &Geometry<R>,
    a: &A,
    config: &Config<R>,
    n: usize,
    len: usize,
)
    requires
        exact(a),
        sa.realises(a, config, n),
        sa.phi_cache@.contains_key(len),
        len > 0,
    ensures
        sa.phi(len as int)[0] == num(a, 1),
{
    lemma_kernel(a, len, sa.phi_width(a, len));
}

/// The gain of carrier filter `i1` at bin `j` of the input.
pub open spec fn carrier_gain<R: Copy, A: Arithmetic<R>>(
    sa: &Geometry<R>,
    a: &A,
    i1: int,
    j: int,
) -> R {
    gain(a, sa.bank1.wavelets@[i1].spectrum@, sa.bands1@[i1], j)
}

/// The gain of modulation filter `i2` at bin `k` of an envelope.
pub open spec fn rate_gain<R: Copy, A: Arithmetic<R>>(
    sa: &Geometry<R>,
    a: &A,
    i2: int,
    k: int,
) -> R {
    gain(a, sa.bank2.wavelets@[i2].spectrum@, sa.bands2@[i2], k)
}

/// One, multiplied by, changes nothing.
proof fn lemma_one_times<R, A: Arithmetic<R>>(a: &A, x: R)
    requires
        exact(a),
    ensures
        product(a, x, num(a, 1)) == x,
{
    reveal(exact_counts);
}

proof fn lemma_tone_band<R: Copy, P, A: Arithmetic<R>, E: Engine<R, P>>(
    sa: &Geometry<R>,
    a: &A,
    engine: &E,
    i1: int,
    spectrum: Seq<Complex<R>>,
    j: int,
    amplitude: R,
    u1: Seq<Complex<R>>,
)
    requires
        sa.wf(),
        0 <= i1 < sa.bank1.wavelets@.len(),
        exact(a),
        fourier::<R, P, A, E>(a, engine),
        keeps_length::<R, P, E>(engine),
        spectrum.len() == sa.n,
        lone(a, spectrum, j),
        modulus(a, spectrum[j]) == product(a, amplitude, num(a, sa.n as u64)),
        sa.band_envelope::<P, A, E>(a, engine, i1, spectrum, u1),
    ensures
        u1.len() == sa.n1(),
        flat(a, u1, product(a, amplitude, carrier_gain(sa, a, i1, j))),
{
    sa.lemma_grids();
    let band = sa.bands1@[i1];
    let psi = sa.bank1.wavelets@[i1].spectrum@;
    lemma_reach(band.len as int, sa.n1());
    let d = band.len as int / sa.n1();
    let (sub, env) = choose|sub: Seq<Complex<R>>, env: Seq<Complex<R>>|
        {
            &&& #[trigger] inverted::<R, P, A, E>(
                a,
                engine,
                extracted(a, spectrum, psi, band),
                sub,
            )
            &&& #[trigger] transformed::<R, P, E>(
                engine,
                Direction::Forward,
                envelope(a, sub),
                env,
            )
            &&& u1 == decimated(a, env, d)
        };
    lemma_band::<R, P, A, E>(a, engine, spectrum, j, amplitude, psi, band, sub, env);
    lemma_flat_decimated(a, env, product(a, amplitude, carrier_gain(sa, a, i1, j)), d);
    assert(u1.len() == sa.n1()) by {
        if d == 1 {
            assert(band.len as int / 1 == sa.n1());
        } else {
            assert(u1.len() == (env.len() as int / d) as nat);
        }
    }
}

/// What a modulation filter makes of a single line: its amplitude times the gain of
/// the filter there, at every output sample.
pub proof fn lemma_line<R: Copy, P, A: Arithmetic<R>, E: Engine<R, P>>(
    sa: &Geometry<R>,
    a: &A,
    engine: &E,
    i1: int,
    i2: int,
    u1: Seq<Complex<R>>,
    k: int,
    amplitude: R,
    row: Seq<R>,
    t: int,
)
    requires
        sa.wf(),
        sa.realises(a, &sa.config, sa.n),
        0 <= i2 < sa.bank2.wavelets@.len(),
        exact(a),
        fourier::<R, P, A, E>(a, engine),
        keeps_length::<R, P, E>(engine),
        u1.len() == sa.n1(),
        lone(a, u1, k),
        modulus(a, u1[k]) == product(a, amplitude, num(a, sa.n1() as u64)),
        !sa.beyond(a, i1, i2),
        sa.second_order::<P, A, E>(a, engine, i1, i2, u1, row),
        0 <= t < row.len(),
    ensures
        row[t] == product(a, amplitude, rate_gain(sa, a, i2, k)),
{
    sa.lemma_grids();
    let band = sa.bands2@[i2];
    let psi = sa.bank2.wavelets@[i2].spectrum@;
    let (phi, out) = (sa.phi(band.len as int), sa.n_out as int);
    let (sub, env) = choose|sub: Seq<Complex<R>>, env: Seq<Complex<R>>|
        {
            &&& #[trigger] inverted::<R, P, A, E>(a, engine, extracted(a, u1, psi, band), sub)
            &&& #[trigger] transformed::<R, P, E>(
                engine,
                Direction::Forward,
                envelope(a, sub),
                env,
            )
            &&& averaged::<R, P, A, E>(a, engine, phi, out, env, row)
        };
    lemma_band::<R, P, A, E>(a, engine, u1, k, amplitude, psi, band, sub, env);
    let c = product(a, amplitude, rate_gain(sa, a, i2, k));
    lemma_dc_averaged::<R, P, A, E>(a, engine, phi, out, env, c, row, t);
    lemma_phi(sa, a, &sa.config, sa.n, band.len);
    lemma_one_times(a, c);
}

/// The first order of a band of constant envelope `c` is `c`.
pub proof fn lemma_first_order<R: Copy, P, A: Arithmetic<R>, E: Engine<R, P>>(
    sa: &Geometry<R>,
    a: &A,
    engine: &E,
    u1: Seq<Complex<R>>,
    c: R,
    row: Seq<R>,
    t: int,
)
    requires
        sa.wf(),
        sa.realises(a, &sa.config, sa.n),
        exact(a),
        fourier::<R, P, A, E>(a, engine),
        keeps_length::<R, P, E>(engine),
        u1.len() == sa.n1(),
        lone(a, u1, 0),
        u1[0] == on_axis(a, product(a, c, num(a, u1.len() as u64))),
        averaged::<R, P, A, E>(a, engine, sa.phi(sa.n1()), sa.n_out as int, u1, row),
        0 <= t < row.len(),
    ensures
        row[t] == c,
{
    sa.lemma_grids();
    let phi = sa.phi(sa.n1());
    lemma_dc_averaged::<R, P, A, E>(a, engine, phi, sa.n_out as int, u1, c, row, t);
    lemma_phi(sa, a, &sa.config, sa.n, sa.n1() as usize);
    lemma_one_times(a, c);
}

/// The orders of a tone: the zeroth is its amplitude, and the first its amplitude
/// times the gain of each filter there, at every output sample.
pub proof fn law_tone_reads_amplitude_times_gain<R: Copy, P, A: Arithmetic<R>, E: Engine<R, P>>(
    sa: &Geometry<R>,
    a: &A,
    engine: &E,
    x: Seq<Complex<R>>,
    j: int,
    amplitude: R,
    out: &Scattergram<R>,
)
    requires
        sa.wf(),
        sa.realises(a, &sa.config, sa.n),
        exact(a),
        fourier::<R, P, A, E>(a, engine),
        keeps_length::<R, P, E>(engine),
        x.len() == sa.n,
        is_tone::<R, P, A, E>(a, engine, x, j, amplitude),
        sa.analysed::<P, A, E>(a, engine, x, out),
    ensures
        forall|t: int| 0 <= t < out.s0@.len() ==> #[trigger] out.s0@[t] == amplitude,
        forall|i1: int, t: int|
            0 <= i1 < out.s1@.len() && 0 <= t < out.s1@[i1]@.len() ==> #[trigger] out.s1@[i1]@[t]
                == product(a, amplitude, carrier_gain(sa, a, i1, j)),
{
    sa.lemma_grids();
    let (phi, len, d1) = (sa.phi(sa.n1()), sa.n_out as int, sa.d1 as int);
    let env = choose|env: Seq<Complex<R>>|
        #[trigger] transformed::<R, P, E>(engine, Direction::Forward, envelope(a, x), env)
            && averaged::<R, P, A, E>(a, engine, phi, len, decimated(a, env, d1), out.s0@);
    assert(envelope(a, x) =~= steady(a, amplitude, x.len()));
    lemma_gather::<R, P, A, E>(a, engine, amplitude, x.len(), env);
    lemma_flat_decimated(a, env, amplitude, d1);
    let small = decimated(a, env, d1);
    assert(small.len() == sa.n1()) by {
        if d1 == 1 {
            assert(sa.n as int / 1 == sa.n1());
        } else {
            assert(small.len() == (env.len() as int / d1) as nat);
        }
    }
    assert forall|t: int| 0 <= t < out.s0@.len() implies #[trigger] out.s0@[t] == amplitude by {
        lemma_first_order::<R, P, A, E>(sa, a, engine, small, amplitude, out.s0@, t);
    }
    assert forall|i1: int, t: int|
        0 <= i1 < out.s1@.len() && 0 <= t < out.s1@[i1]@.len() implies #[trigger] out.s1@[i1]@[t]
        == product(a, amplitude, carrier_gain(sa, a, i1, j)) by {
        let u1 = lemma_tone_spectrum::<R, P, A, E>(sa, a, engine, x, j, amplitude, out, i1);
        let c = product(a, amplitude, carrier_gain(sa, a, i1, j));
        lemma_first_order::<R, P, A, E>(sa, a, engine, u1, c, out.s1@[i1]@, t);
    }
}

/// What the orders of carrier band `i1` of a run come from: the spectrum of the
/// block, and that of the envelope of the band.
pub proof fn lemma_behind<R: Copy, P, A: Arithmetic<R>, E: Engine<R, P>>(
    sa: &Geometry<R>,
    a: &A,
    engine: &E,
    x: Seq<Complex<R>>,
    out: &Scattergram<R>,
    i1: int,
) -> (behind: (Seq<Complex<R>>, Seq<Complex<R>>))
    requires
        sa.analysed::<P, A, E>(a, engine, x, out),
        0 <= i1 < out.s1@.len(),
    ensures
        transformed::<R, P, E>(engine, Direction::Forward, x, behind.0),
        sa.band_envelope::<P, A, E>(a, engine, i1, behind.0, behind.1),
        averaged::<R, P, A, E>(
            a,
            engine,
            sa.phi(sa.n1()),
            sa.n_out as int,
            behind.1,
            out.s1@[i1]@,
        ),
        forall|i2: int|
            0 <= i2 < out.second(i1).len() ==> sa.second_order::<P, A, E>(
                a,
                engine,
                i1,
                i2,
                behind.1,
                (#[trigger] out.second(i1)[i2])@,
            ),
{
    let spectrum = choose|spectrum: Seq<Complex<R>>|
        {
            &&& #[trigger] transformed::<R, P, E>(engine, Direction::Forward, x, spectrum)
            &&& forall|i: int|
                0 <= i < out.s1@.len() ==> sa.band_result::<P, A, E>(
                    a,
                    engine,
                    i,
                    spectrum,
                    (#[trigger] out.s1@[i])@,
                    out.second(i),
                )
        };
    let first = out.s1@[i1]@;
    let rows = out.second(i1);
    assert(sa.band_result::<P, A, E>(a, engine, i1, spectrum, first, rows));
    let u1 = choose|u1: Seq<Complex<R>>|
        {
            &&& #[trigger] sa.band_envelope::<P, A, E>(a, engine, i1, spectrum, u1)
            &&& averaged::<R, P, A, E>(
                a,
                engine,
                sa.phi(sa.n1()),
                sa.n_out as int,
                u1,
                first,
            )
            &&& forall|i2: int|
                0 <= i2 < rows.len() ==> sa.second_order::<P, A, E>(
                    a,
                    engine,
                    i1,
                    i2,
                    u1,
                    (#[trigger] rows[i2])@,
                )
        };
    (spectrum, u1)
}

/// The envelope of carrier band `i1` of a tone is constant.
proof fn lemma_tone_spectrum<R: Copy, P, A: Arithmetic<R>, E: Engine<R, P>>(
    sa: &Geometry<R>,
    a: &A,
    engine: &E,
    x: Seq<Complex<R>>,
    j: int,
    amplitude: R,
    out: &Scattergram<R>,
    i1: int,
) -> (u1: Seq<Complex<R>>)
    requires
        sa.wf(),
        exact(a),
        fourier::<R, P, A, E>(a, engine),
        keeps_length::<R, P, E>(engine),
        x.len() == sa.n,
        is_tone::<R, P, A, E>(a, engine, x, j, amplitude),
        sa.analysed::<P, A, E>(a, engine, x, out),
        0 <= i1 < out.s1@.len(),
    ensures
        u1.len() == sa.n1(),
        flat(a, u1, product(a, amplitude, carrier_gain(sa, a, i1, j))),
        averaged::<R, P, A, E>(
            a,
            engine,
            sa.phi(sa.n1()),
            sa.n_out as int,
            u1,
            out.s1@[i1]@,
        ),
        forall|i2: int|
            0 <= i2 < out.second(i1).len() ==> sa.second_order::<P, A, E>(
                a,
                engine,
                i1,
                i2,
                u1,
                (#[trigger] out.second(i1)[i2])@,
            ),
{
    let (spectrum, u1) = lemma_behind::<R, P, A, E>(sa, a, engine, x, out, i1);
    lemma_tone_band::<R, P, A, E>(sa, a, engine, i1, spectrum, j, amplitude, u1);
    u1
}

/// A filter has unit gain at its peak bin, if its band takes that bin in.
proof fn lemma_peak_bin<R: Copy, A: Arithmetic<R>>(sa: &Geometry<R>, a: &A, i1: int, j: int)
    requires
        sa.wf(),
        sa.realises(a, &sa.config, sa.n),
        exact(a),
        0 <= i1 < sa.bank1.wavelets@.len(),
        is_peak(a, sa.bank1.wavelets@[i1].spectrum@, j),
        takes_in(sa.n as int, sa.bands1@[i1], j),
    ensures
        carrier_gain(sa, a, i1, j) == num(a, 1),
{
    let w = sa.bank1.wavelets@[i1];
    let raw = periodised(a, sa.n, morlet_shape(a, w.xi, w.sigma));
    assert(w.is_morlet(a, w.xi, w.sigma, sa.n));
    let p = largest(a, num(a, 0), raw.map_values(|v: R| magnitude(a, v)));
    reveal(exact_ratios);
    if below(a, num(a, 0), p) {
        law_peak_gain_is_one(a, raw);
    }
}

/// Whether `j` is the bin where a response is largest, and it passes anything at
/// all there.
pub open spec fn is_peak<R, A: Arithmetic<R>>(a: &A, psi: Seq<R>, j: int) -> bool {
    &&& 0 <= j < psi.len()
    &&& magnitude(a, psi[j]) == largest(
        a,
        num(a, 0),
        psi.map_values(|v: R| magnitude(a, v)),
    )
    &&& below(a, num(a, 0), magnitude(a, psi[j]))
}

/// A tone on the peak of a filter reads its own amplitude there: the first order
/// is in the units of the input.
pub proof fn law_tone_on_a_peak_reads_its_amplitude<
    R: Copy,
    P,
    A: Arithmetic<R>,
    E: Engine<R, P>,
>(
    sa: &Geometry<R>,
    a: &A,
    engine: &E,
    x: Seq<Complex<R>>,
    j: int,
    amplitude: R,
    out: &Scattergram<R>,
    i1: int,
    t: int,
)
    requires
        sa.wf(),
        sa.realises(a, &sa.config, sa.n),
        exact(a),
        fourier::<R, P, A, E>(a, engine),
        keeps_length::<R, P, E>(engine),
        x.len() == sa.n,
        is_tone::<R, P, A, E>(a, engine, x, j, amplitude),
        sa.analysed::<P, A, E>(a, engine, x, out),
        0 <= i1 < out.s1@.len(),
        0 <= t < out.s1@[i1]@.len(),
        is_peak(a, sa.bank1.wavelets@[i1].spectrum@, j),
        takes_in(sa.n as int, sa.bands1@[i1], j),
    ensures
        out.s1@[i1]@[t] == amplitude,
{
    law_tone_reads_amplitude_times_gain::<R, P, A, E>(sa, a, engine, x, j, amplitude, out);
    lemma_peak_bin(sa, a, i1, j);
    lemma_one_times(a, amplitude);
}

/// The second order of an unmodulated tone: nothing where a rate is beyond its
/// band, and elsewhere the first order times what the modulation filter passes
/// at DC, which is all there is to a constant envelope.
pub proof fn law_unmodulated_tone_leaves_only_dc<
    R: Copy,
    P,
    A: Arithmetic<R>,
    E: Engine<R, P>,
>(
    sa: &Geometry<R>,
    a: &A,
    engine: &E,
    x: Seq<Complex<R>>,
    j: int,
    amplitude: R,
    out: &Scattergram<R>,
    i1: int,
    i2: int,
    t: int,
)
    requires
        sa.wf(),
        sa.realises(a, &sa.config, sa.n),
        exact(a),
        fourier::<R, P, A, E>(a, engine),
        keeps_length::<R, P, E>(engine),
        x.len() == sa.n,
        magnitude(a, amplitude) == amplitude,
        is_tone::<R, P, A, E>(a, engine, x, j, amplitude),
        sa.analysed::<P, A, E>(a, engine, x, out),
        0 <= i1 < out.s2@.len(),
        0 <= i2 < out.s2@[i1]@.len(),
        0 <= t < out.s2@[i1]@[i2]@.len(),
    ensures
        out.s2@[i1]@[i2]@[t] == (if sa.beyond(a, i1, i2) {
            num(a, 0)
        } else {
            product(
                a,
                product(a, amplitude, carrier_gain(sa, a, i1, j)),
                rate_gain(sa, a, i2, 0),
            )
        }),
{
    let row = out.s2@[i1]@[i2]@;
    assert(row == out.second(i1)[i2]@);
    let u1 = lemma_tone_spectrum::<R, P, A, E>(sa, a, engine, x, j, amplitude, out, i1);
    let g = carrier_gain(sa, a, i1, j);
    let c = product(a, amplitude, g);
    assert(sa.second_order::<P, A, E>(a, engine, i1, i2, u1, row));
    if !sa.beyond(a, i1, i2) {
        let value = product(a, c, num(a, u1.len() as u64));
        assert(modulus(a, u1[0]) == value) by {
            reveal(exact_sizes);
            assert(magnitude(a, g) == g);
            assert(magnitude(a, c) == c);
            assert(magnitude(a, value) == value);
        }
        lemma_line::<R, P, A, E>(
            sa,
            a,
            engine,
            i1,
            i2,
            u1,
            0,
            c,
            row,
            t,
        );
    }
}

} // verus!
