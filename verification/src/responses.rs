//! What the responses of filters are, as the real numbers that they stand for.

use vstd::prelude::*;

use crate::arithmetic::{
    below, difference, exponential, fraction, largest, logarithm, magnitude, negative, num, product,
    quotient, sum, turn, Arithmetic,
};
use crate::filterbank::{
    bin_freq, bin_frequency, default_r, gauss, gauss_hat, gauss_shape, half_power_width, imaged,
    lowest_centre, lowpass, min_xi_for_length, morlet, morlet_hat, morlet_shape, periodised,
    sigma_min_for_length, sigma_to_bw, support_limit, twice_square, BankSpec, FilterBank, Wavelet,
};
use crate::planes::{lemma_group, lemma_same};
use crate::reals::{
    faithful, faithful_exponentials, faithful_magnitudes, lemma_fraction_value, lemma_quarter,
    lemma_quotient, size, Meaning,
};
use crate::sizing::lemma_bandwidth;
use crate::tiling::faithful_powers;

verus! {

// On the real line.

/// Whether `g` is the value of a Gaussian of standard deviation `s`, a distance `v` from
/// its peak of one: its logarithm is the square of the distance, over twice the square of
/// the standard deviation, below zero.
pub open spec fn is_gaussian<R, A: Arithmetic<R>>(
    a: &A,
    m: Meaning<R>,
    g: R,
    v: real,
    s: real,
) -> bool {
    &&& m.of(g) > 0real
    &&& m.of(logarithm(a, g)) * (2real * (s * s)) == -(v * v)
}

/// A lowpass response is a Gaussian.
pub proof fn law_lowpass_is_gaussian<R: Copy, A: Arithmetic<R>>(
    a: &A,
    m: Meaning<R>,
    w: R,
    sigma: R,
    g: R,
)
    requires
        faithful(a, m),
        faithful_powers(a, m),
        faithful_exponentials(a, m),
        m.of(sigma) > 0real,
        call_ensures(gauss_hat::<R, A>, (a, w, sigma), g),
    ensures
        is_gaussian(a, m, g, m.of(w), m.of(sigma)),
{
    lemma_gaussian(a, m, w, sigma);
}

proof fn lemma_gaussian<R, A: Arithmetic<R>>(a: &A, m: Meaning<R>, w: R, sigma: R)
    requires
        faithful(a, m),
        faithful_powers(a, m),
        faithful_exponentials(a, m),
        m.of(sigma) > 0real,
    ensures
        is_gaussian(a, m, gauss(a, w, sigma), m.of(w), m.of(sigma)),
{
    let (v, s) = (m.of(w), m.of(sigma));
    lemma_spread(a, m, sigma);
    let top = product(a, negative(a, w), w);
    assert(m.of(top) == (-v) * v) by {
        reveal(faithful);
        reveal(faithful_powers);
    }
    assert((-v) * v == -(v * v)) by (nonlinear_arith);
    lemma_quotient(a, m, top, twice_square(a, sigma));
    reveal(faithful_exponentials);
}

proof fn lemma_spread<R, A: Arithmetic<R>>(a: &A, m: Meaning<R>, sigma: R)
    requires
        faithful(a, m),
        m.of(sigma) > 0real,
    ensures
        m.of(twice_square(a, sigma)) == 2real * (m.of(sigma) * m.of(sigma)),
        m.of(twice_square(a, sigma)) > 0real,
{
    let s = m.of(sigma);
    assert(m.of(twice_square(a, sigma)) == (2real * s) * s) by {
        reveal(faithful);
        assert(m.of(num(a, 2)) == 2real);
    }
    lemma_group(2real, s, s);
    assert(2real * (s * s) > 0real) by (nonlinear_arith)
        requires
            s > 0real,
    ;
}

/// Two values with one logarithm are the same.
proof fn lemma_one_logarithm<R, A: Arithmetic<R>>(a: &A, m: Meaning<R>, x: R, y: R)
    requires
        faithful_exponentials(a, m),
        m.of(x) > 0real,
        m.of(y) > 0real,
        m.of(logarithm(a, x)) == m.of(logarithm(a, y)),
    ensures
        m.of(x) == m.of(y),
{
    reveal(faithful_exponentials);
    assert(m.of(exponential(a, logarithm(a, x))) == m.of(x));
    assert(m.of(exponential(a, logarithm(a, y))) == m.of(y));
}

/// Gaussians as far from their peaks, and as wide, are the same.
pub proof fn lemma_one_gaussian<R, A: Arithmetic<R>>(
    a: &A,
    m: Meaning<R>,
    x: R,
    y: R,
    v: real,
    w: real,
    s: real,
)
    requires
        faithful_exponentials(a, m),
        s > 0real,
        is_gaussian(a, m, x, v, s),
        is_gaussian(a, m, y, w, s),
        v == w || v == -w,
    ensures
        m.of(x) == m.of(y),
{
    let k = 2real * (s * s);
    assert(k > 0real) by (nonlinear_arith)
        requires
            k == 2real * (s * s),
            s > 0real,
    ;
    assert((-w) * (-w) == w * w) by (nonlinear_arith);
    lemma_same(k, m.of(logarithm(a, x)), m.of(logarithm(a, y)));
    lemma_one_logarithm(a, m, x, y);
}

/// A Morlet response is a Gaussian about its centre, less as much of one about zero as
/// cancels it there: `about`, `at` and `down` are a Gaussian as far as the frequency is
/// from the centre, as far as the centre is from zero, and as far as the frequency is.
pub proof fn law_morlet_is_a_gaussian_less_one_at_dc<R: Copy, A: Arithmetic<R>>(
    a: &A,
    m: Meaning<R>,
    w: R,
    xi: R,
    sigma: R,
    r: R,
    about: R,
    at: R,
    down: R,
)
    requires
        faithful(a, m),
        faithful_powers(a, m),
        faithful_exponentials(a, m),
        m.of(sigma) > 0real,
        call_ensures(morlet_hat::<R, A>, (a, w, xi, sigma), r),
        is_gaussian(a, m, about, m.of(w) - m.of(xi), m.of(sigma)),
        is_gaussian(a, m, at, m.of(xi), m.of(sigma)),
        is_gaussian(a, m, down, m.of(w), m.of(sigma)),
    ensures
        m.of(r) == m.of(about) - m.of(at) * m.of(down),
        m.of(w) == 0real ==> m.of(r) == 0real,
{
    let (v, x, s) = (m.of(w), m.of(xi), m.of(sigma));
    let off = difference(a, w, xi);
    let top = negative(a, product(a, off, off));
    let d = v - x;
    assert(m.of(top) == -(d * d)) by {
        reveal(faithful);
        reveal(faithful_powers);
    }
    lemma_spread(a, m, sigma);
    lemma_quotient(a, m, top, twice_square(a, sigma));
    let gabor = exponential(a, quotient(a, top, twice_square(a, sigma)));
    assert(is_gaussian(a, m, gabor, d, s)) by {
        reveal(faithful_exponentials);
    }
    lemma_one_gaussian(a, m, gabor, about, d, d, s);
    lemma_gaussian(a, m, xi, sigma);
    lemma_one_gaussian(a, m, gauss(a, xi, sigma), at, x, x, s);
    lemma_gaussian(a, m, w, sigma);
    lemma_one_gaussian(a, m, gauss(a, w, sigma), down, v, v, s);
    assert(m.of(r) == m.of(gabor) - m.of(gauss(a, xi, sigma)) * m.of(gauss(a, w, sigma))) by {
        reveal(faithful);
    }
    if v == 0real {
        lemma_one_gaussian(a, m, about, at, d, x, s);
        lemma_unit(a, m, down, s);
        let p = m.of(at);
        assert(p * 1real == p) by (nonlinear_arith);
    }
}

/// A Gaussian is one at its peak.
pub proof fn lemma_unit<R, A: Arithmetic<R>>(a: &A, m: Meaning<R>, g: R, s: real)
    requires
        faithful(a, m),
        faithful_exponentials(a, m),
        s > 0real,
        is_gaussian(a, m, g, 0real, s),
    ensures
        m.of(g) == 1real,
{
    let k = 2real * (s * s);
    assert(k > 0real) by (nonlinear_arith)
        requires
            k == 2real * (s * s),
            s > 0real,
    ;
    let l = logarithm(a, g);
    let x = m.of(l);
    assert(0real * 0real == 0real && 0real * k == 0real) by (nonlinear_arith);
    lemma_same(k, x, 0real);
    let e = m.of(exponential(a, l));
    assert(e == m.of(g) && e == e * e && e > 0real) by {
        reveal(faithful_exponentials);
    }
    assert(1real * e == e) by (nonlinear_arith);
    lemma_same(e, e, 1real);
}

// On a grid.

/// The bins of a grid stand for the frequencies from just above minus a half to a half,
/// in cycles per sample: a bin in the upper half of the grid for what lies one cycle
/// below.
pub proof fn law_bins_stand_for_frequencies<R: Copy, A: Arithmetic<R>>(
    a: &A,
    m: Meaning<R>,
    k: usize,
    n: usize,
    w: R,
)
    requires
        faithful(a, m),
        k < n,
        call_ensures(bin_freq::<R, A>, (a, k, n), w),
    ensures
        -1real < 2real * m.of(w) <= 1real,
        m.of(w) * (n as real) == k as real || m.of(w) * (n as real) == k as real - n as real,
{
    lemma_bin(a, m, k, n);
    let (x, r) = (m.of(w), n as real);
    let y = x * r;
    assert(-r < 2real * y <= r);
    if 2real * x > 1real {
        assert(2real * (x * r) > r) by (nonlinear_arith)
            requires
                2real * x > 1real,
                r >= 1real,
        ;
    }
    if 2real * x <= -1real {
        assert(2real * (x * r) <= -r) by (nonlinear_arith)
            requires
                2real * x <= -1real,
                r >= 1real,
        ;
    }
}

proof fn lemma_bin<R: Copy, A: Arithmetic<R>>(a: &A, m: Meaning<R>, k: usize, n: usize)
    requires
        faithful(a, m),
        k < n,
    ensures
        m.of(bin_frequency(a, k, n)) * (n as real) == (if 2 * k <= n {
            k as real
        } else {
            k as real - n as real
        }),
{
    let d = num(a, n as u64);
    assert(m.of(d) == n as real && m.of(num(a, k as u64)) == k as real) by {
        reveal(faithful);
    }
    if 2 * k <= n {
        lemma_fraction_value(a, m, k as u64, n as u64);
    } else {
        let top = difference(a, num(a, k as u64), d);
        assert(m.of(top) == k as real - n as real) by {
            reveal(faithful);
        }
        lemma_quotient(a, m, top, d);
    }
}

/// Whether `v` is the sum of a Gaussian of standard deviation `s` at a frequency of `w`
/// and of its images one cycle to either side.
pub open spec fn is_lapped<R, A: Arithmetic<R>>(
    a: &A,
    m: Meaning<R>,
    v: real,
    w: real,
    s: real,
) -> bool {
    exists|x: R, y: R, z: R|
        {
            &&& #[trigger] is_gaussian(a, m, x, w - 1real, s)
            &&& #[trigger] is_gaussian(a, m, y, w, s)
            &&& #[trigger] is_gaussian(a, m, z, w + 1real, s)
            &&& v == m.of(x) + m.of(y) + m.of(z)
        }
}

proof fn lemma_lapped<R: Copy, A: Arithmetic<R>>(a: &A, m: Meaning<R>, w: R, sigma: R)
    requires
        faithful(a, m),
        faithful_powers(a, m),
        faithful_exponentials(a, m),
        m.of(sigma) > 0real,
    ensures
        is_lapped(a, m, m.of(imaged(a, gauss_shape(a, sigma), w)), m.of(w), m.of(sigma)),
        m.of(imaged(a, gauss_shape(a, sigma), w)) > 0real,
{
    let (lo, at, hi) = (
        sum(a, w, negative(a, num(a, 1))),
        sum(a, w, num(a, 0)),
        sum(a, w, num(a, 1)),
    );
    let v = m.of(w);
    assert(m.of(lo) == v - 1real && m.of(at) == v && m.of(hi) == v + 1real) by {
        reveal(faithful);
        reveal(faithful_powers);
        assert(m.of(num(a, 0)) == 0real && m.of(num(a, 1)) == 1real);
    }
    lemma_gaussian(a, m, lo, sigma);
    lemma_gaussian(a, m, at, sigma);
    lemma_gaussian(a, m, hi, sigma);
    let (x, y, z) = (gauss(a, lo, sigma), gauss(a, at, sigma), gauss(a, hi, sigma));
    assert(m.of(imaged(a, gauss_shape(a, sigma), w)) == m.of(x) + m.of(y) + m.of(z)) by {
        reveal(faithful);
        assert(m.of(num(a, 0)) == 0real);
    }
}

/// Sums of the same Gaussians are the same; and so are those of their mirror images.
proof fn lemma_one_lapped<R, A: Arithmetic<R>>(
    a: &A,
    m: Meaning<R>,
    u: real,
    v: real,
    w: real,
    x: real,
    s: real,
)
    requires
        faithful_exponentials(a, m),
        s > 0real,
        is_lapped(a, m, u, w, s),
        is_lapped(a, m, v, x, s),
        w == x || w == -x,
    ensures
        u == v,
{
    let (p, q, r) = choose|p: R, q: R, r: R|
        {
            &&& #[trigger] is_gaussian(a, m, p, w - 1real, s)
            &&& #[trigger] is_gaussian(a, m, q, w, s)
            &&& #[trigger] is_gaussian(a, m, r, w + 1real, s)
            &&& u == m.of(p) + m.of(q) + m.of(r)
        };
    let (p2, q2, r2) = choose|p: R, q: R, r: R|
        {
            &&& #[trigger] is_gaussian(a, m, p, x - 1real, s)
            &&& #[trigger] is_gaussian(a, m, q, x, s)
            &&& #[trigger] is_gaussian(a, m, r, x + 1real, s)
            &&& v == m.of(p) + m.of(q) + m.of(r)
        };
    lemma_one_gaussian(a, m, q, q2, w, x, s);
    if w == x {
        lemma_one_gaussian(a, m, p, p2, w - 1real, x - 1real, s);
        lemma_one_gaussian(a, m, r, r2, w + 1real, x + 1real, s);
    } else {
        lemma_one_gaussian(a, m, p, r2, w - 1real, x + 1real, s);
        lemma_one_gaussian(a, m, r, p2, w + 1real, x - 1real, s);
    }
}

/// An averaging kernel on a grid is a Gaussian lowpass with its images, scaled to a gain
/// of one at zero; it is the same on either side of zero.
pub proof fn law_kernel_is_a_unit_lowpass<R: Copy, A: Arithmetic<R>>(
    a: &A,
    m: Meaning<R>,
    n: usize,
    sigma: R,
    phi: Vec<R>,
    k: usize,
    w: R,
    v: real,
    dc: real,
)
    requires
        faithful(a, m),
        faithful_powers(a, m),
        faithful_exponentials(a, m),
        m.of(sigma) > 0real,
        k < n,
        call_ensures(lowpass::<R, A>, (a, n, sigma), phi),
        call_ensures(bin_freq::<R, A>, (a, k, n), w),
        is_lapped(a, m, v, m.of(w), m.of(sigma)),
        is_lapped(a, m, dc, 0real, m.of(sigma)),
    ensures
        phi@.len() == n,
        m.of(phi@[0]) == 1real,
        m.of(phi@[k as int]) > 0real,
        m.of(phi@[k as int]) * dc == v,
        k > 0 ==> m.of(phi@[n - k]) == m.of(phi@[k as int]),
{
    let s = m.of(sigma);
    let shape = gauss_shape(a, sigma);
    let raw = periodised(a, n, shape);
    let w0 = bin_frequency(a, 0, n);
    lemma_bin(a, m, 0, n);
    lemma_bin(a, m, k, n);
    let r = n as real;
    assert(0real * r == 0real) by (nonlinear_arith);
    lemma_same(r, m.of(w0), 0real);
    lemma_lapped(a, m, w0, sigma);
    lemma_lapped(a, m, w, sigma);
    assert(raw[0] == imaged(a, shape, w0) && raw[k as int] == imaged(a, shape, w));
    lemma_one_lapped(a, m, m.of(raw[0]), dc, 0real, 0real, s);
    lemma_one_lapped(a, m, m.of(raw[k as int]), v, m.of(w), m.of(w), s);
    lemma_quotient(a, m, raw[k as int], raw[0]);
    lemma_quotient(a, m, raw[0], raw[0]);
    assert(1real * dc == dc) by (nonlinear_arith);
    lemma_same(dc, m.of(phi@[0]), 1real);
    let p = m.of(phi@[k as int]);
    assert(p > 0real) by (nonlinear_arith)
        requires
            p * dc == v,
            v > 0real,
            dc > 0real,
    ;
    if k > 0 {
        let l = (n - k) as usize;
        lemma_bin(a, m, l, n);
        let wl = bin_frequency(a, l, n);
        let (x, y) = (m.of(w), m.of(wl));
        if 2 * k != n {
            assert((-x) * r == -(x * r)) by (nonlinear_arith);
            lemma_same(r, y, -x);
        } else {
            lemma_same(r, y, x);
        }
        lemma_lapped(a, m, wl, sigma);
        assert(raw[l as int] == imaged(a, shape, wl));
        lemma_one_lapped(a, m, m.of(raw[l as int]), v, y, x, s);
        lemma_quotient(a, m, raw[l as int], raw[0]);
        lemma_same(dc, m.of(phi@[l as int]), p);
    }
}

/// Whether `v` is the value of a Morlet response at a frequency of `w`: of a Gaussian
/// about `xi`, less as much of one about zero as cancels it there.
pub open spec fn is_admissible<R, A: Arithmetic<R>>(
    a: &A,
    m: Meaning<R>,
    v: real,
    w: real,
    xi: real,
    s: real,
) -> bool {
    exists|about: R, at: R, down: R|
        {
            &&& #[trigger] is_gaussian(a, m, about, w - xi, s)
            &&& #[trigger] is_gaussian(a, m, at, xi, s)
            &&& #[trigger] is_gaussian(a, m, down, w, s)
            &&& v == m.of(about) - m.of(at) * m.of(down)
        }
}

/// Whether `v` is the sum of a Morlet response at a frequency of `w` and of its images
/// one cycle to either side.
pub open spec fn is_lapped_morlet<R, A: Arithmetic<R>>(
    a: &A,
    m: Meaning<R>,
    v: real,
    w: real,
    xi: real,
    s: real,
) -> bool {
    exists|x: real, y: real, z: real|
        {
            &&& #[trigger] is_admissible(a, m, x, w - 1real, xi, s)
            &&& #[trigger] is_admissible(a, m, y, w, xi, s)
            &&& #[trigger] is_admissible(a, m, z, w + 1real, xi, s)
            &&& v == x + y + z
        }
}

proof fn lemma_admissible<R: Copy, A: Arithmetic<R>>(
    a: &A,
    m: Meaning<R>,
    w: R,
    xi: R,
    sigma: R,
)
    requires
        faithful(a, m),
        faithful_powers(a, m),
        faithful_exponentials(a, m),
        m.of(sigma) > 0real,
    ensures
        is_admissible(a, m, m.of(morlet(a, w, xi, sigma)), m.of(w), m.of(xi), m.of(sigma)),
{
    let (v, x, s) = (m.of(w), m.of(xi), m.of(sigma));
    let off = difference(a, w, xi);
    let top = negative(a, product(a, off, off));
    let d = v - x;
    assert(m.of(top) == -(d * d)) by {
        reveal(faithful);
        reveal(faithful_powers);
    }
    lemma_spread(a, m, sigma);
    lemma_quotient(a, m, top, twice_square(a, sigma));
    let gabor = exponential(a, quotient(a, top, twice_square(a, sigma)));
    assert(is_gaussian(a, m, gabor, v - x, s)) by {
        reveal(faithful_exponentials);
    }
    lemma_gaussian(a, m, xi, sigma);
    lemma_gaussian(a, m, w, sigma);
    assert(m.of(morlet(a, w, xi, sigma)) == m.of(gabor) - m.of(gauss(a, xi, sigma)) * m.of(
        gauss(a, w, sigma),
    )) by {
        reveal(faithful);
    }
}

proof fn lemma_lapped_morlet<R: Copy, A: Arithmetic<R>>(
    a: &A,
    m: Meaning<R>,
    w: R,
    xi: R,
    sigma: R,
)
    requires
        faithful(a, m),
        faithful_powers(a, m),
        faithful_exponentials(a, m),
        m.of(sigma) > 0real,
    ensures
        is_lapped_morlet(
            a,
            m,
            m.of(imaged(a, morlet_shape(a, xi, sigma), w)),
            m.of(w),
            m.of(xi),
            m.of(sigma),
        ),
{
    let (lo, at, hi) = (
        sum(a, w, negative(a, num(a, 1))),
        sum(a, w, num(a, 0)),
        sum(a, w, num(a, 1)),
    );
    let v = m.of(w);
    assert(m.of(lo) == v - 1real && m.of(at) == v && m.of(hi) == v + 1real) by {
        reveal(faithful);
        reveal(faithful_powers);
        assert(m.of(num(a, 0)) == 0real && m.of(num(a, 1)) == 1real);
    }
    lemma_admissible(a, m, lo, xi, sigma);
    lemma_admissible(a, m, at, xi, sigma);
    lemma_admissible(a, m, hi, xi, sigma);
    let (x, y, z) = (
        morlet(a, lo, xi, sigma),
        morlet(a, at, xi, sigma),
        morlet(a, hi, xi, sigma),
    );
    assert(m.of(imaged(a, morlet_shape(a, xi, sigma), w)) == m.of(x) + m.of(y) + m.of(z)) by {
        reveal(faithful);
        assert(m.of(num(a, 0)) == 0real);
    }
}

/// The largest of some magnitudes.
proof fn lemma_largest<R, A: Arithmetic<R>>(a: &A, m: Meaning<R>, xs: Seq<R>)
    requires
        faithful(a, m),
        faithful_magnitudes(a, m),
    ensures
        ({
            let peak = m.of(largest(a, num(a, 0), xs.map_values(|v: R| magnitude(a, v))));
            &&& peak >= 0real
            &&& forall|i: int| 0 <= i < xs.len() ==> size(m.of(#[trigger] xs[i])) <= peak
            &&& peak > 0real ==> exists|i: int|
                0 <= i < xs.len() && size(m.of(#[trigger] xs[i])) == peak
        }),
    decreases xs.len(),
{
    let sizes = xs.map_values(|v: R| magnitude(a, v));
    let peak = m.of(largest(a, num(a, 0), sizes));
    assert(m.of(num(a, 0)) == 0real) by {
        reveal(faithful);
    }
    if xs.len() > 0 {
        let rest = xs.drop_last();
        lemma_largest(a, m, rest);
        assert(sizes.drop_last() =~= rest.map_values(|v: R| magnitude(a, v)));
        let before = m.of(largest(a, num(a, 0), sizes.drop_last()));
        let last = size(m.of(xs.last()));
        assert(m.of(sizes.last()) == last) by {
            reveal(faithful_magnitudes);
        }
        assert(peak == if before >= last {
            before
        } else {
            last
        }) by {
            reveal(faithful);
        }
        assert forall|i: int| 0 <= i < xs.len() implies size(m.of(#[trigger] xs[i])) <= peak by {
            if i < rest.len() {
                assert(rest[i] == xs[i]);
            }
        }
        if peak > 0real {
            if before >= last {
                let i = choose|i: int|
                    0 <= i < rest.len() && size(m.of(#[trigger] rest[i])) == before;
                assert(rest[i] == xs[i]);
                assert(size(m.of(xs[i])) == peak);
            } else {
                assert(size(m.of(xs[xs.len() - 1])) == peak);
            }
        }
    }
}

/// Whether `spectrum` is a Morlet response at `xi` on a grid, scaled to a peak gain of
/// one: `peak` times the gain of each bin is the response at its frequency, with images;
/// and no gain is more than one, but some is one, if any is not zero.
pub open spec fn is_unit_morlet<R: Copy, A: Arithmetic<R>>(
    a: &A,
    m: Meaning<R>,
    spectrum: Seq<R>,
    xi: real,
    s: real,
    peak: real,
) -> bool {
    &&& peak > 0real
    &&& forall|k: int|
        0 <= k < spectrum.len() ==> {
            &&& is_lapped_morlet(
                a,
                m,
                m.of(#[trigger] spectrum[k]) * peak,
                if 2 * k <= spectrum.len() {
                    k as real / spectrum.len() as real
                } else {
                    (k - spectrum.len()) as real / spectrum.len() as real
                },
                xi,
                s,
            )
            &&& size(m.of(spectrum[k])) <= 1real
        }
    &&& (exists|k: int| 0 <= k < spectrum.len() && m.of(#[trigger] spectrum[k]) != 0real) ==> (
    exists|k: int| 0 <= k < spectrum.len() && size(m.of(#[trigger] spectrum[k])) == 1real)
}

/// Every filter of a bank is a Morlet response of its own centre and width, scaled to a
/// peak gain of one.
pub proof fn law_filters_are_unit_morlets<R: Copy, A: Arithmetic<R>>(
    a: &A,
    m: Meaning<R>,
    spec: BankSpec<R>,
    n: usize,
    invariance_samples: R,
    bank: FilterBank<R>,
    i: int,
) -> (peak: real)
    requires
        faithful(a, m),
        faithful_powers(a, m),
        faithful_exponentials(a, m),
        faithful_magnitudes(a, m),
        call_ensures(FilterBank::<R>::new::<A>, (a, spec, n, invariance_samples), bank),
        0 <= i < bank.wavelets@.len(),
        m.of(bank.wavelets@[i].sigma) > 0real,
    ensures
        bank.wavelets@[i].spectrum@.len() == n,
        is_unit_morlet(
            a,
            m,
            bank.wavelets@[i].spectrum@,
            m.of(bank.wavelets@[i].xi),
            m.of(bank.wavelets@[i].sigma),
            peak,
        ),
{
    let w = bank.wavelets@[i];
    let (xi, sigma) = (w.xi, w.sigma);
    let shape = morlet_shape(a, xi, sigma);
    let raw = periodised(a, n, shape);
    let spectrum = w.spectrum@;
    lemma_largest(a, m, raw);
    let most = largest(a, num(a, 0), raw.map_values(|v: R| magnitude(a, v)));
    let top = m.of(most);
    let positive = top > 0real;
    assert(below(a, num(a, 0), most) == positive) by {
        reveal(faithful);
        assert(m.of(num(a, 0)) == 0real);
    }
    let peak = if positive {
        top
    } else {
        1real
    };
    assert forall|k: int| 0 <= k < n implies m.of(#[trigger] spectrum[k]) * peak == m.of(
        raw[k],
    ) by {
        if positive {
            lemma_quotient(a, m, raw[k], most);
        } else {
            let v = m.of(raw[k]);
            assert(v * 1real == v) by (nonlinear_arith);
        }
    }
    assert forall|k: int| 0 <= k < n implies {
        &&& is_lapped_morlet(
            a,
            m,
            m.of(#[trigger] spectrum[k]) * peak,
            if 2 * k <= n {
                k as real / n as real
            } else {
                (k - n) as real / n as real
            },
            m.of(xi),
            m.of(sigma),
        )
        &&& size(m.of(spectrum[k])) <= 1real
    } by {
        let freq = bin_frequency(a, k as usize, n);
        lemma_bin(a, m, k as usize, n);
        lemma_over(m.of(freq), n as real);
        lemma_lapped_morlet(a, m, freq, xi, sigma);
        assert(raw[k] == imaged(a, shape, freq));
        lemma_scaled_size(m.of(spectrum[k]), peak);
        assert(size(m.of(raw[k])) <= top);
        let (x, p) = (size(m.of(spectrum[k])), peak);
        if x > 1real {
            assert(x * p > p) by (nonlinear_arith)
                requires
                    x > 1real,
                    p > 0real,
            ;
        }
    }
    if positive {
        let k = choose|k: int| 0 <= k < raw.len() && size(m.of(#[trigger] raw[k])) == top;
        lemma_scaled_size(m.of(spectrum[k]), peak);
        assert(1real * top == top) by (nonlinear_arith);
        lemma_same(top, size(m.of(spectrum[k])), 1real);
    } else {
        assert forall|k: int| 0 <= k < n implies m.of(#[trigger] spectrum[k]) == 0real by {
            assert(size(m.of(raw[k])) <= top);
        }
    }
    peak
}

/// A Morlet response is the same on the other side of zero about an opposite centre.
proof fn lemma_one_admissible<R, A: Arithmetic<R>>(
    a: &A,
    m: Meaning<R>,
    u: real,
    v: real,
    w: real,
    xi: real,
    s: real,
)
    requires
        faithful_exponentials(a, m),
        s > 0real,
        is_admissible(a, m, u, w, xi, s),
        is_admissible(a, m, v, -w, -xi, s),
    ensures
        u == v,
{
    let (p, q, r) = choose|p: R, q: R, r: R|
        {
            &&& #[trigger] is_gaussian(a, m, p, w - xi, s)
            &&& #[trigger] is_gaussian(a, m, q, xi, s)
            &&& #[trigger] is_gaussian(a, m, r, w, s)
            &&& u == m.of(p) - m.of(q) * m.of(r)
        };
    let (p2, q2, r2) = choose|p: R, q: R, r: R|
        {
            &&& #[trigger] is_gaussian(a, m, p, (-w) - (-xi), s)
            &&& #[trigger] is_gaussian(a, m, q, -xi, s)
            &&& #[trigger] is_gaussian(a, m, r, -w, s)
            &&& v == m.of(p) - m.of(q) * m.of(r)
        };
    lemma_one_gaussian(a, m, p, p2, w - xi, (-w) - (-xi), s);
    lemma_one_gaussian(a, m, q, q2, xi, -xi, s);
    lemma_one_gaussian(a, m, r, r2, w, -w, s);
}

/// So is the sum of one and its images.
proof fn lemma_one_lapped_morlet<R, A: Arithmetic<R>>(
    a: &A,
    m: Meaning<R>,
    u: real,
    v: real,
    w: real,
    xi: real,
    s: real,
)
    requires
        faithful_exponentials(a, m),
        s > 0real,
        is_lapped_morlet(a, m, u, w, xi, s),
        is_lapped_morlet(a, m, v, -w, -xi, s),
    ensures
        u == v,
{
    let (x, y, z) = choose|x: real, y: real, z: real|
        {
            &&& #[trigger] is_admissible(a, m, x, w - 1real, xi, s)
            &&& #[trigger] is_admissible(a, m, y, w, xi, s)
            &&& #[trigger] is_admissible(a, m, z, w + 1real, xi, s)
            &&& u == x + y + z
        };
    let (x2, y2, z2) = choose|x: real, y: real, z: real|
        {
            &&& #[trigger] is_admissible(a, m, x, (-w) - 1real, -xi, s)
            &&& #[trigger] is_admissible(a, m, y, -w, -xi, s)
            &&& #[trigger] is_admissible(a, m, z, (-w) + 1real, -xi, s)
            &&& v == x + y + z
        };
    assert((-w) - 1real == -(w + 1real) && (-w) + 1real == -(w - 1real));
    lemma_one_admissible(a, m, x, z2, w - 1real, xi, s);
    lemma_one_admissible(a, m, y, y2, w, xi, s);
    lemma_one_admissible(a, m, z, x2, w + 1real, xi, s);
}

/// Filters about opposite centres, and as wide, pass opposite bins alike, but for the
/// factor that makes the peak of each one. The bin at half the sample rate, which is its
/// own opposite, is left out: it stands for one side only.
pub proof fn law_mirrored_filters_pass_opposite_bins<R: Copy, A: Arithmetic<R>>(
    a: &A,
    m: Meaning<R>,
    x: Seq<R>,
    y: Seq<R>,
    xi: real,
    s: real,
    top: real,
    peak: real,
    k: int,
)
    requires
        faithful_exponentials(a, m),
        s > 0real,
        x.len() == y.len(),
        is_unit_morlet(a, m, x, xi, s, top),
        is_unit_morlet(a, m, y, -xi, s, peak),
        0 < k < x.len(),
        2 * k != x.len(),
    ensures
        m.of(x[k]) * top == m.of(y[x.len() - k]) * peak,
{
    let n = x.len() as int;
    let l = n - k;
    let (u, v) = (m.of(x[k]) * top, m.of(y[l]) * peak);
    let r = n as real;
    let w = if 2 * k <= n {
        k as real / r
    } else {
        (k - n) as real / r
    };
    let far = if 2 * l <= n {
        l as real / r
    } else {
        (l - n) as real / r
    };
    assert(is_lapped_morlet(a, m, u, w, xi, s));
    assert(is_lapped_morlet(a, m, v, far, -xi, s));
    let t = k as real;
    if 2 * k <= n {
        assert((l - n) as real == -t);
        assert((-t) / r == -(t / r)) by (nonlinear_arith)
            requires
                r > 0real,
        ;
    } else {
        let d = l as real;
        assert((k - n) as real == -d);
        assert((-d) / r == -(d / r)) by (nonlinear_arith)
            requires
                r > 0real,
        ;
    }
    assert(far == -w);
    lemma_one_lapped_morlet(a, m, u, v, w, xi, s);
}

proof fn lemma_over(x: real, n: real)
    requires
        n > 0real,
    ensures
        (x * n) / n == x,
{
    assert((x * n) / n == x) by (nonlinear_arith)
        requires
            n > 0real,
    ;
}

proof fn lemma_scaled_size(x: real, k: real)
    requires
        k > 0real,
    ensures
        size(x * k) == size(x) * k,
{
    if x >= 0real {
        assert(x * k >= 0real) by (nonlinear_arith)
            requires
                x >= 0real,
                k > 0real,
        ;
    } else {
        assert(x * k < 0real) by (nonlinear_arith)
            requires
                x < 0real,
                k > 0real,
        ;
        assert((-x) * k == -(x * k)) by (nonlinear_arith);
    }
}

// Lengths and levels.

/// A filter of width `sigma` lasts for six standard deviations of a Gaussian in time
/// that goes with it, which is one over a turn times as wide.
pub proof fn law_wider_filters_are_shorter<R: Copy, A: Arithmetic<R>>(
    a: &A,
    m: Meaning<R>,
    w: &Wavelet<R>,
    r: R,
)
    requires
        faithful(a, m),
        m.of(w.sigma) > 0real,
        call_ensures(Wavelet::<R>::time_support::<A>, (w, a), r),
    ensures
        m.of(r) * (2real * m.of(a.circle_ratio()) * m.of(w.sigma)) == 6real,
{
    lemma_turn(a, m);
    let (t, s) = (m.of(turn(a)), m.of(w.sigma));
    let d = product(a, turn(a), w.sigma);
    assert(m.of(d) == t * s && m.of(num(a, 6)) == 6real) by {
        reveal(faithful);
    }
    assert(t * s > 0real) by (nonlinear_arith)
        requires
            t > 0real,
            s > 0real,
    ;
    lemma_quotient(a, m, num(a, 6), d);
}

proof fn lemma_turn<R, A: Arithmetic<R>>(a: &A, m: Meaning<R>)
    requires
        faithful(a, m),
    ensures
        m.of(turn(a)) == 2real * m.of(a.circle_ratio()),
        m.of(turn(a)) > 0real,
{
    reveal(faithful);
    assert(m.of(num(a, 2)) == 2real);
}

/// The narrowest filter that fits a block lasts for a quarter of it, and the lowest
/// centre frequency there is room for is one bandwidth of it.
pub proof fn law_narrowest_filter_lasts_a_quarter<R: Copy, A: Arithmetic<R>>(
    a: &A,
    m: Meaning<R>,
    n: usize,
    sigma: R,
    xi: R,
    bw: R,
)
    requires
        faithful(a, m),
        n >= 1,
        call_ensures(sigma_min_for_length::<R, A>, (a, n), sigma),
        call_ensures(min_xi_for_length::<R, A>, (a, n), xi),
        call_ensures(sigma_to_bw::<R, A>, (a, sigma), bw),
    ensures
        m.of(sigma) * ((2real * m.of(a.circle_ratio())) * (n as real)) == 24real,
        m.of(sigma) > 0real,
        m.of(xi) == m.of(bw),
{
    lemma_quarter(a, m, n);
    lemma_quarter(a, m, 1);
    lemma_turn(a, m);
    let (t, l, r) = (m.of(turn(a)), m.of(support_limit(a, n)), n as real);
    let d = product(a, turn(a), support_limit(a, n));
    assert(m.of(d) == t * l && m.of(num(a, 6)) == 6real) by {
        reveal(faithful);
    }
    assert(t * l > 0real) by (nonlinear_arith)
        requires
            t > 0real,
            l > 0real,
    ;
    lemma_quotient(a, m, num(a, 6), d);
    let (s, tl) = (m.of(sigma), t * l);
    assert(t * (4real * l) == 4real * (t * l)) by (nonlinear_arith);
    assert(s * (4real * tl) == 4real * (s * tl)) by (nonlinear_arith);
    assert(s > 0real) by (nonlinear_arith)
        requires
            s * tl == 6real,
            tl > 0real,
    ;
    // Both are as many times lower as the block is longer.
    lemma_bandwidth(a, m, n);
    let h = half_power_width::<R, A>(a);
    let c = quotient(a, product(a, num(a, 6), h), turn(a));
    lemma_quotient(a, m, c, support_limit(a, n));
    lemma_quotient(a, m, c, support_limit(a, 1));
    let (x, x1, l1, b) = (
        m.of(xi),
        m.of(lowest_centre(a, 1)),
        m.of(support_limit(a, 1)),
        m.of(bw),
    );
    assert(x1 == 4real * m.of(c)) by (nonlinear_arith)
        requires
            x1 * l1 == m.of(c),
            4real * l1 == 1real,
    ;
    assert(x * (4real * l) == 4real * (x * l)) by (nonlinear_arith);
    lemma_same(r, x, b);
}

/// The usual crossing level is half power.
pub proof fn law_usual_level_is_half_power<R: Copy, A: Arithmetic<R>>(
    a: &A,
    m: Meaning<R>,
    r: R,
)
    requires
        faithful(a, m),
        faithful_powers(a, m),
        call_ensures(default_r::<R, A>, (a,), r),
    ensures
        m.of(r) > 0real,
        2real * (m.of(r) * m.of(r)) == 1real,
{
    let half = fraction(a, 1, 2);
    lemma_fraction_value(a, m, 1, 2);
    let v = m.of(r);
    assert(v >= 0real && v * v == m.of(half)) by {
        reveal(faithful);
        reveal(faithful_powers);
    }
    if v == 0real {
        assert(v * v == 0real) by (nonlinear_arith)
            requires
                v == 0real,
        ;
    }
}

} // verus!
