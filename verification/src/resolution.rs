//! What an analyser says of its own coverage and resolution, held against its filters.

use vstd::prelude::*;

use crate::arithmetic::{
    difference, exponential, fraction, logarithm, magnitude, negative, num, product, quotient, root,
    smaller, smallest, sum, Arithmetic,
};
use crate::filterbank::{
    bw_to_sigma, closest, gauss_hat, half_power_width, in_order, ordered, sigma_to_bw, twice_square,
    FilterBank, Wavelet,
};
use crate::planes::{lemma_group, lemma_same, lemma_squares};
use crate::reals::{
    faithful, faithful_exponentials, faithful_magnitudes, lemma_quotient, size, Meaning,
};
use crate::tiling::faithful_powers;
use crate::transform::{Coverage, Scattering};

verus! {

/// The -3 dB width of a unit Gaussian, squared.
proof fn lemma_half_power<R, A: Arithmetic<R>>(a: &A, m: Meaning<R>)
    requires
        faithful(a, m),
        faithful_powers(a, m),
    ensures
        m.of(half_power_width(a)) > 0real,
        m.of(half_power_width(a)) * m.of(half_power_width(a)) == 4real * m.of(
            logarithm(a, num(a, 2)),
        ),
{
    let two = num(a, 2);
    let l = logarithm(a, two);
    assert(m.of(two) == 2real && m.of(root(a, l)) >= 0real && m.of(half_power_width(a)) == 2real
        * m.of(root(a, l))) by {
        reveal(faithful);
        assert(m.of(num(a, 2)) == 2real);
    }
    assert(m.of(l) > 0real && m.of(root(a, l)) * m.of(root(a, l)) == m.of(l)) by {
        reveal(faithful_powers);
    }
    let h = m.of(root(a, l));
    if h == 0real {
        assert(h * h == 0real) by (nonlinear_arith)
            requires
                h == 0real,
        ;
    }
    assert((2real * h) * (2real * h) == 4real * (h * h)) by (nonlinear_arith);
}

/// A bandwidth is the distance between the half-power points: half of it from its
/// centre, the response of a filter of that width has half the power of its peak.
pub proof fn law_bandwidth_lies_between_half_power_points<R: Copy, A: Arithmetic<R>>(
    a: &A,
    m: Meaning<R>,
    sigma: R,
    bw: R,
    w: R,
    g: R,
)
    requires
        faithful(a, m),
        faithful_powers(a, m),
        faithful_exponentials(a, m),
        m.of(sigma) > 0real,
        call_ensures(sigma_to_bw::<R, A>, (a, sigma), bw),
        size(2real * m.of(w)) == m.of(bw),
        call_ensures(gauss_hat::<R, A>, (a, w, sigma), g),
    ensures
        m.of(bw) > 0real,
        m.of(g) > 0real,
        2real * (m.of(g) * m.of(g)) == 1real,
{
    lemma_half_power(a, m);
    let (s, h, v) = (m.of(sigma), m.of(half_power_width(a)), m.of(w));
    assert(m.of(bw) == s * h) by {
        reveal(faithful);
    }
    assert(s * h > 0real) by (nonlinear_arith)
        requires
            s > 0real,
            h > 0real,
    ;
    let e = quotient(a, product(a, negative(a, w), w), twice_square(a, sigma));
    let ss = s * s;
    assert(ss > 0real) by (nonlinear_arith)
        requires
            ss == s * s,
            s > 0real,
    ;
    assert(m.of(twice_square(a, sigma)) == 2real * ss && m.of(product(a, negative(a, w), w)) == (-v)
        * v) by {
        reveal(faithful);
        reveal(faithful_powers);
        assert(m.of(num(a, 2)) == 2real);
        lemma_group(2real, s, s);
    }
    lemma_quotient(a, m, product(a, negative(a, w), w), twice_square(a, sigma));
    // 4 v v = s s h h = 4 s s ln 2, so that 2 e = -ln 2.
    let x = 2real * v;
    assert(x * x == (s * h) * (s * h)) by {
        if x < 0real {
            assert((-x) * (-x) == x * x) by (nonlinear_arith);
        }
    }
    lemma_squares(s, h);
    assert((2real * v) * (2real * v) == 4real * (v * v)) by (nonlinear_arith);
    let (l, y) = (m.of(logarithm(a, num(a, 2))), m.of(e));
    assert(ss * (4real * l) == 4real * (ss * l)) by (nonlinear_arith);
    assert((-v) * v == -(v * v)) by (nonlinear_arith);
    let k = 2real * ss;
    assert((2real * y) * k == 2real * (y * k)) by (nonlinear_arith);
    assert((-l) * k == -(2real * (ss * l))) by (nonlinear_arith)
        requires
            k == 2real * ss,
    ;
    lemma_same(k, 2real * y, -l);
    let twice = sum(a, e, e);
    assert(m.of(twice) == -l) by {
        reveal(faithful);
    }
    let (p, q) = (m.of(exponential(a, e)), m.of(exponential(a, twice)));
    assert(q == p * p && p > 0real) by {
        reveal(faithful_exponentials);
    }
    assert(q * 2real == 1real) by {
        reveal(faithful);
        reveal(faithful_powers);
        assert(m.of(num(a, 2)) == 2real);
    }
}

/// Bandwidths and widths convert back and forth.
pub proof fn law_bandwidth_and_width_convert_back<R: Copy, A: Arithmetic<R>>(
    a: &A,
    m: Meaning<R>,
    bw: R,
    sigma: R,
    back: R,
)
    requires
        faithful(a, m),
        faithful_powers(a, m),
        call_ensures(bw_to_sigma::<R, A>, (a, bw), sigma),
        call_ensures(sigma_to_bw::<R, A>, (a, sigma), back),
    ensures
        m.of(back) == m.of(bw),
{
    lemma_half_power(a, m);
    lemma_quotient(a, m, bw, half_power_width(a));
    reveal(faithful);
}

/// The closest of some values is no further off than any other.
proof fn lemma_closest<R, A: Arithmetic<R>>(a: &A, m: Meaning<R>, xs: Seq<R>, target: R)
    requires
        faithful(a, m),
        faithful_magnitudes(a, m),
        xs.len() > 0,
    ensures
        closest(a, xs, target) matches Some(i) && 0 <= i < xs.len() && (forall|j: int|
            0 <= j < xs.len() ==> size(m.of(xs[i]) - m.of(target)) <= size(
                m.of(#[trigger] xs[j]) - m.of(target),
            )),
    decreases xs.len(),
{
    reveal(faithful);
    reveal(faithful_magnitudes);
    let rest = xs.drop_last();
    if rest.len() > 0 {
        lemma_closest(a, m, rest, target);
        let i = closest(a, rest, target)->Some_0;
        assert(m.of(magnitude(a, difference(a, xs.last(), target))) == size(
            m.of(xs.last()) - m.of(target),
        ));
        assert(m.of(magnitude(a, difference(a, xs[i], target))) == size(
            m.of(xs[i]) - m.of(target),
        ));
        let k = closest(a, xs, target)->Some_0;
        assert forall|j: int| 0 <= j < xs.len() implies size(m.of(xs[k]) - m.of(target)) <= size(
            m.of(#[trigger] xs[j]) - m.of(target),
        ) by {
            if j < rest.len() {
                assert(rest[j] == xs[j] && rest[i] == xs[i]);
            }
        }
    } else {
        assert(closest(a, rest, target) is None);
    }
}

/// Distances in one unit and in another.
proof fn lemma_size_scaled(x: real, k: real)
    requires
        k > 0real,
    ensures
        size(x * k) == size(x) * k,
{
    if x >= 0real {
        assert(x * k >= 0real) by (nonlinear_arith)
            requires
                x >= 0real,
                k > 0real,
        ;
    } else {
        assert(x * k < 0real) by (nonlinear_arith)
            requires
                x < 0real,
                k > 0real,
        ;
        assert((-x) * k == -(x * k)) by (nonlinear_arith);
    }
}

/// Which filter of a bank measures a frequency: one whose centre is no further from it
/// than that of any other, in whatever unit.
proof fn lemma_measures<R: Copy, A: Arithmetic<R>>(
    a: &A,
    m: Meaning<R>,
    bank: &FilterBank<R>,
    xi: R,
    k: real,
    at: real,
) -> (i: int)
    requires
        faithful(a, m),
        faithful_magnitudes(a, m),
        bank.wavelets@.len() > 0,
        k > 0real,
        m.of(xi) * k == at,
    ensures
        closest(a, bank.frequencies(), xi) == Some(i),
        0 <= i < bank.wavelets@.len(),
        forall|j: int|
            0 <= j < bank.wavelets@.len() ==> size(m.of(bank.wavelets@[i].xi) * k - at) <= size(
                m.of((#[trigger] bank.wavelets@[j]).xi) * k - at,
            ),
{
    let xs = bank.frequencies();
    lemma_closest(a, m, xs, xi);
    let i = closest(a, xs, xi)->Some_0;
    let x = m.of(xi);
    assert forall|j: int| 0 <= j < bank.wavelets@.len() implies size(
        m.of(bank.wavelets@[i].xi) * k - at,
    ) <= size(m.of((#[trigger] bank.wavelets@[j]).xi) * k - at) by {
        let (p, q) = (m.of(xs[i]), m.of(xs[j]));
        assert(size(p - x) <= size(q - x));
        lemma_size_scaled(p - x, k);
        lemma_size_scaled(q - x, k);
        assert((p - x) * k == p * k - x * k) by (nonlinear_arith);
        assert((q - x) * k == q * k - x * k) by (nonlinear_arith);
        let (u, v) = (size(p - x), size(q - x));
        assert(u * k <= v * k) by (nonlinear_arith)
            requires
                u <= v,
                k > 0real,
        ;
    }
    i
}

/// The nearest filter to a frequency is one of the bank, and no other is closer; there is
/// one unless the bank is empty.
pub proof fn law_nearest_filter_is_no_further_than_any<R: Copy, A: Arithmetic<R>>(
    a: &A,
    m: Meaning<R>,
    bank: &FilterBank<R>,
    xi: R,
    r: Option<&Wavelet<R>>,
)
    requires
        faithful(a, m),
        faithful_magnitudes(a, m),
        call_ensures(FilterBank::<R>::nearest::<A>, (bank, a, xi), r),
    ensures
        r is None <==> bank.wavelets@.len() == 0,
        r matches Some(w) ==> {
            &&& exists|i: int| 0 <= i < bank.wavelets@.len() && *w == #[trigger] bank.wavelets@[i]
            &&& forall|j: int|
                0 <= j < bank.wavelets@.len() ==> size(m.of(w.xi) - m.of(xi)) <= size(
                    m.of((#[trigger] bank.wavelets@[j]).xi) - m.of(xi),
                )
        },
{
    if bank.wavelets@.len() > 0 {
        let xs = bank.frequencies();
        lemma_closest(a, m, xs, xi);
        let i = closest(a, xs, xi)->Some_0;
        assert forall|j: int| 0 <= j < bank.wavelets@.len() implies size(
            m.of(bank.wavelets@[i].xi) - m.of(xi),
        ) <= size(m.of((#[trigger] bank.wavelets@[j]).xi) - m.of(xi)) by {
            assert(xs[j] == bank.wavelets@[j].xi && xs[i] == bank.wavelets@[i].xi);
        }
    }
}

/// The resolution quoted at a carrier offset is the bandwidth of a filter of the bank,
/// in Hz: of one whose centre no other is closer to.
pub proof fn law_resolution_is_that_of_the_nearest_filter<R: Copy, A: Arithmetic<R>>(
    a: &A,
    m: Meaning<R>,
    sa: &Scattering<R>,
    offset_hz: R,
    r: R,
) -> (i: int)
    requires
        faithful(a, m),
        faithful_magnitudes(a, m),
        m.of(sa@.config.fs) > 0real,
        sa@.bank1.wavelets@.len() > 0,
        call_ensures(Scattering::<R>::rbw_hz::<A>, (sa, a, offset_hz), r),
    ensures
        0 <= i < sa@.bank1.wavelets@.len(),
        r == product(a, sa@.bank1.wavelets@[i].bandwidth, sa@.config.fs),
        forall|j: int|
            0 <= j < sa@.bank1.wavelets@.len() ==> size(
                m.of(sa@.bank1.wavelets@[i].xi) * m.of(sa@.config.fs) - m.of(offset_hz),
            ) <= size(
                m.of((#[trigger] sa@.bank1.wavelets@[j]).xi) * m.of(sa@.config.fs) - m.of(
                    offset_hz,
                ),
            ),
{
    let fs = sa@.config.fs;
    lemma_quotient(a, m, offset_hz, fs);
    lemma_measures(a, m, &sa@.bank1, quotient(a, offset_hz, fs), m.of(fs), m.of(offset_hz))
}

/// Two offsets that one filter is nearest to are quoted the same resolution.
pub proof fn law_resolution_changes_between_filters_only<R: Copy, A: Arithmetic<R>>(
    a: &A,
    m: Meaning<R>,
    sa: &Scattering<R>,
    x: R,
    y: R,
    i: int,
    p: R,
    q: R,
)
    requires
        faithful(a, m),
        faithful_magnitudes(a, m),
        m.of(sa@.config.fs) > 0real,
        0 <= i < sa@.bank1.wavelets@.len(),
        call_ensures(Scattering::<R>::rbw_hz::<A>, (sa, a, x), p),
        call_ensures(Scattering::<R>::rbw_hz::<A>, (sa, a, y), q),
        forall|j: int|
            0 <= j < sa@.bank1.wavelets@.len() && j != i ==> {
                let (here, there) = (
                    m.of(sa@.bank1.wavelets@[i].xi) * m.of(sa@.config.fs),
                    m.of((#[trigger] sa@.bank1.wavelets@[j]).xi) * m.of(sa@.config.fs),
                );
                &&& size(here - m.of(x)) < size(there - m.of(x))
                &&& size(here - m.of(y)) < size(there - m.of(y))
            },
    ensures
        p == q,
        p == product(a, sa@.bank1.wavelets@[i].bandwidth, sa@.config.fs),
{
    let j = law_resolution_is_that_of_the_nearest_filter(a, m, sa, x, p);
    let k = law_resolution_is_that_of_the_nearest_filter(a, m, sa, y, q);
    let w = sa@.bank1.wavelets@[i];
    assert(size(m.of(sa@.bank1.wavelets@[j].xi) * m.of(sa@.config.fs) - m.of(x)) <= size(
        m.of(sa@.bank1.wavelets@[i].xi) * m.of(sa@.config.fs) - m.of(x),
    ));
    assert(size(m.of(sa@.bank1.wavelets@[k].xi) * m.of(sa@.config.fs) - m.of(y)) <= size(
        m.of(sa@.bank1.wavelets@[i].xi) * m.of(sa@.config.fs) - m.of(y),
    ));
}

/// The sample rate of envelopes is that of the block, divided by how far they are
/// decimated.
pub proof fn lemma_envelope_rate<R: Copy, A: Arithmetic<R>>(
    a: &A,
    m: Meaning<R>,
    sa: &Scattering<R>,
)
    requires
        faithful(a, m),
        sa@.wf(),
        m.of(sa@.config.fs) > 0real,
    ensures
        m.of(sa@.fs1(a)) * (sa@.d1 as real) == m.of(sa@.config.fs),
        m.of(sa@.fs1(a)) > 0real,
{
    sa@.lemma_grids();
    let d = num(a, sa@.d1 as u64);
    assert(m.of(d) == sa@.d1 as real) by {
        reveal(faithful);
    }
    lemma_quotient(a, m, sa@.config.fs, d);
    let (r, k, f) = (m.of(sa@.fs1(a)), m.of(d), m.of(sa@.config.fs));
    assert(r > 0real) by (nonlinear_arith)
        requires
            r * k == f,
            f > 0real,
            k >= 1real,
    ;
}

/// The resolution quoted at a modulation rate is the bandwidth of a modulation filter,
/// in Hz: of one whose centre no other is closer to.
pub proof fn law_rate_resolution_is_that_of_the_nearest_filter<R: Copy, A: Arithmetic<R>>(
    a: &A,
    m: Meaning<R>,
    sa: &Scattering<R>,
    rate_hz: R,
    r: R,
) -> (i: int)
    requires
        faithful(a, m),
        faithful_magnitudes(a, m),
        sa@.wf(),
        m.of(sa@.config.fs) > 0real,
        sa@.bank2.wavelets@.len() > 0,
        call_ensures(Scattering::<R>::mod_rbw_hz::<A>, (sa, a, rate_hz), r),
    ensures
        0 <= i < sa@.bank2.wavelets@.len(),
        m.of(r) * (sa@.d1 as real) == m.of(sa@.bank2.wavelets@[i].bandwidth) * m.of(sa@.config.fs),
        forall|j: int|
            0 <= j < sa@.bank2.wavelets@.len() ==> size(
                m.of(sa@.bank2.wavelets@[i].xi) * m.of(sa@.config.fs) - m.of(rate_hz) * (
                sa@.d1 as real),
            ) <= size(
                m.of((#[trigger] sa@.bank2.wavelets@[j]).xi) * m.of(sa@.config.fs) - m.of(rate_hz)
                    * (sa@.d1 as real),
            ),
{
    lemma_envelope_rate(a, m, sa);
    let fs1 = sa@.fs1(a);
    lemma_quotient(a, m, rate_hz, fs1);
    let xi = quotient(a, rate_hz, fs1);
    let (x, f1, d, f) = (m.of(xi), m.of(fs1), sa@.d1 as real, m.of(sa@.config.fs));
    lemma_group(x, f1, d);
    let i = lemma_measures(a, m, &sa@.bank2, xi, f, m.of(rate_hz) * d);
    let b = m.of(sa@.bank2.wavelets@[i].bandwidth);
    lemma_group(b, f1, d);
    reveal(faithful);
    i
}

/// The axes are the centre frequencies of the filters, in Hz, in order; and between
/// them the rates are those of envelopes, decimated.
pub proof fn law_axes_are_centre_frequencies<R: Copy, A: Arithmetic<R>>(
    a: &A,
    m: Meaning<R>,
    sa: &Scattering<R>,
    carriers: Vec<R>,
    rates: Vec<R>,
)
    requires
        faithful(a, m),
        sa@.wf(),
        m.of(sa@.config.fs) > 0real,
        ordered(a, sa@.bank1.pairs()),
        ordered(a, sa@.bank2.pairs()),
        call_ensures(Scattering::<R>::lambda1_hz::<A>, (sa, a), carriers),
        call_ensures(Scattering::<R>::lambda2_hz::<A>, (sa, a), rates),
    ensures
        carriers@.len() == sa@.bank1.wavelets@.len(),
        rates@.len() == sa@.bank2.wavelets@.len(),
        forall|i: int|
            0 <= i < carriers@.len() ==> m.of(#[trigger] carriers@[i]) == m.of(
                sa@.bank1.wavelets@[i].xi,
            ) * m.of(sa@.config.fs),
        forall|i: int|
            0 <= i < rates@.len() ==> m.of(#[trigger] rates@[i]) * (sa@.d1 as real) == m.of(
                sa@.bank2.wavelets@[i].xi,
            ) * m.of(sa@.config.fs),
        forall|i: int, j: int|
            0 <= i <= j < carriers@.len() ==> m.of(#[trigger] carriers@[i]) <= m.of(
                #[trigger] carriers@[j],
            ),
        forall|i: int, j: int|
            0 <= i <= j < rates@.len() ==> m.of(#[trigger] rates@[i]) <= m.of(#[trigger] rates@[j]),
{
    lemma_envelope_rate(a, m, sa);
    sa@.lemma_grids();
    let (f, f1, d) = (m.of(sa@.config.fs), m.of(sa@.fs1(a)), sa@.d1 as real);
    assert forall|i: int| 0 <= i < carriers@.len() implies m.of(#[trigger] carriers@[i]) == m.of(
        sa@.bank1.wavelets@[i].xi,
    ) * f by {
        reveal(faithful);
    }
    assert forall|i: int| 0 <= i < rates@.len() implies m.of(#[trigger] rates@[i]) == m.of(
        sa@.bank2.wavelets@[i].xi,
    ) * f1 && m.of(rates@[i]) * d == m.of(sa@.bank2.wavelets@[i].xi) * f by {
        assert(m.of(rates@[i]) == m.of(sa@.bank2.wavelets@[i].xi) * f1) by {
            reveal(faithful);
        }
        lemma_group(m.of(sa@.bank2.wavelets@[i].xi), f1, d);
    }
    assert forall|i: int, j: int| 0 <= i <= j < carriers@.len() implies m.of(
        #[trigger] carriers@[i],
    ) <= m.of(#[trigger] carriers@[j]) by {
        lemma_sorted(a, m, &sa@.bank1, i, j);
        lemma_keeps_order(m.of(sa@.bank1.wavelets@[i].xi), m.of(sa@.bank1.wavelets@[j].xi), f);
    }
    assert forall|i: int, j: int| 0 <= i <= j < rates@.len() implies m.of(#[trigger] rates@[i])
        <= m.of(#[trigger] rates@[j]) by {
        lemma_sorted(a, m, &sa@.bank2, i, j);
        lemma_keeps_order(m.of(sa@.bank2.wavelets@[i].xi), m.of(sa@.bank2.wavelets@[j].xi), f1);
    }
}

/// How fast the output is.
proof fn lemma_out_rate<R: Copy, A: Arithmetic<R>>(a: &A, m: Meaning<R>, sa: &Scattering<R>)
    requires
        faithful(a, m),
        sa@.wf(),
    ensures
        m.of(sa@.out_rate(a)) * ((sa@.d1 * sa@.d2) as real) == m.of(sa@.config.fs),
        (sa@.d1 * sa@.d2) * sa@.n_out == sa@.n,
{
    sa@.lemma_grids();
    let k = (sa@.d1 * sa@.d2) as u64;
    assert(sa@.d1 * sa@.d2 >= 1) by (nonlinear_arith)
        requires
            sa@.d1 >= 1,
            sa@.d2 >= 1,
    ;
    assert(m.of(num(a, k)) == k as real) by {
        reveal(faithful);
    }
    lemma_quotient(a, m, sa@.config.fs, num(a, k));
}

/// The output spans the block: it has as many times fewer samples as it is slower.
pub proof fn law_output_is_as_slow_as_it_is_short<R: Copy, A: Arithmetic<R>>(
    a: &A,
    m: Meaning<R>,
    sa: &Scattering<R>,
    out_rate: R,
    n: usize,
)
    requires
        faithful(a, m),
        sa@.wf(),
        call_ensures(Scattering::<R>::out_rate_hz::<A>, (sa, a), out_rate),
        call_ensures(Scattering::<R>::block_len, (sa,), n),
    ensures
        m.of(out_rate) * (n as real) == m.of(sa@.config.fs) * (sa@.n_out as real),
{
    lemma_out_rate(a, m, sa);
    let (k, o) = (sa@.d1 * sa@.d2, sa@.n_out as int);
    let (r, kr, or) = (m.of(out_rate), k as real, o as real);
    assert(n as real == kr * or) by (nonlinear_arith)
        requires
            k * o == n,
            kr == k as real,
            or == o as real,
    ;
    lemma_group(r, kr, or);
}

proof fn lemma_keeps_order(x: real, y: real, k: real)
    requires
        x <= y,
        k > 0real,
    ensures
        x * k <= y * k,
{
    assert(x * k <= y * k) by (nonlinear_arith)
        requires
            x <= y,
            k > 0real,
    ;
}

/// The filters of a bank stand in order of their centre frequencies.
pub proof fn lemma_sorted<R: Copy, A: Arithmetic<R>>(
    a: &A,
    m: Meaning<R>,
    bank: &FilterBank<R>,
    i: int,
    j: int,
)
    requires
        faithful(a, m),
        ordered(a, bank.pairs()),
        0 <= i <= j < bank.wavelets@.len(),
    ensures
        m.of(bank.wavelets@[i].xi) <= m.of(bank.wavelets@[j].xi),
    decreases j - i,
{
    if i < j {
        lemma_sorted(a, m, bank, i, j - 1);
        let (p, q) = (bank.pairs()[j - 1], bank.pairs()[j]);
        assert(in_order(a, p, q));
        reveal(faithful);
    }
}

/// The smallest of some values and `start`.
pub proof fn lemma_smallest<R, A: Arithmetic<R>>(a: &A, m: Meaning<R>, start: R, xs: Seq<R>)
    requires
        faithful(a, m),
        faithful_minima(a, m),
        forall|i: int| 0 <= i < xs.len() ==> m.of(#[trigger] xs[i]) <= m.of(start),
    ensures
        forall|i: int|
            0 <= i < xs.len() ==> m.of(smallest(a, start, xs)) <= m.of(#[trigger] xs[i]),
        xs.len() > 0 ==> exists|i: int|
            0 <= i < xs.len() && m.of(smallest(a, start, xs)) == m.of(#[trigger] xs[i]),
        xs.len() == 0 ==> smallest(a, start, xs) == start,
    decreases xs.len(),
{
    reveal(faithful_minima);
    if xs.len() > 0 {
        let rest = xs.drop_last();
        assert forall|i: int| 0 <= i < rest.len() implies m.of(#[trigger] rest[i]) <= m.of(
            start,
        ) by {
            assert(rest[i] == xs[i]);
        }
        lemma_smallest(a, m, start, rest);
        let (low, last) = (smallest(a, start, rest), xs.last());
        assert forall|i: int| 0 <= i < xs.len() implies m.of(smallest(a, start, xs)) <= m.of(
            #[trigger] xs[i],
        ) by {
            if i < rest.len() {
                assert(rest[i] == xs[i]);
            }
        }
        if rest.len() > 0 && m.of(low) < m.of(last) {
            let i = choose|i: int| 0 <= i < rest.len() && m.of(low) == m.of(#[trigger] rest[i]);
            assert(xs[i] == rest[i]);
            assert(m.of(smallest(a, start, xs)) == m.of(xs[i]));
        } else {
            assert(m.of(xs[xs.len() - 1]) <= m.of(start));
            assert(m.of(smallest(a, start, xs)) == m.of(xs[xs.len() - 1]));
        }
    }
}

/// Whether the smaller of two values is the one that stands for the smaller number.
#[verifier::opaque]
pub open spec fn faithful_minima<R, A: Arithmetic<R>>(a: &A, m: Meaning<R>) -> bool {
    forall|x: R, y: R| #[trigger]
        m.of(smaller(a, x, y)) == (if m.of(x) <= m.of(y) {
            m.of(x)
        } else {
            m.of(y)
        })
}

/// Coverage is what the filters cover: no carrier offset is smaller than the smallest
/// stated or larger than the largest, some carrier has each, and likewise of rates; and
/// the block and the output are as long and as fast as stated.
///
/// Left out are arithmetics that have no value beyond every centre frequency for a
/// division by zero.
pub proof fn law_coverage_is_what_the_filters_cover<R: Copy, A: Arithmetic<R>>(
    a: &A,
    m: Meaning<R>,
    sa: &Scattering<R>,
    carriers: Vec<R>,
    rates: Vec<R>,
    c: Coverage<R>,
)
    requires
        faithful(a, m),
        faithful_magnitudes(a, m),
        faithful_minima(a, m),
        sa@.wf(),
        m.of(sa@.config.fs) > 0real,
        ordered(a, sa@.bank1.pairs()),
        ordered(a, sa@.bank2.pairs()),
        sa@.bank1.wavelets@.len() > 0,
        sa@.bank2.wavelets@.len() > 0,
        forall|i: int|
            0 <= i < sa@.bank1.wavelets@.len() ==> size(
                m.of((#[trigger] sa@.bank1.wavelets@[i]).xi),
            ) <= m.of(fraction(a, 1, 0)),
        forall|i: int|
            0 <= i < sa@.bank2.wavelets@.len() ==> size(
                m.of((#[trigger] sa@.bank2.wavelets@[i]).xi),
            ) <= m.of(fraction(a, 1, 0)),
        call_ensures(Scattering::<R>::lambda1_hz::<A>, (sa, a), carriers),
        call_ensures(Scattering::<R>::lambda2_hz::<A>, (sa, a), rates),
        call_ensures(Scattering::<R>::coverage::<A>, (sa, a), c),
    ensures
        forall|i: int|
            0 <= i < carriers@.len() ==> m.of(c.min_carrier_hz) <= size(
                m.of(#[trigger] carriers@[i]),
            ) && m.of(carriers@[i]) <= m.of(c.max_carrier_hz),
        exists|i: int|
            0 <= i < carriers@.len() && m.of(c.min_carrier_hz) == size(
                m.of(#[trigger] carriers@[i]),
            ),
        exists|i: int|
            0 <= i < carriers@.len() && m.of(c.max_carrier_hz) == size(
                m.of(#[trigger] carriers@[i]),
            ),
        forall|i: int|
            0 <= i < rates@.len() ==> m.of(c.min_mod_hz) <= size(m.of(#[trigger] rates@[i]))
                && m.of(rates@[i]) <= m.of(c.max_mod_hz),
        exists|i: int|
            0 <= i < rates@.len() && m.of(c.min_mod_hz) == size(m.of(#[trigger] rates@[i])),
        exists|i: int|
            0 <= i < rates@.len() && m.of(c.max_mod_hz) == m.of(#[trigger] rates@[i]),
        m.of(c.out_rate_hz) * ((sa@.d1 * sa@.d2) as real) == m.of(sa@.config.fs),
        m.of(c.block_s) * m.of(sa@.config.fs) == sa@.n as real,
        c.elbow_carrier_hz is Some <==> sa@.bank1.elbow_xi is Some,
        c.elbow_carrier_hz matches Some(hz) ==> m.of(hz) == m.of(sa@.bank1.elbow_xi->0) * m.of(
            sa@.config.fs,
        ),
        c.elbow_mod_hz is Some <==> sa@.bank2.elbow_xi is Some,
        c.elbow_mod_hz matches Some(hz) ==> m.of(hz) * (sa@.d1 as real) == m.of(
            sa@.bank2.elbow_xi->0,
        ) * m.of(sa@.config.fs),
{
    let fs = sa@.config.fs;
    lemma_envelope_rate(a, m, sa);
    law_axes_are_centre_frequencies(a, m, sa, carriers, rates);
    lemma_out_rate(a, m, sa);
    let (f, f1, d) = (m.of(fs), m.of(sa@.fs1(a)), sa@.d1 as real);
    lemma_least(a, m, &sa@.bank1, fs, carriers@, c.min_carrier_hz);
    lemma_least(a, m, &sa@.bank2, sa@.fs1(a), rates@, c.min_mod_hz);
    let (top1, top2) = (carriers@.len() - 1, rates@.len() - 1);
    assert(m.of(c.max_carrier_hz) == size(m.of(carriers@[top1]))) by {
        reveal(faithful_magnitudes);
    }
    assert(m.of(c.max_mod_hz) == m.of(rates@[top2]));
    assert forall|i: int| 0 <= i < carriers@.len() implies m.of(#[trigger] carriers@[i]) <= m.of(
        c.max_carrier_hz,
    ) by {
        assert(m.of(carriers@[i]) <= m.of(carriers@[top1]));
    }
    assert forall|i: int| 0 <= i < rates@.len() implies m.of(#[trigger] rates@[i]) <= m.of(
        c.max_mod_hz,
    ) by {
        assert(m.of(rates@[i]) <= m.of(rates@[top2]));
    }
    assert(m.of(num(a, sa@.n as u64)) == sa@.n as real) by {
        reveal(faithful);
    }
    lemma_quotient(a, m, num(a, sa@.n as u64), fs);
    match sa@.bank2.elbow_xi {
        Some(xi) => {
            lemma_group(m.of(xi), f1, d);
        },
        None => {},
    }
    reveal(faithful);
}

/// The least centre frequency of a bank, at sample rate `fs`.
proof fn lemma_least<R: Copy, A: Arithmetic<R>>(
    a: &A,
    m: Meaning<R>,
    bank: &FilterBank<R>,
    fs: R,
    axis: Seq<R>,
    least: R,
)
    requires
        faithful(a, m),
        faithful_magnitudes(a, m),
        faithful_minima(a, m),
        bank.wavelets@.len() > 0,
        m.of(fs) > 0real,
        forall|i: int|
            0 <= i < bank.wavelets@.len() ==> size(m.of((#[trigger] bank.wavelets@[i]).xi)) <= m.of(
                fraction(a, 1, 0),
            ),
        axis == bank.frequencies().map_values(|xi: R| product(a, xi, fs)),
        least == product(
            a,
            smallest(
                a,
                fraction(a, 1, 0),
                bank.frequencies().map_values(|x: R| magnitude(a, x)),
            ),
            fs,
        ),
    ensures
        forall|i: int| 0 <= i < axis.len() ==> m.of(least) <= size(m.of(#[trigger] axis[i])),
        exists|i: int| 0 <= i < axis.len() && m.of(least) == size(m.of(#[trigger] axis[i])),
{
    let sizes = bank.frequencies().map_values(|x: R| magnitude(a, x));
    let start = fraction(a, 1, 0);
    let f = m.of(fs);
    assert forall|i: int| 0 <= i < sizes.len() implies m.of(#[trigger] sizes[i]) == size(
        m.of(bank.wavelets@[i].xi),
    ) by {
        reveal(faithful_magnitudes);
    }
    assert forall|i: int| 0 <= i < sizes.len() implies m.of(#[trigger] sizes[i]) <= m.of(start) by {
        assert(size(m.of(bank.wavelets@[i].xi)) <= m.of(start));
    }
    lemma_smallest(a, m, start, sizes);
    let low = m.of(smallest(a, start, sizes));
    assert(m.of(least) == low * f) by {
        reveal(faithful);
    }
    assert forall|i: int| 0 <= i < axis.len() implies size(m.of(#[trigger] axis[i])) == m.of(
        sizes[i],
    ) * f by {
        lemma_size_scaled(m.of(bank.wavelets@[i].xi), f);
        reveal(faithful);
    }
    assert forall|i: int| 0 <= i < axis.len() implies m.of(least) <= size(
        m.of(#[trigger] axis[i]),
    ) by {
        lemma_keeps_order(low, m.of(sizes[i]), f);
    }
    let i = choose|i: int| 0 <= i < sizes.len() && low == m.of(#[trigger] sizes[i]);
    assert(m.of(least) == size(m.of(axis[i])));
}

/// Coverage is shown in the units it says: carriers in kHz, the block in milliseconds.
pub proof fn law_coverage_is_shown_in_its_units<R: Copy, A: Arithmetic<R>>(
    a: &A,
    m: Meaning<R>,
    c: &Coverage<R>,
    shown: Coverage<R>,
)
    requires
        faithful(a, m),
        call_ensures(Coverage::<R>::displayed::<A>, (c, a), shown),
    ensures
        1000real * m.of(shown.min_carrier_hz) == m.of(c.min_carrier_hz),
        1000real * m.of(shown.max_carrier_hz) == m.of(c.max_carrier_hz),
        shown.min_mod_hz == c.min_mod_hz,
        shown.max_mod_hz == c.max_mod_hz,
        shown.out_rate_hz == c.out_rate_hz,
        shown.elbow_mod_hz == c.elbow_mod_hz,
        shown.elbow_carrier_hz is Some <==> c.elbow_carrier_hz is Some,
        shown.elbow_carrier_hz matches Some(khz) ==> 1000real * m.of(khz) == m.of(
            c.elbow_carrier_hz->0,
        ),
        m.of(shown.block_s) == 1000real * m.of(c.block_s),
{
    let k = num(a, 1000);
    assert(m.of(k) == 1000real) by {
        reveal(faithful);
    }
    lemma_quotient(a, m, c.min_carrier_hz, k);
    lemma_quotient(a, m, c.max_carrier_hz, k);
    match c.elbow_carrier_hz {
        Some(hz) => {
            lemma_quotient(a, m, hz, k);
        },
        None => {},
    }
    reveal(faithful);
}

} // verus!
