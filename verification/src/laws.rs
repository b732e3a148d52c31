//! What holds of the library as a whole: how its grids fit together, what its
//! filter banks keep to, and what one operation undoes or leaves alone.
//!
//! Where a law speaks of values, it holds in any arithmetic that has the few
//! properties it asks for.

use vstd::arithmetic::div_mod::{
    lemma_fundamental_div_mod, lemma_fundamental_div_mod_converse, lemma_mod_equivalence,
    lemma_small_mod,
};
use vstd::arithmetic::power2::{lemma2_to64, lemma_pow2_unfold, pow2};
use vstd::prelude::*;

use crate::arithmetic::{
    at_most, below, difference, fraction, larger, largest, magnitude, negative, num, product,
    quotient, Arithmetic,
};
use crate::complex::{envelope, modulus, polar, scaled, scaled_all, Complex};
use crate::fft::{
    decimated, decimation_source, factor, inverted, largest_factor, lemma_factor,
    lemma_mod_through, transformed, whole_limit, Direction, Engine, Plans,
};
use crate::filterbank::{
    closest, gauss, lowest_centre, mirrored, morlet, narrowest, ordered, signed_bin, support,
    unit_peak, BankSpec, FilterBank,
};
use crate::powers::{
    lemma_divides, lemma_double, lemma_gap, lemma_next_pow2, lemma_one, next_pow2, power_of_two,
};
use crate::synth::{clamped, fm_at, lemma_xorshift_alive, tone_at, xorshift};
use crate::transform::{
    averaged, band_length, band_source, extracted, lemma_at_most, peak_index, trimmed, Config,
    Scattergram, Geometry,
};

verus! {

// Grids.

/// Decimation keeps the bins nearest DC: what lands in bin `k` of the shorter
/// spectrum is `k` bins from DC there and in the longer one, counted round the
/// end of the shorter, and no further out than its edge.
pub proof fn law_decimation_keeps_bins_nearest_dc(n: int, d: int, k: int)
    requires
        d >= 1,
        n > 0,
        n % d == 0,
        0 <= k < n / d,
    ensures
        ({
            let j = decimation_source(n, d, k);
            let bin = signed_bin(j, n);
            &&& 0 <= j < n
            &&& bin == k || bin == k - n / d
            &&& -(n / d) <= 2 * bin <= n / d
        }),
{
    let m = n / d;
    if d == 1 {
        assert(m == n);
    } else {
        lemma_fundamental_div_mod(n, d);
        assert(2 * m <= n) by (nonlinear_arith)
            requires
                n == d * m,
                d >= 2,
                m >= 0,
        ;
    }
}

/// Decimating by `d1` and then by `d2` takes the same bins as decimating by
/// `d1 * d2` at once.
pub proof fn law_decimations_compose(n: int, d1: int, d2: int, k: int)
    requires
        d1 >= 1,
        d2 >= 1,
        n > 0,
        n % (d1 * d2) == 0,
        0 <= k < n / (d1 * d2),
    ensures
        n % d1 == 0,
        (n / d1) % d2 == 0,
        n / d1 / d2 == n / (d1 * d2),
        decimation_source(n, d1, decimation_source(n / d1, d2, k)) == decimation_source(
            n,
            d1 * d2,
            k,
        ),
{
    let d = d1 * d2;
    assert(d >= 1) by (nonlinear_arith)
        requires
            d == d1 * d2,
            d1 >= 1,
            d2 >= 1,
    ;
    let m = n / d;
    lemma_fundamental_div_mod(n, d);
    let n1 = d2 * m;
    assert(n == d1 * n1) by (nonlinear_arith)
        requires
            n == d * m,
            d == d1 * d2,
            n1 == d2 * m,
    ;
    lemma_fundamental_div_mod_converse(n, d1, n1, 0);
    lemma_fundamental_div_mod_converse(n1, d2, m, 0);
    assert(m <= n1 && (d2 == 1 ==> m == n1) && (d2 > 1 ==> 2 * m <= n1)) by (nonlinear_arith)
        requires
            n1 == d2 * m,
            d2 >= 1,
            m >= 0,
    ;
    assert((d == 1) == (d1 == 1 && d2 == 1)) by (nonlinear_arith)
        requires
            d == d1 * d2,
            d1 >= 1,
            d2 >= 1,
    ;
}

/// Two decimations are one, values and all, where dividing by `d1` and then by
/// `d2` divides by `d1 * d2`.
pub proof fn law_decimating_twice_is_decimating_once<R, A: Arithmetic<R>>(
    a: &A,
    spectrum: Seq<Complex<R>>,
    d1: int,
    d2: int,
)
    requires
        d1 > 1,
        d2 > 1,
        spectrum.len() > 0,
        spectrum.len() as int % (d1 * d2) == 0,
        forall|z: Complex<R>| #[trigger]
            scaled(a, scaled(a, z, fraction(a, 1, d1 as u64)), fraction(a, 1, d2 as u64))
                == scaled(a, z, fraction(a, 1, (d1 * d2) as u64)),
    ensures
        decimated(a, decimated(a, spectrum, d1), d2) == decimated(a, spectrum, d1 * d2),
{
    let n = spectrum.len() as int;
    let d = d1 * d2;
    assert(d > 1) by (nonlinear_arith)
        requires
            d == d1 * d2,
            d1 > 1,
            d2 > 1,
    ;
    let once = decimated(a, spectrum, d);
    let twice = decimated(a, decimated(a, spectrum, d1), d2);
    lemma_fundamental_div_mod(n, d);
    assert(n / d > 0) by (nonlinear_arith)
        requires
            n == d * (n / d),
            n > 0,
            d > 1,
    ;
    law_decimations_compose(n, d1, d2, 0);
    assert forall|k: int| 0 <= k < once.len() implies twice[k] == once[k] by {
        law_decimations_compose(n, d1, d2, k);
        law_decimation_keeps_bins_nearest_dc(n / d1, d2, k);
    }
    assert(twice =~= once);
}

/// Extracting a band is a shift by a whole number of bins: bins as far above or
/// below the centre of the band as they are above or below DC afterwards, and
/// no bin of the spectrum taken twice.
pub proof fn law_extraction_shifts_bins(n: int, centre: int, len: int, k: int, l: int)
    requires
        0 < len <= n,
        0 <= k < len,
        0 <= l < len,
    ensures
        0 <= band_source(n, centre, len, k) < n,
        (band_source(n, centre, len, k) - centre - k) % n == 0 || (band_source(
            n,
            centre,
            len,
            k,
        ) - centre - (k - len)) % n == 0,
        k != l ==> band_source(n, centre, len, k) != band_source(n, centre, len, l),
{
    let (p, q) = (
        if k < len - len / 2 {
            k
        } else {
            k - len
        },
        if l < len - len / 2 {
            l
        } else {
            l - len
        },
    );
    lemma_fundamental_div_mod(centre + p, n);
    let turns = (centre + p) / n;
    assert(n * (-turns) == -(n * turns)) by (nonlinear_arith);
    lemma_fundamental_div_mod_converse(
        band_source(n, centre, len, k) - centre - p,
        n,
        -turns,
        0,
    );
    if k != l && band_source(n, centre, len, k) == band_source(n, centre, len, l) {
        lemma_mod_equivalence(centre + p, centre + q, n);
        lemma_fundamental_div_mod(p - q, n);
        let t = (p - q) / n;
        assert(t == 0) by (nonlinear_arith)
            requires
                p - q == n * t,
                -n < p - q < n,
                n > 0,
        ;
        assert(p - q == 0) by (nonlinear_arith)
            requires
                p - q == n * t,
                t == 0,
        ;
    }
}

/// Without the sub-band shortcut every band is as long as its grid, so nothing
/// is left out.
pub proof fn law_full_rate_keeps_every_bin(needed: int, grid_len: int, floor_len: int)
    ensures
        band_length(needed, grid_len, floor_len, false) == grid_len,
{
}

/// The output time axis spans the block: as many output samples as there are,
/// each as many input samples long as the two decimations come to.
pub proof fn law_output_spans_the_block<R: Copy>(sa: &Geometry<R>)
    requires
        sa.wf(),
    ensures
        sa.n_out * (sa.d1 * sa.d2) == sa.n,
        power_of_two(sa.n_out as int),
        1 <= sa.n_out <= sa.n,
{
    sa.lemma_grids();
    assert(sa.n_out * (sa.d1 * sa.d2) == sa.d1 * sa.d2 * sa.n_out) by (nonlinear_arith);
}

/// What is left of the output once both ends are trimmed is never empty, and
/// as far from one end as from the other.
pub proof fn law_interior_is_symmetric(n: int, margin: int)
    requires
        n > 0,
        margin >= 0,
    ensures
        ({
            let (from, to) = trimmed(n, margin);
            &&& 0 <= from < to <= n
            &&& from == n - to
            &&& 2 * margin < n ==> from == margin
        }),
{
}

// The plan cache.

/// Planning is paid for once: a transform of a length that has been planned
/// leaves the cache as it was.
pub proof fn law_planned_lengths_are_not_planned_again<P, E>(
    before: &Plans<P, E>,
    after: &Plans<P, E>,
    direction: Direction,
    n: usize,
)
    requires
        before.kept(direction).contains_key(n),
        before.grows(after, direction, n),
    ensures
        forall|other: Direction| #[trigger] after.kept(other) == before.kept(other),
{
    assert(before.kept(direction).dom().insert(n) =~= before.kept(direction).dom());
    assert forall|m: usize| before.kept(direction).dom().contains(m) implies after.kept(
        direction,
    )[m] == before.kept(direction)[m] by {
        assert(before.kept(direction).contains_key(m));
    }
    assert(after.kept(direction) =~= before.kept(direction));
    assert forall|other: Direction| #[trigger] after.kept(other) == before.kept(other) by {
        if other == direction {
            assert(after.kept(direction) == before.kept(direction));
        }
    }
}

/// The inverse transform undoes the forward one, for an engine whose own inverse
/// leaves a factor of the length, in an arithmetic where that factor cancels.
pub proof fn law_inverse_undoes_forward<R, P, A: Arithmetic<R>, E: Engine<R, P>>(
    a: &A,
    engine: &E,
    x: Seq<Complex<R>>,
    y: Seq<Complex<R>>,
    z: Seq<Complex<R>>,
)
    requires
        transformed::<R, P, E>(engine, Direction::Forward, x, y),
        inverted::<R, P, A, E>(a, engine, y, z),
        y.len() == x.len(),
        forall|u: Seq<Complex<R>>| #[trigger]
            transformed::<R, P, E>(engine, Direction::Inverse, y, u) ==> u == scaled_all(
                a,
                x,
                num(a, x.len() as u64),
            ),
        forall|v: Complex<R>| #[trigger]
            scaled(a, scaled(a, v, num(a, x.len() as u64)), fraction(a, 1, x.len() as u64)) == v,
    ensures
        z == x,
{
    assert(z =~= x);
}

/// Carrier bands can be done apart, in any order and with any plans of the same
/// engine: put together, they are the analysis of the block.
pub proof fn law_bands_are_independent<R: Copy, P, A: Arithmetic<R>, E: Engine<R, P>>(
    sa: &Geometry<R>,
    a: &A,
    engine: &E,
    x: Seq<Complex<R>>,
    spectrum: Seq<Complex<R>>,
    per_band: Seq<(Vec<R>, Vec<Vec<R>>)>,
    out: &Scattergram<R>,
)
    requires
        sa.zeroth_order::<P, A, E>(a, engine, x, out.s0@),
        transformed::<R, P, E>(engine, Direction::Forward, x, spectrum),
        per_band.len() == sa.bank1.wavelets@.len(),
        forall|i: int|
            0 <= i < per_band.len() ==> sa.band_result::<P, A, E>(
                a,
                engine,
                i,
                spectrum,
                (#[trigger] per_band[i]).0@,
                per_band[i].1@,
            ),
        sa.framed(a, out),
        forall|i: int|
            0 <= i < per_band.len() ==> (#[trigger] out.s1@[i]) == per_band[i].0 && out.second(i)
                == per_band[i].1@,
    ensures
        sa.analysed::<P, A, E>(a, engine, x, out),
{
    assert forall|i: int| 0 <= i < out.s1@.len() implies sa.band_result::<P, A, E>(
        a,
        engine,
        i,
        spectrum,
        (#[trigger] out.s1@[i])@,
        out.second(i),
    ) by {
        assert(sa.band_result::<P, A, E>(
            a,
            engine,
            i,
            spectrum,
            per_band[i].0@,
            per_band[i].1@,
        ));
    }
}

/// The second order is an addition: without it the same analyser makes the same
/// zeroth and first order of a block.
pub proof fn law_second_order_is_optional<R: Copy, P, A: Arithmetic<R>, E: Engine<R, P>>(
    sa: &Geometry<R>,
    lean: &Geometry<R>,
    a: &A,
    engine: &E,
    x: Seq<Complex<R>>,
    out: &Scattergram<R>,
    first: &Scattergram<R>,
)
    requires
        *lean == (Geometry { config: Config { order2: false, ..sa.config }, ..*sa }),
        sa.analysed::<P, A, E>(a, engine, x, out),
        first.lambda1_hz == out.lambda1_hz,
        first.lambda2_hz == out.lambda2_hz,
        first.s0 == out.s0,
        first.s1 == out.s1,
        first.s2@.len() == 0,
        first.out_rate_hz == out.out_rate_hz,
        first.edge_margin_s == out.edge_margin_s,
    ensures
        lean.analysed::<P, A, E>(a, engine, x, first),
{
    let spectrum = choose|spectrum: Seq<Complex<R>>|
        {
            &&& #[trigger] transformed::<R, P, E>(engine, Direction::Forward, x, spectrum)
            &&& forall|i: int|
                0 <= i < out.s1@.len() ==> sa.band_result::<P, A, E>(
                    a,
                    engine,
                    i,
                    spectrum,
                    (#[trigger] out.s1@[i])@,
                    out.second(i),
                )
        };
    assert forall|i: int| 0 <= i < first.s1@.len() implies lean.band_result::<P, A, E>(
        a,
        engine,
        i,
        spectrum,
        (#[trigger] first.s1@[i])@,
        first.second(i),
    ) by {
        let row = out.s1@[i]@;
        assert(sa.band_result::<P, A, E>(a, engine, i, spectrum, row, out.second(i)));
        let u1 = choose|u1: Seq<Complex<R>>|
            {
                &&& #[trigger] sa.band_envelope::<P, A, E>(a, engine, i, spectrum, u1)
                &&& averaged::<R, P, A, E>(
                    a,
                    engine,
                    sa.phi(sa.n1()),
                    sa.n_out as int,
                    u1,
                    row,
                )
            };
        let band = sa.bands1@[i];
        let passed = extracted(a, spectrum, sa.bank1.wavelets@[i].spectrum@, band);
        let (sub, env) = choose|sub: Seq<Complex<R>>, env: Seq<Complex<R>>|
            {
                &&& #[trigger] inverted::<R, P, A, E>(a, engine, passed, sub)
                &&& #[trigger] transformed::<R, P, E>(
                    engine,
                    Direction::Forward,
                    envelope(a, sub),
                    env,
                )
                &&& u1 == decimated(a, env, band.len as int / sa.n1())
            };
        assert(lean.bands1@[i] == band && lean.n1() == sa.n1());
        assert(passed == extracted(a, spectrum, lean.bank1.wavelets@[i].spectrum@, band));
        assert(lean.band_envelope::<P, A, E>(a, engine, i, spectrum, u1));
    }
    assert(lean.carriers(a) =~= sa.carriers(a));
    assert(lean.rates(a) =~= sa.rates(a));
}

// Filter banks.

/// Whether `<` orders the values of `xs`: none is below itself, and one that is
/// not below a second, nor that below a third, is not below the third.
pub open spec fn comparable<R, A: Arithmetic<R>>(a: &A, xs: Seq<R>) -> bool {
    &&& forall|i: int| 0 <= i < xs.len() ==> !below(a, #[trigger] xs[i], xs[i])
    &&& forall|i: int, j: int|
        0 <= i < xs.len() && 0 <= j < xs.len() && #[trigger] below(a, xs[i], xs[j]) ==> !below(
            a,
            xs[j],
            xs[i],
        )
    &&& forall|i: int, j: int, k: int|
        0 <= i < xs.len() && 0 <= j < xs.len() && 0 <= k < xs.len() && !#[trigger] below(
            a,
            xs[i],
            xs[j],
        ) && !#[trigger] below(a, xs[j], xs[k]) ==> !below(a, xs[i], xs[k])
}

/// The frequency axis of a bank is monotonic: no filter lies below one that
/// stands before it.
pub proof fn law_axis_is_monotonic<R: Copy, A: Arithmetic<R>>(
    a: &A,
    bank: &FilterBank<R>,
    i: int,
    j: int,
)
    requires
        ordered(a, bank.pairs()),
        comparable(a, bank.frequencies()),
        0 <= i < j < bank.wavelets@.len(),
    ensures
        !below(a, bank.frequencies()[j], bank.frequencies()[i]),
    decreases j - i,
{
    let xs = bank.frequencies();
    let p = bank.pairs()[j - 1];
    assert(bank.pairs()[j - 1].0 == xs[j - 1] && bank.pairs()[j].0 == xs[j]);
    assert(!below(a, xs[j], xs[j - 1]));
    if i < j - 1 {
        law_axis_is_monotonic(a, bank, i, j - 1);
    }
}

/// The carrier axis in Hz is monotonic, where scaling by the sample rate keeps
/// values in order.
pub proof fn law_carrier_axis_is_monotonic<R: Copy, A: Arithmetic<R>>(
    a: &A,
    sa: &Geometry<R>,
    i: int,
    j: int,
)
    requires
        ordered(a, sa.bank1.pairs()),
        comparable(a, sa.bank1.frequencies()),
        forall|x: R, y: R|
            !below(a, y, x) ==> !#[trigger] below(
                a,
                product(a, y, sa.config.fs),
                product(a, x, sa.config.fs),
            ),
        0 <= i < j < sa.bank1.wavelets@.len(),
    ensures
        !below(a, sa.carriers(a)[j], sa.carriers(a)[i]),
{
    law_axis_is_monotonic(a, &sa.bank1, i, j);
}

proof fn lemma_mirror_counts<R, A: Arithmetic<R>>(a: &A, xs: Seq<(R, R)>, p: (R, R))
    requires
        forall|x: R| #[trigger] negative(a, negative(a, x)) == x,
    ensures
        mirrored(a, xs, true).to_multiset().count(p) == mirrored(a, xs, true).to_multiset().count(
            (negative(a, p.0), p.1),
        ),
    decreases xs.len(),
{
    broadcast use vstd::seq_lib::group_to_multiset_ensures;

    let both = mirrored(a, xs, true);
    if xs.len() == 0 {
        assert(both =~= Seq::<(R, R)>::empty());
    } else {
        let rest = mirrored(a, xs.drop_last(), true);
        let f = xs.last();
        let g = (negative(a, f.0), f.1);
        lemma_mirror_counts(a, xs.drop_last(), p);
        assert(both =~= rest.push(f).push(g));
        rest.to_multiset_ensures();
        rest.push(f).to_multiset_ensures();
        assert(both.to_multiset() =~= rest.to_multiset().insert(f).insert(g));
        assert(negative(a, negative(a, p.0)) == p.0);
        assert(negative(a, negative(a, f.0)) == f.0);
    }
}

/// A two-sided bank is symmetric: it holds as many filters at a centre frequency
/// as at its mirror image, and as wide.
pub proof fn law_two_sided_bank_is_symmetric<R: Copy, A: Arithmetic<R>>(
    a: &A,
    bank: &FilterBank<R>,
    spec: &BankSpec<R>,
    n: usize,
    invariance_samples: R,
    xi: R,
    sigma: R,
)
    requires
        bank.realises(a, spec, n, invariance_samples),
        spec.two_sided,
        forall|x: R| #[trigger] negative(a, negative(a, x)) == x,
    ensures
        bank.pairs().to_multiset().count((xi, sigma)) == bank.pairs().to_multiset().count(
            (negative(a, xi), sigma),
        ),
{
    lemma_mirror_counts(a, spec.filters(a, narrowest(a, n)), (xi, sigma));
}

/// Every bank has a point where its widths stop being proportional, if only the
/// end.
pub proof fn lemma_stops<R: Copy, A: Arithmetic<R>>(
    a: &A,
    spec: &BankSpec<R>,
    sigma_min: R,
    from: usize,
) -> (k: usize)
    requires
        from <= spec.requested(a),
        forall|j: usize| j < from ==> #[trigger] spec.fits(a, sigma_min, j),
    ensures
        spec.stops_at(a, sigma_min, k),
    decreases spec.requested(a) - from,
{
    if from < spec.requested(a) && spec.fits(a, sigma_min, from) {
        lemma_stops(a, spec, sigma_min, (from + 1) as usize)
    } else {
        from
    }
}

/// Filters are planned at no less than the narrowest width that fits: above the
/// elbow they are as wide as their centre frequency makes them, and no narrower
/// than that; below it all of them are exactly that wide.
pub proof fn law_no_filter_is_too_narrow<R: Copy, A: Arithmetic<R>>(
    a: &A,
    spec: &BankSpec<R>,
    sigma_min: R,
    i: int,
)
    requires
        0 <= i < spec.filters(a, sigma_min).len(),
    ensures
        ({
            let (xi, sigma) = spec.filters(a, sigma_min)[i];
            if i < spec.proportional(a, sigma_min) {
                &&& sigma == spec.width(a, xi)
                &&& at_most(a, sigma_min, sigma)
            } else {
                sigma == sigma_min
            }
        }),
{
    let k = lemma_stops(a, spec, sigma_min, 0);
    assert(spec.stops_at(a, sigma_min, spec.proportional(a, sigma_min)));
    if i < spec.proportional(a, sigma_min) {
        assert(spec.fits(a, sigma_min, i as usize));
    }
}

/// A bank has an elbow exactly if some requested filter would have been too
/// narrow for it, and then every filter down to the elbow is as wide as its
/// centre frequency makes it.
pub proof fn law_elbow_marks_the_first_filter_too_narrow<R: Copy, A: Arithmetic<R>>(
    a: &A,
    spec: &BankSpec<R>,
    sigma_min: R,
)
    ensures
        spec.elbow(a, sigma_min) is None <==> (forall|j: usize|
            j < spec.requested(a) ==> #[trigger] spec.fits(a, sigma_min, j)),
        spec.elbow(a, sigma_min) is Some && spec.fits(a, sigma_min, 0) ==> exists|j: usize|
            j < spec.requested(a) && spec.elbow(a, sigma_min) == Some(spec.centre(a, j))
                && !spec.fits(a, sigma_min, (j + 1) as usize) && (forall|l: usize|
                l <= j ==> #[trigger] spec.fits(a, sigma_min, l)),
{
    let some = lemma_stops(a, spec, sigma_min, 0);
    let k = spec.proportional(a, sigma_min);
    assert(spec.stops_at(a, sigma_min, k));
    if k < spec.requested(a) {
        assert(!spec.fits(a, sigma_min, k));
        if k > 0 {
            let j = (k - 1) as usize;
            assert(spec.elbow(a, sigma_min) == Some(spec.centre(a, j)));
            assert(!spec.fits(a, sigma_min, (j + 1) as usize));
        }
    }
}

/// Above the elbow a bank is constant-Q: a filter `c` times as high is `c` times
/// as wide.
pub proof fn law_width_is_proportional<R: Copy, A: Arithmetic<R>>(
    a: &A,
    spec: &BankSpec<R>,
    c: R,
    xi: R,
)
    requires
        forall|x: R, y: R| #[trigger]
            product(a, product(a, c, x), y) == product(a, c, product(a, x, y)),
        forall|x: R, y: R| #[trigger]
            quotient(a, product(a, c, x), y) == product(a, c, quotient(a, x, y)),
    ensures
        spec.width(a, product(a, c, xi)) == product(a, c, spec.width(a, xi)),
{
}

pub proof fn lemma_planned_width<R: Copy, A: Arithmetic<R>>(
    a: &A,
    bank: &FilterBank<R>,
    spec: &BankSpec<R>,
    n: usize,
    invariance_samples: R,
    i: int,
) -> (j: int)
    requires
        bank.realises(a, spec, n, invariance_samples),
        0 <= i < bank.wavelets@.len(),
    ensures
        0 <= j < spec.filters(a, narrowest(a, n)).len(),
        bank.wavelets@[i].sigma == spec.filters(a, narrowest(a, n))[j].1,
{
    broadcast use vstd::seq_lib::group_to_multiset_ensures;

    let filters = spec.filters(a, narrowest(a, n));
    let both = mirrored(a, filters, spec.two_sided);
    let p = bank.pairs()[i];
    assert(bank.pairs().contains(p));
    assert(both.to_multiset().count(p) > 0);
    assert(both.contains(p));
    let m = choose|m: int| 0 <= m < both.len() && both[m] == p;
    if spec.two_sided {
        m / 2
    } else {
        m
    }
}

/// No filter of a bank is longer than the narrowest that fits its block, where
/// a wider filter is a shorter one.
pub proof fn law_filters_fit_their_block<R: Copy, A: Arithmetic<R>>(
    a: &A,
    bank: &FilterBank<R>,
    spec: &BankSpec<R>,
    n: usize,
    invariance_samples: R,
    i: int,
)
    requires
        bank.realises(a, spec, n, invariance_samples),
        0 <= i < bank.wavelets@.len(),
        forall|s: R, t: R| #[trigger]
            at_most(a, s, t) ==> at_most(a, support(a, t), support(a, s)),
    ensures
        ({
            let length = support(a, bank.wavelets@[i].sigma);
            let longest = support(a, narrowest(a, n));
            length == longest || at_most(a, length, longest)
        }),
{
    let j = lemma_planned_width(a, bank, spec, n, invariance_samples, i);
    law_no_filter_is_too_narrow(a, spec, narrowest(a, n), j);
}

proof fn lemma_largest_quotient<R, A: Arithmetic<R>>(a: &A, xs: Seq<R>, p: R)
    requires
        quotient(a, num(a, 0), p) == num(a, 0),
        forall|x: R| #[trigger] magnitude(a, quotient(a, x, p)) == quotient(a, magnitude(a, x), p),
        forall|x: R, y: R| #[trigger]
            larger(a, quotient(a, x, p), quotient(a, y, p)) == quotient(a, larger(a, x, y), p),
    ensures
        largest(
            a,
            num(a, 0),
            xs.map_values(|v: R| quotient(a, v, p)).map_values(|v: R| magnitude(a, v)),
        ) == quotient(a, largest(a, num(a, 0), xs.map_values(|v: R| magnitude(a, v))), p),
    decreases xs.len(),
{
    let sizes = xs.map_values(|v: R| magnitude(a, v));
    let parts = xs.map_values(|v: R| quotient(a, v, p)).map_values(|v: R| magnitude(a, v));
    if xs.len() > 0 {
        let rest = xs.drop_last();
        lemma_largest_quotient(a, rest, p);
        assert(sizes.drop_last() =~= rest.map_values(|v: R| magnitude(a, v)));
        assert(parts.drop_last() =~= rest.map_values(|v: R| quotient(a, v, p)).map_values(
            |v: R| magnitude(a, v),
        ));
        assert(parts.last() == quotient(a, sizes.last(), p));
    }
}

/// Wavelets have unit peak gain: the largest magnitude in a normalised response
/// is one, if the response had any magnitude to begin with.
pub proof fn law_peak_gain_is_one<R, A: Arithmetic<R>>(a: &A, xs: Seq<R>)
    requires
        ({
            let p = largest(a, num(a, 0), xs.map_values(|v: R| magnitude(a, v)));
            &&& below(a, num(a, 0), p)
            &&& quotient(a, num(a, 0), p) == num(a, 0)
            &&& quotient(a, p, p) == num(a, 1)
            &&& forall|x: R| #[trigger]
                magnitude(a, quotient(a, x, p)) == quotient(a, magnitude(a, x), p)
            &&& forall|x: R, y: R| #[trigger]
                larger(a, quotient(a, x, p), quotient(a, y, p)) == quotient(a, larger(a, x, y), p)
        }),
    ensures
        largest(a, num(a, 0), unit_peak(a, xs).map_values(|v: R| magnitude(a, v))) == num(a, 1),
{
    let p = largest(a, num(a, 0), xs.map_values(|v: R| magnitude(a, v)));
    lemma_largest_quotient(a, xs, p);
}

/// Morlet wavelets are admissible: the response vanishes at DC.
pub proof fn law_morlet_vanishes_at_dc<R, A: Arithmetic<R>>(a: &A, xi: R, sigma: R)
    requires
        ({
            let off = difference(a, num(a, 0), xi);
            negative(a, product(a, off, off)) == product(a, negative(a, xi), xi)
        }),
        gauss(a, num(a, 0), sigma) == num(a, 1),
        forall|x: R| #[trigger] product(a, x, num(a, 1)) == x,
        forall|x: R| #[trigger] difference(a, x, x) == num(a, 0),
    ensures
        morlet(a, num(a, 0), xi, sigma) == num(a, 0),
{
}

/// Halving the lowest frequency there is room for takes twice the block.
pub proof fn law_twice_the_block_reaches_half_as_low<R, A: Arithmetic<R>>(a: &A, n: usize)
    requires
        2 * n <= usize::MAX,
        num(a, (2 * n) as u64) == product(a, num(a, 2), num(a, n as u64)),
        forall|x: R, y: R| #[trigger]
            product(a, x, product(a, num(a, 2), y)) == product(a, num(a, 2), product(a, x, y)),
        forall|x: R, y: R| #[trigger]
            quotient(a, x, product(a, num(a, 2), y)) == quotient(a, quotient(a, x, y), num(a, 2)),
    ensures
        lowest_centre(a, (2 * n) as usize) == quotient(a, lowest_centre(a, n), num(a, 2)),
{
}

// Sizing a block.

/// There is a largest power of two that is at most `limit` and divides `n`, at
/// least as large as any one such power.
pub proof fn lemma_has_factor(limit: int, n: int, d: int)
    requires
        n > 0,
        power_of_two(d),
        n % d == 0,
        d <= limit || d == 1,
    ensures
        largest_factor(limit, n, factor(limit, n)),
    decreases n - d,
{
    lemma_double(d);
    if 2 * d <= limit && n % (2 * d) == 0 {
        lemma_at_most(2 * d, n);
        lemma_has_factor(limit, n, 2 * d);
    } else {
        assert forall|p: int| #[trigger] power_of_two(p) && p <= limit && n % p == 0 implies p
            <= d by {
            if p > d {
                lemma_gap(d, p);
                lemma_divides(2 * d, p);
                lemma_mod_through(n, 2 * d, p);
            }
        }
        assert(largest_factor(limit, n, d));
    }
}

proof fn lemma_doublings<R: Copy, A: Arithmetic<R>>(
    a: &A,
    config: &Config<R>,
    min_mod_hz: R,
    n: int,
    tries: int,
)
    requires
        power_of_two(n),
        tries >= 0,
    ensures
        power_of_two(config.grown(a, min_mod_hz, n, tries)),
        at_most(
            a,
            config.reached(a, config.grown(a, min_mod_hz, n, tries)),
            config.target(a, min_mod_hz),
        ) || config.grown(a, min_mod_hz, n, tries) == n * pow2(tries as nat),
    decreases tries,
{
    lemma_double(n);
    if tries == 0 {
        lemma_one();
    } else if !at_most(a, config.reached(a, n), config.target(a, min_mod_hz)) {
        lemma_doublings(a, config, min_mod_hz, 2 * n, tries - 1);
        lemma_pow2_unfold(tries as nat);
        let p = pow2((tries - 1) as nat);
        assert((2 * n) * p == n * (2 * p)) by (nonlinear_arith);
    }
}

/// How far envelopes are decimated in sizing a block is a power of two.
pub proof fn lemma_sizing_step_is_positive<R: Copy, A: Arithmetic<R>>(a: &A, config: &Config<R>)
    ensures
        power_of_two(config.sizing_step(a)),
        1 <= config.sizing_step(a) <= 0x4000_0000,
{
    let limit = whole_limit(
        a,
        quotient(a, product(a, fraction(a, 1, 4), config.fs), config.max_mod_hz),
    );
    lemma_one();
    lemma_has_factor(limit, 0x4000_0000, 1);
    lemma_double(config.sizing_step(a));
    lemma_at_most(config.sizing_step(a), 0x4000_0000);
}

/// The first guess at a block length is a power of two.
pub proof fn lemma_first_length_is_power<R: Copy, A: Arithmetic<R>>(
    a: &A,
    config: &Config<R>,
    min_mod_hz: R,
)
    ensures
        power_of_two(config.first_length(a, min_mod_hz)),
{
    lemma_sizing_step_is_positive(a, config);
    assert forall|x: int| power_of_two(#[trigger] next_pow2(x)) by {
        lemma_next_pow2(x);
    }
}

/// A predicted block length is a power of two and reaches the rate it was
/// predicted for, unless that would take more than eight doublings of the first
/// guess.
pub proof fn law_predicted_block_reaches_its_rate<R: Copy, A: Arithmetic<R>>(
    a: &A,
    config: &Config<R>,
    min_mod_hz: R,
)
    ensures
        ({
            let first = config.first_length(a, min_mod_hz);
            let n = config.grown(a, min_mod_hz, first, 8);
            &&& power_of_two(n)
            &&& n >= first
            &&& at_most(a, config.reached(a, n), config.target(a, min_mod_hz)) || n == 256 * first
        }),
{
    let first = config.first_length(a, min_mod_hz);
    lemma_first_length_is_power(a, config, min_mod_hz);
    lemma2_to64();
    lemma_double(first);
    config.lemma_grown(a, min_mod_hz, first, 8);
    lemma_doublings(a, config, min_mod_hz, first, 8);
    assert(first * pow2(8) == 256 * first) by (nonlinear_arith)
        requires
            pow2(8) == 256,
    ;
}

/// An analyser decimates its envelopes as far as was assumed in sizing its
/// block, if the block has room for that.
proof fn lemma_sizing_step<R: Copy, A: Arithmetic<R>>(a: &A, config: &Config<R>, n: int)
    requires
        power_of_two(n),
        config.sizing_step(a) <= n,
        config.sizing_step(a) < 0x4000_0000 || n <= 0x4000_0000,
    ensures
        config.envelope_step(a, n) == config.sizing_step(a),
{
    let limit = whole_limit(
        a,
        quotient(a, product(a, fraction(a, 1, 4), config.fs), config.max_mod_hz),
    );
    let top: int = 0x4000_0000;
    lemma_one();
    lemma_has_factor(limit, top, 1);
    let d = factor(limit, top);
    assert(power_of_two(top)) by {
        lemma2_to64();
        assert(top == pow2(30));
    }
    lemma_divides(d, n);
    assert forall|p: int| #[trigger] power_of_two(p) && p <= limit && n % p == 0 implies p <= d by {
        if p <= top {
            lemma_divides(p, top);
        } else {
            assert(top % top == 0);
            if p > n {
                lemma_small_mod(n as nat, p as nat);
            }
        }
    }
    lemma_factor(limit, n, d);
}

/// A predicted block is honest: an analyser for blocks of that length has a
/// modulation filter at the rate it was predicted for or below, unless that
/// would take more than eight doublings of the first guess.
///
/// Left out are blocks of over a thousand million samples whose envelopes are
/// decimated as far as that, which would be decimated further still.
pub proof fn law_predicted_block_is_honest<R: Copy, A: Arithmetic<R>>(
    a: &A,
    config: &Config<R>,
    min_mod_hz: R,
    n: usize,
    sa: &Geometry<R>,
)
    requires
        n == config.grown(a, min_mod_hz, config.first_length(a, min_mod_hz), 8),
        config.sizing_step(a) < 0x4000_0000 || n <= 0x4000_0000,
        sa.realises(a, config, n),
        sa.bank2.wavelets@.len() > 0,
    ensures
        sa.fs1(a) == config.envelope_rate(a, config.sizing_step(a)),
        n == 256 * config.first_length(a, min_mod_hz) || exists|i: int|
            0 <= i < sa.bank2.wavelets@.len() && at_most(
                a,
                #[trigger] sa.bank2.frequencies()[i],
                config.target(a, min_mod_hz),
            ),
{
    broadcast use vstd::seq_lib::group_to_multiset_ensures;

    law_predicted_block_reaches_its_rate(a, config, min_mod_hz);
    let d1 = config.sizing_step(a);
    lemma_sizing_step(a, config, n as int);
    let n1 = (n as int / d1) as usize;
    let filters = config.modulation_spec(a, d1).filters(a, narrowest(a, n1));
    let pairs = sa.bank2.pairs();
    assert(pairs.to_multiset() == filters.to_multiset());
    pairs.to_multiset_ensures();
    filters.to_multiset_ensures();
    assert(pairs.len() == filters.len());
    let lowest = filters.last();
    assert(filters.contains(lowest));
    assert(pairs.to_multiset().count(lowest) > 0);
    assert(pairs.contains(lowest));
    let i = choose|i: int| 0 <= i < pairs.len() && pairs[i] == lowest;
    assert(sa.bank2.frequencies()[i] == lowest.0);
    assert(config.reached(a, n as int) == lowest.0);
}

/// How sharp the second order is does not enter into the first guess at a block
/// length.
pub proof fn law_first_guess_ignores_sharpness<R: Copy, A: Arithmetic<R>>(
    a: &A,
    config: &Config<R>,
    q2: R,
    min_mod_hz: R,
)
    ensures
        (Config { q2, ..*config }).first_length(a, min_mod_hz) == config.first_length(
            a,
            min_mod_hz,
        ),
{
}

// Readings.

/// Whether `<=` orders the values of `xs` completely.
pub open spec fn ranked<R, A: Arithmetic<R>>(a: &A, xs: Seq<R>) -> bool {
    &&& forall|i: int, j: int|
        0 <= i < xs.len() && 0 <= j < xs.len() && !#[trigger] at_most(a, xs[i], xs[j])
            ==> at_most(a, xs[j], xs[i])
    &&& forall|i: int| 0 <= i < xs.len() ==> at_most(a, #[trigger] xs[i], xs[i])
    &&& forall|i: int, j: int, k: int|
        0 <= i < xs.len() && 0 <= j < xs.len() && 0 <= k < xs.len() && #[trigger] at_most(
            a,
            xs[i],
            xs[j],
        ) && #[trigger] at_most(a, xs[j], xs[k]) ==> at_most(a, xs[i], xs[k])
}

/// A marker put on the peak stands on the largest value, and on the first of
/// them if there are several.
pub proof fn law_peak_is_the_first_of_the_largest<R, A: Arithmetic<R>>(a: &A, xs: Seq<R>)
    requires
        xs.len() > 0,
        ranked(a, xs),
    ensures
        peak_index(a, xs) matches Some(i) && 0 <= i < xs.len() && (forall|j: int|
            0 <= j < xs.len() ==> at_most(a, #[trigger] xs[j], xs[i])) && (forall|j: int|
            0 <= j < i ==> !at_most(a, xs[i], #[trigger] xs[j])),
    decreases xs.len(),
{
    let rest = xs.drop_last();
    let last = xs.len() - 1;
    if rest.len() > 0 {
        assert(ranked(a, rest)) by {
            assert forall|i: int| 0 <= i < rest.len() implies #[trigger] rest[i] == xs[i] by {}
        }
        law_peak_is_the_first_of_the_largest(a, rest);
        let i = peak_index(a, rest)->Some_0;
        assert forall|j: int| 0 <= j < rest.len() implies at_most(a, #[trigger] xs[j], xs[i]) by {
            assert(at_most(a, rest[j], rest[i]));
        }
        if at_most(a, xs[last], xs[i]) {
            assert forall|j: int| 0 <= j < i implies !at_most(a, xs[i], #[trigger] xs[j]) by {
                assert(!at_most(a, rest[i], rest[j]));
            }
        } else {
            assert forall|j: int| 0 <= j < last implies !at_most(a, xs[last], #[trigger] xs[j]) by {
                if at_most(a, xs[last], xs[j]) {
                    assert(at_most(a, xs[j], xs[i]));
                }
            }
            assert(at_most(a, xs[i], xs[last]));
        }
    } else {
        assert(peak_index(a, rest) is None);
    }
}

/// How far each of `xs` is from `target`.
pub open spec fn distances<R, A: Arithmetic<R>>(a: &A, xs: Seq<R>, target: R) -> Seq<R> {
    xs.map_values(|x: R| magnitude(a, difference(a, x, target)))
}

/// The bandwidth quoted at a frequency is that of the filter nearest to it, and
/// of the first of them if there are several.
pub proof fn law_nearest_filter_is_the_first_of_the_closest<R, A: Arithmetic<R>>(
    a: &A,
    xs: Seq<R>,
    target: R,
)
    requires
        xs.len() > 0,
        comparable(a, distances(a, xs, target)),
    ensures
        closest(a, xs, target) matches Some(i) && 0 <= i < xs.len() && (forall|j: int|
            0 <= j < xs.len() ==> !below(
                a,
                #[trigger] distances(a, xs, target)[j],
                distances(a, xs, target)[i],
            )) && (forall|j: int|
            0 <= j < i ==> below(
                a,
                distances(a, xs, target)[i],
                #[trigger] distances(a, xs, target)[j],
            )),
    decreases xs.len(),
{
    let far = distances(a, xs, target);
    let rest = xs.drop_last();
    let near = distances(a, rest, target);
    let last = xs.len() - 1;
    assert forall|j: int| 0 <= j < rest.len() implies #[trigger] near[j] == far[j] by {}
    if rest.len() > 0 {
        assert(comparable(a, near));
        law_nearest_filter_is_the_first_of_the_closest(a, rest, target);
        let i = closest(a, rest, target)->Some_0;
        assert forall|j: int| 0 <= j < rest.len() implies !below(a, #[trigger] far[j], far[i]) by {
            assert(!below(a, near[j], near[i]));
        }
        if below(a, far[last], far[i]) {
            assert forall|j: int| 0 <= j < last implies below(a, far[last], #[trigger] far[j]) by {
                if !below(a, far[last], far[j]) {
                    assert(!below(a, far[j], far[i]));
                }
            }
        } else {
            assert forall|j: int| 0 <= j < i implies below(a, far[i], #[trigger] far[j]) by {
                assert(below(a, near[i], near[j]));
            }
        }
    } else {
        assert(closest(a, rest, target) is None);
    }
}

// Signals.

/// The generator never gets stuck: from a state that is not zero it goes to a
/// state that is not zero.
pub proof fn law_generator_never_stalls(state: u64)
    requires
        state != 0,
    ensures
        xorshift(state) != 0,
{
    lemma_xorshift_alive(state);
}

/// Quantisation clips rather than wraps: no code lies outside the range.
pub proof fn law_clipping_stays_in_range<R, A: Arithmetic<R>>(a: &A, x: R, lo: R, hi: R)
    requires
        !below(a, hi, lo),
        comparable(a, seq![x, lo, hi]),
    ensures
        !below(a, clamped(a, x, lo, hi), lo),
        !below(a, hi, clamped(a, x, lo, hi)),
        !below(a, x, lo) && !below(a, hi, x) ==> clamped(a, x, lo, hi) == x,
{
    let xs = seq![x, lo, hi];
    assert(xs[0] == x && xs[1] == lo && xs[2] == hi);
}

/// A tone and a frequency-modulated carrier have a constant envelope, where a
/// point at distance `amplitude` is that far from the origin at any angle.
pub proof fn law_constant_envelopes<R, A: Arithmetic<R>>(
    a: &A,
    fs: R,
    carrier_hz: R,
    mod_hz: R,
    deviation_hz: R,
    amplitude: R,
    t: u64,
)
    requires
        forall|angle: R| #[trigger]
            modulus(a, polar(a, amplitude, angle)) == magnitude(a, amplitude),
    ensures
        modulus(a, tone_at(a, fs, carrier_hz, amplitude, t)) == magnitude(a, amplitude),
        modulus(a, fm_at(a, fs, carrier_hz, mod_hz, deviation_hz, amplitude, t)) == magnitude(
            a,
            amplitude,
        ),
{
}

} // verus!
