//! Which modulation rates are read in which carrier bands.

use vstd::prelude::*;

use crate::arithmetic::{negative, num, product, Arithmetic};
use crate::complex::{envelope, Complex};
use crate::fft::{inverted, transformed, Direction, Engine};
use crate::grid::faithful_rounding;
use crate::laws::law_two_sided_bank_is_symmetric;
use crate::planes::lemma_group;
use crate::reals::{faithful, Meaning};
use crate::resolution::lemma_envelope_rate;
use crate::transform::{averaged, extracted, Config, Geometry, Scattergram, Scattering};

verus! {

/// Whether an envelope of carrier band `i1` can keep up with modulation rate `i2`: the
/// rate, in cycles per envelope sample, is at most the half-power bandwidth of the band,
/// in cycles per sample, times the samples to an envelope sample.
pub open spec fn keeps_up<R>(sa: &Geometry<R>, m: Meaning<R>, i1: int, i2: int) -> bool {
    m.of(sa.bank2.wavelets@[i2].xi) <= m.of(sa.bank1.wavelets@[i1].bandwidth) * (sa.d1 as real)
}

/// Rates are read in a band if and only if its envelopes can keep up with them.
pub proof fn lemma_keeps_up<R: Copy, A: Arithmetic<R>>(
    sa: &Geometry<R>,
    a: &A,
    m: Meaning<R>,
    i1: int,
    i2: int,
)
    requires
        faithful(a, m),
        sa.wf(),
        sa.realises(a, &sa.config, sa.n),
        0 <= i1 < sa.bank1.wavelets@.len(),
    ensures
        sa.beyond(a, i1, i2) <==> !keeps_up(sa, m, i1, i2),
{
    let w = sa.bank1.wavelets@[i1].bandwidth;
    assert(sa.mod_ceiling@[i1] == product(a, w, num(a, sa.d1 as u64)));
    reveal(faithful);
    assert(m.of(num(a, sa.d1 as u64)) == sa.d1 as real);
}

/// A rate in Hz is at most a bandwidth in Hz if and only if an envelope can keep up.
proof fn lemma_in_hz(rate: real, xi: real, width: real, d: real, f: real)
    requires
        d > 0real,
        f > 0real,
        rate * d == xi * f,
    ensures
        rate <= width * f <==> xi <= width * d,
{
    let ceiling = width * d;
    assert(ceiling * f == (width * f) * d) by {
        assert((width * d) * f == (width * f) * d) by (nonlinear_arith);
    }
    let most = width * f;
    if rate <= most {
        assert(rate * d <= most * d) by (nonlinear_arith)
            requires
                rate <= most,
                d > 0real,
        ;
        if xi > ceiling {
            assert(xi * f > ceiling * f) by (nonlinear_arith)
                requires
                    xi > ceiling,
                    f > 0real,
            ;
        }
    } else {
        assert(rate * d > most * d) by (nonlinear_arith)
            requires
                rate > most,
                d > 0real,
        ;
        if xi <= ceiling {
            assert(xi * f <= ceiling * f) by (nonlinear_arith)
                requires
                    xi <= ceiling,
                    f > 0real,
            ;
        }
    }
}

/// A rate is read in a carrier band if and only if it is at most the half-power
/// bandwidth of the band, both in Hz: `rates` and the bandwidth are those of the
/// analyser itself. Beyond, the second order is nothing at all; within, it is the
/// averaged envelope of what the modulation filter passes of the envelope of the band.
pub proof fn law_rates_are_read_up_to_the_bandwidth<
    R: Copy,
    P,
    A: Arithmetic<R>,
    E: Engine<R, P>,
>(
    a: &A,
    m: Meaning<R>,
    engine: &E,
    config: Config<R>,
    n: usize,
    sa: &Scattering<R>,
    rates: Vec<R>,
    x: Seq<Complex<R>>,
    out: &Scattergram<R>,
    i1: int,
    i2: int,
)
    requires
        faithful(a, m),
        m.of(config.fs) > 0real,
        call_ensures(Scattering::<R>::new::<A>, (a, config, n), *sa),
        call_ensures(Scattering::<R>::lambda2_hz::<A>, (sa, a), rates),
        sa@.analysed::<P, A, E>(a, engine, x, out),
        out.wf(),
        0 <= i1 < out.s2@.len(),
        0 <= i2 < out.s2@[i1]@.len(),
    ensures
        ({
            let row = out.s2@[i1]@[i2]@;
            let width = m.of(sa@.bank1.wavelets@[i1].bandwidth) * m.of(config.fs);
            &&& m.of(rates@[i2]) > width ==> row.len() == sa@.n_out && forall|t: int|
                0 <= t < row.len() ==> m.of(#[trigger] row[t]) == 0real
            &&& m.of(rates@[i2]) <= width ==> exists|
                spectrum: Seq<Complex<R>>,
                u1: Seq<Complex<R>>,
                sub: Seq<Complex<R>>,
                env: Seq<Complex<R>>,
            |
                {
                    &&& #[trigger] transformed::<R, P, E>(engine, Direction::Forward, x, spectrum)
                    &&& #[trigger] sa@.band_envelope::<P, A, E>(a, engine, i1, spectrum, u1)
                    &&& #[trigger] inverted::<R, P, A, E>(
                        a,
                        engine,
                        extracted(
                            a,
                            u1,
                            sa@.bank2.wavelets@[i2].spectrum@,
                            sa@.bands2@[i2],
                        ),
                        sub,
                    )
                    &&& #[trigger] transformed::<R, P, E>(
                        engine,
                        Direction::Forward,
                        envelope(a, sub),
                        env,
                    )
                    &&& averaged::<R, P, A, E>(
                        a,
                        engine,
                        sa@.phi(sa@.bands2@[i2].len as int),
                        sa@.n_out as int,
                        env,
                        row,
                    )
                }
        }),
{
    let g = &sa@;
    let row = out.s2@[i1]@[i2]@;
    lemma_keeps_up(g, a, m, i1, i2);
    lemma_rate(a, m, sa, rates@, i2);
    g.lemma_grids();
    lemma_in_hz(
        m.of(rates@[i2]),
        m.of(g.bank2.wavelets@[i2].xi),
        m.of(g.bank1.wavelets@[i1].bandwidth),
        g.d1 as real,
        m.of(config.fs),
    );
    let spectrum = choose|spectrum: Seq<Complex<R>>|
        {
            &&& #[trigger] transformed::<R, P, E>(engine, Direction::Forward, x, spectrum)
            &&& forall|i1: int|
                0 <= i1 < out.s1@.len() ==> g.band_result::<P, A, E>(
                    a,
                    engine,
                    i1,
                    spectrum,
                    (#[trigger] out.s1@[i1])@,
                    out.second(i1),
                )
        };
    assert(g.band_result::<P, A, E>(a, engine, i1, spectrum, out.s1@[i1]@, out.second(i1)));
    assert(out.second(i1)[i2]@ == row);
    if g.beyond(a, i1, i2) {
        assert(m.of(num(a, 0)) == 0real) by {
            reveal(faithful);
        }
    }
}

/// A rate in Hz, and one in cycles per envelope sample.
proof fn lemma_rate<R: Copy, A: Arithmetic<R>>(
    a: &A,
    m: Meaning<R>,
    sa: &Scattering<R>,
    rates: Seq<R>,
    i2: int,
)
    requires
        faithful(a, m),
        sa@.wf(),
        m.of(sa@.config.fs) > 0real,
        rates == sa@.rates(a),
        0 <= i2 < sa@.bank2.wavelets@.len(),
    ensures
        m.of(rates[i2]) * (sa@.d1 as real) == m.of(sa@.bank2.wavelets@[i2].xi) * m.of(
            sa@.config.fs,
        ),
{
    lemma_envelope_rate(a, m, sa);
    let xi = sa@.bank2.wavelets@[i2].xi;
    assert(rates[i2] == product(a, xi, sa@.fs1(a)));
    assert(m.of(rates[i2]) == m.of(xi) * m.of(sa@.fs1(a))) by {
        reveal(faithful);
    }
    lemma_group(m.of(xi), m.of(sa@.fs1(a)), sa@.d1 as real);
}

/// Bands as wide as each other are read at the same rates.
pub proof fn law_bands_of_one_width_share_their_rates<R: Copy, A: Arithmetic<R>>(
    a: &A,
    m: Meaning<R>,
    config: Config<R>,
    n: usize,
    sa: &Scattering<R>,
    i1: int,
    j1: int,
    i2: int,
)
    requires
        faithful(a, m),
        call_ensures(Scattering::<R>::new::<A>, (a, config, n), *sa),
        0 <= i1 < sa@.bank1.wavelets@.len(),
        0 <= j1 < sa@.bank1.wavelets@.len(),
        sa@.bank1.wavelets@[i1].sigma == sa@.bank1.wavelets@[j1].sigma,
    ensures
        sa@.beyond(a, i1, i2) == sa@.beyond(a, j1, i2),
{
    lemma_keeps_up(&sa@, a, m, i1, i2);
    lemma_keeps_up(&sa@, a, m, j1, i2);
    assert(sa@.bank1.wavelets@[i1].bandwidth == sa@.bank1.wavelets@[j1].bandwidth);
}

/// An analyser of complex input treats either side of the spectrum alike: each carrier
/// band has a mirror image, and what one is read at, so is the other.
pub proof fn law_mirrored_bands_share_their_rates<R: Copy, A: Arithmetic<R>>(
    a: &A,
    m: Meaning<R>,
    config: Config<R>,
    n: usize,
    sa: &Scattering<R>,
    i1: int,
) -> (j1: int)
    requires
        faithful(a, m),
        faithful_rounding(a, m),
        forall|x: R| #[trigger] negative(a, negative(a, x)) == x,
        call_ensures(Scattering::<R>::new::<A>, (a, config, n), *sa),
        config.complex_input,
        0 <= i1 < sa@.bank1.wavelets@.len(),
    ensures
        0 <= j1 < sa@.bank1.wavelets@.len(),
        m.of(sa@.bank1.wavelets@[j1].xi) == -m.of(sa@.bank1.wavelets@[i1].xi),
        sa@.bank1.wavelets@[j1].sigma == sa@.bank1.wavelets@[i1].sigma,
        forall|i2: int| #[trigger] sa@.beyond(a, i1, i2) == sa@.beyond(a, j1, i2),
{
    let bank = &sa@.bank1;
    let (xi, sigma) = (bank.wavelets@[i1].xi, bank.wavelets@[i1].sigma);
    let pairs = bank.pairs();
    law_two_sided_bank_is_symmetric(
        a,
        bank,
        &config.carrier_spec(a),
        n,
        product(a, config.invariance_s, config.fs),
        xi,
        sigma,
    );
    pairs.to_multiset_ensures();
    assert(pairs[i1] == (xi, sigma));
    assert(pairs.contains((xi, sigma)));
    let other = (negative(a, xi), sigma);
    assert(pairs.to_multiset().count(other) > 0);
    assert(pairs.contains(other));
    let j1 = choose|j: int| 0 <= j < pairs.len() && pairs[j] == other;
    assert(pairs[j1] == (bank.wavelets@[j1].xi, bank.wavelets@[j1].sigma));
    assert(m.of(negative(a, xi)) == -m.of(xi)) by {
        reveal(faithful_rounding);
    }
    assert forall|i2: int| #[trigger] sa@.beyond(a, i1, i2) == sa@.beyond(a, j1, i2) by {
        law_bands_of_one_width_share_their_rates(a, m, config, n, sa, i1, j1, i2);
    }
    j1
}

/// The second order of a band is a matter of its envelope and its width: bands as wide
/// as each other whose envelopes are the same have the same second order, wherever in
/// the spectrum they lie.
pub proof fn law_second_order_follows_the_envelope<
    R: Copy,
    P,
    A: Arithmetic<R>,
    E: Engine<R, P>,
>(
    a: &A,
    m: Meaning<R>,
    engine: &E,
    config: Config<R>,
    n: usize,
    sa: &Scattering<R>,
    i1: int,
    j1: int,
    i2: int,
    u1: Seq<Complex<R>>,
    row: Seq<R>,
)
    requires
        faithful(a, m),
        call_ensures(Scattering::<R>::new::<A>, (a, config, n), *sa),
        0 <= i1 < sa@.bank1.wavelets@.len(),
        0 <= j1 < sa@.bank1.wavelets@.len(),
        sa@.bank1.wavelets@[i1].sigma == sa@.bank1.wavelets@[j1].sigma,
    ensures
        sa@.second_order::<P, A, E>(a, engine, i1, i2, u1, row) == sa@.second_order::<P, A, E>(
            a,
            engine,
            j1,
            i2,
            u1,
            row,
        ),
{
    law_bands_of_one_width_share_their_rates(a, m, config, n, sa, i1, j1, i2);
}

} // verus!
