//! What holds between two runs: of the same analyser on two blocks, or of two
//! analysers on one block.
//!
//! An engine may yield one of several results for a buffer. These laws are about
//! engines that always yield the same.

use vstd::prelude::*;

use crate::arithmetic::{product, Arithmetic};
use crate::complex::{envelope, real_parts, scaled_all, turned_all, Complex};
use crate::fft::{decimated, inverted, keeps_length, transformed, Direction, Engine};
use crate::filterbank::{
    arranged, mirrored, narrowest, support, BankSpec, FilterBank, Wavelet,
};
use crate::gain::{
    amplified, complex_linear, homogeneous, lemma_averaged, lemma_second_order, lemma_turned_band,
    lemma_turned_transform, lemma_turned_zeroth, linear, turns,
};
use crate::transform::{
    averaged, extracted, filtered, lemma_reach, Config, Scattergram, Geometry,
};

verus! {

/// Whether `engine` yields one result for each buffer.
#[verifier::opaque]
pub open spec fn functional<R, P, E: Engine<R, P>>(engine: &E) -> bool {
    forall|direction: Direction, x: Seq<Complex<R>>, y: Seq<Complex<R>>, z: Seq<Complex<R>>|
        #[trigger] transformed::<R, P, E>(engine, direction, x, y) && #[trigger] transformed::<
            R,
            P,
            E,
        >(engine, direction, x, z) ==> y == z
}

pub proof fn lemma_transformed_once<R, P, E: Engine<R, P>>(
    engine: &E,
    direction: Direction,
    x: Seq<Complex<R>>,
    y: Seq<Complex<R>>,
    z: Seq<Complex<R>>,
)
    requires
        functional::<R, P, E>(engine),
        transformed::<R, P, E>(engine, direction, x, y),
        transformed::<R, P, E>(engine, direction, x, z),
    ensures
        y == z,
{
    reveal(functional);
}

proof fn lemma_inverted_once<R, P, A: Arithmetic<R>, E: Engine<R, P>>(
    a: &A,
    engine: &E,
    x: Seq<Complex<R>>,
    y: Seq<Complex<R>>,
    z: Seq<Complex<R>>,
)
    requires
        functional::<R, P, E>(engine),
        inverted::<R, P, A, E>(a, engine, x, y),
        inverted::<R, P, A, E>(a, engine, x, z),
    ensures
        y == z,
{
    reveal(functional);
}

pub proof fn lemma_averaged_once<R, P, A: Arithmetic<R>, E: Engine<R, P>>(
    a: &A,
    engine: &E,
    phi: Seq<R>,
    out_len: int,
    x: Seq<Complex<R>>,
    y: Seq<R>,
    z: Seq<R>,
)
    requires
        functional::<R, P, E>(engine),
        averaged::<R, P, A, E>(a, engine, phi, out_len, x, y),
        averaged::<R, P, A, E>(a, engine, phi, out_len, x, z),
    ensures
        y == z,
{
    let small = decimated(a, filtered(a, x, phi), x.len() as int / out_len);
    let v = choose|v: Seq<Complex<R>>|
        #[trigger] inverted::<R, P, A, E>(a, engine, small, v) && y == real_parts(v);
    let w = choose|w: Seq<Complex<R>>|
        #[trigger] inverted::<R, P, A, E>(a, engine, small, w) && z == real_parts(w);
    lemma_inverted_once::<R, P, A, E>(a, engine, small, v, w);
}

pub proof fn lemma_zeroth_once<R: Copy, P, A: Arithmetic<R>, E: Engine<R, P>>(
    sa: &Geometry<R>,
    a: &A,
    engine: &E,
    x: Seq<Complex<R>>,
    y: Seq<R>,
    z: Seq<R>,
)
    requires
        functional::<R, P, E>(engine),
        sa.zeroth_order::<P, A, E>(a, engine, x, y),
        sa.zeroth_order::<P, A, E>(a, engine, x, z),
    ensures
        y == z,
{
    let (phi, len, d1) = (sa.phi(sa.n1()), sa.n_out as int, sa.d1 as int);
    let v = choose|env: Seq<Complex<R>>|
        #[trigger] transformed::<R, P, E>(engine, Direction::Forward, envelope(a, x), env)
            && averaged::<R, P, A, E>(a, engine, phi, len, decimated(a, env, d1), y);
    let w = choose|env: Seq<Complex<R>>|
        #[trigger] transformed::<R, P, E>(engine, Direction::Forward, envelope(a, x), env)
            && averaged::<R, P, A, E>(a, engine, phi, len, decimated(a, env, d1), z);
    lemma_transformed_once::<R, P, E>(engine, Direction::Forward, envelope(a, x), v, w);
    lemma_averaged_once::<R, P, A, E>(a, engine, phi, len, decimated(a, v, d1), y, z);
}

pub proof fn lemma_envelope_once<R: Copy, P, A: Arithmetic<R>, E: Engine<R, P>>(
    sa: &Geometry<R>,
    a: &A,
    engine: &E,
    i1: int,
    spectrum: Seq<Complex<R>>,
    y: Seq<Complex<R>>,
    z: Seq<Complex<R>>,
)
    requires
        functional::<R, P, E>(engine),
        sa.band_envelope::<P, A, E>(a, engine, i1, spectrum, y),
        sa.band_envelope::<P, A, E>(a, engine, i1, spectrum, z),
    ensures
        y == z,
{
    let passed = extracted(a, spectrum, sa.bank1.wavelets@[i1].spectrum@, sa.bands1@[i1]);
    let d = sa.bands1@[i1].len as int / sa.n1();
    let (sub, env) = choose|sub: Seq<Complex<R>>, env: Seq<Complex<R>>|
        {
            &&& #[trigger] inverted::<R, P, A, E>(a, engine, passed, sub)
            &&& #[trigger] transformed::<R, P, E>(
                engine,
                Direction::Forward,
                envelope(a, sub),
                env,
            )
            &&& y == decimated(a, env, d)
        };
    let (sub2, env2) = choose|sub: Seq<Complex<R>>, env: Seq<Complex<R>>|
        {
            &&& #[trigger] inverted::<R, P, A, E>(a, engine, passed, sub)
            &&& #[trigger] transformed::<R, P, E>(
                engine,
                Direction::Forward,
                envelope(a, sub),
                env,
            )
            &&& z == decimated(a, env, d)
        };
    lemma_inverted_once::<R, P, A, E>(a, engine, passed, sub, sub2);
    lemma_transformed_once::<R, P, E>(engine, Direction::Forward, envelope(a, sub), env, env2);
}

pub proof fn lemma_second_once<R: Copy, P, A: Arithmetic<R>, E: Engine<R, P>>(
    sa: &Geometry<R>,
    a: &A,
    engine: &E,
    i1: int,
    i2: int,
    u1: Seq<Complex<R>>,
    y: Seq<R>,
    z: Seq<R>,
)
    requires
        functional::<R, P, E>(engine),
        sa.second_order::<P, A, E>(a, engine, i1, i2, u1, y),
        sa.second_order::<P, A, E>(a, engine, i1, i2, u1, z),
    ensures
        y == z,
{
    if !sa.beyond(a, i1, i2) {
        let band = sa.bands2@[i2];
        let passed = extracted(a, u1, sa.bank2.wavelets@[i2].spectrum@, band);
        let (phi, out) = (sa.phi(band.len as int), sa.n_out as int);
        let (sub, env) = choose|sub: Seq<Complex<R>>, env: Seq<Complex<R>>|
            {
                &&& #[trigger] inverted::<R, P, A, E>(a, engine, passed, sub)
                &&& #[trigger] transformed::<R, P, E>(
                    engine,
                    Direction::Forward,
                    envelope(a, sub),
                    env,
                )
                &&& averaged::<R, P, A, E>(a, engine, phi, out, env, y)
            };
        let (sub2, env2) = choose|sub: Seq<Complex<R>>, env: Seq<Complex<R>>|
            {
                &&& #[trigger] inverted::<R, P, A, E>(a, engine, passed, sub)
                &&& #[trigger] transformed::<R, P, E>(
                    engine,
                    Direction::Forward,
                    envelope(a, sub),
                    env,
                )
                &&& averaged::<R, P, A, E>(a, engine, phi, out, env, z)
            };
        lemma_inverted_once::<R, P, A, E>(a, engine, passed, sub, sub2);
        lemma_transformed_once::<R, P, E>(
            engine,
            Direction::Forward,
            envelope(a, sub),
            env,
            env2,
        );
        lemma_averaged_once::<R, P, A, E>(a, engine, phi, out, env, y, z);
    }
}

/// The spectrum of an envelope is as long as the grid of the envelopes.
pub proof fn lemma_envelope_length<R: Copy, P, A: Arithmetic<R>, E: Engine<R, P>>(
    sa: &Geometry<R>,
    a: &A,
    engine: &E,
    i1: int,
    spectrum: Seq<Complex<R>>,
    u1: Seq<Complex<R>>,
)
    requires
        sa.wf(),
        keeps_length::<R, P, E>(engine),
        0 <= i1 < sa.bank1.wavelets@.len(),
        sa.band_envelope::<P, A, E>(a, engine, i1, spectrum, u1),
    ensures
        u1.len() == sa.n1(),
{
    sa.lemma_grids();
    let band = sa.bands1@[i1];
    lemma_reach(band.len as int, sa.n1());
    let d = band.len as int / sa.n1();
    if d == 1 {
        assert(band.len as int / 1 == sa.n1());
    }
}

/// Whether every row of coefficients of `after` is what `f` makes of that of
/// `before`, on the same axes. Second orders are compared where both have one.
pub open spec fn carried<R>(
    f: spec_fn(Seq<R>) -> Seq<R>,
    before: &Scattergram<R>,
    after: &Scattergram<R>,
) -> bool {
    &&& after.lambda1_hz@ == before.lambda1_hz@
    &&& after.lambda2_hz@ == before.lambda2_hz@
    &&& after.out_rate_hz == before.out_rate_hz
    &&& after.edge_margin_s == before.edge_margin_s
    &&& after.s0@ == f(before.s0@)
    &&& after.s1@.len() == before.s1@.len()
    &&& forall|i: int| 0 <= i < before.s1@.len() ==> (#[trigger] after.s1@[i])@ == f(
        before.s1@[i]@,
    )
    &&& before.s2@.len() > 0 && after.s2@.len() > 0 ==> {
        &&& after.s2@.len() == before.s2@.len()
        &&& forall|i: int|
            0 <= i < before.s2@.len() ==> rows_carried(
                f,
                before.s2@[i]@,
                (#[trigger] after.s2@[i])@,
            )
    }
}

/// Whether every row of `after` is what `f` makes of that of `before`.
pub open spec fn rows_carried<R>(
    f: spec_fn(Seq<R>) -> Seq<R>,
    before: Seq<Vec<R>>,
    after: Seq<Vec<R>>,
) -> bool {
    &&& after.len() == before.len()
    &&& forall|j: int| 0 <= j < before.len() ==> (#[trigger] after[j])@ == f(before[j]@)
}

/// Whether `sb` measures with the same filters on the same grids as `sa`.
pub open spec fn agrees<R: Copy>(sa: &Geometry<R>, sb: &Geometry<R>) -> bool {
    &&& sb.config == (Config { order2: sb.config.order2, ..sa.config })
    &&& sb.n == sa.n
    &&& sb.d1 == sa.d1
    &&& sb.d2 == sa.d2
    &&& sb.n_out == sa.n_out
    &&& same_filters(&sa.bank1, &sb.bank1)
    &&& same_filters(&sa.bank2, &sb.bank2)
    &&& sb.bands1@ == sa.bands1@
    &&& sb.bands2@ == sa.bands2@
    &&& sb.mod_ceiling@ == sa.mod_ceiling@
    &&& sb.phi(sb.n1()) == sa.phi(sa.n1())
    &&& forall|i: int|
        0 <= i < sa.bands2@.len() ==> sb.phi((#[trigger] sa.bands2@[i]).len as int) == sa.phi(
            sa.bands2@[i].len as int,
        )
}

/// Whether two banks hold the same wavelets.
pub open spec fn same_filters<R: Copy>(p: &FilterBank<R>, q: &FilterBank<R>) -> bool {
    &&& q.wavelets@.len() == p.wavelets@.len()
    &&& forall|i: int|
        0 <= i < p.wavelets@.len() ==> {
            let (v, w) = (p.wavelets@[i], #[trigger] q.wavelets@[i]);
            &&& w.xi == v.xi
            &&& w.sigma == v.sigma
            &&& w.bandwidth == v.bandwidth
            &&& w.spectrum@ == v.spectrum@
        }
}

/// Whether a run of `sb` on `y` may have `u1` as an envelope spectrum of carrier
/// band `i1`.
pub open spec fn leads_to<R: Copy, P, A: Arithmetic<R>, E: Engine<R, P>>(
    sb: &Geometry<R>,
    a: &A,
    engine: &E,
    y: Seq<Complex<R>>,
    i1: int,
    u1: Seq<Complex<R>>,
) -> bool {
    exists|spectrum: Seq<Complex<R>>|
        #[trigger] transformed::<R, P, E>(engine, Direction::Forward, y, spectrum)
            && sb.band_envelope::<P, A, E>(a, engine, i1, spectrum, u1)
}

/// Whether `f` carries the zeroth order of `x` to that of `y`.
#[verifier::opaque]
pub open spec fn zeroth_along<R: Copy, P, A: Arithmetic<R>, E: Engine<R, P>>(
    sa: &Geometry<R>,
    sb: &Geometry<R>,
    a: &A,
    engine: &E,
    x: Seq<Complex<R>>,
    y: Seq<Complex<R>>,
    f: spec_fn(Seq<R>) -> Seq<R>,
) -> bool {
    forall|row: Seq<R>| #[trigger]
        sa.zeroth_order::<P, A, E>(a, engine, x, row) ==> sb.zeroth_order::<P, A, E>(
            a,
            engine,
            y,
            f(row),
        )
}

/// Whether `h` carries the envelope spectra of `x` to those of `y`.
#[verifier::opaque]
pub open spec fn envelopes_along<R: Copy, P, A: Arithmetic<R>, E: Engine<R, P>>(
    sa: &Geometry<R>,
    sb: &Geometry<R>,
    a: &A,
    engine: &E,
    x: Seq<Complex<R>>,
    y: Seq<Complex<R>>,
    h: spec_fn(Seq<Complex<R>>) -> Seq<Complex<R>>,
) -> bool {
    forall|i1: int, spectrum: Seq<Complex<R>>, u1: Seq<Complex<R>>|
        0 <= i1 < sa.bank1.wavelets@.len() && #[trigger] transformed::<R, P, E>(
            engine,
            Direction::Forward,
            x,
            spectrum,
        ) && #[trigger] sa.band_envelope::<P, A, E>(a, engine, i1, spectrum, u1) ==> leads_to::<
            R,
            P,
            A,
            E,
        >(sb, a, engine, y, i1, h(u1))
}

/// Whether averages go along with the envelope spectra they are taken of.
#[verifier::opaque]
pub open spec fn averages_along<R: Copy, P, A: Arithmetic<R>, E: Engine<R, P>>(
    sa: &Geometry<R>,
    sb: &Geometry<R>,
    a: &A,
    engine: &E,
    h: spec_fn(Seq<Complex<R>>) -> Seq<Complex<R>>,
    f: spec_fn(Seq<R>) -> Seq<R>,
) -> bool {
    forall|u1: Seq<Complex<R>>, row: Seq<R>|
        u1.len() == sa.n1() && #[trigger] averaged::<R, P, A, E>(
            a,
            engine,
            sa.phi(sa.n1()),
            sa.n_out as int,
            u1,
            row,
        ) ==> averaged::<R, P, A, E>(
            a,
            engine,
            sb.phi(sb.n1()),
            sb.n_out as int,
            h(u1),
            f(row),
        )
}

/// Whether second orders go along with the envelope spectra they are taken of.
#[verifier::opaque]
pub open spec fn seconds_along<R: Copy, P, A: Arithmetic<R>, E: Engine<R, P>>(
    sa: &Geometry<R>,
    sb: &Geometry<R>,
    a: &A,
    engine: &E,
    h: spec_fn(Seq<Complex<R>>) -> Seq<Complex<R>>,
    f: spec_fn(Seq<R>) -> Seq<R>,
) -> bool {
    forall|i1: int, i2: int, u1: Seq<Complex<R>>, row: Seq<R>|
        0 <= i1 < sa.bank1.wavelets@.len() && 0 <= i2 < sa.bank2.wavelets@.len() && u1.len()
            == sa.n1() && #[trigger] sa.second_order::<P, A, E>(a, engine, i1, i2, u1, row)
            ==> sb.second_order::<P, A, E>(a, engine, i1, i2, h(u1), f(row))
}

/// Whether what `sb` makes of `y` goes along with what `sa` makes of `x`, stage
/// by stage: `h` carries the spectra of envelopes, and `f` rows of coefficients.
pub open spec fn goes_along<R: Copy, P, A: Arithmetic<R>, E: Engine<R, P>>(
    sa: &Geometry<R>,
    sb: &Geometry<R>,
    a: &A,
    engine: &E,
    x: Seq<Complex<R>>,
    y: Seq<Complex<R>>,
    h: spec_fn(Seq<Complex<R>>) -> Seq<Complex<R>>,
    f: spec_fn(Seq<R>) -> Seq<R>,
) -> bool {
    &&& zeroth_along::<R, P, A, E>(sa, sb, a, engine, x, y, f)
    &&& envelopes_along::<R, P, A, E>(sa, sb, a, engine, x, y, h)
    &&& averages_along::<R, P, A, E>(sa, sb, a, engine, h, f)
    &&& seconds_along::<R, P, A, E>(sa, sb, a, engine, h, f)
}

/// What goes along stage by stage goes along from beginning to end.
pub proof fn lemma_carried<R: Copy, P, A: Arithmetic<R>, E: Engine<R, P>>(
    sa: &Geometry<R>,
    sb: &Geometry<R>,
    a: &A,
    engine: &E,
    x: Seq<Complex<R>>,
    y: Seq<Complex<R>>,
    h: spec_fn(Seq<Complex<R>>) -> Seq<Complex<R>>,
    f: spec_fn(Seq<R>) -> Seq<R>,
    before: &Scattergram<R>,
    after: &Scattergram<R>,
)
    requires
        sa.wf(),
        sb.wf(),
        agrees(sa, sb),
        functional::<R, P, E>(engine),
        keeps_length::<R, P, E>(engine),
        goes_along::<R, P, A, E>(sa, sb, a, engine, x, y, h, f),
        sa.analysed::<P, A, E>(a, engine, x, before),
        sb.analysed::<P, A, E>(a, engine, y, after),
    ensures
        carried(f, before, after),
{
    reveal(zeroth_along);
    lemma_zeroth_once::<R, P, A, E>(sb, a, engine, y, f(before.s0@), after.s0@);
    let s = choose|spectrum: Seq<Complex<R>>|
        {
            &&& #[trigger] transformed::<R, P, E>(engine, Direction::Forward, x, spectrum)
            &&& forall|i1: int|
                0 <= i1 < before.s1@.len() ==> sa.band_result::<P, A, E>(
                    a,
                    engine,
                    i1,
                    spectrum,
                    (#[trigger] before.s1@[i1])@,
                    before.second(i1),
                )
        };
    let z = choose|spectrum: Seq<Complex<R>>|
        {
            &&& #[trigger] transformed::<R, P, E>(engine, Direction::Forward, y, spectrum)
            &&& forall|i1: int|
                0 <= i1 < after.s1@.len() ==> sb.band_result::<P, A, E>(
                    a,
                    engine,
                    i1,
                    spectrum,
                    (#[trigger] after.s1@[i1])@,
                    after.second(i1),
                )
        };
    assert forall|i1: int| 0 <= i1 < before.s1@.len() implies (#[trigger] after.s1@[i1])@ == f(
        before.s1@[i1]@,
    ) && (before.s2@.len() > 0 && after.s2@.len() > 0 ==> rows_carried(
        f,
        before.s2@[i1]@,
        after.s2@[i1]@,
    )) by {
        assert(sa.band_result::<P, A, E>(
            a,
            engine,
            i1,
            s,
            before.s1@[i1]@,
            before.second(i1),
        ));
        lemma_band_carried::<R, P, A, E>(
            sa,
            sb,
            a,
            engine,
            x,
            y,
            h,
            f,
            i1,
            s,
            z,
            before.s1@[i1]@,
            before.second(i1),
            after.s1@[i1]@,
            after.second(i1),
        );
    }
    assert forall|i: int| 0 <= i < before.s2@.len() && after.s2@.len() > 0 implies rows_carried(
        f,
        before.s2@[i]@,
        (#[trigger] after.s2@[i])@,
    ) by {
        assert(after.s1@[i]@ == f(before.s1@[i]@));
    }
    assert(sb.carriers(a) =~= sa.carriers(a));
    assert(sb.rates(a) =~= sa.rates(a));
    assert(sb.bank1.wavelets@.map_values(
        |w: Wavelet<R>| support(a, w.sigma),
    ) =~= sa.bank1.wavelets@.map_values(
        |w: Wavelet<R>| support(a, w.sigma),
    ));
    assert(sb.bank2.wavelets@.map_values(
        |w: Wavelet<R>| support(a, w.sigma),
    ) =~= sa.bank2.wavelets@.map_values(
        |w: Wavelet<R>| support(a, w.sigma),
    ));
}

proof fn lemma_band_carried<R: Copy, P, A: Arithmetic<R>, E: Engine<R, P>>(
    sa: &Geometry<R>,
    sb: &Geometry<R>,
    a: &A,
    engine: &E,
    x: Seq<Complex<R>>,
    y: Seq<Complex<R>>,
    h: spec_fn(Seq<Complex<R>>) -> Seq<Complex<R>>,
    f: spec_fn(Seq<R>) -> Seq<R>,
    i1: int,
    s: Seq<Complex<R>>,
    z: Seq<Complex<R>>,
    first: Seq<R>,
    rows: Seq<Vec<R>>,
    first2: Seq<R>,
    rows2: Seq<Vec<R>>,
)
    requires
        sa.wf(),
        sb.wf(),
        agrees(sa, sb),
        functional::<R, P, E>(engine),
        keeps_length::<R, P, E>(engine),
        goes_along::<R, P, A, E>(sa, sb, a, engine, x, y, h, f),
        0 <= i1 < sa.bank1.wavelets@.len(),
        transformed::<R, P, E>(engine, Direction::Forward, x, s),
        transformed::<R, P, E>(engine, Direction::Forward, y, z),
        sa.band_result::<P, A, E>(a, engine, i1, s, first, rows),
        sb.band_result::<P, A, E>(a, engine, i1, z, first2, rows2),
    ensures
        first2 == f(first),
        rows.len() == rows2.len() ==> rows_carried(f, rows, rows2),
{
    reveal(envelopes_along);
    reveal(averages_along);
    reveal(seconds_along);
    let u1 = choose|u1: Seq<Complex<R>>|
        {
            &&& #[trigger] sa.band_envelope::<P, A, E>(a, engine, i1, s, u1)
            &&& averaged::<R, P, A, E>(
                a,
                engine,
                sa.phi(sa.n1()),
                sa.n_out as int,
                u1,
                first,
            )
            &&& forall|i2: int|
                0 <= i2 < rows.len() ==> sa.second_order::<P, A, E>(
                    a,
                    engine,
                    i1,
                    i2,
                    u1,
                    (#[trigger] rows[i2])@,
                )
        };
    let v1 = choose|v1: Seq<Complex<R>>|
        {
            &&& #[trigger] sb.band_envelope::<P, A, E>(a, engine, i1, z, v1)
            &&& averaged::<R, P, A, E>(
                a,
                engine,
                sb.phi(sb.n1()),
                sb.n_out as int,
                v1,
                first2,
            )
            &&& forall|i2: int|
                0 <= i2 < rows2.len() ==> sb.second_order::<P, A, E>(
                    a,
                    engine,
                    i1,
                    i2,
                    v1,
                    (#[trigger] rows2[i2])@,
                )
        };
    lemma_envelope_length::<R, P, A, E>(sa, a, engine, i1, s, u1);
    assert(leads_to::<R, P, A, E>(sb, a, engine, y, i1, h(u1)));
    let spectrum = choose|spectrum: Seq<Complex<R>>|
        #[trigger] transformed::<R, P, E>(engine, Direction::Forward, y, spectrum)
            && sb.band_envelope::<P, A, E>(a, engine, i1, spectrum, h(u1));
    lemma_transformed_once::<R, P, E>(engine, Direction::Forward, y, spectrum, z);
    lemma_envelope_once::<R, P, A, E>(sb, a, engine, i1, z, h(u1), v1);
    lemma_averaged_once::<R, P, A, E>(
        a,
        engine,
        sb.phi(sb.n1()),
        sb.n_out as int,
        v1,
        f(first),
        first2,
    );
    if rows.len() == rows2.len() {
        assert forall|j: int| 0 <= j < rows.len() implies (#[trigger] rows2[j])@ == f(
            rows[j]@,
        ) by {
            assert(sa.second_order::<P, A, E>(a, engine, i1, j, u1, rows[j]@));
            lemma_second_once::<R, P, A, E>(sb, a, engine, i1, j, v1, f(rows[j]@), rows2[j]@);
        }
    }
}

proof fn lemma_agree_zeroth<R: Copy, P, A: Arithmetic<R>, E: Engine<R, P>>(
    sa: &Geometry<R>,
    sb: &Geometry<R>,
    a: &A,
    engine: &E,
    x: Seq<Complex<R>>,
    row: Seq<R>,
)
    requires
        agrees(sa, sb),
        sa.zeroth_order::<P, A, E>(a, engine, x, row),
    ensures
        sb.zeroth_order::<P, A, E>(a, engine, x, row),
{
    let (phi, len, d1) = (sa.phi(sa.n1()), sa.n_out as int, sa.d1 as int);
    let env = choose|env: Seq<Complex<R>>|
        #[trigger] transformed::<R, P, E>(engine, Direction::Forward, envelope(a, x), env)
            && averaged::<R, P, A, E>(a, engine, phi, len, decimated(a, env, d1), row);
    assert(averaged::<R, P, A, E>(
        a,
        engine,
        sb.phi(sb.n1()),
        sb.n_out as int,
        decimated(a, env, sb.d1 as int),
        row,
    ));
}

proof fn lemma_agree_envelope<R: Copy, P, A: Arithmetic<R>, E: Engine<R, P>>(
    sa: &Geometry<R>,
    sb: &Geometry<R>,
    a: &A,
    engine: &E,
    i1: int,
    spectrum: Seq<Complex<R>>,
    u1: Seq<Complex<R>>,
)
    requires
        agrees(sa, sb),
        0 <= i1 < sa.bank1.wavelets@.len(),
        sa.band_envelope::<P, A, E>(a, engine, i1, spectrum, u1),
    ensures
        sb.band_envelope::<P, A, E>(a, engine, i1, spectrum, u1),
{
    let band = sa.bands1@[i1];
    let passed = extracted(a, spectrum, sa.bank1.wavelets@[i1].spectrum@, band);
    let (sub, env) = choose|sub: Seq<Complex<R>>, env: Seq<Complex<R>>|
        {
            &&& #[trigger] inverted::<R, P, A, E>(a, engine, passed, sub)
            &&& #[trigger] transformed::<R, P, E>(
                engine,
                Direction::Forward,
                envelope(a, sub),
                env,
            )
            &&& u1 == decimated(a, env, band.len as int / sa.n1())
        };
    assert(sb.bank1.wavelets@[i1].spectrum@ == sa.bank1.wavelets@[i1].spectrum@);
    assert(sb.bands1@[i1] == band && sb.n1() == sa.n1());
}

proof fn lemma_agree_second<R: Copy, P, A: Arithmetic<R>, E: Engine<R, P>>(
    sa: &Geometry<R>,
    sb: &Geometry<R>,
    a: &A,
    engine: &E,
    i1: int,
    i2: int,
    u1: Seq<Complex<R>>,
    row: Seq<R>,
)
    requires
        agrees(sa, sb),
        0 <= i2 < sa.bank2.wavelets@.len(),
        sa.bands2@.len() == sa.bank2.wavelets@.len(),
        sa.second_order::<P, A, E>(a, engine, i1, i2, u1, row),
    ensures
        sb.second_order::<P, A, E>(a, engine, i1, i2, u1, row),
{
    assert(sb.bank2.wavelets@[i2].xi == sa.bank2.wavelets@[i2].xi);
    assert(sb.beyond(a, i1, i2) == sa.beyond(a, i1, i2));
    if !sa.beyond(a, i1, i2) {
        let band = sa.bands2@[i2];
        let passed = extracted(a, u1, sa.bank2.wavelets@[i2].spectrum@, band);
        let (phi, out) = (sa.phi(band.len as int), sa.n_out as int);
        let (sub, env) = choose|sub: Seq<Complex<R>>, env: Seq<Complex<R>>|
            {
                &&& #[trigger] inverted::<R, P, A, E>(a, engine, passed, sub)
                &&& #[trigger] transformed::<R, P, E>(
                    engine,
                    Direction::Forward,
                    envelope(a, sub),
                    env,
                )
                &&& averaged::<R, P, A, E>(a, engine, phi, out, env, row)
            };
        assert(sb.bank2.wavelets@[i2].spectrum@ == sa.bank2.wavelets@[i2].spectrum@);
        assert(sb.bands2@[i2] == band);
        assert(sb.phi(band.len as int) == phi);
    }
}

/// Analysers that agree, run on one block, agree in all coefficients that both
/// compute.
pub proof fn law_agreeing_analysers_agree_on_a_block<
    R: Copy,
    P,
    A: Arithmetic<R>,
    E: Engine<R, P>,
>(
    sa: &Geometry<R>,
    sb: &Geometry<R>,
    a: &A,
    engine: &E,
    x: Seq<Complex<R>>,
    p: &Scattergram<R>,
    q: &Scattergram<R>,
)
    requires
        sa.wf(),
        sb.wf(),
        agrees(sa, sb),
        functional::<R, P, E>(engine),
        keeps_length::<R, P, E>(engine),
        sa.analysed::<P, A, E>(a, engine, x, p),
        sb.analysed::<P, A, E>(a, engine, x, q),
    ensures
        carried(|row: Seq<R>| row, p, q),
{
    reveal(zeroth_along);
    reveal(envelopes_along);
    reveal(averages_along);
    reveal(seconds_along);
    let h = |u1: Seq<Complex<R>>| u1;
    let f = |row: Seq<R>| row;
    assert forall|row: Seq<R>| #[trigger]
        sa.zeroth_order::<P, A, E>(a, engine, x, row) implies sb.zeroth_order::<P, A, E>(
        a,
        engine,
        x,
        f(row),
    ) by {
        lemma_agree_zeroth::<R, P, A, E>(sa, sb, a, engine, x, row);
    }
    assert forall|i1: int, spectrum: Seq<Complex<R>>, u1: Seq<Complex<R>>|
        0 <= i1 < sa.bank1.wavelets@.len() && #[trigger] transformed::<R, P, E>(
            engine,
            Direction::Forward,
            x,
            spectrum,
        ) && #[trigger] sa.band_envelope::<P, A, E>(
            a,
            engine,
            i1,
            spectrum,
            u1,
        ) implies leads_to::<R, P, A, E>(sb, a, engine, x, i1, h(u1)) by {
        lemma_agree_envelope::<R, P, A, E>(sa, sb, a, engine, i1, spectrum, u1);
    }
    assert forall|i1: int, i2: int, u1: Seq<Complex<R>>, row: Seq<R>|
        0 <= i1 < sa.bank1.wavelets@.len() && 0 <= i2 < sa.bank2.wavelets@.len() && u1.len()
            == sa.n1() && #[trigger] sa.second_order::<P, A, E>(
            a,
            engine,
            i1,
            i2,
            u1,
            row,
        ) implies sb.second_order::<P, A, E>(a, engine, i1, i2, h(u1), f(row)) by {
        lemma_agree_second::<R, P, A, E>(sa, sb, a, engine, i1, i2, u1, row);
    }
    lemma_carried::<R, P, A, E>(sa, sb, a, engine, x, x, h, f, p, q);
}

proof fn lemma_same_filters<R: Copy, A: Arithmetic<R>>(
    a: &A,
    p: &FilterBank<R>,
    q: &FilterBank<R>,
    spec: &BankSpec<R>,
    n: usize,
    invariance_samples: R,
)
    requires
        p.realises(a, spec, n, invariance_samples),
        q.realises(a, spec, n, invariance_samples),
    ensures
        same_filters(p, q),
        p.sigma_phi == q.sigma_phi,
{
    let pairs = arranged(a, mirrored(a, spec.filters(a, narrowest(a, n)), spec.two_sided));
    assert forall|i: int| 0 <= i < p.wavelets@.len() implies {
        let (v, w) = (p.wavelets@[i], #[trigger] q.wavelets@[i]);
        &&& w.xi == v.xi
        &&& w.sigma == v.sigma
        &&& w.bandwidth == v.bandwidth
        &&& w.spectrum@ == v.spectrum@
    } by {
        let (v, w) = (p.wavelets@[i], q.wavelets@[i]);
        assert(p.pairs()[i] == pairs[i] && q.pairs()[i] == pairs[i]);
        assert(v.is_morlet(a, v.xi, v.sigma, n));
        assert(w.is_morlet(a, w.xi, w.sigma, n));
    }
    assert(q.pairs().len() == p.pairs().len());
}

/// A configuration settles the analyser: two that realise it for one block
/// length agree, whether or not either computes the second order.
pub proof fn law_configuration_settles_the_analyser<R: Copy, A: Arithmetic<R>>(
    sa: &Geometry<R>,
    sb: &Geometry<R>,
    a: &A,
    config: &Config<R>,
    order2: bool,
    n: usize,
)
    requires
        sa.wf(),
        sb.wf(),
        sa.realises(a, config, n),
        sb.realises(a, &Config { order2, ..*config }, n),
    ensures
        agrees(sa, sb),
{
    let other = Config { order2, ..*config };
    assert(other.carrier_spec(a) == config.carrier_spec(a));
    assert(sb.d1 == sa.d1);
    assert(other.modulation_spec(a, sa.d1 as int) == config.modulation_spec(a, sa.d1 as int));
    let n1 = sa.n1() as usize;
    lemma_same_filters(
        a,
        &sa.bank1,
        &sb.bank1,
        &config.carrier_spec(a),
        n,
        product(a, config.invariance_s, config.fs),
    );
    lemma_same_filters(
        a,
        &sa.bank2,
        &sb.bank2,
        &config.modulation_spec(a, sa.d1 as int),
        n1,
        product(
            a,
            config.invariance_s,
            config.envelope_rate(a, sa.d1 as int),
        ),
    );
    assert forall|i: int| 0 <= i < sa.bands1@.len() implies sb.bands1@[i] == sa.bands1@[i] by {
        assert(sb.bank1.wavelets@[i].xi == sa.bank1.wavelets@[i].xi);
    }
    assert(sb.bands1@ =~= sa.bands1@);
    assert forall|i: int| 0 <= i < sa.bands2@.len() implies sb.bands2@[i] == sa.bands2@[i] by {
        assert(sb.bank2.wavelets@[i].xi == sa.bank2.wavelets@[i].xi);
    }
    assert(sb.bands2@ =~= sa.bands2@);
    assert forall|i: int| 0 <= i < sa.mod_ceiling@.len() implies sb.mod_ceiling@[i]
        == sa.mod_ceiling@[i] by {
        assert(sb.bank1.wavelets@[i].bandwidth == sa.bank1.wavelets@[i].bandwidth);
    }
    assert(sb.mod_ceiling@ =~= sa.mod_ceiling@);
    assert forall|i: int| 0 <= i < sa.bands2@.len() implies sb.phi(
        (#[trigger] sa.bands2@[i]).len as int,
    ) == sa.phi(sa.bands2@[i].len as int) by {
        let len = sa.bands2@[i].len;
        assert(sa.phi_cache@.contains_key(len));
        assert(sb.bands2@[i].len == len);
        assert(sb.phi_cache@.contains_key(len));
    }
}

/// Leaving out the second order leaves everything else as it was: of one
/// configuration with and without it, the analysers make the same axes, zeroth
/// and first order of a block, and without it there is no second.
pub proof fn law_second_order_changes_nothing_else<
    R: Copy,
    P,
    A: Arithmetic<R>,
    E: Engine<R, P>,
>(
    sa: &Geometry<R>,
    lean: &Geometry<R>,
    a: &A,
    engine: &E,
    config: &Config<R>,
    n: usize,
    x: Seq<Complex<R>>,
    out: &Scattergram<R>,
    first: &Scattergram<R>,
)
    requires
        sa.wf(),
        lean.wf(),
        sa.realises(a, config, n),
        lean.realises(a, &Config { order2: false, ..*config }, n),
        functional::<R, P, E>(engine),
        keeps_length::<R, P, E>(engine),
        sa.analysed::<P, A, E>(a, engine, x, out),
        lean.analysed::<P, A, E>(a, engine, x, first),
    ensures
        first.s2@.len() == 0,
        first.s0@ == out.s0@,
        first.s1@.len() == out.s1@.len(),
        forall|i: int|
            0 <= i < out.s1@.len() ==> (#[trigger] first.s1@[i])@ == out.s1@[i]@,
        first.lambda1_hz@ == out.lambda1_hz@,
        first.lambda2_hz@ == out.lambda2_hz@,
        first.out_rate_hz == out.out_rate_hz,
        first.edge_margin_s == out.edge_margin_s,
{
    law_configuration_settles_the_analyser(sa, lean, a, config, false, n);
    law_agreeing_analysers_agree_on_a_block::<R, P, A, E>(sa, lean, a, engine, x, out, first);
}

proof fn lemma_factor_zeroth<R: Copy, P, A: Arithmetic<R>, E: Engine<R, P>>(
    sa: &Geometry<R>,
    a: &A,
    engine: &E,
    c: Complex<R>,
    g: R,
    x: Seq<Complex<R>>,
    f: spec_fn(Seq<R>) -> Seq<R>,
)
    requires
        sa.wf(),
        x.len() == sa.n,
        homogeneous(a, g),
        turns(a, c, g),
        linear::<R, P, A, E>(a, engine, g),
        keeps_length::<R, P, E>(engine),
        f == (|row: Seq<R>| amplified(a, row, g)),
    ensures
        zeroth_along::<R, P, A, E>(sa, sa, a, engine, x, turned_all(a, x, c), f),
{
    reveal(zeroth_along);
    assert forall|row: Seq<R>| #[trigger]
        sa.zeroth_order::<P, A, E>(a, engine, x, row) implies sa.zeroth_order::<P, A, E>(
        a,
        engine,
        turned_all(a, x, c),
        f(row),
    ) by {
        lemma_turned_zeroth::<R, P, A, E>(sa, a, engine, c, g, x, row);
    }
}

proof fn lemma_factor_envelopes<R: Copy, P, A: Arithmetic<R>, E: Engine<R, P>>(
    sa: &Geometry<R>,
    a: &A,
    engine: &E,
    c: Complex<R>,
    g: R,
    x: Seq<Complex<R>>,
    h: spec_fn(Seq<Complex<R>>) -> Seq<Complex<R>>,
)
    requires
        sa.wf(),
        x.len() == sa.n,
        homogeneous(a, g),
        turns(a, c, g),
        linear::<R, P, A, E>(a, engine, g),
        complex_linear::<R, P, A, E>(a, engine, c),
        keeps_length::<R, P, E>(engine),
        h == (|u1: Seq<Complex<R>>| scaled_all(a, u1, g)),
    ensures
        envelopes_along::<R, P, A, E>(sa, sa, a, engine, x, turned_all(a, x, c), h),
{
    reveal(envelopes_along);
    let y = turned_all(a, x, c);
    assert forall|i1: int, spectrum: Seq<Complex<R>>, u1: Seq<Complex<R>>|
        0 <= i1 < sa.bank1.wavelets@.len() && #[trigger] transformed::<R, P, E>(
            engine,
            Direction::Forward,
            x,
            spectrum,
        ) && #[trigger] sa.band_envelope::<P, A, E>(
            a,
            engine,
            i1,
            spectrum,
            u1,
        ) implies leads_to::<R, P, A, E>(sa, a, engine, y, i1, h(u1)) by {
        assert(spectrum.len() == sa.n);
        lemma_turned_band::<R, P, A, E>(sa, a, engine, c, g, i1, spectrum, u1);
        lemma_turned_transform::<R, P, A, E>(a, engine, c, Direction::Forward, x, spectrum);
    }
}

proof fn lemma_factor_rows<R: Copy, P, A: Arithmetic<R>, E: Engine<R, P>>(
    sa: &Geometry<R>,
    a: &A,
    engine: &E,
    g: R,
    h: spec_fn(Seq<Complex<R>>) -> Seq<Complex<R>>,
    f: spec_fn(Seq<R>) -> Seq<R>,
)
    requires
        sa.wf(),
        homogeneous(a, g),
        linear::<R, P, A, E>(a, engine, g),
        keeps_length::<R, P, E>(engine),
        h == (|u1: Seq<Complex<R>>| scaled_all(a, u1, g)),
        f == (|row: Seq<R>| amplified(a, row, g)),
    ensures
        averages_along::<R, P, A, E>(sa, sa, a, engine, h, f),
        seconds_along::<R, P, A, E>(sa, sa, a, engine, h, f),
{
    reveal(averages_along);
    reveal(seconds_along);
    sa.lemma_grids();
    let (phi, out) = (sa.phi(sa.n1()), sa.n_out as int);
    assert forall|u1: Seq<Complex<R>>, row: Seq<R>|
        u1.len() == sa.n1() && #[trigger] averaged::<R, P, A, E>(
            a,
            engine,
            phi,
            out,
            u1,
            row,
        ) implies averaged::<R, P, A, E>(a, engine, phi, out, h(u1), f(row)) by {
        lemma_averaged::<R, P, A, E>(a, engine, g, phi, out, u1, row);
    }
    assert(averages_along::<R, P, A, E>(sa, sa, a, engine, h, f));
    assert forall|i1: int, i2: int, u1: Seq<Complex<R>>, row: Seq<R>|
        0 <= i1 < sa.bank1.wavelets@.len() && 0 <= i2 < sa.bank2.wavelets@.len() && u1.len()
            == sa.n1() && #[trigger] sa.second_order::<P, A, E>(
            a,
            engine,
            i1,
            i2,
            u1,
            row,
        ) implies sa.second_order::<P, A, E>(a, engine, i1, i2, h(u1), f(row)) by {
        lemma_second_order::<R, P, A, E>(sa, a, engine, g, i1, i2, u1, row);
    }
}

/// A complex factor on a block scales every coefficient by its distance from the
/// origin: `g` times the zeroth, first and second order, on the same axes. A
/// rotation of phase, where `g` is one, changes nothing, and a block of nothing
/// has nothing in it.
pub proof fn law_factor_scales_every_coefficient<
    R: Copy,
    P,
    A: Arithmetic<R>,
    E: Engine<R, P>,
>(
    sa: &Geometry<R>,
    a: &A,
    engine: &E,
    c: Complex<R>,
    g: R,
    x: Seq<Complex<R>>,
    p: &Scattergram<R>,
    q: &Scattergram<R>,
)
    requires
        sa.wf(),
        x.len() == sa.n,
        homogeneous(a, g),
        turns(a, c, g),
        linear::<R, P, A, E>(a, engine, g),
        complex_linear::<R, P, A, E>(a, engine, c),
        functional::<R, P, E>(engine),
        keeps_length::<R, P, E>(engine),
        sa.analysed::<P, A, E>(a, engine, x, p),
        sa.analysed::<P, A, E>(a, engine, turned_all(a, x, c), q),
    ensures
        carried(|row: Seq<R>| amplified(a, row, g), p, q),
{
    let h = |u1: Seq<Complex<R>>| scaled_all(a, u1, g);
    let f = |row: Seq<R>| amplified(a, row, g);
    lemma_factor_zeroth::<R, P, A, E>(sa, a, engine, c, g, x, f);
    lemma_factor_envelopes::<R, P, A, E>(sa, a, engine, c, g, x, h);
    lemma_factor_rows::<R, P, A, E>(sa, a, engine, g, h, f);
    lemma_carried::<R, P, A, E>(sa, sa, a, engine, x, turned_all(a, x, c), h, f, p, q);
}

} // verus!
