//! What receiver gain does to an analysis: it scales every coefficient, and
//! leaves the modulation depth alone.
//!
//! The laws hold for any gain that the arithmetic is homogeneous in. In exact
//! arithmetic that is every gain that is not negative, and every positive gain
//! where a depth is taken.

use vstd::prelude::*;

use crate::arithmetic::{
    fraction, hypotenuse, larger, largest, num, product, quotient, sum, total, Arithmetic,
};
use crate::complex::{
    envelope, modulus, real_parts, scaled, scaled_all, turned, turned_all, zero, Complex,
};
use crate::fft::{decimated, inverted, keeps_length, transformed, Direction, Engine};
use crate::powers::power_of_two;
use crate::transform::{
    averaged, extracted, filtered, lemma_reach, mean_of, Band, Scattergram, Geometry,
};

verus! {

/// Whether a factor of `g` passes through every operation that coefficients
/// are put through.
#[verifier::opaque]
pub open spec fn homogeneous<R, A: Arithmetic<R>>(a: &A, g: R) -> bool {
    &&& forall|x: R, s: R| #[trigger]
        product(a, product(a, x, g), s) == product(a, product(a, x, s), g)
    &&& forall|k: R, x: R| #[trigger]
        product(a, k, product(a, x, g)) == product(a, product(a, k, x), g)
    &&& forall|x: R, y: R| #[trigger]
        sum(a, product(a, x, g), product(a, y, g)) == product(a, sum(a, x, y), g)
    &&& forall|x: R, y: R| #[trigger]
        larger(a, product(a, x, g), product(a, y, g)) == product(a, larger(a, x, y), g)
    &&& forall|x: R, y: R| #[trigger]
        hypotenuse(a, product(a, x, g), product(a, y, g)) == product(
            a,
            hypotenuse(a, x, y),
            g,
        )
    &&& forall|x: R, n: R| #[trigger]
        quotient(a, product(a, x, g), n) == product(a, quotient(a, x, n), g)
    &&& product(a, num(a, 0), g) == num(a, 0)
}

/// Whether a common factor of `g` cancels out of a ratio.
pub open spec fn cancels<R, A: Arithmetic<R>>(a: &A, g: R) -> bool {
    forall|x: R, y: R| #[trigger]
        quotient(a, product(a, x, g), product(a, y, g)) == quotient(a, x, y)
}

/// Whether a complex factor `c` passes through scaling, and multiplies distances
/// by `g`.
#[verifier::opaque]
pub open spec fn turns<R, A: Arithmetic<R>>(a: &A, c: Complex<R>, g: R) -> bool {
    &&& forall|z: Complex<R>, s: R| #[trigger]
        scaled(a, turned(a, z, c), s) == turned(a, scaled(a, z, s), c)
    &&& forall|z: Complex<R>| #[trigger]
        modulus(a, turned(a, z, c)) == product(a, modulus(a, z), g)
}

/// Whether multiplying a buffer by `c` multiplies its transform by `c`.
#[verifier::opaque]
pub open spec fn complex_linear<R, P, A: Arithmetic<R>, E: Engine<R, P>>(
    a: &A,
    engine: &E,
    c: Complex<R>,
) -> bool {
    forall|direction: Direction, x: Seq<Complex<R>>, y: Seq<Complex<R>>| #[trigger]
        transformed::<R, P, E>(engine, direction, x, y) ==> transformed::<R, P, E>(
            engine,
            direction,
            turned_all(a, x, c),
            turned_all(a, y, c),
        )
}

/// Whether scaling a buffer by `g` scales its transform by `g`.
#[verifier::opaque]
pub open spec fn linear<R, P, A: Arithmetic<R>, E: Engine<R, P>>(a: &A, engine: &E, g: R) -> bool {
    forall|direction: Direction, x: Seq<Complex<R>>, y: Seq<Complex<R>>| #[trigger]
        transformed::<R, P, E>(engine, direction, x, y) ==> transformed::<R, P, E>(
            engine,
            direction,
            scaled_all(a, x, g),
            scaled_all(a, y, g),
        )
}

/// Every value of `xs` multiplied by `g`.
pub open spec fn amplified<R, A: Arithmetic<R>>(a: &A, xs: Seq<R>, g: R) -> Seq<R> {
    xs.map_values(|x: R| product(a, x, g))
}

/// Whether `loud` is `out` with every coefficient multiplied by `g`, on the same
/// axes.
pub open spec fn louder<R, A: Arithmetic<R>>(
    a: &A,
    g: R,
    out: &Scattergram<R>,
    loud: &Scattergram<R>,
) -> bool {
    &&& loud.lambda1_hz@ == out.lambda1_hz@
    &&& loud.lambda2_hz@ == out.lambda2_hz@
    &&& loud.out_rate_hz == out.out_rate_hz
    &&& loud.edge_margin_s == out.edge_margin_s
    &&& loud.s0@ == amplified(a, out.s0@, g)
    &&& loud.s1@.len() == out.s1@.len()
    &&& forall|i: int|
        0 <= i < out.s1@.len() ==> (#[trigger] loud.s1@[i])@ == amplified(a, out.s1@[i]@, g)
    &&& loud.s2@.len() == out.s2@.len()
    &&& forall|i: int|
        0 <= i < out.s2@.len() ==> rows_louder(a, g, out.s2@[i]@, (#[trigger] loud.s2@[i])@)
}

/// Whether every row of `loud` is that of `rows` multiplied by `g`.
pub open spec fn rows_louder<R, A: Arithmetic<R>>(
    a: &A,
    g: R,
    rows: Seq<Vec<R>>,
    loud: Seq<Vec<R>>,
) -> bool {
    &&& loud.len() == rows.len()
    &&& forall|j: int|
        0 <= j < rows.len() ==> (#[trigger] loud[j])@ == amplified(a, rows[j]@, g)
}

proof fn lemma_total<R, A: Arithmetic<R>>(a: &A, g: R, xs: Seq<R>)
    requires
        homogeneous(a, g),
    ensures
        total(a, amplified(a, xs, g)) == product(a, total(a, xs), g),
    decreases xs.len(),
{
    reveal(homogeneous);
    if xs.len() > 0 {
        lemma_total(a, g, xs.drop_last());
        assert(amplified(a, xs, g).drop_last() =~= amplified(a, xs.drop_last(), g));
    }
}

proof fn lemma_largest<R, A: Arithmetic<R>>(a: &A, g: R, xs: Seq<R>)
    requires
        homogeneous(a, g),
    ensures
        largest(a, num(a, 0), amplified(a, xs, g)) == product(a, largest(a, num(a, 0), xs), g),
    decreases xs.len(),
{
    reveal(homogeneous);
    if xs.len() > 0 {
        lemma_largest(a, g, xs.drop_last());
        assert(amplified(a, xs, g).drop_last() =~= amplified(a, xs.drop_last(), g));
    }
}

proof fn lemma_mean<R, A: Arithmetic<R>>(a: &A, g: R, xs: Seq<R>)
    requires
        homogeneous(a, g),
    ensures
        mean_of(a, amplified(a, xs, g)) == product(a, mean_of(a, xs), g),
{
    reveal(homogeneous);
    lemma_total(a, g, xs);
}

/// Modulation depth does not depend on how strong the coefficients are: scaling
/// all of them by one gain leaves every depth what it was.
pub proof fn law_depth_ignores_gain<R: Copy, A: Arithmetic<R>>(
    a: &A,
    g: R,
    out: &Scattergram<R>,
    loud: &Scattergram<R>,
)
    requires
        homogeneous(a, g),
        cancels(a, g),
        out.wf(),
        louder(a, g, out, loud),
    ensures
        loud.depths(a) == out.depths(a),
{
    reveal(homogeneous);
    assert forall|row: Seq<R>, big: Seq<R>|
        row.len() == out.s0@.len() && big == amplified(a, row, g) implies #[trigger] mean_of(
        a,
        loud.clear(a, big),
    ) == product(a, #[trigger] mean_of(a, out.clear(a, row)), g) by {
        assert(loud.clear(a, big) =~= amplified(a, out.clear(a, row), g));
        lemma_mean(a, g, out.clear(a, row));
    }
    assert forall|i: int| 0 <= i < out.s1@.len() implies loud.means1(a)[i] == product(
        a,
        out.means1(a)[i],
        g,
    ) by {
        assert(loud.s1@[i]@ == amplified(a, out.s1@[i]@, g));
        assert(mean_of(a, out.clear(a, out.s1@[i]@)) == out.means1(a)[i]);
        assert(mean_of(a, loud.clear(a, loud.s1@[i]@)) == loud.means1(a)[i]);
    }
    assert(loud.means1(a) =~= amplified(a, out.means1(a), g));
    lemma_largest(a, g, out.means1(a));
    assert(loud.noise_floor(a) == product(a, out.noise_floor(a), g));
    assert forall|i: int| 0 <= i < out.s2@.len() implies loud.depths(a)[i]
        =~= out.depths(a)[i] by {
        assert(rows_louder(a, g, out.s2@[i]@, loud.s2@[i]@));
        assert forall|j: int| 0 <= j < out.s2@[i]@.len() implies loud.depths(a)[i][j]
            == out.depths(a)[i][j] by {
            let v = out.means2(a)[i][j];
            assert(loud.s2@[i]@[j]@ == amplified(a, out.s2@[i]@[j]@, g));
            assert(mean_of(a, out.clear(a, out.s2@[i]@[j]@)) == v);
            assert(mean_of(a, loud.clear(a, loud.s2@[i]@[j]@)) == loud.means2(a)[i][j]);
            assert(loud.means2(a)[i][j] == product(a, v, g));
            assert(larger(a, loud.means1(a)[i], loud.noise_floor(a)) == product(
                a,
                larger(a, out.means1(a)[i], out.noise_floor(a)),
                g,
            ));
            assert(product(a, num(a, 2), loud.means2(a)[i][j]) == product(
                a,
                product(a, num(a, 2), v),
                g,
            ));
        }
    }
    assert(loud.depths(a) =~= out.depths(a));
}

proof fn lemma_envelope<R, A: Arithmetic<R>>(a: &A, g: R, xs: Seq<Complex<R>>)
    requires
        homogeneous(a, g),
    ensures
        envelope(a, scaled_all(a, xs, g)) == scaled_all(a, envelope(a, xs), g),
{
    reveal(homogeneous);
    assert(envelope(a, scaled_all(a, xs, g)) =~= scaled_all(a, envelope(a, xs), g));
}

proof fn lemma_decimated<R, A: Arithmetic<R>>(a: &A, g: R, xs: Seq<Complex<R>>, d: int)
    requires
        homogeneous(a, g),
        d >= 1,
        xs.len() as int % d == 0,
    ensures
        decimated(a, scaled_all(a, xs, g), d) == scaled_all(a, decimated(a, xs, d), g),
{
    reveal(homogeneous);
    let n = xs.len() as int;
    let m = n / d;
    assert(m <= n) by (nonlinear_arith)
        requires
            m == n / d,
            d >= 1,
            n >= 0,
    ;
    assert(scaled(a, zero(a), g) == zero(a));
    assert(decimated(a, scaled_all(a, xs, g), d) =~= scaled_all(a, decimated(a, xs, d), g));
}

proof fn lemma_extracted<R, A: Arithmetic<R>>(
    a: &A,
    g: R,
    xs: Seq<Complex<R>>,
    psi: Seq<R>,
    band: Band,
)
    requires
        homogeneous(a, g),
        xs.len() > 0,
    ensures
        extracted(a, scaled_all(a, xs, g), psi, band) == scaled_all(
            a,
            extracted(a, xs, psi, band),
            g,
        ),
{
    reveal(homogeneous);
    assert(extracted(a, scaled_all(a, xs, g), psi, band) =~= scaled_all(
        a,
        extracted(a, xs, psi, band),
        g,
    ));
}

/// Two scalings may be done in either order.
proof fn lemma_scalings<R, A: Arithmetic<R>>(a: &A, g: R, xs: Seq<Complex<R>>, s: R)
    requires
        homogeneous(a, g),
    ensures
        scaled_all(a, scaled_all(a, xs, g), s) == scaled_all(a, scaled_all(a, xs, s), g),
{
    reveal(homogeneous);
    assert(scaled_all(a, scaled_all(a, xs, g), s) =~= scaled_all(a, scaled_all(a, xs, s), g));
}

proof fn lemma_filtered<R, A: Arithmetic<R>>(a: &A, g: R, xs: Seq<Complex<R>>, phi: Seq<R>)
    requires
        homogeneous(a, g),
    ensures
        filtered(a, scaled_all(a, xs, g), phi) == scaled_all(a, filtered(a, xs, phi), g),
{
    reveal(homogeneous);
    assert(filtered(a, scaled_all(a, xs, g), phi) =~= scaled_all(a, filtered(a, xs, phi), g));
}

pub proof fn lemma_transformed<R, P, A: Arithmetic<R>, E: Engine<R, P>>(
    a: &A,
    engine: &E,
    g: R,
    direction: Direction,
    x: Seq<Complex<R>>,
    y: Seq<Complex<R>>,
)
    requires
        linear::<R, P, A, E>(a, engine, g),
        transformed::<R, P, E>(engine, direction, x, y),
    ensures
        transformed::<R, P, E>(engine, direction, scaled_all(a, x, g), scaled_all(a, y, g)),
{
    reveal(linear);
}

proof fn lemma_inverted<R, P, A: Arithmetic<R>, E: Engine<R, P>>(
    a: &A,
    engine: &E,
    g: R,
    x: Seq<Complex<R>>,
    y: Seq<Complex<R>>,
)
    requires
        homogeneous(a, g),
        linear::<R, P, A, E>(a, engine, g),
        inverted::<R, P, A, E>(a, engine, x, y),
    ensures
        inverted::<R, P, A, E>(a, engine, scaled_all(a, x, g), scaled_all(a, y, g)),
{
    let s = fraction(a, 1, x.len() as u64);
    let z = choose|z: Seq<Complex<R>>|
        #[trigger] transformed::<R, P, E>(engine, Direction::Inverse, x, z) && y == scaled_all(
            a,
            z,
            s,
        );
    lemma_transformed::<R, P, A, E>(a, engine, g, Direction::Inverse, x, z);
    lemma_scalings(a, g, z, s);
}

/// A buffer is as long after a transform as before it.
proof fn lemma_lengths<R, P, A: Arithmetic<R>, E: Engine<R, P>>(a: &A, engine: &E)
    requires
        keeps_length::<R, P, E>(engine),
    ensures
        forall|direction: Direction, x: Seq<Complex<R>>, y: Seq<Complex<R>>| #[trigger]
            transformed::<R, P, E>(engine, direction, x, y) ==> y.len() == x.len(),
        forall|x: Seq<Complex<R>>, y: Seq<Complex<R>>| #[trigger]
            inverted::<R, P, A, E>(a, engine, x, y) ==> y.len() == x.len(),
{
}

pub proof fn lemma_averaged<R, P, A: Arithmetic<R>, E: Engine<R, P>>(
    a: &A,
    engine: &E,
    g: R,
    phi: Seq<R>,
    out_len: int,
    x: Seq<Complex<R>>,
    y: Seq<R>,
)
    requires
        homogeneous(a, g),
        linear::<R, P, A, E>(a, engine, g),
        averaged::<R, P, A, E>(a, engine, phi, out_len, x, y),
        power_of_two(x.len() as int),
        power_of_two(out_len),
        out_len <= x.len(),
    ensures
        averaged::<R, P, A, E>(
            a,
            engine,
            phi,
            out_len,
            scaled_all(a, x, g),
            amplified(a, y, g),
        ),
{
    lemma_reach(x.len() as int, out_len);
    let d = x.len() as int / out_len;
    let small = decimated(a, filtered(a, x, phi), d);
    let z = choose|z: Seq<Complex<R>>|
        #[trigger] inverted::<R, P, A, E>(a, engine, small, z) && y == real_parts(z);
    lemma_inverted::<R, P, A, E>(a, engine, g, small, z);
    lemma_filtered(a, g, x, phi);
    lemma_decimated(a, g, filtered(a, x, phi), d);
    assert(real_parts(scaled_all(a, z, g)) =~= amplified(a, y, g));
}

pub proof fn lemma_zeroth_order<R: Copy, P, A: Arithmetic<R>, E: Engine<R, P>>(
    sa: &Geometry<R>,
    a: &A,
    engine: &E,
    g: R,
    x: Seq<Complex<R>>,
    s0: Seq<R>,
)
    requires
        sa.wf(),
        x.len() == sa.n,
        homogeneous(a, g),
        linear::<R, P, A, E>(a, engine, g),
        keeps_length::<R, P, E>(engine),
        sa.zeroth_order::<P, A, E>(a, engine, x, s0),
    ensures
        sa.zeroth_order::<P, A, E>(a, engine, scaled_all(a, x, g), amplified(a, s0, g)),
{
    sa.lemma_grids();
    lemma_lengths::<R, P, A, E>(a, engine);
    let (phi, out, d1) = (sa.phi(sa.n1()), sa.n_out as int, sa.d1 as int);
    let env = choose|env: Seq<Complex<R>>|
        #[trigger] transformed::<R, P, E>(engine, Direction::Forward, envelope(a, x), env)
            && averaged::<R, P, A, E>(a, engine, phi, out, decimated(a, env, d1), s0);
    lemma_envelope(a, g, x);
    lemma_decimated(a, g, env, d1);
    lemma_averaged::<R, P, A, E>(a, engine, g, phi, out, decimated(a, env, d1), s0);
    lemma_transformed::<R, P, A, E>(a, engine, g, Direction::Forward, envelope(a, x), env);
}

pub proof fn lemma_band_envelope<R: Copy, P, A: Arithmetic<R>, E: Engine<R, P>>(
    sa: &Geometry<R>,
    a: &A,
    engine: &E,
    g: R,
    i1: int,
    spectrum: Seq<Complex<R>>,
    u1: Seq<Complex<R>>,
)
    requires
        sa.wf(),
        0 <= i1 < sa.bank1.wavelets@.len(),
        spectrum.len() == sa.n,
        homogeneous(a, g),
        linear::<R, P, A, E>(a, engine, g),
        keeps_length::<R, P, E>(engine),
        sa.band_envelope::<P, A, E>(a, engine, i1, spectrum, u1),
    ensures
        u1.len() == sa.n1(),
        sa.band_envelope::<P, A, E>(
            a,
            engine,
            i1,
            scaled_all(a, spectrum, g),
            scaled_all(a, u1, g),
        ),
{
    sa.lemma_grids();
    lemma_lengths::<R, P, A, E>(a, engine);
    let band = sa.bands1@[i1];
    let psi = sa.bank1.wavelets@[i1].spectrum@;
    lemma_reach(band.len as int, sa.n1());
    let d = band.len as int / sa.n1();
    let passed = extracted(a, spectrum, psi, band);
    let (sub, env) = choose|sub: Seq<Complex<R>>, env: Seq<Complex<R>>|
        {
            &&& #[trigger] inverted::<R, P, A, E>(a, engine, passed, sub)
            &&& #[trigger] transformed::<R, P, E>(
                engine,
                Direction::Forward,
                envelope(a, sub),
                env,
            )
            &&& u1 == decimated(a, env, d)
        };
    lemma_extracted(a, g, spectrum, psi, band);
    lemma_inverted::<R, P, A, E>(a, engine, g, passed, sub);
    lemma_envelope(a, g, sub);
    lemma_decimated(a, g, env, d);
    lemma_transformed::<R, P, A, E>(a, engine, g, Direction::Forward, envelope(a, sub), env);
}

pub proof fn lemma_second_order<R: Copy, P, A: Arithmetic<R>, E: Engine<R, P>>(
    sa: &Geometry<R>,
    a: &A,
    engine: &E,
    g: R,
    i1: int,
    i2: int,
    u1: Seq<Complex<R>>,
    row: Seq<R>,
)
    requires
        sa.wf(),
        0 <= i2 < sa.bank2.wavelets@.len(),
        u1.len() == sa.n1(),
        homogeneous(a, g),
        linear::<R, P, A, E>(a, engine, g),
        keeps_length::<R, P, E>(engine),
        sa.second_order::<P, A, E>(a, engine, i1, i2, u1, row),
    ensures
        sa.second_order::<P, A, E>(
            a,
            engine,
            i1,
            i2,
            scaled_all(a, u1, g),
            amplified(a, row, g),
        ),
{
    sa.lemma_grids();
    if sa.beyond(a, i1, i2) {
        assert(product(a, num(a, 0), g) == num(a, 0)) by {
            reveal(homogeneous);
        }
        assert(amplified(a, row, g) =~= row);
    } else {
        lemma_lengths::<R, P, A, E>(a, engine);
        let band = sa.bands2@[i2];
        let psi = sa.bank2.wavelets@[i2].spectrum@;
        let (phi, out) = (sa.phi(band.len as int), sa.n_out as int);
        let passed = extracted(a, u1, psi, band);
        let (sub, env) = choose|sub: Seq<Complex<R>>, env: Seq<Complex<R>>|
            {
                &&& #[trigger] inverted::<R, P, A, E>(a, engine, passed, sub)
                &&& #[trigger] transformed::<R, P, E>(
                    engine,
                    Direction::Forward,
                    envelope(a, sub),
                    env,
                )
                &&& averaged::<R, P, A, E>(a, engine, phi, out, env, row)
            };
        lemma_extracted(a, g, u1, psi, band);
        lemma_inverted::<R, P, A, E>(a, engine, g, passed, sub);
        lemma_envelope(a, g, sub);
        lemma_averaged::<R, P, A, E>(a, engine, g, phi, out, env, row);
        lemma_transformed::<R, P, A, E>(a, engine, g, Direction::Forward, envelope(a, sub), env);
    }
}

proof fn lemma_band_result<R: Copy, P, A: Arithmetic<R>, E: Engine<R, P>>(
    sa: &Geometry<R>,
    a: &A,
    engine: &E,
    g: R,
    i1: int,
    spectrum: Seq<Complex<R>>,
    first: Seq<R>,
    rows: Seq<Vec<R>>,
    loud_rows: Seq<Vec<R>>,
)
    requires
        sa.wf(),
        0 <= i1 < sa.bank1.wavelets@.len(),
        spectrum.len() == sa.n,
        homogeneous(a, g),
        linear::<R, P, A, E>(a, engine, g),
        keeps_length::<R, P, E>(engine),
        sa.band_result::<P, A, E>(a, engine, i1, spectrum, first, rows),
        rows_louder(a, g, rows, loud_rows),
    ensures
        sa.band_result::<P, A, E>(
            a,
            engine,
            i1,
            scaled_all(a, spectrum, g),
            amplified(a, first, g),
            loud_rows,
        ),
{
    sa.lemma_grids();
    let (phi, out) = (sa.phi(sa.n1()), sa.n_out as int);
    let u1 = choose|u1: Seq<Complex<R>>|
        {
            &&& #[trigger] sa.band_envelope::<P, A, E>(a, engine, i1, spectrum, u1)
            &&& averaged::<R, P, A, E>(a, engine, phi, out, u1, first)
            &&& forall|i2: int|
                0 <= i2 < rows.len() ==> sa.second_order::<P, A, E>(
                    a,
                    engine,
                    i1,
                    i2,
                    u1,
                    (#[trigger] rows[i2])@,
                )
        };
    lemma_band_envelope::<R, P, A, E>(sa, a, engine, g, i1, spectrum, u1);
    lemma_averaged::<R, P, A, E>(a, engine, g, phi, out, u1, first);
    assert forall|i2: int| 0 <= i2 < loud_rows.len() implies sa.second_order::<P, A, E>(
        a,
        engine,
        i1,
        i2,
        scaled_all(a, u1, g),
        (#[trigger] loud_rows[i2])@,
    ) by {
        lemma_second_order::<R, P, A, E>(sa, a, engine, g, i1, i2, u1, rows[i2]@);
    }
}

/// Gain passes through the transform: what an analyser may make of a block, with
/// every coefficient multiplied by `g`, it may make of the block multiplied by
/// `g`. With [`law_depth_ignores_gain`], receiver gain cancels out of the
/// modulation depth.
pub proof fn law_gain_scales_coefficients<R: Copy, P, A: Arithmetic<R>, E: Engine<R, P>>(
    sa: &Geometry<R>,
    a: &A,
    engine: &E,
    g: R,
    x: Seq<Complex<R>>,
    out: &Scattergram<R>,
    loud: &Scattergram<R>,
)
    requires
        sa.wf(),
        x.len() == sa.n,
        homogeneous(a, g),
        linear::<R, P, A, E>(a, engine, g),
        keeps_length::<R, P, E>(engine),
        sa.analysed::<P, A, E>(a, engine, x, out),
        louder(a, g, out, loud),
    ensures
        sa.analysed::<P, A, E>(a, engine, scaled_all(a, x, g), loud),
{
    lemma_lengths::<R, P, A, E>(a, engine);
    lemma_zeroth_order::<R, P, A, E>(sa, a, engine, g, x, out.s0@);
    let spectrum = choose|spectrum: Seq<Complex<R>>|
        {
            &&& #[trigger] transformed::<R, P, E>(engine, Direction::Forward, x, spectrum)
            &&& forall|i1: int|
                0 <= i1 < out.s1@.len() ==> sa.band_result::<P, A, E>(
                    a,
                    engine,
                    i1,
                    spectrum,
                    (#[trigger] out.s1@[i1])@,
                    out.second(i1),
                )
        };
    assert forall|i1: int| 0 <= i1 < loud.s1@.len() implies sa.band_result::<P, A, E>(
        a,
        engine,
        i1,
        scaled_all(a, spectrum, g),
        (#[trigger] loud.s1@[i1])@,
        loud.second(i1),
    ) by {
        if sa.config.order2 {
            assert(rows_louder(a, g, out.s2@[i1]@, loud.s2@[i1]@));
        }
        lemma_band_result::<R, P, A, E>(
            sa,
            a,
            engine,
            g,
            i1,
            spectrum,
            out.s1@[i1]@,
            out.second(i1),
            loud.second(i1),
        );
    }
    lemma_transformed::<R, P, A, E>(a, engine, g, Direction::Forward, x, spectrum);
}

proof fn lemma_turned_envelope<R, A: Arithmetic<R>>(
    a: &A,
    c: Complex<R>,
    g: R,
    x: Seq<Complex<R>>,
)
    requires
        homogeneous(a, g),
        turns(a, c, g),
    ensures
        envelope(a, turned_all(a, x, c)) == scaled_all(a, envelope(a, x), g),
{
    reveal(homogeneous);
    reveal(turns);
    assert(envelope(a, turned_all(a, x, c)) =~= scaled_all(a, envelope(a, x), g));
}

/// The transform of a buffer multiplied by a complex value.
pub proof fn lemma_turned_transform<R, P, A: Arithmetic<R>, E: Engine<R, P>>(
    a: &A,
    engine: &E,
    c: Complex<R>,
    direction: Direction,
    x: Seq<Complex<R>>,
    y: Seq<Complex<R>>,
)
    requires
        complex_linear::<R, P, A, E>(a, engine, c),
        transformed::<R, P, E>(engine, direction, x, y),
    ensures
        transformed::<R, P, E>(engine, direction, turned_all(a, x, c), turned_all(a, y, c)),
{
    reveal(complex_linear);
}

proof fn lemma_turned_inverted<R, P, A: Arithmetic<R>, E: Engine<R, P>>(
    a: &A,
    engine: &E,
    c: Complex<R>,
    g: R,
    x: Seq<Complex<R>>,
    y: Seq<Complex<R>>,
)
    requires
        turns(a, c, g),
        complex_linear::<R, P, A, E>(a, engine, c),
        inverted::<R, P, A, E>(a, engine, x, y),
    ensures
        inverted::<R, P, A, E>(a, engine, turned_all(a, x, c), turned_all(a, y, c)),
{
    let s = fraction(a, 1, x.len() as u64);
    let z = choose|z: Seq<Complex<R>>|
        #[trigger] transformed::<R, P, E>(engine, Direction::Inverse, x, z) && y == scaled_all(
            a,
            z,
            s,
        );
    lemma_turned_transform::<R, P, A, E>(a, engine, c, Direction::Inverse, x, z);
    assert(turned_all(a, y, c) =~= scaled_all(a, turned_all(a, z, c), s)) by {
        reveal(turns);
    }
}

proof fn lemma_turned_extracted<R, A: Arithmetic<R>>(
    a: &A,
    c: Complex<R>,
    g: R,
    x: Seq<Complex<R>>,
    psi: Seq<R>,
    band: Band,
)
    requires
        turns(a, c, g),
        x.len() > 0,
    ensures
        extracted(a, turned_all(a, x, c), psi, band) == turned_all(
            a,
            extracted(a, x, psi, band),
            c,
        ),
{
    reveal(turns);
    assert(extracted(a, turned_all(a, x, c), psi, band) =~= turned_all(
        a,
        extracted(a, x, psi, band),
        c,
    ));
}

/// The zeroth order of a block multiplied by a complex value.
pub proof fn lemma_turned_zeroth<R: Copy, P, A: Arithmetic<R>, E: Engine<R, P>>(
    sa: &Geometry<R>,
    a: &A,
    engine: &E,
    c: Complex<R>,
    g: R,
    x: Seq<Complex<R>>,
    s0: Seq<R>,
)
    requires
        sa.wf(),
        x.len() == sa.n,
        homogeneous(a, g),
        turns(a, c, g),
        linear::<R, P, A, E>(a, engine, g),
        keeps_length::<R, P, E>(engine),
        sa.zeroth_order::<P, A, E>(a, engine, x, s0),
    ensures
        sa.zeroth_order::<P, A, E>(a, engine, turned_all(a, x, c), amplified(a, s0, g)),
{
    lemma_zeroth_order::<R, P, A, E>(sa, a, engine, g, x, s0);
    lemma_turned_envelope(a, c, g, x);
    lemma_envelope(a, g, x);
    assert(envelope(a, turned_all(a, x, c)) == envelope(a, scaled_all(a, x, g)));
}

/// The envelope of a band of a block multiplied by a complex value.
pub proof fn lemma_turned_band<R: Copy, P, A: Arithmetic<R>, E: Engine<R, P>>(
    sa: &Geometry<R>,
    a: &A,
    engine: &E,
    c: Complex<R>,
    g: R,
    i1: int,
    spectrum: Seq<Complex<R>>,
    u1: Seq<Complex<R>>,
)
    requires
        sa.wf(),
        0 <= i1 < sa.bank1.wavelets@.len(),
        spectrum.len() == sa.n,
        homogeneous(a, g),
        turns(a, c, g),
        linear::<R, P, A, E>(a, engine, g),
        complex_linear::<R, P, A, E>(a, engine, c),
        keeps_length::<R, P, E>(engine),
        sa.band_envelope::<P, A, E>(a, engine, i1, spectrum, u1),
    ensures
        sa.band_envelope::<P, A, E>(
            a,
            engine,
            i1,
            turned_all(a, spectrum, c),
            scaled_all(a, u1, g),
        ),
{
    sa.lemma_grids();
    lemma_lengths::<R, P, A, E>(a, engine);
    let band = sa.bands1@[i1];
    let psi = sa.bank1.wavelets@[i1].spectrum@;
    lemma_reach(band.len as int, sa.n1());
    let d = band.len as int / sa.n1();
    let passed = extracted(a, spectrum, psi, band);
    let (sub, env) = choose|sub: Seq<Complex<R>>, env: Seq<Complex<R>>|
        {
            &&& #[trigger] inverted::<R, P, A, E>(a, engine, passed, sub)
            &&& #[trigger] transformed::<R, P, E>(
                engine,
                Direction::Forward,
                envelope(a, sub),
                env,
            )
            &&& u1 == decimated(a, env, d)
        };
    lemma_turned_extracted(a, c, g, spectrum, psi, band);
    lemma_turned_inverted::<R, P, A, E>(a, engine, c, g, passed, sub);
    lemma_turned_envelope(a, c, g, sub);
    lemma_decimated(a, g, env, d);
    lemma_transformed::<R, P, A, E>(a, engine, g, Direction::Forward, envelope(a, sub), env);
}

} // verus!
