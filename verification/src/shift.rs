//! What a circular shift in time does to an analysis: it shifts every row of
//! coefficients along with the block.

use vstd::arithmetic::div_mod::{
    lemma_fundamental_div_mod, lemma_fundamental_div_mod_converse, lemma_mod_multiples_basic,
};
use vstd::prelude::*;

use crate::arithmetic::{fraction, num, Arithmetic};
use crate::complex::{
    envelope, modulus, real_parts, scaled, scaled_all, turned, turned_all, zero, Complex,
};
use crate::exact::{exact, lemma_parts, lemma_zero, lone, takes_in};
use crate::fft::{
    decimated, decimation_source, inverted, keeps_length, transformed, Direction, Engine,
};
use crate::laws::law_extraction_shifts_bins;
use crate::powers::{lemma_divides, lemma_double, power_of_two};
use crate::runs::{
    averages_along, carried, envelopes_along, functional, leads_to, lemma_carried, seconds_along,
    zeroth_along,
};
use crate::transform::{
    averaged, band_source, extracted, filtered, lemma_reach, Band, Scattergram, Geometry,
};

verus! {

/// `xs` started `s` places on, round its end.
pub open spec fn rotated<T>(xs: Seq<T>, s: int) -> Seq<T> {
    Seq::new(xs.len(), |t: int| xs[(t + s) % xs.len() as int])
}

/// A root of unity for each length and power.
pub struct Roots<R> {
    pub root: spec_fn(int, int) -> Complex<R>,
}

impl<R> Roots<R> {
    /// The `j`th power of the first `n`th root of unity.
    pub open spec fn at(self, n: int, j: int) -> Complex<R> {
        (self.root)(n, j)
    }
}

/// A spectrum with the phase of every bin turned as far as a shift by `s` turns
/// it.
pub open spec fn phased<R, A: Arithmetic<R>>(
    a: &A,
    roots: Roots<R>,
    x: Seq<Complex<R>>,
    s: int,
) -> Seq<Complex<R>> {
    Seq::new(x.len(), |k: int| turned(a, x[k], roots.at(x.len() as int, k * s)))
}

/// Whether `roots` multiply as roots of unity do: powers repeat with the length
/// and add up, a power of a long root is a power of a short one, and turning by
/// a root passes through scaling and leaves distances alone.
#[verifier::opaque]
pub open spec fn unity<R, A: Arithmetic<R>>(a: &A, roots: Roots<R>) -> bool {
    &&& forall|n: int, i: int, j: int|
        n > 0 && (i - j) % n == 0 ==> #[trigger] roots.at(n, i) == #[trigger] roots.at(n, j)
    &&& forall|m: int, d: int, j: int|
        m > 0 && d > 0 ==> #[trigger] roots.at(m * d, j * d) == roots.at(m, j)
    &&& forall|z: Complex<R>, n: int, i: int, j: int| #[trigger]
        turned(a, turned(a, z, roots.at(n, i)), roots.at(n, j)) == turned(
            a,
            z,
            roots.at(n, i + j),
        )
    &&& forall|z: Complex<R>, n: int, i: int, s: R| #[trigger]
        scaled(a, turned(a, z, roots.at(n, i)), s) == turned(a, scaled(a, z, s), roots.at(n, i))
    &&& forall|z: Complex<R>, n: int, i: int|
        modulus(a, #[trigger] turned(a, z, roots.at(n, i))) == modulus(a, z)
}

/// Whether `engine` turns shifts into phases and back, and lets a common phase
/// through.
#[verifier::opaque]
pub open spec fn shifts<R, P, A: Arithmetic<R>, E: Engine<R, P>>(
    a: &A,
    engine: &E,
    roots: Roots<R>,
) -> bool {
    &&& forall|x: Seq<Complex<R>>, y: Seq<Complex<R>>, s: int|
        #[trigger] transformed::<R, P, E>(engine, Direction::Forward, x, y) ==> transformed::<
            R,
            P,
            E,
        >(engine, Direction::Forward, rotated(x, s), #[trigger] phased(a, roots, y, s))
    &&& forall|x: Seq<Complex<R>>, y: Seq<Complex<R>>, s: int|
        #[trigger] transformed::<R, P, E>(engine, Direction::Inverse, x, y) ==> transformed::<
            R,
            P,
            E,
        >(engine, Direction::Inverse, #[trigger] phased(a, roots, x, s), rotated(y, s))
    &&& forall|x: Seq<Complex<R>>, y: Seq<Complex<R>>, n: int, i: int|
        #[trigger] transformed::<R, P, E>(engine, Direction::Inverse, x, y) ==> transformed::<
            R,
            P,
            E,
        >(
            engine,
            Direction::Inverse,
            turned_all(a, x, #[trigger] roots.at(n, i)),
            turned_all(a, y, roots.at(n, i)),
        )
}

/// Powers that differ by a multiple of the length are the same.
pub proof fn lemma_period<R, A: Arithmetic<R>>(
    a: &A,
    roots: Roots<R>,
    n: int,
    i: int,
    j: int,
    q: int,
)
    requires
        unity(a, roots),
        n > 0,
        i == j + q * n,
    ensures
        roots.at(n, i) == roots.at(n, j),
{
    lemma_mod_multiples_basic(q, n);
    assert(i - j == q * n);
    reveal(unity);
}

/// A power of a long root that is a multiple is a power of a short root.
proof fn lemma_shorter<R, A: Arithmetic<R>>(a: &A, roots: Roots<R>, m: int, d: int, j: int)
    requires
        unity(a, roots),
        m > 0,
        d > 0,
    ensures
        roots.at(m * d, j * d) == roots.at(m, j),
{
    reveal(unity);
}

proof fn lemma_scaled_turn<R, A: Arithmetic<R>>(
    a: &A,
    roots: Roots<R>,
    z: Complex<R>,
    n: int,
    i: int,
    s: R,
)
    requires
        unity(a, roots),
    ensures
        scaled(a, turned(a, z, roots.at(n, i)), s) == turned(a, scaled(a, z, s), roots.at(n, i)),
{
    reveal(unity);
}

/// Of three powers of two, the ratio of the outer two is that of the upper pair
/// times that of the lower.
proof fn lemma_ratios(small: int, mid: int, large: int)
    requires
        power_of_two(small),
        power_of_two(mid),
        power_of_two(large),
        small <= mid <= large,
    ensures
        large / small == (mid / small) * (large / mid),
        small >= 1,
        mid == small * (mid / small),
        large == mid * (large / mid),
        mid / small >= 1,
        large / mid >= 1,
{
    lemma_divides(small, mid);
    lemma_divides(mid, large);
    let (p, q) = (mid / small, large / mid);
    assert(large == small * (p * q)) by (nonlinear_arith)
        requires
            mid == small * p,
            large == mid * q,
    ;
    assert(large == (p * q) * small) by (nonlinear_arith)
        requires
            large == small * (p * q),
    ;
    lemma_fundamental_div_mod_converse(large, small, p * q, 0);
}

proof fn lemma_decimated<R, A: Arithmetic<R>>(
    a: &A,
    roots: Roots<R>,
    x: Seq<Complex<R>>,
    d: int,
    s: int,
)
    requires
        unity(a, roots),
        d >= 1,
        x.len() > 0,
        x.len() as int % d == 0,
    ensures
        decimated(a, phased(a, roots, x, s * d), d) == phased(
            a,
            roots,
            decimated(a, x, d),
            s,
        ),
{
    let n = x.len() as int;
    let m = n / d;
    lemma_fundamental_div_mod(n, d);
    assert(n == m * d) by (nonlinear_arith)
        requires
            n == d * m,
    ;
    let y = decimated(a, phased(a, roots, x, s * d), d);
    let z = phased(a, roots, decimated(a, x, d), s);
    if d == 1 {
        assert(s * 1 == s);
        assert(y =~= z);
    } else {
        assert(m > 0) by (nonlinear_arith)
            requires
                n == m * d,
                n > 0,
                d > 1,
        ;
        assert(m <= n) by (nonlinear_arith)
            requires
                n == m * d,
                m > 0,
                d > 1,
        ;
        assert forall|q: int| 0 <= q < m implies y[q] == z[q] by {
            let j = decimation_source(n, d, q);
            let scale = fraction(a, 1, d as u64);
            lemma_scaled_turn(a, roots, x[j], n, j * (s * d), scale);
            assert(j * (s * d) == (j * s) * d) by (nonlinear_arith);
            lemma_shorter(a, roots, m, d, j * s);
            if j != q {
                assert(j * s == q * s + ((d - 1) * s) * m) by (nonlinear_arith)
                    requires
                        j == q + (n - m),
                        n == m * d,
                ;
                lemma_period(a, roots, m, j * s, q * s, (d - 1) * s);
            }
        }
        assert(y =~= z);
    }
}

proof fn lemma_filtered<R, A: Arithmetic<R>>(
    a: &A,
    roots: Roots<R>,
    x: Seq<Complex<R>>,
    phi: Seq<R>,
    s: int,
)
    requires
        unity(a, roots),
    ensures
        filtered(a, phased(a, roots, x, s), phi) == phased(a, roots, filtered(a, x, phi), s),
{
    let n = x.len() as int;
    let y = filtered(a, phased(a, roots, x, s), phi);
    let z = phased(a, roots, filtered(a, x, phi), s);
    assert forall|k: int| 0 <= k < n implies y[k] == z[k] by {
        lemma_scaled_turn(a, roots, x[k], n, k * s, phi[k]);
    }
    assert(y =~= z);
}

proof fn lemma_inverted<R, P, A: Arithmetic<R>, E: Engine<R, P>>(
    a: &A,
    engine: &E,
    roots: Roots<R>,
    x: Seq<Complex<R>>,
    y: Seq<Complex<R>>,
    s: int,
)
    requires
        shifts::<R, P, A, E>(a, engine, roots),
        keeps_length::<R, P, E>(engine),
        inverted::<R, P, A, E>(a, engine, x, y),
    ensures
        inverted::<R, P, A, E>(a, engine, phased(a, roots, x, s), rotated(y, s)),
{
    let scale = fraction(a, 1, x.len() as u64);
    let z = choose|z: Seq<Complex<R>>|
        #[trigger] transformed::<R, P, E>(engine, Direction::Inverse, x, z) && y == scaled_all(
            a,
            z,
            scale,
        );
    assert(transformed::<R, P, E>(
        engine,
        Direction::Inverse,
        phased(a, roots, x, s),
        rotated(z, s),
    )) by {
        reveal(shifts);
    }
    assert forall|t: int| 0 <= t < y.len() implies rotated(y, s)[t] == scaled_all(
        a,
        rotated(z, s),
        scale,
    )[t] by {
        let u = (t + s) % y.len() as int;
        assert(0 <= u < y.len());
    }
    assert(rotated(y, s) =~= scaled_all(a, rotated(z, s), scale));
}

proof fn lemma_common_phase<R, P, A: Arithmetic<R>, E: Engine<R, P>>(
    a: &A,
    engine: &E,
    roots: Roots<R>,
    x: Seq<Complex<R>>,
    y: Seq<Complex<R>>,
    n: int,
    i: int,
)
    requires
        unity(a, roots),
        shifts::<R, P, A, E>(a, engine, roots),
        inverted::<R, P, A, E>(a, engine, x, y),
    ensures
        inverted::<R, P, A, E>(
            a,
            engine,
            turned_all(a, x, roots.at(n, i)),
            turned_all(a, y, roots.at(n, i)),
        ),
{
    let scale = fraction(a, 1, x.len() as u64);
    let w = roots.at(n, i);
    let z = choose|z: Seq<Complex<R>>|
        #[trigger] transformed::<R, P, E>(engine, Direction::Inverse, x, z) && y == scaled_all(
            a,
            z,
            scale,
        );
    assert(transformed::<R, P, E>(
        engine,
        Direction::Inverse,
        turned_all(a, x, w),
        turned_all(a, z, w),
    )) by {
        reveal(shifts);
    }
    assert forall|t: int| 0 <= t < y.len() implies turned_all(a, y, w)[t] == scaled_all(
        a,
        turned_all(a, z, w),
        scale,
    )[t] by {
        lemma_scaled_turn(a, roots, z[t], n, i, scale);
    }
    assert(turned_all(a, y, w) =~= scaled_all(a, turned_all(a, z, w), scale));
}

proof fn lemma_forward<R, P, A: Arithmetic<R>, E: Engine<R, P>>(
    a: &A,
    engine: &E,
    roots: Roots<R>,
    x: Seq<Complex<R>>,
    y: Seq<Complex<R>>,
    s: int,
)
    requires
        shifts::<R, P, A, E>(a, engine, roots),
        transformed::<R, P, E>(engine, Direction::Forward, x, y),
    ensures
        transformed::<R, P, E>(
            engine,
            Direction::Forward,
            rotated(x, s),
            phased(a, roots, y, s),
        ),
{
    reveal(shifts);
}

proof fn lemma_averaged<R, P, A: Arithmetic<R>, E: Engine<R, P>>(
    a: &A,
    engine: &E,
    roots: Roots<R>,
    phi: Seq<R>,
    out_len: int,
    x: Seq<Complex<R>>,
    row: Seq<R>,
    s: int,
)
    requires
        unity(a, roots),
        shifts::<R, P, A, E>(a, engine, roots),
        keeps_length::<R, P, E>(engine),
        averaged::<R, P, A, E>(a, engine, phi, out_len, x, row),
        power_of_two(x.len() as int),
        power_of_two(out_len),
        out_len <= x.len(),
    ensures
        averaged::<R, P, A, E>(
            a,
            engine,
            phi,
            out_len,
            phased(a, roots, x, s * (x.len() as int / out_len)),
            rotated(row, s),
        ),
{
    lemma_reach(x.len() as int, out_len);
    let d = x.len() as int / out_len;
    let f = filtered(a, x, phi);
    let small = decimated(a, f, d);
    let z = choose|z: Seq<Complex<R>>|
        #[trigger] inverted::<R, P, A, E>(a, engine, small, z) && row == real_parts(z);
    lemma_inverted::<R, P, A, E>(a, engine, roots, small, z, s);
    lemma_filtered(a, roots, x, phi, s * d);
    lemma_double(out_len);
    lemma_decimated(a, roots, f, d, s);
    assert forall|t: int| 0 <= t < row.len() implies rotated(row, s)[t] == real_parts(
        rotated(z, s),
    )[t] by {
        let u = (t + s) % row.len() as int;
        assert(0 <= u < row.len());
    }
    assert(rotated(row, s) =~= real_parts(rotated(z, s)));
}

/// The phase that bin `q` of a band has after a shift, over that of the centre of
/// the band.
proof fn lemma_band_phase<R, A: Arithmetic<R>>(
    a: &A,
    roots: Roots<R>,
    z: Complex<R>,
    n: int,
    centre: int,
    len: int,
    d: int,
    q: int,
    s: int,
)
    requires
        unity(a, roots),
        len > 0,
        d > 0,
        n == len * d,
        0 <= q < len,
    ensures
        turned(a, z, roots.at(n, band_source(n, centre, len, q) * (s * d))) == turned(
            a,
            turned(a, z, roots.at(len, q * s)),
            roots.at(n, centre * (s * d)),
        ),
{
    let o = if q < len - len / 2 {
        q
    } else {
        q - len
    };
    let j = band_source(n, centre, len, q);
    let big = s * d;
    assert(n > 0) by (nonlinear_arith)
        requires
            n == len * d,
            len > 0,
            d > 0,
    ;
    lemma_fundamental_div_mod(centre + o, n);
    let t = (centre + o) / n;
    assert(j * big == (centre * big + o * big) + (-t * big) * n) by (nonlinear_arith)
        requires
            centre + o == n * t + j,
    ;
    lemma_period(a, roots, n, j * big, centre * big + o * big, -t * big);
    assert(o * big == (o * s) * d) by (nonlinear_arith)
        requires
            big == s * d,
    ;
    lemma_shorter(a, roots, len, d, o * s);
    if o != q {
        assert(o * s == q * s + (-s) * len) by (nonlinear_arith)
            requires
                o == q - len,
        ;
        lemma_period(a, roots, len, o * s, q * s, -s);
    }
    assert(roots.at(n, o * big) == roots.at(len, q * s));
    assert(turned(a, turned(a, z, roots.at(n, o * big)), roots.at(n, centre * big)) == turned(
        a,
        z,
        roots.at(n, o * big + centre * big),
    )) by {
        reveal(unity);
    }
}

proof fn lemma_extracted<R, A: Arithmetic<R>>(
    a: &A,
    roots: Roots<R>,
    x: Seq<Complex<R>>,
    psi: Seq<R>,
    band: Band,
    d: int,
    s: int,
)
    requires
        unity(a, roots),
        band.len > 0,
        d > 0,
        x.len() == band.len * d,
    ensures
        extracted(a, phased(a, roots, x, s * d), psi, band) == turned_all(
            a,
            phased(a, roots, extracted(a, x, psi, band), s),
            roots.at(x.len() as int, band.centre_bin as int * (s * d)),
        ),
{
    let n = x.len() as int;
    let (len, centre) = (band.len as int, band.centre_bin as int);
    let scale = fraction(a, band.len as u64, n as u64);
    let w = roots.at(n, centre * (s * d));
    let e = extracted(a, x, psi, band);
    let y = extracted(a, phased(a, roots, x, s * d), psi, band);
    let z = turned_all(a, phased(a, roots, e, s), w);
    assert(n > 0) by (nonlinear_arith)
        requires
            n == len * d,
            len > 0,
            d > 0,
    ;
    assert forall|q: int| 0 <= q < len implies y[q] == z[q] by {
        let j = band_source(n, centre, len, q);
        assert(0 <= j < n);
        let i = j * (s * d);
        lemma_scaled_turn(a, roots, x[j], n, i, psi[j]);
        lemma_scaled_turn(a, roots, scaled(a, x[j], psi[j]), n, i, scale);
        lemma_band_phase(a, roots, e[q], n, centre, len, d, q, s);
    }
    assert(y =~= z);
}

/// The envelope of a band goes along with a shift: what comes out of the inverse
/// transform is shifted and has a common phase, which its modulus does not see.
proof fn lemma_shifted_envelope<R, P, A: Arithmetic<R>, E: Engine<R, P>>(
    a: &A,
    engine: &E,
    roots: Roots<R>,
    x: Seq<Complex<R>>,
    psi: Seq<R>,
    band: Band,
    d: int,
    s: int,
    sub: Seq<Complex<R>>,
    env: Seq<Complex<R>>,
) -> (sub2: Seq<Complex<R>>)
    requires
        unity(a, roots),
        shifts::<R, P, A, E>(a, engine, roots),
        keeps_length::<R, P, E>(engine),
        band.len > 0,
        d > 0,
        x.len() == band.len * d,
        inverted::<R, P, A, E>(a, engine, extracted(a, x, psi, band), sub),
        transformed::<R, P, E>(engine, Direction::Forward, envelope(a, sub), env),
    ensures
        inverted::<R, P, A, E>(
            a,
            engine,
            extracted(a, phased(a, roots, x, s * d), psi, band),
            sub2,
        ),
        transformed::<R, P, E>(
            engine,
            Direction::Forward,
            envelope(a, sub2),
            phased(a, roots, env, s),
        ),
        env.len() == band.len,
{
    let n = x.len() as int;
    let e = extracted(a, x, psi, band);
    let i = band.centre_bin as int * (s * d);
    lemma_extracted(a, roots, x, psi, band, d, s);
    lemma_inverted::<R, P, A, E>(a, engine, roots, e, sub, s);
    lemma_common_phase::<R, P, A, E>(
        a,
        engine,
        roots,
        phased(a, roots, e, s),
        rotated(sub, s),
        n,
        i,
    );
    let sub2 = turned_all(a, rotated(sub, s), roots.at(n, i));
    assert forall|t: int| 0 <= t < sub.len() implies envelope(a, sub2)[t] == rotated(
        envelope(a, sub),
        s,
    )[t] by {
        let u = (t + s) % sub.len() as int;
        assert(0 <= u < sub.len());
        assert(modulus(a, turned(a, sub[u], roots.at(n, i))) == modulus(a, sub[u])) by {
            reveal(unity);
        }
    }
    assert(envelope(a, sub2) =~= rotated(envelope(a, sub), s));
    lemma_forward::<R, P, A, E>(a, engine, roots, envelope(a, sub), env, s);
    sub2
}

proof fn lemma_zeroth<R: Copy, P, A: Arithmetic<R>, E: Engine<R, P>>(
    sa: &Geometry<R>,
    a: &A,
    engine: &E,
    roots: Roots<R>,
    x: Seq<Complex<R>>,
    row: Seq<R>,
    k: int,
)
    requires
        sa.wf(),
        x.len() == sa.n,
        unity(a, roots),
        shifts::<R, P, A, E>(a, engine, roots),
        keeps_length::<R, P, E>(engine),
        sa.zeroth_order::<P, A, E>(a, engine, x, row),
    ensures
        sa.zeroth_order::<P, A, E>(
            a,
            engine,
            rotated(x, k * (sa.n as int / sa.n_out as int)),
            rotated(row, k),
        ),
{
    sa.lemma_grids();
    let (phi, len, d1) = (sa.phi(sa.n1()), sa.n_out as int, sa.d1 as int);
    let env = choose|env: Seq<Complex<R>>|
        #[trigger] transformed::<R, P, E>(engine, Direction::Forward, envelope(a, x), env)
            && averaged::<R, P, A, E>(a, engine, phi, len, decimated(a, env, d1), row);
    lemma_ratios(len, sa.n1(), sa.n as int);
    let s1 = k * (sa.n1() / len);
    let s = k * (sa.n as int / len);
    lemma_step(sa.n as int, d1);
    assert(s == s1 * d1) by (nonlinear_arith)
        requires
            s == k * (sa.n as int / len),
            s1 == k * (sa.n1() / len),
            sa.n as int / len == (sa.n1() / len) * d1,
    ;
    assert forall|t: int| 0 <= t < x.len() implies envelope(a, rotated(x, s))[t] == rotated(
        envelope(a, x),
        s,
    )[t] by {
        let u = (t + s) % x.len() as int;
        assert(0 <= u < x.len());
    }
    assert(envelope(a, rotated(x, s)) =~= rotated(envelope(a, x), s));
    lemma_forward::<R, P, A, E>(a, engine, roots, envelope(a, x), env, s);
    lemma_decimated(a, roots, env, d1, s1);
    let small = decimated(a, env, d1);
    lemma_shorter_len(a, env, d1);
    lemma_averaged::<R, P, A, E>(a, engine, roots, phi, len, small, row, k);
}

/// A power of two over its quotient by another is that other.
proof fn lemma_step(n: int, d: int)
    requires
        power_of_two(n),
        power_of_two(d),
        d <= n,
    ensures
        n / (n / d) == d,
{
    lemma_divides(d, n);
    lemma_fundamental_div_mod_converse(n, n / d, d, 0);
}

/// How long a decimated spectrum is.
proof fn lemma_shorter_len<R, A: Arithmetic<R>>(a: &A, x: Seq<Complex<R>>, d: int)
    requires
        d >= 1,
    ensures
        decimated(a, x, d).len() == x.len() as int / d,
{
    if d == 1 {
        assert(x.len() as int / 1 == x.len());
    } else {
        vstd::arithmetic::div_mod::lemma_div_pos_is_pos(x.len() as int, d);
    }
}

proof fn lemma_envelopes<R: Copy, P, A: Arithmetic<R>, E: Engine<R, P>>(
    sa: &Geometry<R>,
    a: &A,
    engine: &E,
    roots: Roots<R>,
    i1: int,
    spectrum: Seq<Complex<R>>,
    u1: Seq<Complex<R>>,
    k: int,
)
    requires
        sa.wf(),
        0 <= i1 < sa.bank1.wavelets@.len(),
        spectrum.len() == sa.n,
        unity(a, roots),
        shifts::<R, P, A, E>(a, engine, roots),
        keeps_length::<R, P, E>(engine),
        sa.band_envelope::<P, A, E>(a, engine, i1, spectrum, u1),
    ensures
        sa.band_envelope::<P, A, E>(
            a,
            engine,
            i1,
            phased(a, roots, spectrum, k * (sa.n as int / sa.n_out as int)),
            phased(a, roots, u1, k * (sa.n1() / sa.n_out as int)),
        ),
{
    sa.lemma_grids();
    let band = sa.bands1@[i1];
    let psi = sa.bank1.wavelets@[i1].spectrum@;
    let (len, n, n1, out) = (band.len as int, sa.n as int, sa.n1(), sa.n_out as int);
    lemma_ratios(n1, len, n);
    lemma_ratios(out, n1, len);
    lemma_ratios(out, len, n);
    lemma_reach(len, n1);
    let (s, s1, big) = (k * (len / out), k * (n1 / out), k * (n / out));
    let (d, e) = (n / len, len / n1);
    assert(big == s * d) by (nonlinear_arith)
        requires
            big == k * (n / out),
            s == k * (len / out),
            n / out == (len / out) * d,
    ;
    assert(s == s1 * e) by (nonlinear_arith)
        requires
            s == k * (len / out),
            s1 == k * (n1 / out),
            len / out == (n1 / out) * e,
    ;
    let (sub, env) = choose|sub: Seq<Complex<R>>, env: Seq<Complex<R>>|
        {
            &&& #[trigger] inverted::<R, P, A, E>(
                a,
                engine,
                extracted(a, spectrum, psi, band),
                sub,
            )
            &&& #[trigger] transformed::<R, P, E>(
                engine,
                Direction::Forward,
                envelope(a, sub),
                env,
            )
            &&& u1 == decimated(a, env, e)
        };
    let sub2 = lemma_shifted_envelope::<R, P, A, E>(
        a,
        engine,
        roots,
        spectrum,
        psi,
        band,
        d,
        s,
        sub,
        env,
    );
    lemma_decimated(a, roots, env, e, s1);
}

proof fn lemma_second<R: Copy, P, A: Arithmetic<R>, E: Engine<R, P>>(
    sa: &Geometry<R>,
    a: &A,
    engine: &E,
    roots: Roots<R>,
    i1: int,
    i2: int,
    u1: Seq<Complex<R>>,
    row: Seq<R>,
    k: int,
)
    requires
        sa.wf(),
        0 <= i2 < sa.bank2.wavelets@.len(),
        u1.len() == sa.n1(),
        unity(a, roots),
        shifts::<R, P, A, E>(a, engine, roots),
        keeps_length::<R, P, E>(engine),
        sa.second_order::<P, A, E>(a, engine, i1, i2, u1, row),
    ensures
        sa.second_order::<P, A, E>(
            a,
            engine,
            i1,
            i2,
            phased(a, roots, u1, k * (sa.n1() / sa.n_out as int)),
            rotated(row, k),
        ),
{
    sa.lemma_grids();
    if sa.beyond(a, i1, i2) {
        assert forall|t: int| 0 <= t < row.len() implies rotated(row, k)[t] == row[t] by {
            let u = (t + k) % row.len() as int;
            assert(0 <= u < row.len());
        }
        assert(rotated(row, k) =~= row);
    } else {
        let band = sa.bands2@[i2];
        let psi = sa.bank2.wavelets@[i2].spectrum@;
        let (len, n1, out) = (band.len as int, sa.n1(), sa.n_out as int);
        let phi = sa.phi(len);
        lemma_ratios(out, len, n1);
        let (s, s1, d) = (k * (len / out), k * (n1 / out), n1 / len);
        assert(s1 == s * d) by (nonlinear_arith)
            requires
                s1 == k * (n1 / out),
                s == k * (len / out),
                n1 / out == (len / out) * d,
        ;
        let (sub, env) = choose|sub: Seq<Complex<R>>, env: Seq<Complex<R>>|
            {
                &&& #[trigger] inverted::<R, P, A, E>(a, engine, extracted(a, u1, psi, band), sub)
                &&& #[trigger] transformed::<R, P, E>(
                    engine,
                    Direction::Forward,
                    envelope(a, sub),
                    env,
                )
                &&& averaged::<R, P, A, E>(a, engine, phi, out, env, row)
            };
        let sub2 = lemma_shifted_envelope::<R, P, A, E>(
            a,
            engine,
            roots,
            u1,
            psi,
            band,
            d,
            s,
            sub,
            env,
        );
        lemma_averaged::<R, P, A, E>(a, engine, roots, phi, out, env, row, k);
    }
}

/// Analysis goes along with time: a block started `k` output samples on, round
/// its end, has every row of coefficients started `k` samples on, round its end.
pub proof fn law_shift_carries_over<R: Copy, P, A: Arithmetic<R>, E: Engine<R, P>>(
    sa: &Geometry<R>,
    a: &A,
    engine: &E,
    roots: Roots<R>,
    x: Seq<Complex<R>>,
    k: int,
    p: &Scattergram<R>,
    q: &Scattergram<R>,
)
    requires
        sa.wf(),
        x.len() == sa.n,
        unity(a, roots),
        shifts::<R, P, A, E>(a, engine, roots),
        functional::<R, P, E>(engine),
        keeps_length::<R, P, E>(engine),
        sa.analysed::<P, A, E>(a, engine, x, p),
        sa.analysed::<P, A, E>(a, engine, rotated(x, k * (sa.n as int / sa.n_out as int)), q),
    ensures
        carried(|row: Seq<R>| rotated(row, k), p, q),
{
    let s = k * (sa.n as int / sa.n_out as int);
    let s1 = k * (sa.n1() / sa.n_out as int);
    let h = |u1: Seq<Complex<R>>| phased(a, roots, u1, s1);
    let f = |row: Seq<R>| rotated(row, k);
    lemma_along::<R, P, A, E>(sa, a, engine, roots, x, k, h, f);
    lemma_carried::<R, P, A, E>(sa, sa, a, engine, x, rotated(x, s), h, f, p, q);
}

proof fn lemma_along<R: Copy, P, A: Arithmetic<R>, E: Engine<R, P>>(
    sa: &Geometry<R>,
    a: &A,
    engine: &E,
    roots: Roots<R>,
    x: Seq<Complex<R>>,
    k: int,
    h: spec_fn(Seq<Complex<R>>) -> Seq<Complex<R>>,
    f: spec_fn(Seq<R>) -> Seq<R>,
)
    requires
        sa.wf(),
        x.len() == sa.n,
        unity(a, roots),
        shifts::<R, P, A, E>(a, engine, roots),
        keeps_length::<R, P, E>(engine),
        h == (|u1: Seq<Complex<R>>| phased(a, roots, u1, k * (sa.n1() / sa.n_out as int))),
        f == (|row: Seq<R>| rotated(row, k)),
    ensures
        ({
            let y = rotated(x, k * (sa.n as int / sa.n_out as int));
            &&& zeroth_along::<R, P, A, E>(sa, sa, a, engine, x, y, f)
            &&& envelopes_along::<R, P, A, E>(sa, sa, a, engine, x, y, h)
            &&& averages_along::<R, P, A, E>(sa, sa, a, engine, h, f)
            &&& seconds_along::<R, P, A, E>(sa, sa, a, engine, h, f)
        }),
{
    sa.lemma_grids();
    let s = k * (sa.n as int / sa.n_out as int);
    let y = rotated(x, s);
    assert(zeroth_along::<R, P, A, E>(sa, sa, a, engine, x, y, f)) by {
        reveal(zeroth_along);
        assert forall|row: Seq<R>| #[trigger]
            sa.zeroth_order::<P, A, E>(a, engine, x, row) implies sa.zeroth_order::<P, A, E>(
            a,
            engine,
            y,
            f(row),
        ) by {
            lemma_zeroth::<R, P, A, E>(sa, a, engine, roots, x, row, k);
        }
    }
    assert(envelopes_along::<R, P, A, E>(sa, sa, a, engine, x, y, h)) by {
        reveal(envelopes_along);
        assert forall|i1: int, spectrum: Seq<Complex<R>>, u1: Seq<Complex<R>>|
            0 <= i1 < sa.bank1.wavelets@.len() && #[trigger] transformed::<R, P, E>(
                engine,
                Direction::Forward,
                x,
                spectrum,
            ) && #[trigger] sa.band_envelope::<P, A, E>(
                a,
                engine,
                i1,
                spectrum,
                u1,
            ) implies leads_to::<R, P, A, E>(sa, a, engine, y, i1, h(u1)) by {
            assert(spectrum.len() == sa.n);
            lemma_envelopes::<R, P, A, E>(sa, a, engine, roots, i1, spectrum, u1, k);
            lemma_forward::<R, P, A, E>(a, engine, roots, x, spectrum, s);
        }
    }
    assert(averages_along::<R, P, A, E>(sa, sa, a, engine, h, f)) by {
        reveal(averages_along);
        let (phi, out) = (sa.phi(sa.n1()), sa.n_out as int);
        assert forall|u1: Seq<Complex<R>>, row: Seq<R>|
            u1.len() == sa.n1() && #[trigger] averaged::<R, P, A, E>(
                a,
                engine,
                phi,
                out,
                u1,
                row,
            ) implies averaged::<R, P, A, E>(a, engine, phi, out, h(u1), f(row)) by {
            lemma_averaged::<R, P, A, E>(a, engine, roots, phi, out, u1, row, k);
        }
    }
    assert(seconds_along::<R, P, A, E>(sa, sa, a, engine, h, f)) by {
        reveal(seconds_along);
        assert forall|i1: int, i2: int, u1: Seq<Complex<R>>, row: Seq<R>|
            0 <= i1 < sa.bank1.wavelets@.len() && 0 <= i2 < sa.bank2.wavelets@.len() && u1.len()
                == sa.n1() && #[trigger] sa.second_order::<P, A, E>(
                a,
                engine,
                i1,
                i2,
                u1,
                row,
            ) implies sa.second_order::<P, A, E>(a, engine, i1, i2, h(u1), f(row)) by {
            lemma_second::<R, P, A, E>(sa, a, engine, roots, i1, i2, u1, row, k);
        }
    }
}

// Sampling.

/// Whether `engine` spreads a single bin as the Fourier transform does: evenly,
/// with the phase of a root of unity.
#[verifier::opaque]
pub open spec fn harmonic<R, P, A: Arithmetic<R>, E: Engine<R, P>>(
    a: &A,
    engine: &E,
    roots: Roots<R>,
) -> bool {
    forall|x: Seq<Complex<R>>, y: Seq<Complex<R>>, k: int, t: int|
        #[trigger] transformed::<R, P, E>(engine, Direction::Inverse, x, y) && #[trigger] lone(
            a,
            x,
            k,
        ) && 0 <= t < y.len() ==> #[trigger] y[t] == turned(
            a,
            x[k],
            roots.at(x.len() as int, k * t),
        )
}

/// Decimation samples: where a spectrum occupies a single bin that decimation
/// keeps, the signal of the decimated spectrum is every `d`th point of the signal
/// of the spectrum.
pub proof fn law_decimation_samples_every_dth_point<
    R: Copy,
    P,
    A: Arithmetic<R>,
    E: Engine<R, P>,
>(
    a: &A,
    engine: &E,
    roots: Roots<R>,
    spectrum: Seq<Complex<R>>,
    d: int,
    q: int,
    x: Seq<Complex<R>>,
    y: Seq<Complex<R>>,
    s: int,
)
    requires
        exact(a),
        unity(a, roots),
        harmonic::<R, P, A, E>(a, engine, roots),
        keeps_length::<R, P, E>(engine),
        d > 1,
        spectrum.len() as int % d == 0,
        0 <= q < spectrum.len() as int / d,
        lone(a, spectrum, decimation_source(spectrum.len() as int, d, q)),
        spectrum.len() <= usize::MAX,
        inverted::<R, P, A, E>(a, engine, spectrum, x),
        inverted::<R, P, A, E>(a, engine, decimated(a, spectrum, d), y),
        0 <= s < y.len(),
    ensures
        s * d < x.len(),
        y[s] == x[s * d],
{
    let n = spectrum.len() as int;
    let m = n / d;
    let j = decimation_source(n, d, q);
    let small = decimated(a, spectrum, d);
    let v = spectrum[j];
    lemma_fundamental_div_mod(n, d);
    assert(n == m * d) by (nonlinear_arith)
        requires
            n == d * m,
    ;
    assert(m <= n) by (nonlinear_arith)
        requires
            n == m * d,
            m > 0,
            d > 1,
    ;
    assert(d <= n) by (nonlinear_arith)
        requires
            n == m * d,
            m > 0,
            d > 1,
    ;
    lemma_parts(a, m as u64, d as u64);
    lemma_zero(a);
    assert forall|i: int| 0 <= i < m && i != q implies #[trigger] small[i] == zero(a) by {
        let from = decimation_source(n, d, i);
        assert(from != j && 0 <= from < n);
        assert(spectrum[from] == zero(a));
    }
    assert(lone(a, small, q));
    assert(0 <= s * d < n) by (nonlinear_arith)
        requires
            0 <= s < m,
            n == m * d,
            d > 1,
    ;
    let zx = choose|z: Seq<Complex<R>>|
        #[trigger] transformed::<R, P, E>(engine, Direction::Inverse, spectrum, z) && x
            == scaled_all(a, z, fraction(a, 1, n as u64));
    let zy = choose|z: Seq<Complex<R>>|
        #[trigger] transformed::<R, P, E>(engine, Direction::Inverse, small, z) && y
            == scaled_all(a, z, fraction(a, 1, m as u64));
    assert(zx[s * d] == turned(a, v, roots.at(n, j * (s * d))) && zy[s] == turned(
        a,
        small[q],
        roots.at(m, q * s),
    )) by {
        reveal(harmonic);
    }
    assert(j * (s * d) == (j * s) * d) by (nonlinear_arith);
    lemma_shorter(a, roots, m, d, j * s);
    if j != q {
        assert(j * s == q * s + ((d - 1) * s) * m) by (nonlinear_arith)
            requires
                j == q + (n - m),
                n == m * d,
        ;
        lemma_period(a, roots, m, j * s, q * s, (d - 1) * s);
    }
    lemma_scaled_turn(a, roots, small[q], m, q * s, fraction(a, 1, m as u64));
    lemma_scaled_turn(a, roots, v, m, q * s, fraction(a, 1, n as u64));
}

/// Whether nothing of a spectrum lies in a bin that decimation by `d` drops.
pub open spec fn confined<R, A: Arithmetic<R>>(a: &A, x: Seq<Complex<R>>, d: int) -> bool {
    forall|j: int|
        0 <= j < x.len() && (forall|q: int|
            0 <= q < x.len() as int / d ==> #[trigger] decimation_source(
                x.len() as int,
                d,
                q,
            ) != j) ==> #[trigger] x[j] == zero(a)
}

/// Whether `engine` samples as the Fourier transform does: where decimation drops
/// nothing, the shorter transform is every `d`th point of the longer, and scaled
/// as the spectrum was.
#[verifier::opaque]
pub open spec fn samples<R, P, A: Arithmetic<R>, E: Engine<R, P>>(a: &A, engine: &E) -> bool {
    forall|x: Seq<Complex<R>>, y: Seq<Complex<R>>, z: Seq<Complex<R>>, d: int, s: int|
        d >= 1 && x.len() as int % d == 0 && confined(a, x, d) && #[trigger] transformed::<
            R,
            P,
            E,
        >(engine, Direction::Inverse, x, y) && #[trigger] transformed::<R, P, E>(
            engine,
            Direction::Inverse,
            decimated(a, x, d),
            z,
        ) && 0 <= s < z.len() ==> #[trigger] z[s] == scaled(
            a,
            y[s * d],
            fraction(a, 1, d as u64),
        )
}

/// A band is a whole spectrum, shifted and decimated: where the filter vanishes
/// outside its band, extracting the band alone is extracting everything and
/// dropping bins that hold nothing.
proof fn lemma_band_is_decimated<R: Copy, A: Arithmetic<R>>(
    a: &A,
    spectrum: Seq<Complex<R>>,
    psi: Seq<R>,
    band: Band,
    d: int,
)
    requires
        exact(a),
        spectrum.len() == psi.len(),
        spectrum.len() <= usize::MAX,
        d >= 1,
        band.len > 0,
        spectrum.len() == band.len * d,
        forall|j: int|
            0 <= j < psi.len() && !takes_in(psi.len() as int, band, j) ==> #[trigger] psi[j]
                == num(a, 0),
    ensures
        ({
            let whole = Band { len: spectrum.len() as usize, ..band };
            let full = extracted(a, spectrum, psi, whole);
            &&& confined(a, full, d)
            &&& extracted(a, spectrum, psi, band) == decimated(a, full, d)
        }),
{
    let n = spectrum.len() as int;
    let (len, centre) = (band.len as int, band.centre_bin as int);
    let whole = Band { len: n as usize, ..band };
    let full = extracted(a, spectrum, psi, whole);
    let part = extracted(a, spectrum, psi, band);
    lemma_zero(a);
    assert(len * d == n);
    lemma_fundamental_div_mod_converse(n, d, len, 0);
    assert(d <= n) by (nonlinear_arith)
        requires
            n == len * d,
            len > 0,
            d >= 1,
    ;
    lemma_parts(a, len as u64, d as u64);
    assert(len <= n && (d > 1 ==> 2 * len <= n) && (d == 1 ==> len == n)) by (nonlinear_arith)
        requires
            n == len * d,
            len > 0,
            d >= 1,
    ;
    assert forall|q: int| 0 <= q < len implies band_source(n, centre, len, q) == band_source(
        n,
        centre,
        n,
        #[trigger] decimation_source(n, d, q),
    ) by {}
    assert forall|j: int|
        0 <= j < full.len() && (forall|q: int|
            0 <= q < n / d ==> #[trigger] decimation_source(n, d, q) != j) implies
        #[trigger] full[j] == zero(a) by {
        let source = band_source(n, centre, n, j);
        if takes_in(n, band, source) {
            let q = choose|q: int|
                0 <= q < band.len && #[trigger] band_source(n, centre, len, q) == source;
            let k = decimation_source(n, d, q);
            assert(0 <= k < n);
            assert(k != j);
            law_extraction_shifts_bins(n, centre, n, k, j);
        } else {
            assert(psi[source] == num(a, 0));
            assert(scaled(a, spectrum[source], psi[source]) == zero(a));
        }
    }
    assert forall|q: int| 0 <= q < len implies part[q] == decimated(a, full, d)[q] by {
        let k = decimation_source(n, d, q);
        assert(0 <= k < n);
        let j = band_source(n, centre, len, q);
        let z = scaled(a, spectrum[j], psi[j]);
        assert(full[k] == scaled(a, z, fraction(a, n as u64, n as u64)));
        assert(part[q] == scaled(a, z, fraction(a, 1, d as u64)));
        if d == 1 {
            assert(fraction(a, 1, 1) == fraction(a, n as u64, n as u64));
        }
    }
    assert(part =~= decimated(a, full, d));
}

/// The signal of a band, where the filter vanishes outside it, is every `d`th point
/// of the signal that filtering at the full rate gives.
pub proof fn lemma_confined_band<R: Copy, P, A: Arithmetic<R>, E: Engine<R, P>>(
    a: &A,
    engine: &E,
    spectrum: Seq<Complex<R>>,
    psi: Seq<R>,
    band: Band,
    d: int,
    sub: Seq<Complex<R>>,
    full: Seq<Complex<R>>,
    t: int,
)
    requires
        exact(a),
        samples::<R, P, A, E>(a, engine),
        keeps_length::<R, P, E>(engine),
        spectrum.len() == psi.len(),
        spectrum.len() <= usize::MAX,
        d >= 1,
        band.len > 0,
        spectrum.len() == band.len * d,
        forall|j: int|
            0 <= j < psi.len() && !takes_in(psi.len() as int, band, j) ==> #[trigger] psi[j]
                == num(a, 0),
        inverted::<R, P, A, E>(a, engine, extracted(a, spectrum, psi, band), sub),
        inverted::<R, P, A, E>(
            a,
            engine,
            extracted(a, spectrum, psi, Band { len: spectrum.len() as usize, ..band }),
            full,
        ),
        0 <= t < sub.len(),
    ensures
        t * d < full.len(),
        sub[t] == full[t * d],
{
    let n = spectrum.len() as int;
    let len = band.len as int;
    let whole = Band { len: n as usize, ..band };
    let x = extracted(a, spectrum, psi, whole);
    assert(d <= n) by (nonlinear_arith)
        requires
            n == len * d,
            len > 0,
            d >= 1,
    ;
    lemma_parts(a, len as u64, d as u64);
    lemma_band_is_decimated(a, spectrum, psi, band, d);
    assert(len * d == n);
    lemma_fundamental_div_mod_converse(n, d, len, 0);
    let y = choose|z: Seq<Complex<R>>|
        #[trigger] transformed::<R, P, E>(engine, Direction::Inverse, x, z) && full
            == scaled_all(a, z, fraction(a, 1, n as u64));
    let z = choose|z: Seq<Complex<R>>|
        #[trigger] transformed::<R, P, E>(engine, Direction::Inverse, decimated(a, x, d), z)
            && sub == scaled_all(a, z, fraction(a, 1, len as u64));
    assert(z[t] == scaled(a, y[t * d], fraction(a, 1, d as u64))) by {
        reveal(samples);
    }
    assert(0 <= t * d < n) by (nonlinear_arith)
        requires
            0 <= t < len,
            n == len * d,
            d >= 1,
    ;
}

} // verus!
