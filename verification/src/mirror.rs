//! What conjugating a block does to an analysis of complex input: it exchanges the two
//! sides of the spectrum.

use vstd::arithmetic::div_mod::lemma_fundamental_div_mod_converse;
use vstd::prelude::*;

use crate::arithmetic::{fraction, negative, num, Arithmetic};
use crate::complex::{envelope, modulus, scaled, scaled_all, zero, Complex};
use crate::exact::lemma_behind;
use crate::fft::{decimated, inverted, keeps_length, transformed, Direction, Engine};
use crate::pairs::law_second_order_follows_the_envelope;
use crate::powers::{lemma_divides, lemma_double, lemma_one, power_of_two};
use crate::reals::{faithful, Meaning};
use crate::runs::{
    functional, lemma_averaged_once, lemma_envelope_once, lemma_second_once, lemma_transformed_once,
    lemma_zeroth_once,
};
use crate::transform::{band_source, extracted, Band, Config, Geometry, Scattergram, Scattering};

verus! {

/// The complex conjugate.
pub open spec fn conjugate<R, A: Arithmetic<R>>(a: &A, z: Complex<R>) -> Complex<R> {
    Complex { re: z.re, im: negative(a, z.im) }
}

/// A block, conjugated.
pub open spec fn conjugated<R, A: Arithmetic<R>>(a: &A, x: Seq<Complex<R>>) -> Seq<Complex<R>> {
    x.map_values(|z: Complex<R>| conjugate(a, z))
}

/// The bin of an `n`-point grid as far on the other side of zero.
pub open spec fn opposite(n: int, k: int) -> int {
    (-k) % n
}

/// A spectrum, conjugated and the wrong way round.
pub open spec fn flipped<R, A: Arithmetic<R>>(a: &A, x: Seq<Complex<R>>) -> Seq<Complex<R>> {
    Seq::new(x.len(), |k: int| conjugate(a, x[opposite(x.len() as int, k)]))
}

/// Whether conjugates are as far from the origin, and go through scaling, also by nothing
/// at all.
#[verifier::opaque]
pub open spec fn conjugable<R, A: Arithmetic<R>>(a: &A) -> bool {
    &&& forall|z: Complex<R>| modulus(a, #[trigger] conjugate(a, z)) == modulus(a, z)
    &&& forall|z: Complex<R>, s: R| #[trigger]
        scaled(a, conjugate(a, z), s) == conjugate(a, scaled(a, z, s))
    &&& forall|z: Complex<R>| #[trigger] scaled(a, z, num(a, 0)) == zero(a)
    &&& forall|s: R| #[trigger] scaled(a, zero(a), s) == zero(a)
    &&& conjugate(a, zero(a)) == zero(a)
}

/// Whether `engine` turns conjugation into flipping and back, as the Fourier transform
/// does.
#[verifier::opaque]
pub open spec fn flips<R, P, A: Arithmetic<R>, E: Engine<R, P>>(a: &A, engine: &E) -> bool {
    &&& forall|x: Seq<Complex<R>>, y: Seq<Complex<R>>|
        #[trigger] transformed::<R, P, E>(engine, Direction::Forward, x, y) ==> transformed::<
            R,
            P,
            E,
        >(engine, Direction::Forward, conjugated(a, x), flipped(a, y))
    &&& forall|x: Seq<Complex<R>>, y: Seq<Complex<R>>|
        #[trigger] transformed::<R, P, E>(engine, Direction::Inverse, x, y) ==> transformed::<
            R,
            P,
            E,
        >(engine, Direction::Inverse, flipped(a, x), conjugated(a, y))
}

/// Whether two bands of an `n`-point grid mirror each other: what one passes of each bin,
/// the other passes of the opposite one, about opposite centres and as wide; and either
/// takes in the whole grid, or passes nothing at its edges.
pub open spec fn mirrors<R, A: Arithmetic<R>>(
    a: &A,
    n: int,
    psi: Seq<R>,
    band: Band,
    other: Seq<R>,
    opposite_band: Band,
) -> bool {
    &&& psi.len() == n
    &&& other.len() == n
    &&& forall|k: int| 0 <= k < n ==> #[trigger] other[k] == psi[opposite(n, k)]
    &&& opposite_band.len == band.len
    &&& (band.centre_bin + opposite_band.centre_bin) % n == 0
    &&& band.len == n || {
        &&& psi[(band.centre_bin + band.len as int / 2) % n] == num(a, 0)
        &&& psi[(band.centre_bin - band.len as int / 2) % n] == num(a, 0)
    }
}

/// Numbers that differ by a multiple of `n` leave the same over.
proof fn lemma_same_rest(x: int, y: int, q: int, n: int)
    requires
        n > 0,
        x == y + q * n,
    ensures
        x % n == y % n,
{
    let r = y % n;
    let d = y / n;
    vstd::arithmetic::div_mod::lemma_fundamental_div_mod(y, n);
    vstd::arithmetic::div_mod::lemma_mod_bound(y, n);
    assert(x == (d + q) * n + r) by (nonlinear_arith)
        requires
            x == y + q * n,
            y == n * d + r,
    ;
    lemma_fundamental_div_mod_converse(x, n, d + q, r);
}

/// How many times `n` goes into a number, rounded down.
proof fn lemma_rest(x: int, n: int) -> (q: int)
    requires
        n > 0,
    ensures
        x == q * n + x % n,
        0 <= x % n < n,
{
    vstd::arithmetic::div_mod::lemma_fundamental_div_mod(x, n);
    vstd::arithmetic::div_mod::lemma_mod_bound(x, n);
    let q = x / n;
    assert(n * q == q * n) by (nonlinear_arith);
    q
}

/// The source of a bin in a mirrored band is opposite that of the opposite bin.
proof fn lemma_source(n: int, c: int, d: int, len: int, k: int)
    requires
        n > 0,
        (c + d) % n == 0,
        0 <= k < len,
        len > 0,
        len % 2 == 0 || len == 1,
        2 * k != len,
    ensures
        0 <= opposite(len, k) < len,
        opposite(n, band_source(n, d, len, k)) == band_source(n, c, len, opposite(len, k)),
        0 <= band_source(n, d, len, k) < n,
        0 <= band_source(n, c, len, opposite(len, k)) < n,
{
    let l = opposite(len, k);
    lemma_fundamental_div_mod_converse(
        -k,
        len,
        if k == 0 {
            0
        } else {
            -1
        },
        if k == 0 {
            0
        } else {
            len - k
        },
    );
    let off = if k < len - len / 2 {
        k
    } else {
        k - len
    };
    let back = if l < len - len / 2 {
        l
    } else {
        l - len
    };
    assert(back == -off);
    let q = lemma_rest(d + off, n);
    let p = lemma_rest(c + d, n);
    let r = lemma_rest(c + back, n);
    let s = (d + off) % n;
    // -s = c + back - (p - q) n.
    assert(-s == (c + back) + (q - p) * n) by (nonlinear_arith)
        requires
            d + off == q * n + s,
            c + d == p * n,
            back == -off,
    ;
    lemma_same_rest(-s, c + back, q - p, n);
}

/// The edge of a mirrored band, where it takes in the whole grid.
proof fn lemma_whole(n: int, c: int, d: int, k: int)
    requires
        n > 0,
        (c + d) % n == 0,
        2 * k == n,
    ensures
        opposite(n, k) == k,
        opposite(n, band_source(n, d, n, k)) == band_source(n, c, n, k),
        0 <= band_source(n, d, n, k) < n,
        0 <= band_source(n, c, n, k) < n,
{
    lemma_fundamental_div_mod_converse(-k, n, -1, k);
    let off = k - n;
    let q = lemma_rest(d + off, n);
    let p = lemma_rest(c + d, n);
    let r = lemma_rest(c + off, n);
    let s = (d + off) % n;
    // -s = c - off + (q - p) n, and -off = off + n.
    assert(-s == (c + off) + (q - p + 1) * n) by (nonlinear_arith)
        requires
            d + off == q * n + s,
            c + d == p * n,
            -off == off + n,
    ;
    lemma_same_rest(-s, c + off, q - p + 1, n);
}

/// What a mirrored band takes out of a flipped spectrum is the flip of what the band
/// takes out of the spectrum.
proof fn lemma_extract<R: Copy, A: Arithmetic<R>>(
    a: &A,
    x: Seq<Complex<R>>,
    psi: Seq<R>,
    band: Band,
    other: Seq<R>,
    far: Band,
)
    requires
        conjugable(a),
        power_of_two(band.len as int),
        x.len() > 0,
        mirrors(a, x.len() as int, psi, band, other, far),
    ensures
        extracted(a, flipped(a, x), other, far) == flipped(a, extracted(a, x, psi, band)),
{
    let (n, len) = (x.len() as int, band.len as int);
    let (c, d) = (band.centre_bin as int, far.centre_bin as int);
    let (left, right) = (
        extracted(a, flipped(a, x), other, far),
        flipped(a, extracted(a, x, psi, band)),
    );
    let scale = fraction(a, band.len as u64, n as u64);
    lemma_double(len);
    if len > 1 {
        lemma_one();
        lemma_double(1);
        lemma_divides(2, len);
    }
    let e = extracted(a, x, psi, band);
    assert forall|k: int| 0 <= k < len implies left[k] == right[k] by {
        let j = band_source(n, d, len, k);
        if 2 * k != len {
            lemma_source(n, c, d, len, k);
            let l = opposite(len, k);
            let i = band_source(n, c, len, l);
            assert(opposite(n, j) == i);
            assert(flipped(a, x)[j] == conjugate(a, x[i]));
            assert(other[j] == psi[i]);
            assert(e[l] == scaled(a, scaled(a, x[i], psi[i]), scale));
            reveal(conjugable);
        } else if len == n {
            lemma_whole(n, c, d, k);
            let i = band_source(n, c, len, k);
            assert(opposite(n, j) == i);
            assert(flipped(a, x)[j] == conjugate(a, x[i]));
            assert(other[j] == psi[i]);
            assert(e[k] == scaled(a, scaled(a, x[i], psi[i]), scale));
            reveal(conjugable);
        } else {
            // Neither passes anything at its edge.
            let off = k - len;
            let q = lemma_rest(d + off, n);
            let p = lemma_rest(c + d, n);
            let r = lemma_rest(c + k, n);
            assert(-j == (c + k) + (q - p) * n) by (nonlinear_arith)
                requires
                    d + off == q * n + j,
                    c + d == p * n,
                    -off == k,
            ;
            lemma_same_rest(-j, c + k, q - p, n);
            assert(opposite(n, j) == (c + k) % n);
            assert(other[j] == num(a, 0));
            lemma_fundamental_div_mod_converse(-k, len, -1, k);
            assert(opposite(len, k) == k);
            let i = band_source(n, c, len, k);
            let t = lemma_rest(c + off, n);
            assert(psi[i] == num(a, 0));
            assert(e[k] == scaled(a, scaled(a, x[i], psi[i]), scale));
            assert(left[k] == scaled(a, scaled(a, flipped(a, x)[j], other[j]), scale));
            reveal(conjugable);
        }
    }
    assert(left =~= right);
}

/// An envelope of a mirrored band of a flipped spectrum is one of the band of the
/// spectrum.
proof fn lemma_envelope<R: Copy, P, A: Arithmetic<R>, E: Engine<R, P>>(
    sa: &Geometry<R>,
    a: &A,
    engine: &E,
    i1: int,
    j1: int,
    spectrum: Seq<Complex<R>>,
    u1: Seq<Complex<R>>,
)
    requires
        sa.wf(),
        conjugable(a),
        flips::<R, P, A, E>(a, engine),
        spectrum.len() == sa.n,
        0 <= i1 < sa.bank1.wavelets@.len(),
        0 <= j1 < sa.bank1.wavelets@.len(),
        mirrors(
            a,
            sa.n as int,
            sa.bank1.wavelets@[i1].spectrum@,
            sa.bands1@[i1],
            sa.bank1.wavelets@[j1].spectrum@,
            sa.bands1@[j1],
        ),
        sa.band_envelope::<P, A, E>(a, engine, i1, spectrum, u1),
    ensures
        sa.band_envelope::<P, A, E>(a, engine, j1, flipped(a, spectrum), u1),
{
    sa.lemma_grids();
    let (band, far) = (sa.bands1@[i1], sa.bands1@[j1]);
    let (psi, other) = (
        sa.bank1.wavelets@[i1].spectrum@,
        sa.bank1.wavelets@[j1].spectrum@,
    );
    let e = band.len as int / sa.n1();
    let (sub, env) = choose|sub: Seq<Complex<R>>, env: Seq<Complex<R>>|
        {
            &&& #[trigger] inverted::<R, P, A, E>(
                a,
                engine,
                extracted(a, spectrum, psi, band),
                sub,
            )
            &&& #[trigger] transformed::<R, P, E>(
                engine,
                Direction::Forward,
                envelope(a, sub),
                env,
            )
            &&& u1 == decimated(a, env, e)
        };
    let passed = extracted(a, spectrum, psi, band);
    lemma_extract(a, spectrum, psi, band, other, far);
    let z = choose|z: Seq<Complex<R>>|
        {
            &&& #[trigger] transformed::<R, P, E>(engine, Direction::Inverse, passed, z)
            &&& sub == scaled_all(a, z, fraction(a, 1, passed.len() as u64))
        };
    assert(transformed::<R, P, E>(
        engine,
        Direction::Inverse,
        flipped(a, passed),
        conjugated(a, z),
    )) by {
        reveal(flips);
    }
    let s = fraction(a, 1, passed.len() as u64);
    let sub2 = scaled_all(a, conjugated(a, z), s);
    assert(inverted::<R, P, A, E>(a, engine, flipped(a, passed), sub2));
    assert(envelope(a, sub2) =~= envelope(a, sub)) by {
        assert forall|t: int| 0 <= t < z.len() implies modulus(a, #[trigger] sub2[t]) == modulus(
            a,
            sub[t],
        ) by {
            reveal(conjugable);
            assert(sub2[t] == conjugate(a, sub[t]));
        }
        assert forall|t: int| 0 <= t < z.len() implies envelope(a, sub2)[t] == envelope(
            a,
            sub,
        )[t] by {
            assert(modulus(a, sub2[t]) == modulus(a, sub[t]));
        }
    }
}

/// Conjugating a block exchanges the two sides of the spectrum: where two bands mirror
/// each other, each reads of the conjugate what the other reads of the block, in the
/// first order and in the second; and the zeroth order stays as it is.
pub proof fn law_conjugation_mirrors_the_carriers<R: Copy, P, A: Arithmetic<R>, E: Engine<R, P>>(
    a: &A,
    m: Meaning<R>,
    engine: &E,
    config: Config<R>,
    n: usize,
    sa: &Scattering<R>,
    x: Seq<Complex<R>>,
    p: &Scattergram<R>,
    q: &Scattergram<R>,
    i1: int,
    j1: int,
)
    requires
        faithful(a, m),
        conjugable(a),
        flips::<R, P, A, E>(a, engine),
        functional::<R, P, E>(engine),
        keeps_length::<R, P, E>(engine),
        call_ensures(Scattering::<R>::new::<A>, (a, config, n), *sa),
        x.len() == n,
        sa@.analysed::<P, A, E>(a, engine, x, p),
        sa@.analysed::<P, A, E>(a, engine, conjugated(a, x), q),
        0 <= i1 < p.s1@.len(),
        0 <= j1 < p.s1@.len(),
        sa@.bank1.wavelets@[i1].sigma == sa@.bank1.wavelets@[j1].sigma,
        mirrors(
            a,
            n as int,
            sa@.bank1.wavelets@[i1].spectrum@,
            sa@.bands1@[i1],
            sa@.bank1.wavelets@[j1].spectrum@,
            sa@.bands1@[j1],
        ),
    ensures
        q.s0@ == p.s0@,
        q.s1@[j1]@ == p.s1@[i1]@,
        q.second(j1).len() == p.second(i1).len(),
        forall|i2: int|
            0 <= i2 < p.second(i1).len() ==> (#[trigger] q.second(j1)[i2])@ == p.second(i1)[i2]@,
{
    let g = &sa@;
    g.lemma_grids();
    let y = conjugated(a, x);
    assert(envelope(a, y) =~= envelope(a, x)) by {
        assert forall|t: int| 0 <= t < x.len() implies envelope(a, y)[t] == envelope(a, x)[t] by {
            assert(y[t] == conjugate(a, x[t]));
            reveal(conjugable);
        }
    }
    assert(g.zeroth_order::<P, A, E>(a, engine, x, q.s0@));
    lemma_zeroth_once::<R, P, A, E>(g, a, engine, x, p.s0@, q.s0@);
    let (spectrum, u1) = lemma_behind::<R, P, A, E>(g, a, engine, x, p, i1);
    let (spectrum2, v1) = lemma_behind::<R, P, A, E>(g, a, engine, y, q, j1);
    let turned = flipped(a, spectrum);
    assert(transformed::<R, P, E>(engine, Direction::Forward, y, turned)) by {
        reveal(flips);
    }
    lemma_transformed_once::<R, P, E>(engine, Direction::Forward, y, turned, spectrum2);
    assert(spectrum.len() == n);
    lemma_envelope::<R, P, A, E>(g, a, engine, i1, j1, spectrum, u1);
    lemma_envelope_once::<R, P, A, E>(g, a, engine, j1, turned, u1, v1);
    lemma_averaged_once::<R, P, A, E>(
        a,
        engine,
        g.phi(g.n1()),
        g.n_out as int,
        u1,
        p.s1@[i1]@,
        q.s1@[j1]@,
    );
    lemma_as_many::<R, P, A, E>(g, a, engine, x, p, i1);
    lemma_as_many::<R, P, A, E>(g, a, engine, y, q, j1);
    assert forall|i2: int| 0 <= i2 < p.second(i1).len() implies (#[trigger] q.second(j1)[i2])@
        == p.second(i1)[i2]@ by {
        let (r, s) = (p.second(i1)[i2]@, q.second(j1)[i2]@);
        assert(g.second_order::<P, A, E>(a, engine, i1, i2, u1, r));
        assert(g.second_order::<P, A, E>(a, engine, j1, i2, v1, s));
        law_second_order_follows_the_envelope::<R, P, A, E>(
            a,
            m,
            engine,
            config,
            n,
            sa,
            i1,
            j1,
            i2,
            u1,
            r,
        );
        lemma_second_once::<R, P, A, E>(g, a, engine, j1, i2, u1, r, s);
    }
}

/// Every band has as many rows of the second order.
proof fn lemma_as_many<R: Copy, P, A: Arithmetic<R>, E: Engine<R, P>>(
    sa: &Geometry<R>,
    a: &A,
    engine: &E,
    x: Seq<Complex<R>>,
    out: &Scattergram<R>,
    i1: int,
)
    requires
        sa.analysed::<P, A, E>(a, engine, x, out),
        0 <= i1 < out.s1@.len(),
    ensures
        out.second(i1).len() == (if sa.config.order2 {
            sa.bank2.wavelets@.len()
        } else {
            0
        }),
{
    let spectrum = choose|spectrum: Seq<Complex<R>>|
        {
            &&& #[trigger] transformed::<R, P, E>(engine, Direction::Forward, x, spectrum)
            &&& forall|i: int|
                0 <= i < out.s1@.len() ==> sa.band_result::<P, A, E>(
                    a,
                    engine,
                    i,
                    spectrum,
                    (#[trigger] out.s1@[i])@,
                    out.second(i),
                )
        };
    assert(sa.band_result::<P, A, E>(a, engine, i1, spectrum, out.s1@[i1]@, out.second(i1)));
}

} // verus!
