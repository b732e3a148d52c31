//! What averaging does to a sum: it averages the parts.

use vstd::prelude::*;

use crate::arithmetic::{fraction, product, sum, Arithmetic};
use crate::complex::{joined, real_parts, scaled, scaled_all, Complex};
use crate::fft::{
    decimated, decimation_source, inverted, keeps_length, transformed, Direction, Engine,
};
use crate::powers::power_of_two;
use crate::transform::{averaged, filtered, lemma_reach};

verus! {

/// The sum of two signals, sample by sample.
pub open spec fn joined_all<R, A: Arithmetic<R>>(
    a: &A,
    x: Seq<Complex<R>>,
    y: Seq<Complex<R>>,
) -> Seq<Complex<R>> {
    Seq::new(x.len(), |k: int| joined(a, x[k], y[k]))
}

/// The sum of two rows, sample by sample.
pub open spec fn added<R, A: Arithmetic<R>>(a: &A, x: Seq<R>, y: Seq<R>) -> Seq<R> {
    Seq::new(x.len(), |t: int| sum(a, x[t], y[t]))
}

/// Whether products distribute over sums.
#[verifier::opaque]
pub open spec fn distributive<R, A: Arithmetic<R>>(a: &A) -> bool {
    forall|x: R, y: R, s: R| #[trigger]
        product(a, sum(a, x, y), s) == sum(a, product(a, x, s), product(a, y, s))
}

/// Whether the transform of a sum is the sum of the transforms.
#[verifier::opaque]
pub open spec fn additive<R, P, A: Arithmetic<R>, E: Engine<R, P>>(a: &A, engine: &E) -> bool {
    forall|
        direction: Direction,
        x: Seq<Complex<R>>,
        y: Seq<Complex<R>>,
        u: Seq<Complex<R>>,
        v: Seq<Complex<R>>,
    |
        x.len() == y.len() && #[trigger] transformed::<R, P, E>(engine, direction, x, u)
            && #[trigger] transformed::<R, P, E>(engine, direction, y, v) ==> transformed::<
            R,
            P,
            E,
        >(engine, direction, joined_all(a, x, y), joined_all(a, u, v))
}

proof fn lemma_scaled<R, A: Arithmetic<R>>(a: &A, x: Complex<R>, y: Complex<R>, s: R)
    requires
        distributive(a),
    ensures
        scaled(a, joined(a, x, y), s) == joined(a, scaled(a, x, s), scaled(a, y, s)),
{
    reveal(distributive);
}

proof fn lemma_filtered<R, A: Arithmetic<R>>(
    a: &A,
    x: Seq<Complex<R>>,
    y: Seq<Complex<R>>,
    phi: Seq<R>,
)
    requires
        distributive(a),
        x.len() == y.len(),
    ensures
        filtered(a, joined_all(a, x, y), phi) == joined_all(
            a,
            filtered(a, x, phi),
            filtered(a, y, phi),
        ),
{
    let both = joined_all(a, filtered(a, x, phi), filtered(a, y, phi));
    assert forall|k: int| 0 <= k < x.len() implies filtered(a, joined_all(a, x, y), phi)[k]
        == both[k] by {
        lemma_scaled(a, x[k], y[k], phi[k]);
    }
    assert(filtered(a, joined_all(a, x, y), phi) =~= both);
}

proof fn lemma_decimated<R, A: Arithmetic<R>>(
    a: &A,
    x: Seq<Complex<R>>,
    y: Seq<Complex<R>>,
    d: int,
)
    requires
        distributive(a),
        x.len() == y.len(),
        d >= 1,
        x.len() as int % d == 0,
    ensures
        decimated(a, joined_all(a, x, y), d) == joined_all(
            a,
            decimated(a, x, d),
            decimated(a, y, d),
        ),
        decimated(a, x, d).len() == decimated(a, y, d).len(),
{
    if d > 1 {
        let both = joined_all(a, decimated(a, x, d), decimated(a, y, d));
        let n = x.len() as int;
        assert forall|k: int| 0 <= k < both.len() implies decimated(
            a,
            joined_all(a, x, y),
            d,
        )[k] == both[k] by {
            let j = decimation_source(n, d, k);
            vstd::arithmetic::div_mod::lemma_fundamental_div_mod(n, d);
            assert(n / d <= n) by (nonlinear_arith)
                requires
                    n == d * (n / d),
                    d >= 1,
                    n >= 0,
            ;
            assert(0 <= j < n);
            lemma_scaled(a, x[j], y[j], fraction(a, 1, d as u64));
        }
        assert(decimated(a, joined_all(a, x, y), d) =~= both);
    }
}

/// The inverse of a sum, normalised.
proof fn lemma_inverted<R, P, A: Arithmetic<R>, E: Engine<R, P>>(
    a: &A,
    engine: &E,
    u: Seq<Complex<R>>,
    v: Seq<Complex<R>>,
    z: Seq<Complex<R>>,
    w: Seq<Complex<R>>,
)
    requires
        distributive(a),
        additive::<R, P, A, E>(a, engine),
        keeps_length::<R, P, E>(engine),
        u.len() == v.len(),
        inverted::<R, P, A, E>(a, engine, u, z),
        inverted::<R, P, A, E>(a, engine, v, w),
    ensures
        inverted::<R, P, A, E>(a, engine, joined_all(a, u, v), joined_all(a, z, w)),
        z.len() == w.len(),
{
    let s = fraction(a, 1, u.len() as u64);
    let p = choose|r: Seq<Complex<R>>|
        #[trigger] transformed::<R, P, E>(engine, Direction::Inverse, u, r) && z == scaled_all(
            a,
            r,
            s,
        );
    let q = choose|r: Seq<Complex<R>>|
        #[trigger] transformed::<R, P, E>(engine, Direction::Inverse, v, r) && w == scaled_all(
            a,
            r,
            s,
        );
    assert(p.len() == u.len() && q.len() == v.len());
    let both = joined_all(a, p, q);
    assert(transformed::<R, P, E>(engine, Direction::Inverse, joined_all(a, u, v), both)) by {
        reveal(additive);
    }
    assert forall|t: int| 0 <= t < both.len() implies scaled_all(a, both, s)[t] == joined_all(
        a,
        z,
        w,
    )[t] by {
        lemma_scaled(a, p[t], q[t], s);
    }
    assert(scaled_all(a, both, s) =~= joined_all(a, z, w));
}

/// Averaging is linear: the average of the sum of two signals is the sum of their
/// averages, whatever their signs.
pub proof fn law_averages_add_up<R, P, A: Arithmetic<R>, E: Engine<R, P>>(
    a: &A,
    engine: &E,
    phi: Seq<R>,
    out_len: int,
    x: Seq<Complex<R>>,
    y: Seq<Complex<R>>,
    p: Seq<R>,
    q: Seq<R>,
)
    requires
        distributive(a),
        additive::<R, P, A, E>(a, engine),
        keeps_length::<R, P, E>(engine),
        x.len() == y.len(),
        power_of_two(x.len() as int),
        power_of_two(out_len),
        out_len <= x.len(),
        averaged::<R, P, A, E>(a, engine, phi, out_len, x, p),
        averaged::<R, P, A, E>(a, engine, phi, out_len, y, q),
    ensures
        averaged::<R, P, A, E>(a, engine, phi, out_len, joined_all(a, x, y), added(a, p, q)),
{
    lemma_reach(x.len() as int, out_len);
    let d = x.len() as int / out_len;
    let (fx, fy) = (filtered(a, x, phi), filtered(a, y, phi));
    let (u, v) = (decimated(a, fx, d), decimated(a, fy, d));
    lemma_filtered(a, x, y, phi);
    lemma_decimated(a, fx, fy, d);
    let z = choose|z: Seq<Complex<R>>|
        #[trigger] inverted::<R, P, A, E>(a, engine, u, z) && p == real_parts(z);
    let w = choose|w: Seq<Complex<R>>|
        #[trigger] inverted::<R, P, A, E>(a, engine, v, w) && q == real_parts(w);
    lemma_inverted::<R, P, A, E>(a, engine, u, v, z, w);
    assert(real_parts(joined_all(a, z, w)) =~= added(a, p, q));
}

} // verus!
