//! Cached transforms, normalised inverse transforms and frequency-domain
//! decimation.

use std::collections::HashMap;

use vstd::prelude::*;

use crate::arithmetic::{at_most, fraction, is_at_most, num, ratio, Arithmetic};
use crate::complex::{scaled, scaled_all, Complex};
use crate::powers::{lemma_divides, lemma_double, lemma_one, power_of_two};

verus! {

broadcast use vstd::std_specs::hash::group_hash_axioms;

/// Which way a transform goes.
#[derive(Clone, Copy, Debug, PartialEq, Eq, Structural)]
pub enum Direction {
    /// The usual `sum_t x[t] e^{-i2pi w t}`.
    Forward,
    /// The same with the opposite sign in the exponent, not normalised.
    Inverse,
}

/// What computes the transforms: it plans one for each length and direction,
/// and runs a plan on a buffer.
pub trait Engine<R, P> {
    fn plan(&self, direction: Direction, n: usize) -> P;

    fn process(&self, plan: &P, buf: Vec<Complex<R>>) -> Vec<Complex<R>>;
}

/// Whether `plan` is what `engine` plans for length `n`.
pub open spec fn planned<R, P, E: Engine<R, P>>(
    engine: &E,
    direction: Direction,
    n: usize,
    plan: P,
) -> bool {
    call_ensures(E::plan, (engine, direction, n), plan)
}

/// Whether `y` is what `engine` makes of `x`, with a plan for its length.
pub open spec fn transformed<R, P, E: Engine<R, P>>(
    engine: &E,
    direction: Direction,
    x: Seq<Complex<R>>,
    y: Seq<Complex<R>>,
) -> bool {
    exists|plan: P, buf: Vec<Complex<R>>, out: Vec<Complex<R>>|
        {
            &&& buf@ == x
            &&& out@ == y
            &&& planned::<R, P, E>(engine, direction, buf.len(), plan)
            &&& #[trigger] call_ensures(E::process, (engine, &plan, buf), out)
        }
}

/// Whether `y` is the inverse transform of `x`, normalised by its length.
pub open spec fn inverted<R, P, A: Arithmetic<R>, E: Engine<R, P>>(
    a: &A,
    engine: &E,
    x: Seq<Complex<R>>,
    y: Seq<Complex<R>>,
) -> bool {
    exists|z: Seq<Complex<R>>|
        {
            &&& #[trigger] transformed::<R, P, E>(engine, Direction::Inverse, x, z)
            &&& y == scaled_all(a, z, fraction(a, 1, x.len() as u64))
        }
}

/// Whether every buffer leaves `engine` as long as it came in.
pub open spec fn keeps_length<R, P, E: Engine<R, P>>(engine: &E) -> bool {
    forall|plan: P, buf: Vec<Complex<R>>, out: Vec<Complex<R>>| #[trigger]
        call_ensures(E::process, (engine, &plan, buf), out) ==> out@.len() == buf@.len()
}

/// Caches forward and inverse plans keyed by transform length, so a streaming
/// caller pays the planning cost once rather than per block.
pub struct Plans<P, E> {
    engine: E,
    forward: HashMap<usize, P>,
    inverse: HashMap<usize, P>,
}

impl<P, E> Plans<P, E> {
    /// What computes the transforms.
    pub closed spec fn engine(&self) -> E {
        self.engine
    }

    /// The plans kept for one direction, by length.
    pub closed spec fn kept(&self, direction: Direction) -> Map<usize, P> {
        match direction {
            Direction::Forward => self.forward@,
            Direction::Inverse => self.inverse@,
        }
    }

    /// Every plan kept is one that the engine makes for that length.
    pub open spec fn wf<R>(&self) -> bool where E: Engine<R, P> {
        forall|direction: Direction, n: usize| #[trigger]
            self.kept(direction).contains_key(n) ==> planned::<R, P, E>(
                &self.engine(),
                direction,
                n,
                self.kept(direction)[n],
            )
    }

    /// What a transform of length `n` does to the cache: it adds a plan for `n`
    /// where there was none, and touches nothing else.
    pub open spec fn grows(&self, after: &Self, direction: Direction, n: usize) -> bool {
        &&& after.engine() == self.engine()
        &&& after.kept(direction).dom() == self.kept(direction).dom().insert(n)
        &&& forall|m: usize| #[trigger]
            self.kept(direction).contains_key(m) ==> after.kept(direction)[m] == self.kept(
                direction,
            )[m]
        &&& forall|other: Direction| other != direction ==> #[trigger] after.kept(other)
            == self.kept(other)
    }

    /// A cache stays well-formed when it gains a plan that the engine made.
    proof fn lemma_grows<R>(before: Self, after: Self, direction: Direction, n: usize) where
        E: Engine<R, P>,

        requires
            before.wf::<R>(),
            before.grows(&after, direction, n),
            planned::<R, P, E>(&before.engine(), direction, n, after.kept(direction)[n]),
        ensures
            after.wf::<R>(),
    {
        assert forall|d: Direction, m: usize| #[trigger]
            after.kept(d).contains_key(m) implies planned::<R, P, E>(
            &after.engine(),
            d,
            m,
            after.kept(d)[m],
        ) by {
            if d != direction || m != n {
                assert(before.kept(d).contains_key(m));
            }
        }
    }

    pub fn new(engine: E) -> (plans: Self)
        ensures
            plans.engine() == engine,
            forall|direction: Direction| #[trigger]
                plans.kept(direction) == Map::<usize, P>::empty(),
    {
        Plans { engine, forward: HashMap::new(), inverse: HashMap::new() }
    }

    /// In-place forward DFT, unnormalised.
    pub fn forward<R>(&mut self, buf: &mut Vec<Complex<R>>) where E: Engine<R, P>
        requires
            old(self).wf::<R>(),
            keeps_length::<R, P, E>(&old(self).engine()),
        ensures
            final(self).wf::<R>(),
            old(self).grows(final(self), Direction::Forward, old(buf).len()),
            transformed::<R, P, E>(
                &old(self).engine(),
                Direction::Forward,
                old(buf)@,
                final(buf)@,
            ),
            final(buf)@.len() == old(buf)@.len(),
    {
        let n: usize = buf.len();
        if !self.forward.contains_key(&n) {
            let plan = self.engine.plan(Direction::Forward, n);
            self.forward.insert(n, plan);
        }
        proof {
            let kept = self.kept(Direction::Forward);
            assert(kept.contains_key(n));
            assert(kept.dom() =~= old(self).kept(Direction::Forward).dom().insert(n));
            Self::lemma_grows(*old(self), *self, Direction::Forward, n);
        }
        let mut work: Vec<Complex<R>> = Vec::new();
        std::mem::swap(&mut work, buf);
        match self.forward.get(&n) {
            Some(plan) => {
                *buf = self.engine.process(plan, work);
            },
            None => {},
        }
    }

    /// In-place inverse DFT, normalised by `1/n` so that it undoes the forward
    /// transform.
    pub fn inverse<R: Copy, A: Arithmetic<R>>(&mut self, a: &A, buf: &mut Vec<Complex<R>>) where
        E: Engine<R, P>,

        requires
            old(self).wf::<R>(),
            keeps_length::<R, P, E>(&old(self).engine()),
        ensures
            final(self).wf::<R>(),
            old(self).grows(final(self), Direction::Inverse, old(buf).len()),
            inverted::<R, P, A, E>(a, &old(self).engine(), old(buf)@, final(buf)@),
            final(buf)@.len() == old(buf)@.len(),
    {
        let n: usize = buf.len();
        if !self.inverse.contains_key(&n) {
            let plan = self.engine.plan(Direction::Inverse, n);
            self.inverse.insert(n, plan);
        }
        proof {
            let kept = self.kept(Direction::Inverse);
            assert(kept.contains_key(n));
            assert(kept.dom() =~= old(self).kept(Direction::Inverse).dom().insert(n));
            Self::lemma_grows(*old(self), *self, Direction::Inverse, n);
        }
        let mut work: Vec<Complex<R>> = Vec::new();
        std::mem::swap(&mut work, buf);
        match self.inverse.get(&n) {
            Some(plan) => {
                *buf = self.engine.process(plan, work);
            },
            None => {},
        }
        let ghost z = buf@;
        assert(transformed::<R, P, E>(&self.engine(), Direction::Inverse, old(buf)@, z));
        let scale = ratio(a, 1, n as u64);
        for i in 0..n
            invariant
                n == buf.len() == z.len(),
                scale == fraction(a, 1, n as u64),
                forall|j: int| 0 <= j < i ==> buf@[j] == scaled(a, z[j], scale),
                forall|j: int| i <= j < n ==> buf@[j] == z[j],
        {
            let v = buf[i].scale(a, scale);
            buf.set(i, v);
        }
        assert(buf@ =~= scaled_all(a, z, scale));
    }
}

/// The bin of an `n`-point spectrum that bin `k` is taken from when the spectrum
/// is decimated by `d`: `k` bins above DC in the lower half of the shorter
/// spectrum, which holds its middle bin if it has one, and as many below DC as
/// are left in the upper half.
pub open spec fn decimation_source(n: int, d: int, k: int) -> int {
    let m = n / d;
    if d == 1 || k < m - m / 2 {
        k
    } else {
        n - (m - k)
    }
}

/// `spectrum` decimated by `d`: the `n/d` bins nearest DC, scaled by `1/d`.
pub open spec fn decimated<R, A: Arithmetic<R>>(
    a: &A,
    spectrum: Seq<Complex<R>>,
    d: int,
) -> Seq<Complex<R>> {
    if d == 1 {
        spectrum
    } else {
        Seq::new(
            (spectrum.len() as int / d) as nat,
            |k: int|
                scaled(
                    a,
                    spectrum[decimation_source(spectrum.len() as int, d, k)],
                    fraction(a, 1, d as u64),
                ),
        )
    }
}

/// Decimates by `d` in the frequency domain: keep the `n/d` bins nearest DC and
/// discard the rest.
///
/// Truncation rather than the more common Fourier periodisation, because
/// truncation *is* an ideal brick-wall anti-alias filter, whereas periodisation
/// folds out-of-band content back onto the retained bins. For a modulus
/// envelope, which is what we ever decimate here, the discarded content is
/// genuinely small and the brick wall costs us nothing.
///
/// The `1/d` scaling makes the result equal to the time-domain signal sampled
/// every `d`th point, rather than `d` times it.
pub fn decimate_spectrum<R: Copy, A: Arithmetic<R>>(
    a: &A,
    spectrum: &[Complex<R>],
    d: usize,
) -> (out: Vec<Complex<R>>)
    requires
        d >= 1,
        spectrum@.len() as int % d as int == 0,
    ensures
        out@ == decimated(a, spectrum@, d as int),
        out@.len() == spectrum@.len() as int / d as int,
{
    let n: usize = spectrum.len();
    let mut out: Vec<Complex<R>> = Vec::with_capacity(n / d);
    if d == 1 {
        for i in 0..n
            invariant
                n == spectrum@.len(),
                out@ == spectrum@.take(i as int),
        {
            out.push(spectrum[i]);
            assert(out@ =~= spectrum@.take(i as int + 1));
        }
        assert(spectrum@.take(n as int) =~= spectrum@);
        return out;
    }
    let m: usize = n / d;
    proof {
        assert(m <= n) by (nonlinear_arith)
            requires
                m == n as int / d as int,
                d >= 1,
                n >= 0,
        ;
    }
    let half: usize = m / 2;
    let scale = ratio(a, 1, d as u64);
    for k in 0..m
        invariant
            d > 1,
            n == spectrum@.len(),
            m == n as int / d as int,
            m <= n,
            half == m / 2,
            scale == fraction(a, 1, d as u64),
            out@ == decimated(a, spectrum@, d as int).take(k as int),
    {
        // Negative frequencies live at the top of both arrays.
        let j: usize = if k < m - half {
            k
        } else {
            n - (m - k)
        };
        out.push(spectrum[j].scale(a, scale));
        assert(out@ =~= decimated(a, spectrum@, d as int).take(k as int + 1));
    }
    assert(decimated(a, spectrum@, d as int).take(m as int) =~= decimated(
        a,
        spectrum@,
        d as int,
    ));
    out
}

/// Whether `d` is the largest power of two that is at most `limit` and divides
/// `n`, or 1 where `limit` leaves no other choice.
pub open spec fn largest_factor(limit: int, n: int, d: int) -> bool {
    &&& power_of_two(d)
    &&& n % d == 0
    &&& d <= limit || d == 1
    &&& forall|p: int| #[trigger] power_of_two(p) && p <= limit && n % p == 0 ==> p <= d
}

/// The largest power of two that is at most `limit` and divides `n`, or 1.
pub open spec fn factor(limit: int, n: int) -> int {
    choose|d: int| largest_factor(limit, n, d)
}

/// There is only one largest factor.
pub proof fn lemma_factor(limit: int, n: int, d: int)
    requires
        largest_factor(limit, n, d),
    ensures
        d == factor(limit, n),
        d >= 1,
{
    let e = factor(limit, n);
    assert(largest_factor(limit, n, e));
    lemma_double(d);
    lemma_double(e);
}

/// The whole number of useful decimation steps that `limit` stands for: none
/// where it is less than one, or not a number.
pub open spec fn whole_limit<R, A: Arithmetic<R>>(a: &A, limit: R) -> int {
    if at_most(a, num(a, 1), limit) {
        a.whole_of(limit) as int
    } else {
        0
    }
}

/// Largest power of two that is at most `limit` and still divides `n`.
/// Returns 1 when no useful decimation is available.
pub fn power_of_two_factor<R: Copy, A: Arithmetic<R>>(a: &A, limit: R, n: usize) -> (d: usize)
    ensures
        largest_factor(whole_limit(a, limit), n as int, d as int),
        d == factor(whole_limit(a, limit), n as int),
        d >= 1,
{
    proof {
        lemma_one();
        assert forall|p: int| #[trigger] power_of_two(p) implies p >= 1 by {
            lemma_double(p);
        }
    }
    // Written this way rather than `limit < 1` so a limit that is not a number
    // also lands here instead of falling through to the loop.
    if !is_at_most(a, a.number(1), limit) {
        proof {
            lemma_factor(0, n as int, 1);
        }
        return 1;
    }
    let whole: usize = a.whole(limit);
    let mut d: usize = 1;
    while d <= whole / 2 && n % (2 * d) == 0
        invariant
            d >= 1,
            power_of_two(d as int),
            n as int % d as int == 0,
            d <= whole || d == 1,
        decreases usize::MAX - d,
    {
        proof {
            lemma_double(d as int);
        }
        d = 2 * d;
    }
    proof {
        assert forall|p: int| #[trigger] power_of_two(p) && p <= whole && n as int % p
            == 0 implies p <= d by {
            if p > d {
                lemma_double(d as int);
                crate::powers::lemma_gap(d as int, p);
                lemma_divides(2 * d as int, p);
                lemma_mod_through(n as int, 2 * d as int, p);
            }
        }
        lemma_factor(whole as int, n as int, d as int);
    }
    d
}

/// What divides a divisor of `n` divides `n`.
pub proof fn lemma_mod_through(n: int, small: int, large: int)
    requires
        small > 0,
        large > 0,
        large % small == 0,
        n % large == 0,
    ensures
        n % small == 0,
{
    let q = large / small;
    let k = n / large;
    vstd::arithmetic::div_mod::lemma_fundamental_div_mod(large, small);
    vstd::arithmetic::div_mod::lemma_fundamental_div_mod(n, large);
    assert(n == (k * q) * small) by (nonlinear_arith)
        requires
            n == large * k,
            large == small * q,
    ;
    vstd::arithmetic::div_mod::lemma_mod_multiples_basic(k * q, small);
}

} // verus!
