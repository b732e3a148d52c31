//! Complex values over any [`Arithmetic`].

use vstd::prelude::*;

use crate::arithmetic::{
    cosine, difference, hypotenuse, num, plus, product, sine, sum, times, Arithmetic, Binary, Unary,
};

verus! {

/// A complex value in Cartesian form.
#[derive(Clone, Copy, Debug)]
pub struct Complex<R> {
    /// Real part.
    pub re: R,
    /// Imaginary part.
    pub im: R,
}

/// `re + 0i`, from a real value.
pub open spec fn on_axis<R, A: Arithmetic<R>>(a: &A, re: R) -> Complex<R> {
    Complex { re, im: num(a, 0) }
}

/// Zero.
pub open spec fn zero<R, A: Arithmetic<R>>(a: &A) -> Complex<R> {
    on_axis(a, num(a, 0))
}

/// `z` with both parts multiplied by `s`.
pub open spec fn scaled<R, A: Arithmetic<R>>(a: &A, z: Complex<R>, s: R) -> Complex<R> {
    Complex {
        re: product(a, z.re, s),
        im: product(a, z.im, s),
    }
}

/// The sum, part by part.
pub open spec fn joined<R, A: Arithmetic<R>>(a: &A, y: Complex<R>, z: Complex<R>) -> Complex<R> {
    Complex {
        re: sum(a, y.re, z.re),
        im: sum(a, y.im, z.im),
    }
}

/// The product of two complex values.
pub open spec fn turned<R, A: Arithmetic<R>>(a: &A, z: Complex<R>, c: Complex<R>) -> Complex<R> {
    Complex {
        re: difference(a, product(a, z.re, c.re), product(a, z.im, c.im)),
        im: sum(a, product(a, z.re, c.im), product(a, z.im, c.re)),
    }
}

/// Distance from the origin.
pub open spec fn modulus<R, A: Arithmetic<R>>(a: &A, z: Complex<R>) -> R {
    hypotenuse(a, z.re, z.im)
}

/// The value at distance `r` from the origin, at `angle` radians.
pub open spec fn polar<R, A: Arithmetic<R>>(a: &A, r: R, angle: R) -> Complex<R> {
    Complex {
        re: product(a, r, cosine(a, angle)),
        im: product(a, r, sine(a, angle)),
    }
}

impl<R: Copy> Complex<R> {
    pub fn new(re: R, im: R) -> (z: Self)
        ensures
            z == (Complex { re, im }),
    {
        Complex { re, im }
    }

    /// `re + 0i`.
    pub fn from_real<A: Arithmetic<R>>(a: &A, re: R) -> (z: Self)
        ensures
            z == on_axis(a, re),
    {
        Complex { re, im: a.number(0) }
    }

    /// `z` with both parts multiplied by `s`.
    pub fn scale<A: Arithmetic<R>>(self, a: &A, s: R) -> (z: Self)
        ensures
            z == scaled(a, self, s),
    {
        Complex { re: times(a, self.re, s), im: times(a, self.im, s) }
    }

    /// The sum, part by part.
    pub fn plus<A: Arithmetic<R>>(self, a: &A, other: Self) -> (z: Self)
        ensures
            z == joined(a, self, other),
    {
        Complex {
            re: plus(a, self.re, other.re),
            im: plus(a, self.im, other.im),
        }
    }

    /// Distance from the origin.
    pub fn norm<A: Arithmetic<R>>(self, a: &A) -> (r: R)
        ensures
            r == modulus(a, self),
    {
        a.binary(Binary::Hypotenuse, self.re, self.im)
    }

    /// The value at distance `r` from the origin, at `angle` radians.
    pub fn from_polar<A: Arithmetic<R>>(a: &A, r: R, angle: R) -> (z: Self)
        ensures
            z == polar(a, r, angle),
    {
        Complex {
            re: times(a, r, a.unary(Unary::Cosine, angle)),
            im: times(a, r, a.unary(Unary::Sine, angle)),
        }
    }
}

/// The moduli of `xs`, as values on the real axis.
pub open spec fn envelope<R, A: Arithmetic<R>>(a: &A, xs: Seq<Complex<R>>) -> Seq<Complex<R>> {
    xs.map_values(|z: Complex<R>| on_axis(a, modulus(a, z)))
}

/// Every value of `xs` multiplied by `s`.
pub open spec fn scaled_all<R, A: Arithmetic<R>>(a: &A, xs: Seq<Complex<R>>, s: R) -> Seq<
    Complex<R>,
> {
    xs.map_values(|z: Complex<R>| scaled(a, z, s))
}

/// Every value of `xs` multiplied by the complex value `c`.
pub open spec fn turned_all<R, A: Arithmetic<R>>(a: &A, xs: Seq<Complex<R>>, c: Complex<R>) -> Seq<
    Complex<R>,
> {
    xs.map_values(|z: Complex<R>| turned(a, z, c))
}

/// The real parts of `xs`.
pub open spec fn real_parts<R>(xs: Seq<Complex<R>>) -> Seq<R> {
    xs.map_values(|z: Complex<R>| z.re)
}

/// Takes the modulus of every value: the envelope, on the real axis.
pub fn take_envelope<R: Copy, A: Arithmetic<R>>(a: &A, xs: &[Complex<R>]) -> (out: Vec<Complex<R>>)
    ensures
        out@ == envelope(a, xs@),
{
    let mut out: Vec<Complex<R>> = Vec::with_capacity(xs.len());
    for i in 0..xs.len()
        invariant
            out@ == envelope(a, xs@).take(i as int),
    {
        out.push(Complex::from_real(a, xs[i].norm(a)));
        assert(out@ =~= envelope(a, xs@).take(i as int + 1));
    }
    assert(envelope(a, xs@).take(xs@.len() as int) =~= envelope(a, xs@));
    out
}

/// Keeps the real part of every value.
pub fn take_real_parts<R: Copy>(xs: &[Complex<R>]) -> (out: Vec<R>)
    ensures
        out@ == real_parts(xs@),
{
    let mut out: Vec<R> = Vec::with_capacity(xs.len());
    for i in 0..xs.len()
        invariant
            out@ == real_parts(xs@).take(i as int),
    {
        out.push(xs[i].re);
        assert(out@ =~= real_parts(xs@).take(i as int + 1));
    }
    assert(real_parts(xs@).take(xs@.len() as int) =~= real_parts(xs@));
    out
}

} // verus!
