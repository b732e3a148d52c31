//! The arithmetic the transform is computed in.
//!
//! Every quantity with a physical meaning (a frequency, an amplitude, a filter
//! width) is a value of some type `R`, and is only ever touched through an
//! [`Arithmetic`] over `R`. An arithmetic names what each operation yields, and
//! its executable half yields exactly that, so the contracts of this crate can
//! say what a function computes down to the order in which it rounds.
//!
//! Constants are built from whole numbers: `ratio(a, 1, 4)` is a quarter,
//! `ratio(a, 1, 0)` is infinity and `ratio(a, 0, 0)` is not a number, in an
//! arithmetic that has those.

use vstd::prelude::*;

verus! {

/// Operations of one operand.
#[derive(Clone, Copy, Debug, PartialEq, Eq, Structural)]
pub enum Unary {
    /// `-x`.
    Negate,
    /// `|x|`.
    Magnitude,
    /// Square root.
    SquareRoot,
    /// `e` to the power `x`.
    Exponential,
    /// Natural logarithm.
    Logarithm,
    /// Sine of an angle in radians.
    Sine,
    /// Cosine of an angle in radians.
    Cosine,
    /// Nearest whole number, halves away from zero.
    Round,
    /// Smallest whole number that is not less.
    Ceiling,
}

/// Operations of two operands.
#[derive(Clone, Copy, Debug, PartialEq, Eq, Structural)]
pub enum Binary {
    /// `x + y`.
    Plus,
    /// `x - y`.
    Minus,
    /// `x * y`.
    Times,
    /// `x / y`.
    Over,
    /// The larger operand.
    Larger,
    /// The smaller operand.
    Smaller,
    /// `x` to the power `y`.
    Power,
    /// `sqrt(x^2 + y^2)`.
    Hypotenuse,
    /// Remainder of `x / y`, with the sign of `x`.
    Remainder,
    /// Remainder of `x / y` that is never negative.
    Wrap,
}

/// Comparisons. Neither need hold of two operands, in either order.
#[derive(Clone, Copy, Debug, PartialEq, Eq, Structural)]
pub enum Relation {
    /// `x < y`.
    Below,
    /// `x <= y`.
    AtMost,
}

/// An arithmetic over values of type `R`: what each operation yields, and the
/// means to compute it.
pub trait Arithmetic<R> {
    /// The value that stands for the whole number `n`.
    closed spec fn number_of(&self, n: u64) -> R {
        arbitrary()
    }

    /// The ratio of a circle's circumference to its diameter.
    closed spec fn circle_ratio(&self) -> R {
        arbitrary()
    }

    /// What `op` yields on `x`.
    closed spec fn unary_of(&self, op: Unary, x: R) -> R {
        arbitrary()
    }

    /// What `op` yields on `x` and `y`.
    closed spec fn binary_of(&self, op: Binary, x: R, y: R) -> R {
        arbitrary()
    }

    /// Whether `x` stands in `relation` to `y`.
    closed spec fn related(&self, relation: Relation, x: R, y: R) -> bool {
        arbitrary()
    }

    /// The whole number left when the fraction of `x` is cut off. Whatever lies
    /// outside the machine range goes to its nearer end.
    closed spec fn whole_of(&self, x: R) -> usize {
        arbitrary()
    }

    fn number(&self, n: u64) -> (r: R)
        ensures
            r == self.number_of(n),
    ;

    fn pi(&self) -> (r: R)
        ensures
            r == self.circle_ratio(),
    ;

    fn unary(&self, op: Unary, x: R) -> (r: R)
        ensures
            r == self.unary_of(op, x),
    ;

    fn binary(&self, op: Binary, x: R, y: R) -> (r: R)
        ensures
            r == self.binary_of(op, x, y),
    ;

    fn relates(&self, relation: Relation, x: R, y: R) -> (r: bool)
        ensures
            r == self.related(relation, x, y),
    ;

    fn whole(&self, x: R) -> (r: usize)
        ensures
            r == self.whole_of(x),
    ;
}

pub open spec fn num<R, A: Arithmetic<R>>(a: &A, n: u64) -> R {
    a.number_of(n)
}

/// `p / q`.
pub open spec fn fraction<R, A: Arithmetic<R>>(a: &A, p: u64, q: u64) -> R {
    quotient(a, a.number_of(p), a.number_of(q))
}

pub open spec fn sum<R, A: Arithmetic<R>>(a: &A, x: R, y: R) -> R {
    a.binary_of(Binary::Plus, x, y)
}

pub open spec fn difference<R, A: Arithmetic<R>>(a: &A, x: R, y: R) -> R {
    a.binary_of(Binary::Minus, x, y)
}

pub open spec fn product<R, A: Arithmetic<R>>(a: &A, x: R, y: R) -> R {
    a.binary_of(Binary::Times, x, y)
}

pub open spec fn quotient<R, A: Arithmetic<R>>(a: &A, x: R, y: R) -> R {
    a.binary_of(Binary::Over, x, y)
}

pub open spec fn larger<R, A: Arithmetic<R>>(a: &A, x: R, y: R) -> R {
    a.binary_of(Binary::Larger, x, y)
}

pub open spec fn smaller<R, A: Arithmetic<R>>(a: &A, x: R, y: R) -> R {
    a.binary_of(Binary::Smaller, x, y)
}

pub open spec fn power<R, A: Arithmetic<R>>(a: &A, x: R, y: R) -> R {
    a.binary_of(Binary::Power, x, y)
}

pub open spec fn hypotenuse<R, A: Arithmetic<R>>(a: &A, x: R, y: R) -> R {
    a.binary_of(Binary::Hypotenuse, x, y)
}

pub open spec fn remainder<R, A: Arithmetic<R>>(a: &A, x: R, y: R) -> R {
    a.binary_of(Binary::Remainder, x, y)
}

pub open spec fn wrapped<R, A: Arithmetic<R>>(a: &A, x: R, y: R) -> R {
    a.binary_of(Binary::Wrap, x, y)
}

pub open spec fn negative<R, A: Arithmetic<R>>(a: &A, x: R) -> R {
    a.unary_of(Unary::Negate, x)
}

pub open spec fn magnitude<R, A: Arithmetic<R>>(a: &A, x: R) -> R {
    a.unary_of(Unary::Magnitude, x)
}

pub open spec fn root<R, A: Arithmetic<R>>(a: &A, x: R) -> R {
    a.unary_of(Unary::SquareRoot, x)
}

pub open spec fn exponential<R, A: Arithmetic<R>>(a: &A, x: R) -> R {
    a.unary_of(Unary::Exponential, x)
}

pub open spec fn logarithm<R, A: Arithmetic<R>>(a: &A, x: R) -> R {
    a.unary_of(Unary::Logarithm, x)
}

pub open spec fn sine<R, A: Arithmetic<R>>(a: &A, x: R) -> R {
    a.unary_of(Unary::Sine, x)
}

pub open spec fn cosine<R, A: Arithmetic<R>>(a: &A, x: R) -> R {
    a.unary_of(Unary::Cosine, x)
}

pub open spec fn rounded<R, A: Arithmetic<R>>(a: &A, x: R) -> R {
    a.unary_of(Unary::Round, x)
}

pub open spec fn ceiling<R, A: Arithmetic<R>>(a: &A, x: R) -> R {
    a.unary_of(Unary::Ceiling, x)
}

/// `x < y`.
pub open spec fn below<R, A: Arithmetic<R>>(a: &A, x: R, y: R) -> bool {
    a.related(Relation::Below, x, y)
}

/// `x <= y`.
pub open spec fn at_most<R, A: Arithmetic<R>>(a: &A, x: R, y: R) -> bool {
    a.related(Relation::AtMost, x, y)
}

/// Radians in a full turn.
pub open spec fn turn<R, A: Arithmetic<R>>(a: &A) -> R {
    product(a, num(a, 2), a.circle_ratio())
}

/// The sum of `xs`, taken from the left and starting at zero.
pub open spec fn total<R, A: Arithmetic<R>>(a: &A, xs: Seq<R>) -> R
    decreases xs.len(),
{
    if xs.len() == 0 {
        num(a, 0)
    } else {
        sum(a, total(a, xs.drop_last()), xs.last())
    }
}

/// The largest of `start` and the values of `xs`, taken from the left.
pub open spec fn largest<R, A: Arithmetic<R>>(a: &A, start: R, xs: Seq<R>) -> R
    decreases xs.len(),
{
    if xs.len() == 0 {
        start
    } else {
        larger(a, largest(a, start, xs.drop_last()), xs.last())
    }
}

/// The smallest of `start` and the values of `xs`, taken from the left.
pub open spec fn smallest<R, A: Arithmetic<R>>(a: &A, start: R, xs: Seq<R>) -> R
    decreases xs.len(),
{
    if xs.len() == 0 {
        start
    } else {
        smaller(a, smallest(a, start, xs.drop_last()), xs.last())
    }
}

/// `p / q`.
pub fn ratio<R, A: Arithmetic<R>>(a: &A, p: u64, q: u64) -> (r: R)
    ensures
        r == fraction(a, p, q),
{
    over(a, a.number(p), a.number(q))
}

/// `x + y`.
pub fn plus<R, A: Arithmetic<R>>(a: &A, x: R, y: R) -> (r: R)
    ensures
        r == sum(a, x, y),
{
    a.binary(Binary::Plus, x, y)
}

/// `x - y`.
pub fn minus<R, A: Arithmetic<R>>(a: &A, x: R, y: R) -> (r: R)
    ensures
        r == difference(a, x, y),
{
    a.binary(Binary::Minus, x, y)
}

/// `x * y`.
pub fn times<R, A: Arithmetic<R>>(a: &A, x: R, y: R) -> (r: R)
    ensures
        r == product(a, x, y),
{
    a.binary(Binary::Times, x, y)
}

/// `x / y`.
pub fn over<R, A: Arithmetic<R>>(a: &A, x: R, y: R) -> (r: R)
    ensures
        r == quotient(a, x, y),
{
    a.binary(Binary::Over, x, y)
}

/// The larger of `x` and `y`.
pub fn max<R, A: Arithmetic<R>>(a: &A, x: R, y: R) -> (r: R)
    ensures
        r == larger(a, x, y),
{
    a.binary(Binary::Larger, x, y)
}

/// The smaller of `x` and `y`.
pub fn min<R, A: Arithmetic<R>>(a: &A, x: R, y: R) -> (r: R)
    ensures
        r == smaller(a, x, y),
{
    a.binary(Binary::Smaller, x, y)
}

/// `-x`.
pub fn neg<R, A: Arithmetic<R>>(a: &A, x: R) -> (r: R)
    ensures
        r == negative(a, x),
{
    a.unary(Unary::Negate, x)
}

/// `|x|`.
pub fn abs<R, A: Arithmetic<R>>(a: &A, x: R) -> (r: R)
    ensures
        r == magnitude(a, x),
{
    a.unary(Unary::Magnitude, x)
}

/// Square root of `x`.
pub fn sqrt<R, A: Arithmetic<R>>(a: &A, x: R) -> (r: R)
    ensures
        r == root(a, x),
{
    a.unary(Unary::SquareRoot, x)
}

/// `e` to the power `x`.
pub fn exp<R, A: Arithmetic<R>>(a: &A, x: R) -> (r: R)
    ensures
        r == exponential(a, x),
{
    a.unary(Unary::Exponential, x)
}

/// Natural logarithm of `x`.
pub fn ln<R, A: Arithmetic<R>>(a: &A, x: R) -> (r: R)
    ensures
        r == logarithm(a, x),
{
    a.unary(Unary::Logarithm, x)
}

/// `x < y`.
pub fn is_below<R, A: Arithmetic<R>>(a: &A, x: R, y: R) -> (r: bool)
    ensures
        r == below(a, x, y),
{
    a.relates(Relation::Below, x, y)
}

/// `x <= y`.
pub fn is_at_most<R, A: Arithmetic<R>>(a: &A, x: R, y: R) -> (r: bool)
    ensures
        r == at_most(a, x, y),
{
    a.relates(Relation::AtMost, x, y)
}

/// Radians in a full turn.
pub fn tau<R, A: Arithmetic<R>>(a: &A) -> (r: R)
    ensures
        r == turn(a),
{
    times(a, a.number(2), a.pi())
}

/// The larger of `start` and every value of `xs`, taken from the left.
pub fn largest_of<R: Copy, A: Arithmetic<R>>(a: &A, start: R, xs: &[R]) -> (r: R)
    ensures
        r == largest(a, start, xs@),
{
    let mut acc = start;
    for i in 0..xs.len()
        invariant
            acc == largest(a, start, xs@.take(i as int)),
    {
        assert(xs@.take(i as int + 1).drop_last() =~= xs@.take(i as int));
        acc = max(a, acc, xs[i]);
    }
    assert(xs@.take(xs@.len() as int) =~= xs@);
    acc
}

} // verus!
