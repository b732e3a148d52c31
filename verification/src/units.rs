//! Dimensional analysis: an arithmetic on units in place of numbers.
//!
//! Run in this arithmetic, a formula yields the unit its result comes in, as a
//! power of the unit of amplitude. That a readout needs no amplitude
//! calibration is then a plain statement: its unit is the zeroth power.

use vstd::prelude::*;

use crate::arithmetic::{largest, total, Arithmetic, Binary, Relation, Unary};
use crate::transform::{mean_of, Scattergram};

verus! {

/// The unit of a value.
#[derive(Clone, Copy, Debug, PartialEq, Eq, Structural)]
pub enum Dimension {
    /// Zero, which comes in any unit.
    Zero,
    /// This power of the unit of amplitude. The zeroth power is a pure number.
    Power(i32),
    /// No one unit: unlike quantities were added up, a zero was divided by, or a
    /// function of pure numbers was given something else.
    Mixed,
}

/// Arithmetic on units.
pub struct Units;

/// The unit of what unlike or like quantities add up to.
pub open spec fn common(x: Dimension, y: Dimension) -> Dimension {
    if x == Dimension::Zero || x == y {
        y
    } else if y == Dimension::Zero {
        x
    } else {
        Dimension::Mixed
    }
}

/// The `k`th power of the unit of amplitude, if `k` can be counted.
pub open spec fn degree(k: int) -> Dimension {
    if i32::MIN <= k <= i32::MAX {
        Dimension::Power(k as i32)
    } else {
        Dimension::Mixed
    }
}

/// The unit of a product.
pub open spec fn multiplied(x: Dimension, y: Dimension) -> Dimension {
    match (x, y) {
        (Dimension::Mixed, _) => Dimension::Mixed,
        (_, Dimension::Mixed) => Dimension::Mixed,
        (Dimension::Zero, _) => Dimension::Zero,
        (_, Dimension::Zero) => Dimension::Zero,
        (Dimension::Power(j), Dimension::Power(k)) => degree(j + k),
    }
}

/// The unit of a quotient.
pub open spec fn divided(x: Dimension, y: Dimension) -> Dimension {
    match (x, y) {
        (Dimension::Mixed, _) => Dimension::Mixed,
        (_, Dimension::Mixed) => Dimension::Mixed,
        (_, Dimension::Zero) => Dimension::Mixed,
        (Dimension::Zero, _) => Dimension::Zero,
        (Dimension::Power(j), Dimension::Power(k)) => degree(j - k),
    }
}

/// Whether `x` is a pure number.
pub open spec fn pure(x: Dimension) -> bool {
    x == Dimension::Zero || x == Dimension::Power(0)
}

/// The unit of a square root.
pub open spec fn halved(x: Dimension) -> Dimension {
    match x {
        Dimension::Power(k) => if k % 2 == 0 {
            Dimension::Power((k / 2) as i32)
        } else {
            Dimension::Mixed
        },
        _ => x,
    }
}

fn combine(x: Dimension, y: Dimension) -> (r: Dimension)
    ensures
        r == common(x, y),
{
    if x == Dimension::Zero || x == y {
        y
    } else if y == Dimension::Zero {
        x
    } else {
        Dimension::Mixed
    }
}

fn of_degree(k: i64) -> (r: Dimension)
    ensures
        r == degree(k as int),
{
    if i32::MIN as i64 <= k && k <= i32::MAX as i64 {
        Dimension::Power(k as i32)
    } else {
        Dimension::Mixed
    }
}

fn is_pure(x: Dimension) -> (r: bool)
    ensures
        r == pure(x),
{
    x == Dimension::Zero || x == Dimension::Power(0)
}

impl Arithmetic<Dimension> for Units {
    open spec fn number_of(&self, n: u64) -> Dimension {
        if n == 0 {
            Dimension::Zero
        } else {
            Dimension::Power(0)
        }
    }

    open spec fn circle_ratio(&self) -> Dimension {
        Dimension::Power(0)
    }

    open spec fn unary_of(&self, op: Unary, x: Dimension) -> Dimension {
        match op {
            Unary::Negate | Unary::Magnitude | Unary::Round | Unary::Ceiling => x,
            Unary::SquareRoot => halved(x),
            Unary::Exponential | Unary::Sine | Unary::Cosine => if pure(x) {
                Dimension::Power(0)
            } else {
                Dimension::Mixed
            },
            Unary::Logarithm => if x == Dimension::Power(0) {
                x
            } else {
                Dimension::Mixed
            },
        }
    }

    open spec fn binary_of(&self, op: Binary, x: Dimension, y: Dimension) -> Dimension {
        match op {
            Binary::Times => multiplied(x, y),
            Binary::Over => divided(x, y),
            Binary::Power => if pure(x) && pure(y) {
                Dimension::Power(0)
            } else {
                Dimension::Mixed
            },
            _ => common(x, y),
        }
    }

    /// A unit says nothing about size.
    open spec fn related(&self, relation: Relation, x: Dimension, y: Dimension) -> bool {
        false
    }

    open spec fn whole_of(&self, x: Dimension) -> usize {
        0
    }

    fn number(&self, n: u64) -> (r: Dimension) {
        if n == 0 {
            Dimension::Zero
        } else {
            Dimension::Power(0)
        }
    }

    fn pi(&self) -> (r: Dimension) {
        Dimension::Power(0)
    }

    fn unary(&self, op: Unary, x: Dimension) -> (r: Dimension) {
        match op {
            Unary::Negate | Unary::Magnitude | Unary::Round | Unary::Ceiling => x,
            Unary::SquareRoot => match x {
                Dimension::Power(k) => if k % 2 == 0 {
                    Dimension::Power(k / 2)
                } else {
                    Dimension::Mixed
                },
                _ => x,
            },
            Unary::Exponential | Unary::Sine | Unary::Cosine => if is_pure(x) {
                Dimension::Power(0)
            } else {
                Dimension::Mixed
            },
            Unary::Logarithm => if x == Dimension::Power(0) {
                x
            } else {
                Dimension::Mixed
            },
        }
    }

    fn binary(&self, op: Binary, x: Dimension, y: Dimension) -> (r: Dimension) {
        match op {
            Binary::Times => match (x, y) {
                (Dimension::Mixed, _) => Dimension::Mixed,
                (_, Dimension::Mixed) => Dimension::Mixed,
                (Dimension::Zero, _) => Dimension::Zero,
                (_, Dimension::Zero) => Dimension::Zero,
                (Dimension::Power(j), Dimension::Power(k)) => of_degree(j as i64 + k as i64),
            },
            Binary::Over => match (x, y) {
                (Dimension::Mixed, _) => Dimension::Mixed,
                (_, Dimension::Mixed) => Dimension::Mixed,
                (_, Dimension::Zero) => Dimension::Mixed,
                (Dimension::Zero, _) => Dimension::Zero,
                (Dimension::Power(j), Dimension::Power(k)) => of_degree(j as i64 - k as i64),
            },
            Binary::Power => if is_pure(x) && is_pure(y) {
                Dimension::Power(0)
            } else {
                Dimension::Mixed
            },
            _ => combine(x, y),
        }
    }

    fn relates(&self, relation: Relation, x: Dimension, y: Dimension) -> (r: bool) {
        false
    }

    fn whole(&self, x: Dimension) -> (r: usize) {
        0
    }
}

/// The sum of some amplitudes is an amplitude.
proof fn lemma_total_unit(xs: Seq<Dimension>)
    requires
        xs.len() > 0,
        forall|i: int| 0 <= i < xs.len() ==> xs[i] == Dimension::Power(1),
    ensures
        total(&Units, xs) == Dimension::Power(1),
    decreases xs.len(),
{
    reveal_with_fuel(total, 2);
    let rest = xs.drop_last();
    if rest.len() > 0 {
        lemma_total_unit(rest);
    }
}

/// The largest of some amplitudes is an amplitude.
proof fn lemma_largest_unit(xs: Seq<Dimension>)
    requires
        xs.len() > 0,
        forall|i: int| 0 <= i < xs.len() ==> xs[i] == Dimension::Power(1),
    ensures
        largest(&Units, Dimension::Zero, xs) == Dimension::Power(1),
    decreases xs.len(),
{
    reveal_with_fuel(largest, 2);
    let rest = xs.drop_last();
    if rest.len() > 0 {
        lemma_largest_unit(rest);
    }
}

/// Modulation depth is dimensionless: where every first- and second-order
/// coefficient is an amplitude, every depth is a pure number.
pub proof fn law_depth_is_dimensionless(out: &Scattergram<Dimension>)
    requires
        out.wf(),
        out.s0@.len() > 0,
        forall|i: int, t: int|
            0 <= i < out.s1@.len() && 0 <= t < out.s1@[i]@.len() ==> #[trigger] out.s1@[i]@[t]
                == Dimension::Power(1),
        forall|i: int, j: int, t: int|
            0 <= i < out.s2@.len() && 0 <= j < out.s2@[i]@.len() && 0 <= t
                < out.s2@[i]@[j]@.len() ==> #[trigger] out.s2@[i]@[j]@[t]
                == Dimension::Power(1),
    ensures
        forall|i: int, j: int|
            0 <= i < out.s2@.len() && 0 <= j < out.s2@[i]@.len() ==> #[trigger] out.depths(
                &Units,
            )[i][j] == Dimension::Power(0),
{
    let u = Units;
    assert forall|row: Seq<Dimension>|
        row.len() == out.s0@.len() && (forall|t: int|
            0 <= t < row.len() ==> row[t] == Dimension::Power(1)) implies #[trigger] mean_of(
        &u,
        out.clear(&u, row),
    ) == Dimension::Power(1) by {
        assert(out.clear(&u, row) =~= row);
        lemma_total_unit(row);
        assert(out.s0.len() as u64 == row.len() as u64);
    }
    let m1 = out.means1(&u);
    assert forall|i: int| 0 <= i < m1.len() implies m1[i] == Dimension::Power(1) by {
        let row = out.s1@[i]@;
        assert(m1[i] == mean_of(&u, out.clear(&u, row)));
    }
    assert forall|i: int, j: int|
        0 <= i < out.s2@.len() && 0 <= j < out.s2@[i]@.len() implies #[trigger] out.depths(
        &Units,
    )[i][j] == Dimension::Power(0) by {
        lemma_largest_unit(m1);
        let row = out.s2@[i]@[j]@;
        assert(out.means2(&u)[i][j] == mean_of(&u, out.clear(&u, row)));
    }
}

} // verus!
