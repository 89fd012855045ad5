//! Single precision scores and the operations on them.
//!
//! A score is an IEEE 754 single precision number, held by its bit pattern.
//! Comparing two scores is done here, on the bit patterns. Computing with them
//! is left to an evaluator, a closure that carries out one [`FloatOp`] at a
//! time: the library decides which operations are applied to which operands,
//! in which order, and what is done with the results.
use vstd::prelude::*;
use std::cmp::Ordering;

verus! {

/// A single precision number, given by its bit pattern.
#[derive(Clone, Copy, Debug)]
pub struct Score {
    pub bits: u32,
}

/// One floating-point operation.
#[derive(Clone, Copy, Debug)]
pub enum FloatOp {
    /// The single precision number nearest to a whole number.
    Whole(u128),
    /// Sum.
    Plus(Score, Score),
    /// Difference: the first operand less the second.
    Minus(Score, Score),
    /// Product.
    Times(Score, Score),
    /// Quotient: the first operand by the second.
    Over(Score, Score),
    /// Logarithm of the first operand to the base of the second.
    Log(Score, Score),
}

/// Sign bit of a pattern.
pub const SIGN: u32 = 0x8000_0000;

/// Pattern of positive infinity: a magnitude above it is not a number.
pub const INFINITY: u32 = 0x7f80_0000;

/// Bit pattern of 0.951: only queries nearer than this are candidates.
pub const DIST_THRESH: u32 = 0x3f73_74bc;

/// Bit pattern of 1.0.
pub const ONE: u32 = 0x3f80_0000;

/// Bit pattern of 2.0.
pub const TWO: u32 = 0x4000_0000;

/// Bit pattern of 100.0.
pub const HUNDRED: u32 = 0x42c8_0000;

/// A mathematical function on operations, which an evaluator may compute.
pub type Arithmetic = spec_fn(FloatOp) -> Score;

/// Every result that `float` can give is the one that `g` names.
pub open spec fn computes<F: Fn(FloatOp) -> Score>(float: F, g: Arithmetic) -> bool {
    forall|op: FloatOp, r: Score| #[trigger] float.ensures((op,), r) ==> r == g(op)
}

/// `float` takes every operation.
pub open spec fn takes_all<F: Fn(FloatOp) -> Score>(float: F) -> bool {
    forall|op: FloatOp| #[trigger] float.requires((op,))
}

/// The score with the given bit pattern.
pub open spec fn score(bits: u32) -> Score {
    Score { bits }
}

/// The number zero.
pub open spec fn zero() -> Score {
    Score { bits: 0 }
}

impl Score {
    /// Pattern without its sign bit.
    pub open spec fn magnitude(self) -> int {
        if self.bits < SIGN {
            self.bits as int
        } else {
            self.bits - SIGN
        }
    }

    /// Place of the number among all numbers. Both zeros have place 0.
    pub open spec fn place(self) -> int {
        if self.bits < SIGN {
            self.magnitude()
        } else {
            -self.magnitude()
        }
    }

    /// The pattern stands for no number, and is unordered with every score.
    pub open spec fn is_nan(self) -> bool {
        self.magnitude() > INFINITY
    }

    /// The two patterns stand for the same number.
    pub open spec fn same(self, other: Score) -> bool {
        !self.is_nan() && !other.is_nan() && self.place() == other.place()
    }

    /// The first number is the smaller one.
    pub open spec fn below(self, other: Score) -> bool {
        !self.is_nan() && !other.is_nan() && self.place() < other.place()
    }

    /// How two scores compare, if at all.
    pub open spec fn compare(self, other: Score) -> Option<Ordering> {
        if self.below(other) {
            Some(Ordering::Less)
        } else if self.same(other) {
            Some(Ordering::Equal)
        } else if other.below(self) {
            Some(Ordering::Greater)
        } else {
            None
        }
    }

    /// The larger of two scores: the second one unless the first is above it.
    pub open spec fn larger(self, other: Score) -> Score {
        if other.below(self) {
            self
        } else {
            other
        }
    }

    /// The smaller of two scores: the second one unless the first is below it.
    pub open spec fn smaller(self, other: Score) -> Score {
        if self.below(other) {
            self
        } else {
            other
        }
    }

    /// Computes [`Score::is_nan`].
    pub fn not_a_number(self) -> (r: bool)
        ensures
            r == self.is_nan(),
    {
        let magnitude: u32 = if self.bits < SIGN {
            self.bits
        } else {
            self.bits - SIGN
        };
        magnitude > INFINITY
    }

    /// Computes [`Score::place`].
    pub fn position(self) -> (r: i64)
        ensures
            r == self.place(),
    {
        if self.bits < SIGN {
            self.bits as i64
        } else {
            -((self.bits - SIGN) as i64)
        }
    }

    /// Computes [`Score::larger`].
    pub fn max(self, other: Score) -> (r: Score)
        ensures
            r == self.larger(other),
    {
        if self > other {
            self
        } else {
            other
        }
    }

    /// Computes [`Score::smaller`].
    pub fn min(self, other: Score) -> (r: Score)
        ensures
            r == self.smaller(other),
    {
        if self < other {
            self
        } else {
            other
        }
    }
}

impl PartialEq for Score {
    fn eq(&self, other: &Score) -> (r: bool) {
        !self.not_a_number() && !other.not_a_number() && self.position() == other.position()
    }
}

impl vstd::std_specs::cmp::PartialEqSpecImpl for Score {
    open spec fn obeys_eq_spec() -> bool {
        true
    }

    open spec fn eq_spec(&self, other: &Score) -> bool {
        self.same(*other)
    }
}

impl PartialOrd for Score {
    fn partial_cmp(&self, other: &Score) -> (r: Option<Ordering>) {
        if self.not_a_number() || other.not_a_number() {
            None
        } else if self.position() < other.position() {
            Some(Ordering::Less)
        } else if self.position() == other.position() {
            Some(Ordering::Equal)
        } else {
            Some(Ordering::Greater)
        }
    }
}

impl vstd::std_specs::cmp::PartialOrdSpecImpl for Score {
    open spec fn obeys_partial_cmp_spec() -> bool {
        true
    }

    open spec fn partial_cmp_spec(&self, other: &Score) -> Option<Ordering> {
        self.compare(*other)
    }
}

/// Scores that are numbers are totally ordered: of two of them, exactly one is
/// below the other or they are the same, and being below is transitive and
/// respects being the same.
pub proof fn law_numbers_are_totally_ordered(a: Score, b: Score, c: Score)
    requires
        !a.is_nan(),
        !b.is_nan(),
        !c.is_nan(),
    ensures
        a.below(b) || a.same(b) || b.below(a),
        !(a.below(b) && b.below(a)),
        a.same(b) ==> b.same(a) && !a.below(b) && !b.below(a),
        a.same(a),
        a.same(b) && b.same(c) ==> a.same(c),
        a.below(b) && b.below(c) ==> a.below(c),
        a.below(b) && b.same(c) ==> a.below(c),
        a.same(b) && b.below(c) ==> a.below(c),
{
}

/// A score that is not a number is unordered with every score, itself too.
pub proof fn law_not_a_number_is_unordered(a: Score, b: Score)
    requires
        a.is_nan(),
    ensures
        a.compare(b) is None,
        b.compare(a) is None,
        !a.same(b),
        !b.same(a),
{
}

/// The larger and the smaller of two numbers bound both of them, and each is
/// one of the two.
pub proof fn law_larger_and_smaller_bound(a: Score, b: Score)
    requires
        !a.is_nan(),
        !b.is_nan(),
    ensures
        !a.larger(b).below(a) && !a.larger(b).below(b),
        !a.below(a.smaller(b)) && !b.below(a.smaller(b)),
        a.larger(b) == a || a.larger(b) == b,
        a.smaller(b) == a || a.smaller(b) == b,
{
}

} // verus!
