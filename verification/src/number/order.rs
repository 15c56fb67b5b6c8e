//! Comparison and what follows from it.
use crate::number::binary::Binary;
use crate::number::scale::{lemma_units_order, lemma_units_zero, power};
use vstd::prelude::*;

verus! {

impl<const F: u32, const TOP: u32> Binary<F, TOP> {
    /// Whether the number is less than another. A not-a-number compares to nothing.
    pub open spec fn below(self, other: Self) -> bool {
        !self.is_nan() && !other.is_nan() && self.value() < other.value()
    }

    /// The larger of two numbers, the other one where one is not a number.
    pub open spec fn maximum(self, other: Self) -> Self {
        if self.is_nan() || self.below(other) {
            other
        } else {
            self
        }
    }

    /// The smaller of two numbers, the other one where one is not a number.
    pub open spec fn minimum(self, other: Self) -> Self {
        if self.is_nan() || other.below(self) {
            other
        } else {
            self
        }
    }

    /// The number moved into the interval from `low` to `high`.
    pub open spec fn clamped(self, low: Self, high: Self) -> Self {
        if self.below(low) {
            low
        } else if high.below(self) {
            high
        } else {
            self
        }
    }

    /// The number without its sign.
    pub open spec fn size(self) -> Self {
        Binary { negative: false, magnitude: self.magnitude }
    }

    /// Values compare as signed positions do.
    pub proof fn lemma_value_order(a: Self, b: Self)
        ensures
            a.value() < b.value() <==> if a.negative {
                if b.negative {
                    b.magnitude < a.magnitude
                } else {
                    !a.is_zero() || !b.is_zero()
                }
            } else {
                !b.negative && a.magnitude < b.magnitude
            },
            a.is_zero() <==> a.value() == 0real,
            a.value() >= 0real <==> (!a.negative || a.is_zero()),
    {
        Self::lemma_unit();
        lemma_units_zero(F as nat);
        lemma_units_order(F as nat, a.magnitude as nat, b.magnitude as nat);
        lemma_units_order(F as nat, 0, a.magnitude as nat);
        lemma_units_order(F as nat, 0, b.magnitude as nat);
        let u = power(-(Self::scale() as int));
        let (x, y) = (a.units() as real, b.units() as real);
        assert(0real * u == 0real) by (nonlinear_arith);
        assert(x > 0real ==> x * u > 0real) by (nonlinear_arith)
            requires
                u > 0real,
        ;
        assert(y > 0real ==> y * u > 0real) by (nonlinear_arith)
            requires
                u > 0real,
        ;
        assert(x < y ==> x * u < y * u) by (nonlinear_arith)
            requires
                u > 0real,
        ;
        assert(y < x ==> y * u < x * u) by (nonlinear_arith)
            requires
                u > 0real,
        ;
    }

    /// The larger and the smaller of two numbers are one each of them, in order; where one
    /// is not a number, both are the other one.
    pub proof fn choices_are_in_order(a: Self, b: Self)
        ensures
            a.maximum(b) == a || a.maximum(b) == b,
            a.minimum(b) == a || a.minimum(b) == b,
            !a.is_nan() && !b.is_nan() ==> {
                &&& a.maximum(b).value() >= a.value() && a.maximum(b).value() >= b.value()
                &&& a.minimum(b).value() <= a.value() && a.minimum(b).value() <= b.value()
            },
            a.is_nan() ==> a.maximum(b) == b && a.minimum(b) == b,
            b.is_nan() && !a.is_nan() ==> a.maximum(b) == a && a.minimum(b) == a,
    {
    }

    /// A number that is moved into an interval ends up in it, as near as it was; one that
    /// was in it stays.
    pub proof fn clamping_moves_no_further_than_needed(self, low: Self, high: Self)
        requires
            !low.is_nan(),
            !high.is_nan(),
            low.value() <= high.value(),
        ensures
            self.is_nan() ==> self.clamped(low, high) == self,
            !self.is_nan() && self.value() < low.value() ==> self.clamped(low, high) == low,
            !self.is_nan() && self.value() > high.value() ==> self.clamped(low, high) == high,
            low.value() <= self.value() <= high.value() ==> self.clamped(low, high) == self,
    {
    }

    /// Whether the number is less than another.
    pub fn less_than(self, other: Self) -> (r: bool)
        requires
            Self::standard(),
        ensures
            r == self.below(other),
    {
        proof {
            Self::lemma_value_order(self, other);
        }
        if self.not_a_number() || other.not_a_number() {
            false
        } else if self.negative {
            if other.negative {
                other.magnitude < self.magnitude
            } else {
                self.magnitude != 0 || other.magnitude != 0
            }
        } else {
            !other.negative && self.magnitude < other.magnitude
        }
    }

    /// The larger of two numbers.
    pub fn larger(self, other: Self) -> (r: Self)
        requires
            Self::standard(),
        ensures
            r == self.maximum(other),
    {
        if self.not_a_number() || self.less_than(other) {
            other
        } else {
            self
        }
    }

    /// The smaller of two numbers.
    pub fn smaller(self, other: Self) -> (r: Self)
        requires
            Self::standard(),
        ensures
            r == self.minimum(other),
    {
        if self.not_a_number() || other.less_than(self) {
            other
        } else {
            self
        }
    }

    /// The number moved into the interval from `low` to `high`.
    pub fn clamp_to(self, low: Self, high: Self) -> (r: Self)
        requires
            Self::standard(),
            !low.is_nan(),
            !high.is_nan(),
            low.value() <= high.value(),
        ensures
            r == self.clamped(low, high),
            !self.is_nan() ==> !r.is_nan() && low.value() <= r.value() <= high.value(),
    {
        if self.less_than(low) {
            low
        } else if high.less_than(self) {
            high
        } else {
            self
        }
    }

    /// The number without its sign.
    pub fn without_sign(self) -> (r: Self)
        ensures
            r == self.size(),
    {
        Binary { negative: false, magnitude: self.magnitude }
    }
}

} // verus!
