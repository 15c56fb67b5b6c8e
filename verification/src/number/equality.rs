//! Equality of numbers: that of their values. Zeros are equal whatever their signs, and
//! what is not a number equals nothing, not even itself.
use crate::number::binary::{Binary, Binary32, Binary64};
use vstd::prelude::*;
use vstd::std_specs::cmp::PartialEqSpecImpl;

verus! {

impl<const F: u32, const TOP: u32> Binary<F, TOP> {
    /// Whether two numbers have the same value.
    pub open spec fn equals(self, other: Self) -> bool {
        !self.is_nan() && !other.is_nan() && self.value() == other.value()
    }

    /// Two numbers are equal exactly if they are the same, or zeros, and numbers at all.
    pub proof fn equal_numbers_are_the_same(a: Self, b: Self)
        ensures
            a.equals(b) <==> !a.is_nan() && !b.is_nan() && (a == b || a.is_zero() && b.is_zero()),
            a.equals(b) <==> b.equals(a),
    {
        Self::lemma_value_order(a, b);
        Self::lemma_value_order(b, a);
    }

    /// Whether two numbers have the same value.
    pub fn same_value(self, other: Self) -> (r: bool)
        requires
            Self::standard(),
        ensures
            r == self.equals(other),
    {
        proof {
            Self::lemma_value_order(self, other);
            Self::lemma_value_order(other, self);
        }
        if self.not_a_number() || other.not_a_number() {
            false
        } else if self.magnitude == 0 && other.magnitude == 0 {
            true
        } else {
            self.negative == other.negative && self.magnitude == other.magnitude
        }
    }
}

impl PartialEq for Binary32 {
    fn eq(&self, other: &Self) -> (r: bool) {
        self.same_value(*other)
    }
}

impl PartialEqSpecImpl for Binary32 {
    open spec fn obeys_eq_spec() -> bool {
        true
    }

    open spec fn eq_spec(&self, other: &Self) -> bool {
        self.equals(*other)
    }
}

impl PartialEq for Binary64 {
    fn eq(&self, other: &Self) -> (r: bool) {
        self.same_value(*other)
    }
}

impl PartialEqSpecImpl for Binary64 {
    open spec fn obeys_eq_spec() -> bool {
        true
    }

    open spec fn eq_spec(&self, other: &Self) -> bool {
        self.equals(*other)
    }
}

} // verus!
