//! The operators of comparison on values.

use core::cmp::Ordering;
use vstd::prelude::*;
use vstd::std_specs::cmp::{PartialEqSpec, PartialOrdSpec};
use crate::floats::Comparison;
use crate::value::{Data, order_is_antisymmetric, order_of, values_equal};

verus! {

impl PartialEq for Data {
    fn eq(&self, other: &Data) -> (r: bool) {
        self.equals(other)
    }
}

impl vstd::std_specs::cmp::PartialEqSpecImpl for Data {
    open spec fn obeys_eq_spec() -> bool {
        true
    }

    open spec fn eq_spec(&self, other: &Data) -> bool {
        values_equal(self@, other@)
    }
}

impl PartialOrd for Data {
    fn partial_cmp(&self, other: &Data) -> (r: Option<Ordering>) {
        match self.compare(other) {
            Some(Comparison::Less) => Some(Ordering::Less),
            Some(Comparison::Equal) => Some(Ordering::Equal),
            Some(Comparison::Greater) => Some(Ordering::Greater),
            None => None,
        }
    }
}

impl vstd::std_specs::cmp::PartialOrdSpecImpl for Data {
    open spec fn obeys_partial_cmp_spec() -> bool {
        true
    }

    open spec fn partial_cmp_spec(&self, other: &Data) -> Option<Ordering> {
        match order_of(self@, other@) {
            Some(Comparison::Less) => Some(Ordering::Less),
            Some(Comparison::Equal) => Some(Ordering::Equal),
            Some(Comparison::Greater) => Some(Ordering::Greater),
            None => None,
        }
    }
}

/// The operators agree with each other and with the order of values: two values are equal where
/// they compare as equal, and exchanging them turns "less" into "greater".
pub proof fn operators_follow_the_order(a: Data, b: Data)
    ensures
        a.partial_cmp_spec(&b) == Some(Ordering::Less) <==> order_of(a@, b@) == Some(
            Comparison::Less,
        ),
        a.partial_cmp_spec(&b) == Some(Ordering::Greater) <==> order_of(a@, b@) == Some(
            Comparison::Greater,
        ),
        a.partial_cmp_spec(&b) is None <==> order_of(a@, b@) is None,
        a.eq_spec(&b) <==> a.partial_cmp_spec(&b) == Some(Ordering::Equal),
        a.partial_cmp_spec(&b) == Some(Ordering::Less) <==> b.partial_cmp_spec(&a) == Some(
            Ordering::Greater,
        ),
{
    order_is_antisymmetric(a@, b@);
}

} // verus!
