//! Equality, ordering and conversion for [`Amount`], all by value.
use crate::amount::{decimal_eq, decimal_from_i64, decimal_lt, Amount};
use core::cmp::Ordering;
use vstd::prelude::*;

verus! {

impl PartialEq for Amount {
    fn eq(&self, other: &Amount) -> (r: bool) {
        decimal_eq(*self, *other)
    }
}

impl vstd::std_specs::cmp::PartialEqSpecImpl for Amount {
    open spec fn obeys_eq_spec() -> bool {
        true
    }

    open spec fn eq_spec(&self, other: &Amount) -> bool {
        self.value() == other.value()
    }
}

impl Eq for Amount {
}

impl PartialOrd for Amount {
    fn partial_cmp(&self, other: &Amount) -> (r: Option<Ordering>) {
        if decimal_lt(*self, *other) {
            Some(Ordering::Less)
        } else if decimal_eq(*self, *other) {
            Some(Ordering::Equal)
        } else {
            Some(Ordering::Greater)
        }
    }
}

impl vstd::std_specs::cmp::PartialOrdSpecImpl for Amount {
    open spec fn obeys_partial_cmp_spec() -> bool {
        true
    }

    open spec fn partial_cmp_spec(&self, other: &Amount) -> Option<Ordering> {
        if self.value() < other.value() {
            Some(Ordering::Less)
        } else if self.value() == other.value() {
            Some(Ordering::Equal)
        } else {
            Some(Ordering::Greater)
        }
    }
}

impl From<i64> for Amount {
    fn from(v: i64) -> (r: Amount) {
        decimal_from_i64(v)
    }
}

impl vstd::std_specs::convert::FromSpecImpl<i64> for Amount {
    open spec fn obeys_from_spec() -> bool {
        true
    }

    open spec fn from_spec(v: i64) -> Amount {
        Amount::integer(v as int)
    }
}

} // verus!
