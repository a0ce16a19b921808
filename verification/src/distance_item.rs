use vstd::prelude::*;
use vstd::std_specs::cmp::{PartialEqSpecImpl, PartialOrdSpecImpl};
use core::cmp::Ordering;

verus! {

/// An identifier together with the squared distance of its location from
/// some query point.
///
/// Items are compared by their distance alone: `==` holds of two items that
/// are equally far, whatever their identifiers.
#[derive(Clone, Copy, Debug)]
pub struct DistanceItem(pub u64, pub u128);

impl PartialEq for DistanceItem {
    fn eq(&self, other: &Self) -> (equal: bool) {
        self.1 == other.1
    }
}

impl PartialEqSpecImpl for DistanceItem {
    open spec fn obeys_eq_spec() -> bool {
        true
    }

    open spec fn eq_spec(&self, other: &Self) -> bool {
        self.1 == other.1
    }
}

impl Eq for DistanceItem {

}

impl PartialOrd for DistanceItem {
    fn partial_cmp(&self, other: &Self) -> (order: Option<Ordering>) {
        if self.1 < other.1 {
            Some(Ordering::Less)
        } else if self.1 > other.1 {
            Some(Ordering::Greater)
        } else {
            Some(Ordering::Equal)
        }
    }
}

impl PartialOrdSpecImpl for DistanceItem {
    open spec fn obeys_partial_cmp_spec() -> bool {
        true
    }

    open spec fn partial_cmp_spec(&self, other: &Self) -> Option<Ordering> {
        if self.1 < other.1 {
            Some(Ordering::Less)
        } else if self.1 > other.1 {
            Some(Ordering::Greater)
        } else {
            Some(Ordering::Equal)
        }
    }
}

} // verus!
