use vstd::prelude::*;
use vstd::multiset::Multiset;
use crate::distance_item::DistanceItem;
use crate::nearest_set::BoundedNearestSet;
use crate::shape::Shape;
use crate::tree::TwoDTree;

verus! {

/// The spatial indexes of the editor.
#[derive(Debug)]
pub struct Trees {
    pub kd: TwoDTree,
}

impl Default for Trees {
    fn default() -> (trees: Self)
        ensures
            trees.kd@ == Shape::Empty,
    {
        Trees { kd: TwoDTree::new() }
    }
}

/// The items that were nearest to the pointer when it last moved.
#[derive(Debug)]
pub struct NearestPoints {
    pub heap: BoundedNearestSet,
}

impl Default for NearestPoints {
    fn default() -> (nearest: Self)
        ensures
            nearest.heap@ == Multiset::<DistanceItem>::empty(),
    {
        NearestPoints { heap: BoundedNearestSet::new() }
    }
}

} // verus!
