use vstd::prelude::*;
use vstd::multiset::Multiset;
use crate::distance_item::DistanceItem;
use crate::geometry::{axis_of, coord, dist_sq, lemma_square_bound, Point};

verus! {

/// An identifier together with the location it was inserted at.
#[derive(Clone, Copy, Debug, PartialEq, Eq, Structural)]
pub struct Entry {
    pub id: u64,
    pub location: Point,
}

/// The distance item that `entry` gives for the query point `query`.
pub open spec fn measured(entry: Entry, query: Point) -> DistanceItem {
    DistanceItem(entry.id, dist_sq(entry.location, query) as u128)
}

/// The squared distance in a distance item is the exact one.
pub proof fn lemma_measured_exact(entry: Entry, query: Point)
    ensures
        measured(entry, query).0 == entry.id,
        measured(entry, query).1 == dist_sq(entry.location, query),
{
    lemma_square_bound(entry.location.x as int, query.x as int);
    lemma_square_bound(entry.location.y as int, query.y as int);
}

/// Whether `best` is an item of the scan `all` that none is closer than.
pub open spec fn is_nearest(all: Multiset<DistanceItem>, best: DistanceItem) -> bool {
    &&& all.count(best) > 0
    &&& forall|other: DistanceItem| #[trigger] all.count(other) > 0 ==> best.1 <= other.1
}

/// Whether no item of `near` is farther than any item of `far`.
pub open spec fn none_farther(near: Multiset<DistanceItem>, far: Multiset<DistanceItem>) -> bool {
    forall|a: DistanceItem, b: DistanceItem|
        #![trigger near.count(a), far.count(b)]
        near.count(a) > 0 && far.count(b) > 0 ==> a.1 <= b.1
}

/// Whether `chosen` holds the `n` closest items of the scan `all`, or all of
/// them where there are fewer than `n`. Which of several equally far items
/// are chosen is left open.
pub open spec fn is_n_nearest(
    all: Multiset<DistanceItem>,
    n: nat,
    chosen: Multiset<DistanceItem>,
) -> bool {
    &&& chosen.subset_of(all)
    &&& chosen.len() == if n <= all.len() {
        n
    } else {
        all.len()
    }
    &&& none_farther(chosen, all.sub(chosen))
}

/// The mathematical model of a two-dimensional tree: which entry sits where.
///
/// The depth of a node is not part of the model; it is the number of steps
/// from the root, and the functions below take the depth of the root of the
/// subtree they are applied to.
pub enum Shape {
    Empty,
    Split { entry: Entry, lesser: Box<Shape>, greater: Box<Shape> },
}

impl Shape {
    /// A tree of one entry.
    pub open spec fn leaf(entry: Entry) -> Shape {
        Shape::Split { entry, lesser: Box::new(Shape::Empty), greater: Box::new(Shape::Empty) }
    }

    /// The number of entries.
    pub open spec fn size(self) -> nat
        decreases self,
    {
        match self {
            Shape::Empty => 0,
            Shape::Split { entry, lesser, greater } => 1 + lesser.size() + greater.size(),
        }
    }

    /// The entries, each as often as it was inserted.
    pub open spec fn entries(self) -> Multiset<Entry>
        decreases self,
    {
        match self {
            Shape::Empty => Multiset::empty(),
            Shape::Split { entry, lesser, greater } => lesser.entries().add(
                greater.entries(),
            ).insert(entry),
        }
    }

    /// What a scan over all entries yields for the query point `query`: for
    /// each entry its identifier and squared distance.
    pub open spec fn distances(self, query: Point) -> Multiset<DistanceItem>
        decreases self,
    {
        match self {
            Shape::Empty => Multiset::empty(),
            Shape::Split { entry, lesser, greater } => lesser.distances(query).add(
                greater.distances(query),
            ).insert(measured(entry, query)),
        }
    }

    /// Every entry has a coordinate on `axis` of at most `bound`.
    pub open spec fn all_at_most(self, axis: nat, bound: int) -> bool
        decreases self,
    {
        match self {
            Shape::Empty => true,
            Shape::Split { entry, lesser, greater } => {
                &&& coord(entry.location, axis) <= bound
                &&& lesser.all_at_most(axis, bound)
                &&& greater.all_at_most(axis, bound)
            },
        }
    }

    /// Every entry has a coordinate on `axis` above `bound`.
    pub open spec fn all_above(self, axis: nat, bound: int) -> bool
        decreases self,
    {
        match self {
            Shape::Empty => true,
            Shape::Split { entry, lesser, greater } => {
                &&& coord(entry.location, axis) > bound
                &&& lesser.all_above(axis, bound)
                &&& greater.all_above(axis, bound)
            },
        }
    }

    /// The search-tree order of a subtree whose root is at `depth`: on the
    /// axis of a node, no entry of its lesser side lies above the node, and
    /// every entry of its greater side does.
    pub open spec fn ordered(self, depth: nat) -> bool
        decreases self,
    {
        match self {
            Shape::Empty => true,
            Shape::Split { entry, lesser, greater } => {
                &&& lesser.all_at_most(axis_of(depth), coord(entry.location, axis_of(depth)))
                &&& greater.all_above(axis_of(depth), coord(entry.location, axis_of(depth)))
                &&& lesser.ordered(depth + 1)
                &&& greater.ordered(depth + 1)
            },
        }
    }

    /// Whether a point at `point` belongs to the lesser side of a node at
    /// `depth` that sits at `at`.
    pub open spec fn goes_lesser(point: Point, at: Point, depth: nat) -> bool {
        coord(point, axis_of(depth)) <= coord(at, axis_of(depth))
    }

    /// The tree after `entry` was attached to a subtree whose root is at
    /// `depth`: the descent takes the lesser side where the new coordinate is
    /// not above the node's, the greater side else, and the entry fills the
    /// first free place.
    pub open spec fn inserted(self, entry: Entry, depth: nat) -> Shape
        decreases self,
    {
        match self {
            Shape::Empty => Shape::leaf(entry),
            Shape::Split { entry: here, lesser, greater } => {
                if Shape::goes_lesser(entry.location, here.location, depth) {
                    Shape::Split {
                        entry: here,
                        lesser: Box::new(lesser.inserted(entry, depth + 1)),
                        greater,
                    }
                } else {
                    Shape::Split {
                        entry: here,
                        lesser,
                        greater: Box::new(greater.inserted(entry, depth + 1)),
                    }
                }
            },
        }
    }

    /// The tree that inserting `entries` one after the other into an empty
    /// index gives.
    pub open spec fn built(entries: Seq<Entry>) -> Shape
        decreases entries.len(),
    {
        if entries.len() == 0 {
            Shape::Empty
        } else {
            Shape::built(entries.drop_last()).inserted(entries.last(), 0)
        }
    }

    /// The side of a node at `depth` that a descent towards `query` leaves
    /// aside.
    pub open spec fn far_side(self, query: Point, depth: nat) -> Shape {
        match self {
            Shape::Empty => Shape::Empty,
            Shape::Split { entry, lesser, greater } => if Shape::goes_lesser(
                query,
                entry.location,
                depth,
            ) {
                *greater
            } else {
                *lesser
            },
        }
    }
}

/// A scan yields one distance item for each entry.
pub proof fn lemma_distances_len(shape: Shape, query: Point)
    ensures
        shape.distances(query).len() == shape.size(),
        shape.entries().len() == shape.size(),
    decreases shape,
{
    match shape {
        Shape::Empty => {},
        Shape::Split { entry, lesser, greater } => {
            lemma_distances_len(*lesser, query);
            lemma_distances_len(*greater, query);
        },
    }
}

/// Attaching an entry adds it to the entries and changes nothing else.
pub proof fn lemma_inserted_entries(shape: Shape, entry: Entry, depth: nat)
    ensures
        shape.inserted(entry, depth).entries() =~= shape.entries().insert(entry),
        shape.inserted(entry, depth).size() == shape.size() + 1,
    decreases shape,
{
    match shape {
        Shape::Empty => {},
        Shape::Split { entry: here, lesser, greater } => {
            lemma_inserted_entries(*lesser, entry, depth + 1);
            lemma_inserted_entries(*greater, entry, depth + 1);
        },
    }
}

/// Attaching an entry adds its distance item to the scan for every query.
pub proof fn lemma_inserted_distances(shape: Shape, entry: Entry, depth: nat, query: Point)
    ensures
        shape.inserted(entry, depth).distances(query) =~= shape.distances(query).insert(
            measured(entry, query),
        ),
    decreases shape,
{
    match shape {
        Shape::Empty => {},
        Shape::Split { entry: here, lesser, greater } => {
            lemma_inserted_distances(*lesser, entry, depth + 1, query);
            lemma_inserted_distances(*greater, entry, depth + 1, query);
        },
    }
}

/// A bound that holds of a subtree and of a new entry holds after the entry
/// was attached.
pub proof fn lemma_inserted_bounds(shape: Shape, entry: Entry, depth: nat, axis: nat, bound: int)
    ensures
        shape.all_at_most(axis, bound) && coord(entry.location, axis) <= bound
            ==> shape.inserted(entry, depth).all_at_most(axis, bound),
        shape.all_above(axis, bound) && coord(entry.location, axis) > bound
            ==> shape.inserted(entry, depth).all_above(axis, bound),
    decreases shape,
{
    match shape {
        Shape::Empty => {},
        Shape::Split { entry: here, lesser, greater } => {
            lemma_inserted_bounds(*lesser, entry, depth + 1, axis, bound);
            lemma_inserted_bounds(*greater, entry, depth + 1, axis, bound);
        },
    }
}

/// Attaching an entry keeps the search-tree order.
pub proof fn lemma_inserted_ordered(shape: Shape, entry: Entry, depth: nat)
    requires
        shape.ordered(depth),
    ensures
        shape.inserted(entry, depth).ordered(depth),
    decreases shape,
{
    match shape {
        Shape::Empty => {
            let axis = axis_of(depth);
            let bound = coord(entry.location, axis);
            assert(Shape::Empty.ordered(depth + 1));
        },
        Shape::Split { entry: here, lesser, greater } => {
            let axis = axis_of(depth);
            let bound = coord(here.location, axis);
            if Shape::goes_lesser(entry.location, here.location, depth) {
                lemma_inserted_ordered(*lesser, entry, depth + 1);
                lemma_inserted_bounds(*lesser, entry, depth + 1, axis, bound);
            } else {
                lemma_inserted_ordered(*greater, entry, depth + 1);
                lemma_inserted_bounds(*greater, entry, depth + 1, axis, bound);
            }
        },
    }
}

} // verus!
