use vstd::prelude::*;
use crate::distance_item::DistanceItem;
use crate::geometry::Point;
use crate::mesh::{counting, end_points, line_list, LineMesh};
use crate::nearest_set::BoundedNearestSet;
use crate::node::{link_leveled, link_shape, Node};
use crate::partition::{lemma_segment_count, partition_lines, Segment};
use crate::search::{n_nearest_below, nearest_below};
use crate::shape::{
    is_n_nearest, is_nearest, lemma_distances_len, lemma_inserted_entries,
    lemma_inserted_ordered, Entry, Shape,
};

verus! {

/// A spatial index over points of the plane: a two-dimensional tree that
/// branches on x at even depths and on y at odd depths.
///
/// Entries are only ever added. Queries take the index by shared reference
/// and an insertion takes it by unique reference, so that any number of
/// readers, or one writer, can hold it at a time.
#[derive(Debug)]
pub struct TwoDTree {
    root: Option<Box<Node>>,
    len: usize,
}

impl View for TwoDTree {
    type V = Shape;

    closed spec fn view(&self) -> Shape {
        link_shape(self.root)
    }
}

impl TwoDTree {
    #[verifier::type_invariant]
    spec fn well_formed(self) -> bool {
        &&& link_leveled(self.root, 0)
        &&& link_shape(self.root).ordered(0)
        &&& self.len == link_shape(self.root).size()
    }

    /// An index without entries.
    pub fn new() -> (tree: Self)
        ensures
            tree@ == Shape::Empty,
    {
        TwoDTree { root: None, len: 0 }
    }

    /// The number of entries.
    pub fn len(&self) -> (n: usize)
        ensures
            n == self@.size(),
    {
        proof {
            use_type_invariant(self);
        }
        self.len
    }

    /// Whether the index holds no entry.
    pub fn is_empty(&self) -> (empty: bool)
        ensures
            empty == (self@ is Empty),
    {
        self.root.is_none()
    }

    /// Adds the entry `(id, point)` at the first free place on the descent
    /// from the root towards `point`, and says that it did. Equal points are
    /// kept side by side.
    ///
    /// The entries are counted in a `usize`, which sets the limit to their
    /// number.
    pub fn insert(&mut self, id: u64, point: Point) -> (inserted: bool)
        requires
            old(self)@.size() < usize::MAX,
        ensures
            inserted,
            final(self)@ == old(self)@.inserted(Entry { id, location: point }, 0),
    {
        proof {
            use_type_invariant(&*self);
        }
        let ghost before = link_shape(self.root);
        let ghost entry = Entry { id, location: point };
        let mut taken = TwoDTree::new();
        core::mem::swap(self, &mut taken);
        let TwoDTree { root: mut root, len } = taken;
        Node::attach(&mut root, id, point, 0);
        proof {
            lemma_inserted_entries(before, entry, 0);
            lemma_inserted_ordered(before, entry, 0);
        }
        *self = TwoDTree { root, len: len + 1 };
        true
    }

    /// The entry closest to `point`, as its identifier and its squared
    /// distance from `point`; `None` where the index is empty. Of several
    /// equally close entries it is one of them.
    pub fn _nearest_neighboor_search(&self, point: Point) -> (nearest: Option<(u64, u128)>)
        ensures
            nearest is None <==> self@ is Empty,
            nearest matches Some(found) ==> is_nearest(
                self@.distances(point),
                DistanceItem(found.0, found.1),
            ),
    {
        proof {
            use_type_invariant(self);
        }
        match &self.root {
            None => None,
            Some(root) => Some(nearest_below(&**root, point)),
        }
    }

    /// The `n` entries closest to `point`, each as its identifier and its
    /// squared distance from `point`; all entries where the index holds fewer
    /// than `n`; `None` where the index is empty or `n` is 0. Which of
    /// several equally close entries are among them is left open.
    pub fn n_nearest_neighboors_search(&self, point: Point, n: usize) -> (nearest: Option<
        BoundedNearestSet,
    >)
        ensures
            nearest is None <==> self@ is Empty || n == 0,
            nearest matches Some(found) ==> {
                &&& found.limit() == n
                &&& found@.len() == if n <= self@.size() {
                    n as nat
                } else {
                    self@.size()
                }
                &&& is_n_nearest(self@.distances(point), n as nat, found@)
            },
    {
        proof {
            use_type_invariant(self);
            lemma_distances_len(self@, point);
        }
        if n == 0 {
            return None;
        }
        match &self.root {
            None => None,
            Some(root) => Some(n_nearest_below(&**root, point, n)),
        }
    }

    /// The splitting line of every entry, clipped to the rectangle that the
    /// entries above it leave to it: the picture of how the index divides the
    /// plane. `None` where the index is empty.
    pub fn boundary_lines(&self) -> (lines: Option<Vec<Segment>>)
        ensures
            lines is None <==> self@ is Empty,
            lines matches Some(found) ==> found@ == self@.boundary_segments(),
    {
        proof {
            use_type_invariant(self);
        }
        match &self.root {
            None => None,
            Some(root) => Some(partition_lines(&**root)),
        }
    }

    /// The boundary lines as the data of a line mesh; `None` where the index
    /// is empty.
    ///
    /// The places of the end points are counted in 32 bits, which sets the
    /// limit to the number of entries.
    pub fn as_mesh(&self) -> (mesh: Option<LineMesh>)
        requires
            self@.size() <= 0x7FFF_FFFF,
        ensures
            mesh is None <==> self@ is Empty,
            mesh matches Some(found) ==> {
                &&& found.vertices@ == end_points(self@.boundary_segments())
                &&& found.indices@ == counting(2 * self@.size())
            },
    {
        proof {
            lemma_segment_count(self@);
        }
        match self.boundary_lines() {
            None => None,
            Some(lines) => Some(line_list(&lines)),
        }
    }
}

} // verus!
