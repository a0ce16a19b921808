use vstd::prelude::*;
use crate::geometry::{axis_coord, Point};
use crate::shape::{Entry, Shape};

verus! {

/// One inserted entry, with the subtrees on its two sides.
#[derive(Debug)]
pub(crate) struct Node {
    pub(crate) id: u64,
    pub(crate) location: Point,
    pub(crate) depth: usize,
    pub(crate) lesser: Option<Box<Node>>,
    pub(crate) greater: Option<Box<Node>>,
}

/// The model of an optional subtree.
pub(crate) open spec fn link_shape(link: Option<Box<Node>>) -> Shape
    decreases link,
{
    match link {
        None => Shape::Empty,
        Some(node) => node.shape(),
    }
}

/// Every node of an optional subtree, whose root is `depth` steps from the
/// root of the whole tree, records its own distance from that root.
pub(crate) open spec fn link_leveled(link: Option<Box<Node>>, depth: nat) -> bool
    decreases link,
{
    match link {
        None => true,
        Some(node) => node.depth == depth && node.leveled(),
    }
}

impl Node {
    pub(crate) open spec fn entry(self) -> Entry {
        Entry { id: self.id, location: self.location }
    }

    pub(crate) open spec fn shape(self) -> Shape
        decreases self,
    {
        Shape::Split {
            entry: self.entry(),
            lesser: Box::new(link_shape(self.lesser)),
            greater: Box::new(link_shape(self.greater)),
        }
    }

    pub(crate) open spec fn leveled(self) -> bool
        decreases self,
    {
        &&& link_leveled(self.lesser, (self.depth + 1) as nat)
        &&& link_leveled(self.greater, (self.depth + 1) as nat)
    }

    /// A node without children.
    pub(crate) fn new(id: u64, point: Point, depth: usize) -> (node: Node)
        ensures
            node.leveled(),
            node.depth == depth,
            node.shape() == Shape::leaf(Entry { id, location: point }),
    {
        Node { id, location: point, depth, lesser: None, greater: None }
    }

    /// Whether a descent towards `point` goes on in the lesser side of this
    /// node.
    pub(crate) fn takes_lesser(&self, point: Point) -> (lesser: bool)
        ensures
            lesser == Shape::goes_lesser(point, self.location, self.depth as nat),
    {
        axis_coord(point, self.depth) <= axis_coord(self.location, self.depth)
    }

    /// Descends from `link`, the root of which is at `depth`, to the first
    /// free place on the way towards `point`, and attaches a new leaf there.
    pub(crate) fn attach(link: &mut Option<Box<Node>>, id: u64, point: Point, depth: usize)
        requires
            link_leveled(*old(link), depth as nat),
            depth + link_shape(*old(link)).size() < usize::MAX,
        ensures
            link_leveled(*final(link), depth as nat),
            link_shape(*final(link)) == link_shape(*old(link)).inserted(
                Entry { id, location: point },
                depth as nat,
            ),
    {
        let ghost entry = Entry { id, location: point };
        let mut root: Option<Box<Node>> = link.take();
        let mut place: &mut Option<Box<Node>> = &mut root;
        let mut level: usize = depth;
        // What `place` will hold in the end decides what `root` will hold:
        // once the entry is attached below `place`, it is attached below
        // `root`.
        while place.is_some()
            invariant
                entry == (Entry { id, location: point }),
                link_leveled(*place, level as nat),
                level + link_shape(*place).size() < usize::MAX,
                link_leveled(*final(place), level as nat) && link_shape(*final(place))
                    == link_shape(*place).inserted(entry, level as nat) ==> link_leveled(
                    after_borrow(root),
                    depth as nat,
                ) && link_shape(after_borrow(root)) == link_shape(*old(link)).inserted(
                    entry,
                    depth as nat,
                ),
            decreases link_shape(*place).size(),
        {
            let node: &mut Box<Node> = place.as_mut().unwrap();
            level = node.depth + 1;
            if node.takes_lesser(point) {
                place = &mut node.lesser;
            } else {
                place = &mut node.greater;
            }
        }
        *place = Some(Box::new(Node::new(id, point, level)));
        *link = root;
    }
}

} // verus!
