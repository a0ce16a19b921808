use vstd::prelude::*;
use crate::geometry::{axis_of, Point, DIMENSION};
use crate::node::{link_leveled, link_shape, Node};
use crate::shape::Shape;

verus! {

/// The rectangle that a node's splitting line is clipped to: the largest x
/// and y, then the least x and y, that the node's ancestors leave to it.
#[derive(Clone, Copy, Debug, PartialEq, Eq, Structural)]
pub struct Limits {
    pub east: i32,
    pub north: i32,
    pub west: i32,
    pub south: i32,
}

/// A line segment between two points.
#[derive(Clone, Copy, Debug, PartialEq, Eq, Structural)]
pub struct Segment {
    pub from: Point,
    pub to: Point,
}

/// The rectangle of the root: the whole grid.
pub open spec fn unbounded() -> Limits {
    Limits { east: i32::MAX, north: i32::MAX, west: i32::MIN, south: i32::MIN }
}

/// The splitting line of a node at `depth` that sits at `at`, clipped to
/// `limits`: it runs through `at`, from south to north where the node splits
/// on x, and from west to east where it splits on y.
pub open spec fn splitting_segment(at: Point, depth: nat, limits: Limits) -> Segment {
    if axis_of(depth) == 0 {
        Segment {
            from: Point { x: at.x, y: limits.south },
            to: Point { x: at.x, y: limits.north },
        }
    } else {
        Segment { from: Point { x: limits.west, y: at.y }, to: Point { x: limits.east, y: at.y } }
    }
}

/// The rectangle of a child of a node at `depth` that sits at `at`: the
/// node's rectangle with one bound moved to the node's splitting line. For
/// the lesser child that is the upper bound on the node's axis, for the
/// greater child the lower one.
pub open spec fn narrowed(limits: Limits, at: Point, depth: nat, lesser: bool) -> Limits {
    if lesser {
        if axis_of(depth) == 0 {
            Limits { east: at.x, ..limits }
        } else {
            Limits { north: at.y, ..limits }
        }
    } else {
        if axis_of(depth) == 0 {
            Limits { west: at.x, ..limits }
        } else {
            Limits { south: at.y, ..limits }
        }
    }
}

impl Shape {
    /// The number of levels.
    pub open spec fn height(self) -> nat
        decreases self,
    {
        match self {
            Shape::Empty => 0,
            Shape::Split { entry, lesser, greater } => 1 + if lesser.height() >= greater.height() {
                lesser.height()
            } else {
                greater.height()
            },
        }
    }

    /// The splitting lines of the nodes that are `level` steps below the
    /// root of this subtree, from the lesser side to the greater. The root is
    /// at `depth` and has the rectangle `limits`.
    pub open spec fn level_segments(self, depth: nat, limits: Limits, level: nat) -> Seq<Segment>
        decreases self,
    {
        match self {
            Shape::Empty => Seq::empty(),
            Shape::Split { entry, lesser, greater } => if level == 0 {
                seq![splitting_segment(entry.location, depth, limits)]
            } else {
                lesser.level_segments(
                    depth + 1,
                    narrowed(limits, entry.location, depth, true),
                    (level - 1) as nat,
                ) + greater.level_segments(
                    depth + 1,
                    narrowed(limits, entry.location, depth, false),
                    (level - 1) as nat,
                )
            },
        }
    }

    /// The splitting lines of the first `levels` levels of the tree, level
    /// by level from the root.
    pub open spec fn segments_above(self, levels: nat) -> Seq<Segment>
        decreases levels,
    {
        if levels == 0 {
            Seq::empty()
        } else {
            self.segments_above((levels - 1) as nat) + self.level_segments(
                0,
                unbounded(),
                (levels - 1) as nat,
            )
        }
    }

    /// The splitting line of every node, clipped to the rectangle that the
    /// node's ancestors leave to it, level by level from the root and within
    /// a level from the lesser side to the greater.
    pub open spec fn boundary_segments(self) -> Seq<Segment> {
        self.segments_above(self.height())
    }

    /// The number of nodes that are `level` steps below the root.
    pub open spec fn level_size(self, level: nat) -> nat
        decreases self,
    {
        match self {
            Shape::Empty => 0,
            Shape::Split { entry, lesser, greater } => if level == 0 {
                1
            } else {
                lesser.level_size((level - 1) as nat) + greater.level_size((level - 1) as nat)
            },
        }
    }

    /// The number of nodes in the first `levels` levels.
    pub open spec fn size_above(self, levels: nat) -> nat
        decreases levels,
    {
        if levels == 0 {
            0
        } else {
            self.size_above((levels - 1) as nat) + self.level_size((levels - 1) as nat)
        }
    }
}

/// A level has one splitting line for each of its nodes.
pub proof fn lemma_level_segments_len(shape: Shape, depth: nat, limits: Limits, level: nat)
    ensures
        shape.level_segments(depth, limits, level).len() == shape.level_size(level),
    decreases shape,
{
    match shape {
        Shape::Empty => {},
        Shape::Split { entry, lesser, greater } => {
            if level > 0 {
                lemma_level_segments_len(
                    *lesser,
                    depth + 1,
                    narrowed(limits, entry.location, depth, true),
                    (level - 1) as nat,
                );
                lemma_level_segments_len(
                    *greater,
                    depth + 1,
                    narrowed(limits, entry.location, depth, false),
                    (level - 1) as nat,
                );
            }
        },
    }
}

/// The first levels have one splitting line for each of their nodes.
pub proof fn lemma_segments_above_len(shape: Shape, levels: nat)
    ensures
        shape.segments_above(levels).len() == shape.size_above(levels),
    decreases levels,
{
    if levels > 0 {
        lemma_segments_above_len(shape, (levels - 1) as nat);
        lemma_level_segments_len(shape, 0, unbounded(), (levels - 1) as nat);
    }
}

/// The nodes of the first levels are the root and those of the levels above
/// the last on either side.
pub proof fn lemma_size_above_split(shape: Shape, levels: nat)
    requires
        shape is Split,
    ensures
        shape.size_above(levels + 1) == 1 + shape->lesser.size_above(levels)
            + shape->greater.size_above(levels),
    decreases levels,
{
    if levels == 0 {
        assert(shape.size_above(0) == 0);
    } else {
        lemma_size_above_split(shape, (levels - 1) as nat);
    }
}

/// Below the last level there is no node.
pub proof fn lemma_level_size_beyond(shape: Shape, level: nat)
    requires
        level >= shape.height(),
    ensures
        shape.level_size(level) == 0,
    decreases shape,
{
    match shape {
        Shape::Empty => {},
        Shape::Split { entry, lesser, greater } => {
            lemma_level_size_beyond(*lesser, (level - 1) as nat);
            lemma_level_size_beyond(*greater, (level - 1) as nat);
        },
    }
}

/// The levels of a tree hold all its nodes.
pub proof fn lemma_size_above_all(shape: Shape, levels: nat)
    requires
        levels >= shape.height(),
    ensures
        shape.size_above(levels) == shape.size(),
    decreases shape,
{
    match shape {
        Shape::Empty => {
            lemma_size_above_none(levels);
        },
        Shape::Split { entry, lesser, greater } => {
            let above = (levels - 1) as nat;
            lemma_size_above_split(shape, above);
            lemma_size_above_all(*lesser, above);
            lemma_size_above_all(*greater, above);
        },
    }
}

/// An empty tree has no node on any level.
pub proof fn lemma_size_above_none(levels: nat)
    ensures
        Shape::Empty.size_above(levels) == 0,
    decreases levels,
{
    if levels > 0 {
        lemma_size_above_none((levels - 1) as nat);
    }
}

/// Every node has exactly one splitting line.
pub proof fn lemma_segment_count(shape: Shape)
    ensures
        shape.boundary_segments().len() == shape.size(),
{
    lemma_segments_above_len(shape, shape.height());
    lemma_size_above_all(shape, shape.height());
}

/// A node with the rectangle that its ancestors leave to it.
pub(crate) type Bounded<'a> = (&'a Node, Limits);

/// The nodes `level` steps below `node`, each with its rectangle, from the
/// lesser side to the greater.
pub(crate) open spec fn frontier(node: &Node, limits: Limits, level: nat) -> Seq<Bounded>
    decreases node,
{
    if level == 0 {
        seq![(node, limits)]
    } else {
        link_frontier(
            &node.lesser,
            narrowed(limits, node.location, node.depth as nat, true),
            (level - 1) as nat,
        ) + link_frontier(
            &node.greater,
            narrowed(limits, node.location, node.depth as nat, false),
            (level - 1) as nat,
        )
    }
}

pub(crate) open spec fn link_frontier(link: &Option<Box<Node>>, limits: Limits, level: nat) -> Seq<
    Bounded,
>
    decreases link,
{
    match link {
        None => Seq::empty(),
        Some(node) => frontier(&**node, limits, level),
    }
}

/// The nodes one step below the nodes of `level_nodes`, in the same order.
pub(crate) open spec fn next_level(level_nodes: Seq<Bounded>) -> Seq<Bounded>
    decreases level_nodes.len(),
{
    if level_nodes.len() == 0 {
        Seq::empty()
    } else {
        next_level(level_nodes.drop_last()) + frontier(
            level_nodes.last().0,
            level_nodes.last().1,
            1,
        )
    }
}

/// The splitting lines of `level_nodes`, in the same order.
pub(crate) open spec fn segments_of(level_nodes: Seq<Bounded>) -> Seq<Segment> {
    Seq::new(
        level_nodes.len(),
        |i: int|
            splitting_segment(
                level_nodes[i].0.location,
                level_nodes[i].0.depth as nat,
                level_nodes[i].1,
            ),
    )
}

/// Stepping down from two runs of nodes side by side is stepping down from
/// each.
pub(crate) proof fn lemma_next_level_concat(left: Seq<Bounded>, right: Seq<Bounded>)
    ensures
        next_level(left + right) == next_level(left) + next_level(right),
    decreases right.len(),
{
    if right.len() > 0 {
        lemma_next_level_concat(left, right.drop_last());
        assert((left + right).drop_last() =~= left + right.drop_last());
    }
}

/// The nodes of a level are those one step below the nodes of the level
/// before.
pub(crate) proof fn lemma_frontier_step(node: &Node, limits: Limits, level: nat)
    ensures
        frontier(node, limits, level + 1) == next_level(frontier(node, limits, level)),
    decreases node,
{
    let here = frontier(node, limits, level);
    if level == 0 {
        assert(here.drop_last() =~= Seq::<Bounded>::empty());
        assert(next_level(Seq::<Bounded>::empty()) =~= Seq::<Bounded>::empty());
    } else {
        let lesser_limits = narrowed(limits, node.location, node.depth as nat, true);
        let greater_limits = narrowed(limits, node.location, node.depth as nat, false);
        let above = (level - 1) as nat;
        lemma_link_frontier_step(&node.lesser, lesser_limits, above);
        lemma_link_frontier_step(&node.greater, greater_limits, above);
        lemma_next_level_concat(
            link_frontier(&node.lesser, lesser_limits, above),
            link_frontier(&node.greater, greater_limits, above),
        );
    }
}

pub(crate) proof fn lemma_link_frontier_step(link: &Option<Box<Node>>, limits: Limits, level: nat)
    ensures
        link_frontier(link, limits, level + 1) == next_level(link_frontier(link, limits, level)),
    decreases link,
{
    match link {
        None => {},
        Some(node) => {
            lemma_frontier_step(&**node, limits, level);
        },
    }
}

/// A level holds a node exactly if it is one of the tree's levels.
pub(crate) proof fn lemma_frontier_height(node: &Node, limits: Limits, level: nat)
    ensures
        frontier(node, limits, level).len() > 0 <==> level < node.shape().height(),
    decreases node,
{
    if level > 0 {
        lemma_link_frontier_height(
            &node.lesser,
            narrowed(limits, node.location, node.depth as nat, true),
            (level - 1) as nat,
        );
        lemma_link_frontier_height(
            &node.greater,
            narrowed(limits, node.location, node.depth as nat, false),
            (level - 1) as nat,
        );
    }
}

pub(crate) proof fn lemma_link_frontier_height(
    link: &Option<Box<Node>>,
    limits: Limits,
    level: nat,
)
    ensures
        link_frontier(link, limits, level).len() > 0 <==> level < link_shape(*link).height(),
    decreases link,
{
    match link {
        None => {},
        Some(node) => {
            lemma_frontier_height(&**node, limits, level);
        },
    }
}

/// The splitting lines of a level of the model are those of the nodes of
/// that level.
pub(crate) proof fn lemma_level_segments(node: &Node, limits: Limits, level: nat)
    requires
        node.leveled(),
    ensures
        node.shape().level_segments(node.depth as nat, limits, level) == segments_of(
            frontier(node, limits, level),
        ),
    decreases node,
{
    if level > 0 {
        let lesser_limits = narrowed(limits, node.location, node.depth as nat, true);
        let greater_limits = narrowed(limits, node.location, node.depth as nat, false);
        let above = (level - 1) as nat;
        lemma_link_level_segments(&node.lesser, (node.depth + 1) as nat, lesser_limits, above);
        lemma_link_level_segments(&node.greater, (node.depth + 1) as nat, greater_limits, above);
    }
}

pub(crate) proof fn lemma_link_level_segments(
    link: &Option<Box<Node>>,
    depth: nat,
    limits: Limits,
    level: nat,
)
    requires
        link_leveled(*link, depth),
    ensures
        link_shape(*link).level_segments(depth, limits, level) == segments_of(
            link_frontier(link, limits, level),
        ),
    decreases link,
{
    match link {
        None => {},
        Some(node) => {
            lemma_level_segments(&**node, limits, level);
        },
    }
}

/// The splitting line of `node`, clipped to `limits`.
pub(crate) fn split_line(node: &Node, limits: Limits) -> (line: Segment)
    ensures
        line == splitting_segment(node.location, node.depth as nat, limits),
{
    if node.depth % DIMENSION == 0 {
        Segment {
            from: Point { x: node.location.x, y: limits.south },
            to: Point { x: node.location.x, y: limits.north },
        }
    } else {
        Segment {
            from: Point { x: limits.west, y: node.location.y },
            to: Point { x: limits.east, y: node.location.y },
        }
    }
}

/// The rectangle of a child of `node`, which has the rectangle `limits`.
pub(crate) fn child_limits(node: &Node, limits: Limits, lesser: bool) -> (narrow: Limits)
    ensures
        narrow == narrowed(limits, node.location, node.depth as nat, lesser),
{
    let on_x: bool = node.depth % DIMENSION == 0;
    if lesser {
        if on_x {
            Limits { east: node.location.x, ..limits }
        } else {
            Limits { north: node.location.y, ..limits }
        }
    } else {
        if on_x {
            Limits { west: node.location.x, ..limits }
        } else {
            Limits { south: node.location.y, ..limits }
        }
    }
}

/// The splitting lines of the tree below `root`, gathered level by level.
pub(crate) fn partition_lines(root: &Node) -> (lines: Vec<Segment>)
    requires
        root.leveled(),
        root.depth == 0,
    ensures
        lines@ == root.shape().boundary_segments(),
{
    let ghost shape = root.shape();
    let initial_limit = Limits { east: i32::MAX, north: i32::MAX, west: i32::MIN, south: i32::MIN };
    let mut lines: Vec<Segment> = Vec::new();
    let mut queue: Vec<Bounded> = Vec::new();
    queue.push((root, initial_limit));
    let ghost mut level: nat = 0;
    proof {
        lemma_frontier_height(root, unbounded(), 0);
    }
    while queue.len() > 0
        invariant
            shape == root.shape(),
            root.leveled(),
            root.depth == 0,
            queue@ == frontier(root, unbounded(), level),
            lines@ == shape.segments_above(level),
            level <= shape.height(),
        decreases shape.height() - level,
    {
        let ghost above = lines@;
        let mut next_iteration: Vec<Bounded> = Vec::new();
        let mut i: usize = 0;
        while i < queue.len()
            invariant
                i <= queue@.len(),
                next_iteration@ == next_level(queue@.take(i as int)),
                lines@ == above + segments_of(queue@.take(i as int)),
            decreases queue@.len() - i,
        {
            let (node, limit) = queue[i];
            proof {
                assert(queue@.take(i + 1).drop_last() =~= queue@.take(i as int));
                assert(frontier(node, limit, 1) =~= link_frontier(
                    &node.lesser,
                    narrowed(limit, node.location, node.depth as nat, true),
                    0,
                ) + link_frontier(
                    &node.greater,
                    narrowed(limit, node.location, node.depth as nat, false),
                    0,
                ));
            }
            lines.push(split_line(node, limit));
            if let Some(child) = &node.lesser {
                next_iteration.push((&**child, child_limits(node, limit, true)));
            }
            if let Some(child) = &node.greater {
                next_iteration.push((&**child, child_limits(node, limit, false)));
            }
            i += 1;
        }
        proof {
            assert(queue@.take(queue@.len() as int) =~= queue@);
            lemma_level_segments(root, unbounded(), level);
            lemma_frontier_step(root, unbounded(), level);
            lemma_frontier_height(root, unbounded(), level);
            level = level + 1;
        }
        queue = next_iteration;
    }
    proof {
        lemma_frontier_height(root, unbounded(), level);
    }
    lines
}

} // verus!
