use vstd::prelude::*;
use vstd::multiset::Multiset;
use crate::distance_item::DistanceItem;
use crate::geometry::{
    axis_of, coord, distance_squared, gap_sq, gap_squared, lemma_gap_at_most_dist,
    lemma_gap_sq_value, lemma_square_monotone, Point,
};
use crate::nearest_set::BoundedNearestSet;
use crate::node::{link_shape, Node};
use crate::shape::{
    is_n_nearest, is_nearest, lemma_measured_exact, measured, none_farther, Shape,
};

verus! {

/// Where every entry of a subtree lies above `bound` on `axis` and the query
/// point does not, no entry is closer to the query than the line at `bound`.
pub proof fn lemma_above_is_far(shape: Shape, axis: nat, bound: int, query: Point)
    requires
        shape.all_above(axis, bound),
        coord(query, axis) <= bound,
    ensures
        forall|item: DistanceItem|
            #![trigger shape.distances(query).count(item)]
            shape.distances(query).count(item) > 0 ==> item.1 >= (bound - coord(query, axis)) * (
                bound - coord(query, axis)),
    decreases shape,
{
    match shape {
        Shape::Empty => {},
        Shape::Split { entry, lesser, greater } => {
            lemma_above_is_far(*lesser, axis, bound, query);
            lemma_above_is_far(*greater, axis, bound, query);
            lemma_measured_exact(entry, query);
            lemma_gap_at_most_dist(entry.location, query, axis);
            lemma_gap_sq_value(entry.location, query, axis);
            lemma_square_monotone(
                bound - coord(query, axis),
                coord(entry.location, axis) - coord(query, axis),
            );
            let d = bound - coord(query, axis);
            let m = measured(entry, query);
            assert forall|item: DistanceItem|
                #![trigger shape.distances(query).count(item)]
                shape.distances(query).count(item) > 0 implies item.1 >= d * d by {
                if item != m {
                    assert(lesser.distances(query).count(item) > 0 || greater.distances(
                        query,
                    ).count(item) > 0);
                }
            }
        },
    }
}

/// Where no entry of a subtree lies above `bound` on `axis` and the query
/// point does, no entry is closer to the query than the line at `bound`.
pub proof fn lemma_at_most_is_far(shape: Shape, axis: nat, bound: int, query: Point)
    requires
        shape.all_at_most(axis, bound),
        coord(query, axis) >= bound,
    ensures
        forall|item: DistanceItem|
            #![trigger shape.distances(query).count(item)]
            shape.distances(query).count(item) > 0 ==> item.1 >= (bound - coord(query, axis)) * (
                bound - coord(query, axis)),
    decreases shape,
{
    match shape {
        Shape::Empty => {},
        Shape::Split { entry, lesser, greater } => {
            lemma_at_most_is_far(*lesser, axis, bound, query);
            lemma_at_most_is_far(*greater, axis, bound, query);
            lemma_measured_exact(entry, query);
            lemma_gap_at_most_dist(entry.location, query, axis);
            lemma_gap_sq_value(entry.location, query, axis);
            lemma_square_monotone(
                coord(query, axis) - bound,
                coord(query, axis) - coord(entry.location, axis),
            );
            let d = bound - coord(query, axis);
            let e = coord(query, axis) - bound;
            assert(d * d == e * e) by (nonlinear_arith)
                requires
                    e == -d,
            ;
            let m = measured(entry, query);
            assert forall|item: DistanceItem|
                #![trigger shape.distances(query).count(item)]
                shape.distances(query).count(item) > 0 implies item.1 >= d * d by {
                if item != m {
                    assert(lesser.distances(query).count(item) > 0 || greater.distances(
                        query,
                    ).count(item) > 0);
                }
            }
        },
    }
}

/// The pruning rule: in an ordered tree, nothing on the far side of a node
/// is closer to the query than the node's splitting line.
pub proof fn lemma_far_side_beyond_gap(shape: Shape, depth: nat, query: Point)
    requires
        shape.ordered(depth),
        shape is Split,
    ensures
        forall|item: DistanceItem|
            #![trigger shape.far_side(query, depth).distances(query).count(item)]
            shape.far_side(query, depth).distances(query).count(item) > 0 ==> item.1 >= gap_sq(
                shape->entry.location,
                query,
                axis_of(depth),
            ),
{
    let axis = axis_of(depth);
    let bound = coord(shape->entry.location, axis);
    lemma_gap_sq_value(shape->entry.location, query, axis);
    if Shape::goes_lesser(query, shape->entry.location, depth) {
        lemma_above_is_far(*shape->greater, axis, bound, query);
    } else {
        lemma_at_most_is_far(*shape->lesser, axis, bound, query);
    }
}

/// What a node on the search path still owes to a query: its own distance
/// item and those of the side that the descent left aside.
pub(crate) open spec fn owed(node: &Node, query: Point) -> Multiset<DistanceItem> {
    node.shape().far_side(query, node.depth as nat).distances(query).insert(
        measured(node.entry(), query),
    )
}

/// What the nodes on a search path owe together.
pub(crate) open spec fn owed_all(path: Seq<&Node>, query: Point) -> Multiset<DistanceItem>
    decreases path.len(),
{
    if path.len() == 0 {
        Multiset::empty()
    } else {
        owed_all(path.drop_last(), query).add(owed(path.last(), query))
    }
}

/// A node as the searches meet it: it knows its depth, and so does every node
/// below it, and its subtree is in search-tree order.
pub(crate) open spec fn sound(node: &Node) -> bool {
    &&& node.leveled()
    &&& node.shape().ordered(node.depth as nat)
}

pub(crate) open spec fn all_sound(path: Seq<&Node>) -> bool {
    forall|i: int| 0 <= i < path.len() ==> sound(#[trigger] path[i])
}

/// The root of an optional subtree of a sound node is sound.
pub(crate) proof fn lemma_children_sound(node: &Node)
    requires
        sound(node),
    ensures
        node.lesser is Some ==> sound(&*node.lesser->0),
        node.greater is Some ==> sound(&*node.greater->0),
{
}

/// The search path from `node` towards `query`: `node` first, then at each
/// step the root of the side that `query` belongs to, down to the node that
/// has no such side.
pub(crate) open spec fn descent(node: &Node, query: Point) -> Seq<&Node>
    decreases node,
{
    let near = if Shape::goes_lesser(query, node.location, node.depth as nat) {
        node.lesser
    } else {
        node.greater
    };
    match near {
        Some(child) => seq![node] + descent(&*child, query),
        None => seq![node],
    }
}

/// Pushing a node adds what it owes.
pub(crate) proof fn lemma_owed_push(path: Seq<&Node>, node: &Node, query: Point)
    ensures
        owed_all(path.push(node), query) == owed_all(path, query).add(owed(node, query)),
{
    assert(path.push(node).drop_last() =~= path);
}

/// The nodes of a search path owe together what the subtree of its first
/// node holds, and they are sound where that node is.
pub(crate) proof fn lemma_owed_descent(path: Seq<&Node>, node: &Node, query: Point)
    requires
        all_sound(path),
        sound(node),
    ensures
        all_sound(path + descent(node, query)),
        owed_all(path + descent(node, query), query) == owed_all(path, query).add(
            node.shape().distances(query),
        ),
    decreases node,
{
    let near = if Shape::goes_lesser(query, node.location, node.depth as nat) {
        node.lesser
    } else {
        node.greater
    };
    lemma_owed_push(path, node, query);
    match near {
        Some(child) => {
            lemma_owed_descent(path.push(node), &*child, query);
            assert(path + descent(node, query) =~= path.push(node) + descent(&*child, query));
        },
        None => {
            assert(path + descent(node, query) =~= path.push(node));
            assert(link_shape(near).distances(query) =~= Multiset::empty());
        },
    }
}

/// Walks down from `subtree_root` towards `point`, taking at each node the
/// side that `point` belongs to, and pushes every node it visits, the root
/// first.
pub(crate) fn explore_subtree<'a>(subtree_root: &'a Node, point: Point, stack: &mut Vec<&'a Node>)
    ensures
        final(stack)@ == old(stack)@ + descent(subtree_root, point),
{
    let mut curr: &Node = subtree_root;
    loop
        invariant
            stack@ + descent(curr, point) == old(stack)@ + descent(subtree_root, point),
        decreases curr.shape().size(),
    {
        let ghost before = stack@;
        stack.push(curr);
        let next: &Option<Box<Node>> = if curr.takes_lesser(point) {
            &curr.lesser
        } else {
            &curr.greater
        };
        match next {
            Some(child) => {
                curr = &**child;
            },
            None => {
                return ;
            },
        }
    }
}

/// The entry closest to `point` in the subtree of `root`, with its squared
/// distance.
///
/// The search walks down towards `point` until the side it would take is
/// empty, and takes the node it has reached as the best candidate. It then
/// walks back, beginning with that node: a node whose splitting line is
/// closer to `point` than the best candidate may itself be closer, and so may
/// the entries on its far side, which are searched in the same way; any
/// other node is passed over together with its far side.
pub(crate) fn nearest_below(root: &Node, point: Point) -> (best: (u64, u128))
    requires
        sound(root),
    ensures
        is_nearest(root.shape().distances(point), DistanceItem(best.0, best.1)),
{
    let ghost all = root.shape().distances(point);
    let mut stack: Vec<&Node> = Vec::new();
    explore_subtree(root, point, &mut stack);
    proof {
        lemma_owed_descent(Seq::empty(), root, point);
    }
    let mut curr: &Node = stack.pop().unwrap();
    let mut best_id: u64 = curr.id;
    let mut best_dist: u128 = distance_squared(curr.location, point);
    proof {
        lemma_measured_exact(curr.entry(), point);
    }
    // Every item of the whole scan is either no closer than the best
    // candidate, or still owed by `curr` or by a node on the stack.
    loop
        invariant
            sound(curr),
            all_sound(stack@),
            all == root.shape().distances(point),
            owed_all(stack@, point).add(owed(curr, point)).subset_of(all),
            all.count(DistanceItem(best_id, best_dist)) > 0,
            forall|item: DistanceItem| #[trigger]
                all.count(item) > 0 ==> best_dist <= item.1 || owed_all(stack@, point).add(
                    owed(curr, point),
                ).count(item) > 0,
        decreases owed_all(stack@, point).len() + owed(curr, point).len(),
    {
        let ghost far = curr.shape().far_side(point, curr.depth as nat);
        let ghost before = stack@;
        let gap: u128 = gap_squared(curr.location, point, curr.depth);
        proof {
            lemma_measured_exact(curr.entry(), point);
            lemma_children_sound(curr);
            lemma_gap_at_most_dist(curr.location, point, axis_of(curr.depth as nat));
            lemma_far_side_beyond_gap(curr.shape(), curr.depth as nat, point);
        }
        if gap < best_dist {
            let dist_to_curr: u128 = distance_squared(curr.location, point);
            if dist_to_curr < best_dist {
                best_dist = dist_to_curr;
                best_id = curr.id;
            }
            let unexplored: &Option<Box<Node>> = if curr.takes_lesser(point) {
                &curr.greater
            } else {
                &curr.lesser
            };
            if let Some(subtree_root) = unexplored {
                proof {
                    lemma_owed_descent(stack@, &**subtree_root, point);
                }
                explore_subtree(&**subtree_root, point, &mut stack);
            }
        }
        proof {
            assert(owed_all(stack@, point).len() <= owed_all(before, point).len()
                + far.distances(point).len());
            assert forall|item: DistanceItem| #[trigger] all.count(item) > 0 implies best_dist
                <= item.1 || owed_all(stack@, point).count(item) > 0 by {}
        }
        if stack.len() == 0 {
            return (best_id, best_dist);
        }
        proof {
            lemma_owed_push(stack@.drop_last(), stack@.last(), point);
        }
        curr = stack.pop().unwrap();
    }
}

/// The `n` entries closest to `point` in the subtree of `root`, each with
/// its squared distance; all entries where there are fewer than `n`.
///
/// The search walks as the search for the single nearest entry does. While
/// the set holds fewer than `n` items, every node it comes back to is added
/// and its far side is searched. Once the set is full, the farthest item in
/// it takes the part of the best candidate: a node whose splitting line is
/// closer than that item replaces it if the node itself is closer, and the
/// far side of such a node is searched.
pub(crate) fn n_nearest_below(root: &Node, point: Point, n: usize) -> (found: BoundedNearestSet)
    requires
        sound(root),
        n > 0,
    ensures
        found.limit() == n,
        is_n_nearest(root.shape().distances(point), n as nat, found@),
{
    let ghost all = root.shape().distances(point);
    let mut parent_stack: Vec<&Node> = Vec::new();
    explore_subtree(root, point, &mut parent_stack);
    proof {
        lemma_owed_descent(Seq::empty(), root, point);
    }
    let mut n_nearest = BoundedNearestSet::with_capacity(n);
    // The items that the search has passed over or taken out of the set:
    // none of them is closer than an item of the set. Together with the set
    // and with what the stack owes they are the whole scan.
    let ghost mut passed: Multiset<DistanceItem> = Multiset::empty();
    while parent_stack.len() > 0
        invariant
            n > 0,
            all_sound(parent_stack@),
            n_nearest.limit() == n,
            all == n_nearest@.add(passed).add(owed_all(parent_stack@, point)),
            n_nearest@.len() <= n,
            n_nearest@.len() < n ==> passed.len() == 0,
            none_farther(n_nearest@, passed),
        decreases owed_all(parent_stack@, point).len(),
    {
        proof {
            lemma_owed_push(parent_stack@.drop_last(), parent_stack@.last(), point);
        }
        let curr_node: &Node = parent_stack.pop().unwrap();
        let ghost far = curr_node.shape().far_side(point, curr_node.depth as nat);
        let ghost here = measured(curr_node.entry(), point);
        let unexplored: &Option<Box<Node>> = if curr_node.takes_lesser(point) {
            &curr_node.greater
        } else {
            &curr_node.lesser
        };
        proof {
            lemma_measured_exact(curr_node.entry(), point);
            lemma_children_sound(curr_node);
            lemma_gap_at_most_dist(curr_node.location, point, axis_of(curr_node.depth as nat));
            lemma_far_side_beyond_gap(curr_node.shape(), curr_node.depth as nat, point);
        }
        let mut descend: bool = false;
        if n_nearest.len() != n {
            let item = DistanceItem(curr_node.id, distance_squared(curr_node.location, point));
            n_nearest.push(item);
            descend = true;
        } else {
            let greatest_nearest_dist: u128 = n_nearest.peek().unwrap().1;
            let gap: u128 = gap_squared(curr_node.location, point, curr_node.depth);
            if gap < greatest_nearest_dist {
                let dist_to_curr: u128 = distance_squared(curr_node.location, point);
                if dist_to_curr < greatest_nearest_dist {
                    let evicted = n_nearest.pop().unwrap();
                    n_nearest.push(DistanceItem(curr_node.id, dist_to_curr));
                    proof {
                        passed = passed.insert(evicted);
                    }
                } else {
                    proof {
                        passed = passed.insert(here);
                    }
                }
                descend = true;
            } else {
                proof {
                    passed = passed.add(far.distances(point)).insert(here);
                }
            }
        }
        if descend {
            if let Some(child) = unexplored {
                proof {
                    lemma_owed_descent(parent_stack@, &**child, point);
                }
                explore_subtree(&**child, point, &mut parent_stack);
            }
        }
    }
    n_nearest
}

} // verus!
