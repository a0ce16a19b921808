use vstd::prelude::*;
use crate::distance_item::DistanceItem;

verus! {

/// What a selection does in the editor.
#[derive(Clone, Copy, Debug, PartialEq, Eq, Hash, Structural)]
pub enum EditorState {
    Add,
    Edit,
    Delete,
}

impl Default for EditorState {
    /// The editor starts out adding.
    fn default() -> (state: Self)
        ensures
            state == EditorState::Add,
    {
        EditorState::Add
    }
}

/// Marks a vertex of the graph.
#[derive(Clone, Copy, Debug, PartialEq, Eq, Structural)]
pub struct Vertex;

/// Marks an edge of the graph.
#[derive(Clone, Copy, Debug, PartialEq, Eq, Structural)]
pub struct Edge;

/// How the pointer bears on a vertex or an edge.
#[derive(Clone, Copy, Debug, PartialEq, Eq, Structural)]
pub enum GraphInteraction {
    Untouched,
    Hovered,
    Pressed,
}

/// Whether a squared distance lies within `radius`.
pub open spec fn within(distance_squared: u128, radius: u32) -> bool {
    distance_squared <= radius * radius
}

/// How the pointer bears on an item at the squared distance
/// `distance_squared`: not at all where it is farther away than `radius`,
/// else by pressing or hovering.
pub open spec fn interaction_at(distance_squared: u128, radius: u32, pressed: bool) -> GraphInteraction {
    if !within(distance_squared, radius) {
        GraphInteraction::Untouched
    } else if pressed {
        GraphInteraction::Pressed
    } else {
        GraphInteraction::Hovered
    }
}

/// What is to be written to the items after a change of the nearest items:
/// first no interaction for each of the items that were nearest before, then
/// for each item that is nearest now the interaction its distance gives.
pub open spec fn updates_for(
    last: Seq<DistanceItem>,
    nearest: Seq<DistanceItem>,
    radius: u32,
    pressed: bool,
) -> Seq<(u64, GraphInteraction)> {
    Seq::new(last.len(), |i: int| (last[i].0, GraphInteraction::Untouched)) + Seq::new(
        nearest.len(),
        |i: int| (nearest[i].0, interaction_at(nearest[i].1, radius, pressed)),
    )
}

/// How the pointer bears on an item at the squared distance
/// `distance_squared`.
pub fn interaction_for(distance_squared: u128, radius: u32, pressed: bool) -> (interaction:
    GraphInteraction)
    ensures
        interaction == interaction_at(distance_squared, radius, pressed),
{
    let reach: u64 = radius as u64;
    proof {
        assert(reach * reach <= 0xFFFF_FFFF * 0xFFFF_FFFF) by (nonlinear_arith)
            requires
                0 <= reach <= 0xFFFF_FFFF,
        ;
    }
    if distance_squared <= (reach * reach) as u128 {
        if pressed {
            GraphInteraction::Pressed
        } else {
            GraphInteraction::Hovered
        }
    } else {
        GraphInteraction::Untouched
    }
}

/// The interactions to write after a change of the nearest items, in the
/// order in which they are to be written.
pub fn interaction_updates(
    last: &[DistanceItem],
    nearest: &[DistanceItem],
    radius: u32,
    pressed: bool,
) -> (updates: Vec<(u64, GraphInteraction)>)
    ensures
        updates@ == updates_for(last@, nearest@, radius, pressed),
{
    let mut updates: Vec<(u64, GraphInteraction)> = Vec::new();
    let mut i: usize = 0;
    while i < last.len()
        invariant
            i <= last@.len(),
            updates@ == updates_for(last@.take(i as int), Seq::empty(), radius, pressed),
        decreases last@.len() - i,
    {
        updates.push((last[i].0, GraphInteraction::Untouched));
        i += 1;
    }
    let mut j: usize = 0;
    while j < nearest.len()
        invariant
            j <= nearest@.len(),
            updates@ == updates_for(last@, nearest@.take(j as int), radius, pressed),
        decreases nearest@.len() - j,
    {
        let item: DistanceItem = nearest[j];
        updates.push((item.0, interaction_for(item.1, radius, pressed)));
        j += 1;
    }
    updates
}

} // verus!
