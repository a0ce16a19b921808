use vstd::prelude::*;
use crate::geometry::Point;
use crate::partition::Segment;

verus! {

/// The data of a mesh of separate lines: the end points of the lines, two
/// for each, and for each line the places of its two end points among them.
#[derive(Clone, Debug)]
pub struct LineMesh {
    pub vertices: Vec<Point>,
    pub indices: Vec<u32>,
}

/// The end points of `lines`: those of the first line, then those of the
/// second, and so on.
pub open spec fn end_points(lines: Seq<Segment>) -> Seq<Point> {
    Seq::new(
        2 * lines.len(),
        |k: int|
            if k % 2 == 0 {
                lines[k / 2].from
            } else {
                lines[k / 2].to
            },
    )
}

/// The numbers from 0 up to `n`, without `n`.
pub open spec fn counting(n: nat) -> Seq<u32> {
    Seq::new(n, |k: int| k as u32)
}

/// The places of the end points of `lines` separate lines: the numbers from
/// 0 up to twice `lines`.
pub fn line_indices(lines: usize) -> (indices: Vec<u32>)
    requires
        2 * lines <= u32::MAX,
    ensures
        indices@ == counting(2 * lines as nat),
{
    let mut indices: Vec<u32> = Vec::new();
    let mut i: u32 = 0;
    let mut done: usize = 0;
    while done < lines
        invariant
            2 * lines <= u32::MAX,
            done <= lines,
            i == 2 * done,
            indices@ == counting(2 * done as nat),
        decreases lines - done,
    {
        indices.push(i);
        indices.push(i + 1);
        i += 2;
        done += 1;
    }
    indices
}

/// The mesh that draws `lines`, each as a line of its own.
pub fn line_list(lines: &Vec<Segment>) -> (mesh: LineMesh)
    requires
        2 * lines@.len() <= u32::MAX,
    ensures
        mesh.vertices@ == end_points(lines@),
        mesh.indices@ == counting(2 * lines@.len()),
{
    let mut vertices: Vec<Point> = Vec::new();
    let mut done: usize = 0;
    while done < lines.len()
        invariant
            done <= lines@.len(),
            vertices@ == end_points(lines@.take(done as int)),
        decreases lines@.len() - done,
    {
        let line: Segment = lines[done];
        vertices.push(line.from);
        vertices.push(line.to);
        done += 1;
    }
    LineMesh { vertices, indices: line_indices(lines.len()) }
}

} // verus!
