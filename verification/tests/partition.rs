use graph_simulator::geometry::Point;
use graph_simulator::mesh::line_list;
use graph_simulator::partition::Segment;
use graph_simulator::tree::TwoDTree;

fn p(x: i32, y: i32) -> Point {
    Point { x, y }
}

fn line(x1: i32, y1: i32, x2: i32, y2: i32) -> Segment {
    Segment { from: p(x1, y1), to: p(x2, y2) }
}

const LOW: i32 = i32::MIN;
const HIGH: i32 = i32::MAX;

#[test]
fn empty_index_has_no_boundary() {
    let tree = TwoDTree::new();
    assert!(tree.boundary_lines().is_none());
    assert!(tree.as_mesh().is_none());
}

#[test]
fn one_point_has_one_unbounded_line() {
    let mut tree = TwoDTree::new();
    assert!(tree.insert(1, p(3, 4)));
    assert_eq!(tree.boundary_lines(), Some(vec![line(3, LOW, 3, HIGH)]));
}

#[test]
fn children_are_clipped_at_the_line_of_their_parent() {
    let mut tree = TwoDTree::new();
    assert!(tree.insert(1, p(0, 0)));
    assert!(tree.insert(2, p(10, 0)));
    assert!(tree.insert(3, p(0, 10)));
    // (0, 10) is not right of the root, so it is its lesser child.
    assert_eq!(
        tree.boundary_lines(),
        Some(vec![line(0, LOW, 0, HIGH), line(LOW, 10, 0, 10), line(0, 0, HIGH, 0)])
    );
}

#[test]
fn lines_come_level_by_level() {
    let mut tree = TwoDTree::new();
    for (id, point) in [(1, p(50, 50)), (2, p(70, 20)), (3, p(20, 60)), (4, p(60, 10)), (5, p(30, 80)), (6, p(10, 30)), (7, p(90, 40))] {
        assert!(tree.insert(id, point));
    }
    assert_eq!(
        tree.boundary_lines(),
        Some(vec![
            // the root splits on x
            line(50, LOW, 50, HIGH),
            // its children split on y, within their half
            line(LOW, 60, 50, 60),
            line(50, 20, HIGH, 20),
            // their children split on x again
            line(10, LOW, 10, 60),
            line(30, 60, 30, HIGH),
            line(60, LOW, 60, 20),
            line(90, 20, 90, HIGH),
        ])
    );
}

#[test]
fn mesh_holds_two_vertices_for_each_line() {
    let mut tree = TwoDTree::new();
    assert!(tree.insert(1, p(0, 0)));
    assert!(tree.insert(2, p(10, 0)));
    assert!(tree.insert(3, p(0, 10)));
    let mesh = tree.as_mesh().unwrap();
    assert_eq!(
        mesh.vertices,
        vec![p(0, LOW), p(0, HIGH), p(LOW, 10), p(0, 10), p(0, 0), p(HIGH, 0)]
    );
    assert_eq!(mesh.indices, vec![0, 1, 2, 3, 4, 5]);
}

#[test]
fn line_list_of_given_lines() {
    let mesh = line_list(&vec![line(1, 2, 3, 4), line(5, 6, 7, 8)]);
    assert_eq!(mesh.vertices, vec![p(1, 2), p(3, 4), p(5, 6), p(7, 8)]);
    assert_eq!(mesh.indices, vec![0, 1, 2, 3]);
    let none = line_list(&Vec::new());
    assert!(none.vertices.is_empty());
    assert!(none.indices.is_empty());
}

#[test]
fn every_entry_has_one_line() {
    let mut tree = TwoDTree::new();
    for i in 0..64i32 {
        assert!(tree.insert(i as u64, p((i * 29) % 31, (i * 17) % 23)));
        assert_eq!(tree.boundary_lines().unwrap().len(), tree.len());
    }
}
