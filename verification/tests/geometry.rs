use graph_simulator::geometry::{
    axis_coord, distance_squared, gap_squared, square_diff, Point, DIMENSION,
};
use graph_simulator::mesh::line_indices;

fn p(x: i32, y: i32) -> Point {
    Point { x, y }
}

#[test]
fn axes_alternate_with_depth() {
    assert_eq!(DIMENSION, 2);
    assert_eq!(axis_coord(p(3, -4), 0), 3);
    assert_eq!(axis_coord(p(3, -4), 1), -4);
    assert_eq!(axis_coord(p(3, -4), 2), 3);
    assert_eq!(axis_coord(p(3, -4), 7), -4);
    assert_eq!(axis_coord(p(3, -4), usize::MAX), -4);
}

#[test]
fn squares_of_differences() {
    assert_eq!(square_diff(0, 0), 0);
    assert_eq!(square_diff(3, -4), 49);
    assert_eq!(square_diff(-4, 3), 49);
    assert_eq!(square_diff(i32::MIN, i32::MAX), 18446744065119617025);
    assert_eq!(square_diff(i32::MAX, i32::MIN), 18446744065119617025);
    assert_eq!(square_diff(i32::MIN, 0), 4611686018427387904);
}

#[test]
fn squared_distances() {
    assert_eq!(distance_squared(p(0, 0), p(0, 0)), 0);
    assert_eq!(distance_squared(p(0, 0), p(3, 4)), 25);
    assert_eq!(distance_squared(p(3, 4), p(0, 0)), 25);
    assert_eq!(distance_squared(p(-1, -1), p(1, 1)), 8);
    assert_eq!(distance_squared(p(1, 1), p(0, 0)), 2);
    assert_eq!(
        distance_squared(p(i32::MIN, i32::MIN), p(i32::MAX, i32::MAX)),
        36893488130239234050
    );
}

#[test]
fn gaps_to_splitting_lines() {
    // A node at an even depth splits on x, one at an odd depth on y.
    assert_eq!(gap_squared(p(7, 100), p(4, -100), 0), 9);
    assert_eq!(gap_squared(p(7, 100), p(4, -100), 1), 40000);
    assert_eq!(gap_squared(p(7, 100), p(4, -100), 2), 9);
    assert_eq!(gap_squared(p(4, -100), p(7, 100), 3), 40000);
}

#[test]
fn a_gap_is_never_longer_than_the_distance() {
    let points = [p(0, 0), p(5, -3), p(-8, 8), p(1000, 1), p(i32::MIN, i32::MAX)];
    for a in points {
        for b in points {
            for depth in 0..2 {
                assert!(gap_squared(a, b, depth) <= distance_squared(a, b));
            }
        }
    }
}

#[test]
fn line_indices_count_up() {
    assert!(line_indices(0).is_empty());
    assert_eq!(line_indices(1), vec![0, 1]);
    assert_eq!(line_indices(3), vec![0, 1, 2, 3, 4, 5]);
    let many = line_indices(1000);
    assert_eq!(many.len(), 2000);
    assert_eq!(many[1999], 1999);
}
