use graph_simulator::distance_item::DistanceItem;
use graph_simulator::geometry::{distance_squared, Point};
use graph_simulator::tree::TwoDTree;

fn p(x: i32, y: i32) -> Point {
    Point { x, y }
}

fn triangle() -> TwoDTree {
    let mut tree = TwoDTree::new();
    assert!(tree.insert(1, p(0, 0)));
    assert!(tree.insert(2, p(10, 0)));
    assert!(tree.insert(3, p(0, 10)));
    tree
}

/// A small generator of numbers that look random and are the same on every
/// run.
fn next(state: &mut u64) -> i32 {
    *state = state.wrapping_mul(6364136223846793005).wrapping_add(1442695040888963407);
    ((*state >> 33) % 2001) as i32 - 1000
}

fn scattered(count: usize, seed: u64) -> Vec<(u64, Point)> {
    let mut state = seed;
    let mut points = Vec::new();
    for id in 0..count {
        let x = next(&mut state);
        let y = next(&mut state);
        points.push((id as u64, p(x, y)));
    }
    points
}

fn index_of(points: &[(u64, Point)]) -> TwoDTree {
    let mut tree = TwoDTree::new();
    for (id, point) in points {
        assert!(tree.insert(*id, *point));
    }
    tree
}

fn scan_distances(points: &[(u64, Point)], query: Point) -> Vec<(u128, u64)> {
    let mut all: Vec<(u128, u64)> =
        points.iter().map(|(id, point)| (distance_squared(*point, query), *id)).collect();
    all.sort();
    all
}

fn sorted_pairs(items: &[DistanceItem]) -> Vec<(u128, u64)> {
    let mut pairs: Vec<(u128, u64)> = items.iter().map(|item| (item.1, item.0)).collect();
    pairs.sort();
    pairs
}

#[test]
fn new_index_is_empty() {
    let tree = TwoDTree::new();
    assert!(tree.is_empty());
    assert_eq!(tree.len(), 0);
    assert!(tree._nearest_neighboor_search(p(0, 0)).is_none());
    assert!(tree.n_nearest_neighboors_search(p(0, 0), 3).is_none());
    assert!(tree.boundary_lines().is_none());
    assert!(tree.as_mesh().is_none());
}

#[test]
fn insert_counts_entries() {
    let tree = triangle();
    assert!(!tree.is_empty());
    assert_eq!(tree.len(), 3);
}

#[test]
fn nearest_of_three_points() {
    let tree = triangle();
    // The distance is the square root of 2; the index hands out its square.
    assert_eq!(tree._nearest_neighboor_search(p(1, 1)), Some((1, 2)));
}

#[test]
fn two_nearest_of_three_points_with_a_tie() {
    let tree = triangle();
    let found = tree.n_nearest_neighboors_search(p(0, 0), 2).unwrap();
    assert_eq!(found.len(), 2);
    let pairs = sorted_pairs(found.as_slice());
    assert_eq!(pairs[0], (0, 1));
    assert!(pairs[1] == (100, 2) || pairs[1] == (100, 3));
}

#[test]
fn five_nearest_of_three_points_are_all() {
    let tree = triangle();
    let found = tree.n_nearest_neighboors_search(p(0, 0), 5).unwrap();
    assert_eq!(found.len(), 3);
    assert_eq!(found.capacity(), 5);
    assert_eq!(sorted_pairs(found.as_slice()), vec![(0, 1), (100, 2), (100, 3)]);
}

#[test]
fn nearest_right_after_first_insert() {
    let mut tree = TwoDTree::new();
    assert!(tree.insert(42, p(-7, 13)));
    assert_eq!(tree._nearest_neighboor_search(p(-7, 13)), Some((42, 0)));
}

#[test]
fn zero_nearest_is_nothing() {
    let tree = triangle();
    assert!(tree.n_nearest_neighboors_search(p(0, 0), 0).is_none());
}

#[test]
fn nearest_looks_on_the_far_side_of_the_deepest_node() {
    // The walk down towards (20, 0) ends at (10, 0), and the closest entry
    // hangs on the other side of that node.
    let mut tree = TwoDTree::new();
    assert!(tree.insert(1, p(0, 0)));
    assert!(tree.insert(2, p(10, 0)));
    assert!(tree.insert(3, p(20, 1)));
    assert_eq!(tree._nearest_neighboor_search(p(20, 0)), Some((3, 1)));
}

#[test]
fn equal_points_are_kept_side_by_side() {
    let mut tree = TwoDTree::new();
    assert!(tree.insert(1, p(5, 5)));
    assert!(tree.insert(2, p(5, 5)));
    assert!(tree.insert(3, p(5, 5)));
    assert_eq!(tree.len(), 3);
    let found = tree.n_nearest_neighboors_search(p(5, 5), 3).unwrap();
    assert_eq!(sorted_pairs(found.as_slice()), vec![(0, 1), (0, 2), (0, 3)]);
}

#[test]
fn nearest_agrees_with_a_scan() {
    let points = scattered(300, 7);
    let tree = index_of(&points);
    let mut state = 99;
    for _ in 0..200 {
        let query = p(next(&mut state), next(&mut state));
        let expected = scan_distances(&points, query)[0].0;
        let (id, distance) = tree._nearest_neighboor_search(query).unwrap();
        assert_eq!(distance, expected);
        assert_eq!(distance_squared(points[id as usize].1, query), distance);
    }
}

#[test]
fn n_nearest_agrees_with_a_scan() {
    let points = scattered(200, 11);
    let tree = index_of(&points);
    let mut state = 5;
    for n in [1usize, 2, 5, 17, 199, 200, 201, 1000] {
        let query = p(next(&mut state), next(&mut state));
        let all = scan_distances(&points, query);
        let found = tree.n_nearest_neighboors_search(query, n).unwrap();
        assert_eq!(found.len(), n.min(points.len()));
        let pairs = sorted_pairs(found.as_slice());
        let distances: Vec<u128> = pairs.iter().map(|pair| pair.0).collect();
        let expected: Vec<u128> = all.iter().take(n).map(|pair| pair.0).collect();
        assert_eq!(distances, expected);
        for (distance, id) in pairs {
            assert_eq!(distance_squared(points[id as usize].1, query), distance);
        }
    }
}

#[test]
fn order_of_insertion_does_not_change_the_results() {
    let points = scattered(120, 3);
    let mut reversed = points.clone();
    reversed.reverse();
    let mut rotated = points.clone();
    rotated.rotate_left(37);
    let first = index_of(&points);
    let second = index_of(&reversed);
    let third = index_of(&rotated);
    let mut state = 1234;
    for _ in 0..100 {
        let query = p(next(&mut state), next(&mut state));
        let a = first._nearest_neighboor_search(query).unwrap();
        let b = second._nearest_neighboor_search(query).unwrap();
        let c = third._nearest_neighboor_search(query).unwrap();
        assert_eq!(a.1, b.1);
        assert_eq!(a.1, c.1);
        let a = first.n_nearest_neighboors_search(query, 9).unwrap();
        let b = second.n_nearest_neighboors_search(query, 9).unwrap();
        let c = third.n_nearest_neighboors_search(query, 9).unwrap();
        let distances = |items: &[DistanceItem]| -> Vec<u128> {
            sorted_pairs(items).iter().map(|pair| pair.0).collect()
        };
        assert_eq!(distances(a.as_slice()), distances(b.as_slice()));
        assert_eq!(distances(a.as_slice()), distances(c.as_slice()));
    }
}

#[test]
fn order_of_insertion_without_ties_gives_the_same_entries() {
    let entries = [(1u64, p(0, 0)), (2, p(3, 0)), (3, p(0, 7)), (4, p(-20, 5)), (5, p(9, 9))];
    let orders: [[usize; 5]; 4] = [[0, 1, 2, 3, 4], [4, 3, 2, 1, 0], [2, 0, 4, 1, 3], [1, 4, 0, 3, 2]];
    let query = p(1, 0);
    for order in orders {
        let mut tree = TwoDTree::new();
        for i in order {
            assert!(tree.insert(entries[i].0, entries[i].1));
        }
        assert_eq!(tree._nearest_neighboor_search(query), Some((1, 1)));
        let found = tree.n_nearest_neighboors_search(query, 3).unwrap();
        assert_eq!(sorted_pairs(found.as_slice()), vec![(1, 1), (4, 2), (50, 3)]);
    }
}

#[test]
fn queries_give_the_same_results_when_repeated() {
    let points = scattered(80, 21);
    let tree = index_of(&points);
    let query = p(17, -230);
    let once = tree._nearest_neighboor_search(query);
    let again = tree._nearest_neighboor_search(query);
    assert_eq!(once, again);
    let once = tree.n_nearest_neighboors_search(query, 6).unwrap();
    let again = tree.n_nearest_neighboors_search(query, 6).unwrap();
    assert_eq!(sorted_pairs(once.as_slice()), sorted_pairs(again.as_slice()));
    assert_eq!(tree.boundary_lines(), tree.boundary_lines());
    assert_eq!(tree.len(), 80);
}

#[test]
fn distances_at_the_ends_of_the_grid() {
    let mut tree = TwoDTree::new();
    assert!(tree.insert(1, p(i32::MIN, i32::MIN)));
    assert!(tree.insert(2, p(i32::MAX, i32::MAX)));
    let side: u128 = u32::MAX as u128;
    // This corner is equally far from both entries.
    let (id, distance) = tree._nearest_neighboor_search(p(i32::MAX, i32::MIN)).unwrap();
    assert!(id == 1 || id == 2);
    assert_eq!(distance, side * side);
    assert_eq!(
        tree._nearest_neighboor_search(p(i32::MAX, i32::MIN + 1)),
        Some((2, (side - 1) * (side - 1)))
    );
    let found = tree.n_nearest_neighboors_search(p(i32::MIN, i32::MIN), 2).unwrap();
    assert_eq!(sorted_pairs(found.as_slice()), vec![(0, 1), (2 * side * side, 2)]);
}

#[test]
fn a_chain_of_points_is_searched_to_its_end() {
    // Every point goes to the greater side of the one before: the index is
    // as unbalanced as it can be.
    let mut tree = TwoDTree::new();
    for i in 0..500 {
        assert!(tree.insert(i as u64, p(i, i)));
    }
    assert_eq!(tree._nearest_neighboor_search(p(-5, -5)), Some((0, 50)));
    assert_eq!(tree._nearest_neighboor_search(p(1000, 1000)), Some((499, 2 * 501 * 501)));
    let found = tree.n_nearest_neighboors_search(p(250, 250), 3).unwrap();
    assert_eq!(sorted_pairs(found.as_slice()), vec![(0, 250), (2, 249), (2, 251)]);
}
