use graph_simulator::distance_item::DistanceItem;
use graph_simulator::nearest_set::BoundedNearestSet;
use graph_simulator::resources::{NearestPoints, Trees};
use std::cmp::Ordering;

fn pairs(items: &[DistanceItem]) -> Vec<(u128, u64)> {
    let mut pairs: Vec<(u128, u64)> = items.iter().map(|item| (item.1, item.0)).collect();
    pairs.sort();
    pairs
}

#[test]
fn new_set_takes_nothing() {
    let mut set = BoundedNearestSet::new();
    assert_eq!(set.capacity(), 0);
    assert_eq!(set.len(), 0);
    assert!(set.is_empty());
    assert!(set.is_full());
    assert!(set.peek().is_none());
    assert!(!set.push(DistanceItem(1, 1)));
    assert!(set.pop().is_none());
    assert_eq!(set.len(), 0);
}

#[test]
fn set_takes_up_to_its_capacity() {
    let mut set = BoundedNearestSet::with_capacity(3);
    assert_eq!(set.capacity(), 3);
    assert!(set.push(DistanceItem(1, 30)));
    assert!(!set.is_full());
    assert!(set.push(DistanceItem(2, 10)));
    assert!(set.push(DistanceItem(3, 20)));
    assert!(set.is_full());
    assert!(!set.push(DistanceItem(4, 5)));
    assert_eq!(set.len(), 3);
    assert_eq!(pairs(set.as_slice()), vec![(10, 2), (20, 3), (30, 1)]);
}

#[test]
fn peek_shows_the_farthest_item() {
    let mut set = BoundedNearestSet::with_capacity(8);
    for (id, distance) in [(1u64, 4u128), (2, 9), (3, 1), (4, 16), (5, 0), (6, 12)] {
        assert!(set.push(DistanceItem(id, distance)));
        let worst = set.peek().unwrap();
        let farthest = set.as_slice().iter().map(|item| item.1).max().unwrap();
        assert_eq!(worst.1, farthest);
    }
    let worst = set.peek().unwrap();
    assert_eq!((worst.0, worst.1), (4, 16));
    assert_eq!(set.len(), 6);
}

#[test]
fn pop_hands_out_items_from_the_farthest_to_the_closest() {
    let mut set = BoundedNearestSet::with_capacity(16);
    let distances: [u128; 12] = [7, 3, 9, 1, 12, 5, 5, 0, 11, 2, 9, 4];
    for (id, distance) in distances.iter().enumerate() {
        assert!(set.push(DistanceItem(id as u64, *distance)));
    }
    let mut popped = Vec::new();
    while let Some(item) = set.pop() {
        assert_eq!(distances[item.0 as usize], item.1);
        popped.push(item.1);
    }
    assert_eq!(popped, vec![12, 11, 9, 9, 7, 5, 5, 4, 3, 2, 1, 0]);
    assert!(set.is_empty());
    assert_eq!(set.capacity(), 16);
}

#[test]
fn pop_makes_room_for_a_closer_item() {
    let mut set = BoundedNearestSet::with_capacity(2);
    assert!(set.push(DistanceItem(1, 100)));
    assert!(set.push(DistanceItem(2, 50)));
    assert!(!set.push(DistanceItem(3, 10)));
    let evicted = set.pop().unwrap();
    assert_eq!((evicted.0, evicted.1), (1, 100));
    assert!(set.push(DistanceItem(3, 10)));
    assert_eq!(pairs(&set.into_vec()), vec![(10, 3), (50, 2)]);
}

#[test]
fn equal_items_are_all_kept() {
    let mut set = BoundedNearestSet::with_capacity(4);
    assert!(set.push(DistanceItem(7, 3)));
    assert!(set.push(DistanceItem(7, 3)));
    assert!(set.push(DistanceItem(8, 3)));
    assert_eq!(set.len(), 3);
    let first = set.pop().unwrap();
    assert_eq!(first.1, 3);
    assert_eq!(set.len(), 2);
}

#[test]
fn distance_items_compare_by_distance() {
    let near = DistanceItem(9, 1);
    let far = DistanceItem(1, 2);
    let as_far = DistanceItem(5, 2);
    assert!(near < far);
    assert!(far > near);
    assert!(far == as_far);
    assert!(near != far);
    assert!(far <= as_far && far >= as_far);
    assert_eq!(near.partial_cmp(&far), Some(Ordering::Less));
    assert_eq!(far.partial_cmp(&near), Some(Ordering::Greater));
    assert_eq!(far.partial_cmp(&as_far), Some(Ordering::Equal));
}

#[test]
fn resources_start_out_empty() {
    let trees = Trees::default();
    assert!(trees.kd.is_empty());
    let nearest = NearestPoints::default();
    assert!(nearest.heap.is_empty());
    assert_eq!(nearest.heap.capacity(), 0);
}
