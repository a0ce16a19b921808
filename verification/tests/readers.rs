use graph_simulator::geometry::Point;
use graph_simulator::tree::TwoDTree;
use std::sync::RwLock;

#[test]
fn readers_share_the_index() {
    let mut tree = TwoDTree::new();
    for i in 0..200i32 {
        assert!(tree.insert(i as u64, Point { x: (i * 37) % 101, y: (i * 53) % 103 }));
    }
    let query = Point { x: 40, y: 40 };
    let expected = tree._nearest_neighboor_search(query);
    let shared = RwLock::new(tree);
    // Several readers hold the index at the same time.
    let first = shared.read().unwrap();
    let second = shared.read().unwrap();
    let third = shared.read().unwrap();
    for round in 0..20 {
        for reader in [&first, &second, &third] {
            assert_eq!(reader.len(), 200);
            assert_eq!(reader._nearest_neighboor_search(query), expected);
            let found = reader.n_nearest_neighboors_search(query, 4).unwrap();
            assert_eq!(found.len(), 4, "round {}", round);
        }
    }
    // No writer gets in while they do.
    assert!(shared.try_write().is_err());
}

#[test]
fn a_writer_is_seen_whole_or_not_at_all() {
    let shared = RwLock::new(TwoDTree::new());
    for i in 0..100i32 {
        {
            let reader = shared.read().unwrap();
            let len = reader.len();
            assert_eq!(len, i as usize);
            match reader.boundary_lines() {
                None => assert_eq!(len, 0),
                Some(lines) => assert_eq!(lines.len(), len),
            }
            match reader.n_nearest_neighboors_search(Point { x: 0, y: 0 }, 1000) {
                None => assert_eq!(len, 0),
                Some(found) => assert_eq!(found.len(), len),
            }
            // The writer has to wait for the reader.
            assert!(shared.try_write().is_err());
        }
        let inserted = match shared.try_write() {
            Ok(mut writer) => writer.insert(i as u64, Point { x: i, y: -i }),
            Err(_) => false,
        };
        assert!(inserted);
    }
    assert_eq!(shared.read().unwrap().len(), 100);
}
