use collision_search::index::CollisionIndex;
use collision_search::partition::worker_range;

#[test]
fn last_writer_wins() {
    let mut idx = CollisionIndex::new();
    assert_eq!(idx.insert(42, 1), None);
    assert_eq!(idx.insert(42, 2), Some(1));
    assert_eq!(idx.get(42), Some(2));
    assert_eq!(idx.len(), 1);
    assert_eq!(idx.insert(7, 3), None);
    assert_eq!(idx.len(), 2);
    assert_eq!(idx.get(8), None);
}

#[test]
fn partition_with_remainder() {
    assert_eq!(worker_range(10, 3, 0), (0, 4));
    assert_eq!(worker_range(10, 3, 1), (4, 7));
    assert_eq!(worker_range(10, 3, 2), (7, 10));
}

#[test]
fn partition_covers_everything() {
    for &(total, count) in &[(0usize, 1usize), (1, 4), (12, 4), (200_000, 7), (usize::MAX, 8), (usize::MAX, 3)] {
        let mut expected_start = 0usize;
        for t in 0..count {
            let (s, e) = worker_range(total, count, t);
            assert_eq!(s, expected_start);
            assert!(s <= e);
            let len = e - s;
            assert!(len == total / count || len == total / count + 1);
            expected_start = e;
        }
        assert_eq!(expected_start, total);
    }
}
