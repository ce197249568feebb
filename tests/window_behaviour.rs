use minimizer_queue::{ImplicitMinimizerQueue, MinimizerQueue};
use nohash_hasher::BuildNoHashHasher;

#[test]
fn partial_window_reports_minimum_at_right_end() {
    let mut queue = MinimizerQueue::with_hasher(4, BuildNoHashHasher::<usize>::default());
    queue.insert(5usize);
    assert_eq!(queue.get_min(), 5);
    assert_eq!(queue.get_min_pos(), (5, 3));
    queue.insert(3usize);
    assert_eq!(queue.get_min_pos(), (3, 3));
    queue.insert(4usize);
    assert_eq!(queue.get_min_pos(), (3, 2));
    assert_eq!(queue.get_inner_min_pos(), (3, 2, None));
}

#[test]
fn implicit_partial_window() {
    let mut queue = ImplicitMinimizerQueue::with_hasher(5, BuildNoHashHasher::<u64>::default());
    queue.insert_hash(9);
    queue.insert_hash(2);
    assert_eq!(queue.get_min_pos(), 4);
    queue.insert_hash(6);
    assert_eq!(queue.get_min_pos(), 3);
}

#[test]
fn ties_keep_the_oldest_in_front() {
    let mut queue = MinimizerQueue::with_hasher(3, BuildNoHashHasher::<u64>::default());
    queue.insert_with_hash(10u32, 4);
    queue.insert_with_hash(20u32, 4);
    queue.insert_with_hash(30u32, 4);
    assert_eq!(queue.get_min_pos(), (10, 0));
    assert!(queue.multiple_mins());
    assert_eq!(queue.get_inner_min_pos(), (20, 1, None));
    queue.insert_with_hash(40u32, 4);
    assert_eq!(queue.get_min_pos(), (20, 0));
    assert_eq!(queue.get_inner_min_pos(), (30, 1, None));
}

#[test]
fn multiple_mins_detects_ties_only() {
    let mut queue = ImplicitMinimizerQueue::with_hasher(4, BuildNoHashHasher::<u64>::default());
    queue.insert_hash(3);
    assert!(!queue.multiple_mins());
    queue.insert_hash(5);
    assert!(!queue.multiple_mins());
    queue.insert_hash(3);
    assert!(queue.multiple_mins());
    queue.insert_hash(1);
    assert!(!queue.multiple_mins());
}

#[test]
fn inner_min_pair_on_wide_window() {
    let mut queue = ImplicitMinimizerQueue::with_hasher(5, BuildNoHashHasher::<u64>::default());
    for h in [2u64, 1, 7, 1, 8] {
        queue.insert_hash(h);
    }
    assert_eq!(queue.get_min_pos(), 1);
    assert_eq!(queue.get_inner_min_pos(), (1, Some(3)));
    queue.insert_hash(1);
    // window hashes 1 7 1 8 1 at positions 0..5
    assert_eq!(queue.get_inner_min_pos(), (2, None));
}

#[test]
fn width_one_always_reports_newest() {
    let mut queue = MinimizerQueue::with_hasher(1, BuildNoHashHasher::<u64>::default());
    for v in [7u64, 3, 9, 1] {
        queue.insert(v);
        assert_eq!(queue.get_min_pos(), (v, 0));
        assert_eq!(queue.get_inner_min_pos(), (v, 0, None));
        assert!(!queue.multiple_mins());
    }
}

#[test]
fn clear_starts_a_fresh_window() {
    let mut queue = MinimizerQueue::with_hasher(3, BuildNoHashHasher::<u64>::default());
    assert!(queue.is_empty());
    for v in [4u64, 1, 6, 8] {
        queue.insert(v);
    }
    assert!(!queue.is_empty());
    queue.clear();
    assert!(queue.is_empty());
    assert_eq!(queue.width(), 3);
    queue.insert(9u64);
    assert_eq!(queue.get_min_pos(), (9, 2));
    queue.insert(12u64);
    assert_eq!(queue.get_min_pos(), (9, 1));
}

#[test]
fn slot_counter_wraps_around() {
    let mut queue = ImplicitMinimizerQueue::with_hasher(2, BuildNoHashHasher::<u64>::default());
    let hashes = [5u64, 9, 4, 8, 7, 6, 1, 3];
    let mut positions = Vec::new();
    for h in hashes {
        queue.insert_hash(h);
        positions.push(queue.get_min_pos());
    }
    assert_eq!(positions, vec![1, 0, 1, 0, 1, 1, 1, 0]);
}

#[test]
fn same_seed_same_outputs() {
    let mut a = MinimizerQueue::with_seed(4, 42);
    let mut b = MinimizerQueue::with_seed(4, 42);
    let vals = [11u64, 5, 92, 5, 17, 33, 0, 64, 18, 5];
    for &v in vals.iter() {
        a.insert(v);
        b.insert(v);
        assert_eq!(a.get_min_pos(), b.get_min_pos());
        assert_eq!(a.get_inner_min_pos(), b.get_inner_min_pos());
        assert_eq!(a.multiple_mins(), b.multiple_mins());
    }
}

#[test]
fn default_queues_report_a_window_element() {
    let mut queue = MinimizerQueue::new(3);
    let mut implicit = ImplicitMinimizerQueue::new(3);
    assert_eq!(queue.width(), 3);
    assert_eq!(implicit.width(), 3);
    let vals = [10u64, 20, 30, 40, 50];
    for (i, &v) in vals.iter().enumerate() {
        queue.insert(v);
        implicit.insert(&v);
        let (m, p) = queue.get_min_pos();
        assert!(p < 3);
        assert_eq!(queue.get_min(), m);
        assert_eq!(implicit.get_min_pos(), p);
        assert_eq!(vals[i + p - 2], m);
    }
}

#[test]
fn new_strict_minimum_takes_the_last_position() {
    let mut queue = ImplicitMinimizerQueue::with_hasher(4, BuildNoHashHasher::<u64>::default());
    for h in [5u64, 7, 5, 9] {
        queue.insert_hash(h);
    }
    assert!(queue.multiple_mins());
    queue.insert_hash(1);
    assert_eq!(queue.get_min_pos(), 3);
    assert!(!queue.multiple_mins());
    assert_eq!(queue.get_inner_min_pos(), (3, None));
}
