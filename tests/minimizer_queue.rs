use minimizer_queue::{ImplicitMinimizerQueue, MinimizerQueue};
use nohash_hasher::BuildNoHashHasher;

#[test]
fn test_get_min() {
    let mut queue = MinimizerQueue::with_hasher(3, BuildNoHashHasher::<usize>::default());

    let vals = [1usize, 2, 3, 0, 7, 8, 9, 100, 3, 4, 7, 8];
    let mut mins = Vec::with_capacity(vals.len() - queue.width() + 1);

    for &val in vals.iter().take(queue.width() - 1) {
        queue.insert(val);
    }
    for &val in vals.iter().skip(queue.width() - 1) {
        queue.insert(val);
        mins.push(queue.get_min());
    }

    assert_eq!(mins, vec![1, 0, 0, 0, 7, 8, 3, 3, 3, 4]);
}

#[test]
fn test_get_min_pos() {
    let mut queue = MinimizerQueue::with_hasher(3, BuildNoHashHasher::<usize>::default());

    let vals = [1usize, 2, 3, 0, 7, 8, 9, 100, 3, 4, 7, 8];
    let mut mins_pos = Vec::with_capacity(vals.len() - queue.width() + 1);

    for &val in vals.iter().take(queue.width() - 1) {
        queue.insert(val);
    }
    for &val in vals.iter().skip(queue.width() - 1) {
        queue.insert(val);
        mins_pos.push(queue.get_min_pos());
    }

    assert_eq!(
        mins_pos,
        vec![
            (1, 0),
            (0, 2),
            (0, 1),
            (0, 0),
            (7, 0),
            (8, 0),
            (3, 2),
            (3, 1),
            (3, 0),
            (4, 0)
        ]
    );
}

#[test]
fn test_implicit_get_min_pos() {
    let mut queue = ImplicitMinimizerQueue::with_hasher(3, BuildNoHashHasher::<usize>::default());

    let vals = [1usize, 2, 3, 0, 7, 8, 9, 100, 3, 4, 7, 8];
    let mut mins_pos = Vec::with_capacity(vals.len() - queue.width() + 1);

    for val in vals.iter().take(queue.width() - 1) {
        queue.insert(val);
    }
    for val in vals.iter().skip(queue.width() - 1) {
        queue.insert(val);
        mins_pos.push(queue.get_min_pos());
    }

    assert_eq!(mins_pos, vec![0, 2, 1, 0, 0, 0, 2, 1, 0, 0]);
}

#[test]
fn test_get_inner_min_pos() {
    let mut queue = MinimizerQueue::with_hasher(3, BuildNoHashHasher::<usize>::default());

    let vals = [1usize, 2, 3, 2, 2, 3, 1];
    let mut inner_mins_pos = Vec::with_capacity(vals.len() - queue.width() + 1);

    for &val in vals.iter().take(queue.width() - 1) {
        queue.insert(val);
    }
    for &val in vals.iter().skip(queue.width() - 1) {
        queue.insert(val);
        inner_mins_pos.push(queue.get_inner_min_pos());
    }

    assert_eq!(
        inner_mins_pos,
        vec![
            (1, 0, None),
            (2, 0, Some((2, 2))),
            (2, 1, None),
            (2, 1, None),
            (1, 2, None),
        ]
    );
}

#[test]
fn test_implicit_get_inner_min_pos() {
    let mut queue = ImplicitMinimizerQueue::with_hasher(3, BuildNoHashHasher::<usize>::default());

    let vals = [1usize, 2, 3, 2, 2, 3, 1];
    let mut inner_mins_pos = Vec::with_capacity(vals.len() - queue.width() + 1);

    for val in vals.iter().take(queue.width() - 1) {
        queue.insert(val);
    }
    for val in vals.iter().skip(queue.width() - 1) {
        queue.insert(val);
        inner_mins_pos.push(queue.get_inner_min_pos());
    }

    assert_eq!(
        inner_mins_pos,
        vec![(0, None), (0, Some(2)), (1, None), (1, None), (2, None),]
    );
}
