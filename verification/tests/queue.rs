use tour_planner::queue::MinQueue;

#[test]
fn empty_queue_has_nothing_to_pop() {
    let mut q = MinQueue::new();
    assert_eq!(q.len(), 0);
    assert_eq!(q.pop_min(), None);
    assert_eq!(q.len(), 0);
}

#[test]
fn queue_pops_in_rising_cost() {
    let mut q = MinQueue::new();
    q.push(5, 0);
    q.push(1, 1);
    q.push(9, 2);
    q.push(3, 3);
    assert_eq!(q.len(), 4);
    assert_eq!(q.pop_min(), Some((1, 1)));
    assert_eq!(q.pop_min(), Some((3, 3)));
    assert_eq!(q.pop_min(), Some((5, 0)));
    assert_eq!(q.pop_min(), Some((9, 2)));
    assert_eq!(q.pop_min(), None);
}

#[test]
fn queue_keeps_several_entries_of_one_node() {
    let mut q = MinQueue::new();
    q.push(7, 4);
    q.push(2, 4);
    q.push(7, 4);
    assert_eq!(q.len(), 3);
    assert_eq!(q.pop_min(), Some((2, 4)));
    assert_eq!(q.pop_min(), Some((7, 4)));
    assert_eq!(q.pop_min(), Some((7, 4)));
    assert_eq!(q.len(), 0);
}

#[test]
fn queue_ties_come_out_with_the_least_cost() {
    let mut q = MinQueue::new();
    q.push(4, 1);
    q.push(4, 2);
    q.push(6, 3);
    let first = q.pop_min().unwrap();
    let second = q.pop_min().unwrap();
    assert_eq!(first.0, 4);
    assert_eq!(second.0, 4);
    assert_ne!(first.1, second.1);
    assert_eq!(q.pop_min(), Some((6, 3)));
}

#[test]
fn queue_interleaves_pushes_and_pops() {
    let mut q = MinQueue::new();
    q.push(10, 0);
    q.push(20, 1);
    assert_eq!(q.pop_min(), Some((10, 0)));
    q.push(5, 2);
    q.push(30, 3);
    assert_eq!(q.pop_min(), Some((5, 2)));
    assert_eq!(q.pop_min(), Some((20, 1)));
    assert_eq!(q.pop_min(), Some((30, 3)));
}

#[test]
fn queue_sorts_many_entries() {
    let mut q = MinQueue::new();
    let mut x: u64 = 12345;
    let mut expected = Vec::new();
    let mut i = 0;
    while i < 500 {
        x = x.wrapping_mul(6364136223846793005).wrapping_add(1442695040888963407);
        let cost = (x >> 40) as u128;
        q.push(cost, i);
        expected.push(cost);
        i += 1;
    }
    expected.sort();
    let mut got = Vec::new();
    while let Some(e) = q.pop_min() {
        got.push(e.0);
    }
    assert_eq!(got, expected);
}

#[test]
fn queue_holds_greatest_cost() {
    let mut q = MinQueue::new();
    q.push(u128::MAX, usize::MAX);
    q.push(0, 0);
    assert_eq!(q.pop_min(), Some((0, 0)));
    assert_eq!(q.pop_min(), Some((u128::MAX, usize::MAX)));
}
