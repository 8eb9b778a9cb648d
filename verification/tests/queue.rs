use routrs::queue::MinQueue;
use routrs::Distance;

fn length(km: f64) -> Distance {
    Distance(km.to_bits())
}

#[test]
fn test_pop_gives_the_least_first() {
    let mut queue = MinQueue::new();
    assert!(queue.is_empty());
    assert_eq!(queue.pop(), None);

    queue.push((length(5.0), 1));
    queue.push((length(0.5), 7));
    queue.push((length(f64::INFINITY), 2));
    queue.push((length(3.25), 4));
    queue.push((length(0.0), 9));
    assert_eq!(queue.len(), 5);
    assert!(!queue.is_empty());

    assert_eq!(queue.pop(), Some((length(0.0), 9)));
    assert_eq!(queue.pop(), Some((length(0.5), 7)));
    assert_eq!(queue.pop(), Some((length(3.25), 4)));
    assert_eq!(queue.pop(), Some((length(5.0), 1)));
    assert_eq!(queue.pop(), Some((length(f64::INFINITY), 2)));
    assert_eq!(queue.pop(), None);
    assert_eq!(queue.len(), 0);
}

#[test]
fn test_equal_lengths_leave_by_lower_id() {
    let mut queue = MinQueue::new();
    for id in [5, -3, 8, 0, 2, 2] {
        queue.push((Distance::infinity(), id));
    }
    queue.push((Distance::zero(), 6));
    let mut order = Vec::new();
    while let Some((_, id)) = queue.pop() {
        order.push(id);
    }
    assert_eq!(order, vec![6, -3, 0, 2, 2, 5, 8]);
}

#[test]
fn test_many_entries_leave_in_order() {
    let mut queue = MinQueue::new();
    let mut expected = Vec::new();
    let mut seed: u64 = 12345;
    for id in 0..2000 {
        seed = seed.wrapping_mul(6364136223846793005).wrapping_add(1442695040888963407);
        let entry = (Distance((seed >> 40) % 97), id % 13);
        expected.push(entry);
        queue.push(entry);
        if id % 7 == 0 {
            expected.sort_by_key(|entry| (entry.0 .0, entry.1));
            assert_eq!(queue.pop(), Some(expected.remove(0)));
        }
    }
    expected.sort_by_key(|entry| (entry.0 .0, entry.1));
    for entry in expected {
        assert_eq!(queue.pop(), Some(entry));
    }
    assert!(queue.is_empty());
}
