use roads_from_nd::queue::MinQueue;

#[test]
fn entries_leave_by_key_and_then_by_item() {
    let mut q = MinQueue::new();
    assert!(q.is_empty());
    assert_eq!(q.pop(), None);
    for (key, item) in [(5, 1), (3, 2), (3, 1), (9, 0), (0, 7), (3, 2), (u128::MAX, 4)] {
        q.push(key, item);
    }
    assert_eq!(q.len(), 7);
    assert!(!q.is_empty());
    let mut out = Vec::new();
    while let Some(e) = q.pop() {
        out.push(e);
    }
    assert_eq!(out, vec![(0, 7), (3, 1), (3, 2), (3, 2), (5, 1), (9, 0), (u128::MAX, 4)]);
    assert_eq!(q.len(), 0);
}

#[test]
fn the_queue_sorts_what_it_is_given() {
    let mut q = MinQueue::new();
    let mut seed: u64 = 99;
    let mut given = Vec::new();
    for _ in 0..500 {
        seed = seed.wrapping_mul(6364136223846793005).wrapping_add(1442695040888963407);
        let e = ((seed >> 40) as u128 % 50, (seed >> 20) as usize % 10);
        given.push(e);
        q.push(e.0, e.1);
        if seed % 3 == 0 {
            let least = *given.iter().min().unwrap();
            assert_eq!(q.pop(), Some(least));
            let at = given.iter().position(|&x| x == least).unwrap();
            given.remove(at);
        }
    }
    given.sort();
    let mut out = Vec::new();
    while let Some(e) = q.pop() {
        out.push(e);
    }
    assert_eq!(out, given);
}
