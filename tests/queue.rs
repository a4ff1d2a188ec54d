use dessert::EventQueue;

#[test]
fn queue_pops_earliest_first() {
    let mut q = EventQueue::<&str>::new();
    for (at, name) in [(5, "e"), (1, "a"), (4, "d"), (2, "b"), (3, "c"), (0, "z")] {
        q.push(at, name);
    }
    assert_eq!(q.len(), 6);
    assert_eq!(q.peek_time(), Some(0));
    let mut out = Vec::new();
    while let Some(entry) = q.pop() {
        out.push(entry);
    }
    assert_eq!(out, vec![(0, "z"), (1, "a"), (2, "b"), (3, "c"), (4, "d"), (5, "e")]);
    assert_eq!(q.len(), 0);
}

#[test]
fn empty_queue_gives_nothing() {
    let mut q = EventQueue::<u8>::new();
    assert_eq!(q.peek_time(), None);
    assert_eq!(q.pop(), None);
    assert_eq!(q.len(), 0);
}

#[test]
fn queue_keeps_equal_times() {
    let mut q = EventQueue::<u8>::new();
    q.push(7, 1);
    q.push(7, 2);
    q.push(3, 3);
    assert_eq!(q.pop(), Some((3, 3)));
    let mut rest = vec![q.pop().unwrap(), q.pop().unwrap()];
    rest.sort();
    assert_eq!(rest, vec![(7, 1), (7, 2)]);
    assert_eq!(q.pop(), None);
}

#[test]
fn queue_extreme_times() {
    let mut q = EventQueue::<u8>::new();
    q.push(u64::MAX, 1);
    q.push(0, 2);
    q.push(u64::MAX, 3);
    assert_eq!(q.pop(), Some((0, 2)));
    assert_eq!(q.peek_time(), Some(u64::MAX));
}
