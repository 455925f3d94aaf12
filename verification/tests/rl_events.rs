use gruid::rl::events::EventQueue;

#[test]
fn test_basic_push_pop() {
    let mut q = EventQueue::new();
    q.push("a", 3);
    q.push("b", 1);
    q.push("c", 2);

    assert_eq!(q.pop(), Some("b"));
    assert_eq!(q.pop(), Some("c"));
    assert_eq!(q.pop(), Some("a"));
    assert_eq!(q.pop(), None);
}

#[test]
fn test_fifo_same_rank() {
    let mut q = EventQueue::new();
    q.push("first", 1);
    q.push("second", 1);
    q.push("third", 1);

    assert_eq!(q.pop(), Some("first"));
    assert_eq!(q.pop(), Some("second"));
    assert_eq!(q.pop(), Some("third"));
}

#[test]
fn test_push_first_priority() {
    let mut q = EventQueue::new();
    q.push("normal", 1);
    q.push_first("first", 1);

    // push_first event should come out before push event at same rank.
    assert_eq!(q.pop(), Some("first"));
    assert_eq!(q.pop(), Some("normal"));
}

#[test]
fn test_pop_with_rank() {
    let mut q = EventQueue::new();
    q.push(42, 5);
    assert_eq!(q.pop_with_rank(), Some((42, 5)));
}

#[test]
fn test_filter() {
    let mut q = EventQueue::new();
    q.push(1, 1);
    q.push(2, 2);
    q.push(3, 3);
    q.push(4, 4);

    q.filter(|e| *e % 2 == 0);
    assert_eq!(q.len(), 2);
    assert_eq!(q.pop(), Some(2));
    assert_eq!(q.pop(), Some(4));
}

#[test]
fn test_is_empty_and_len() {
    let mut q = EventQueue::<i32>::new();
    assert!(q.is_empty());
    assert_eq!(q.len(), 0);

    q.push(1, 1);
    assert!(!q.is_empty());
    assert_eq!(q.len(), 1);

    q.pop();
    assert!(q.is_empty());
}

#[test]
fn push_below_every_rank_pops_first() {
    let mut q = gruid::rl::events::EventQueue::new();
    q.push("late", 5);
    q.push("later", 7);
    q.push("now", 1);
    assert_eq!(q.pop(), Some("now"));
}
