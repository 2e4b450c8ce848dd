use wfc::changequeue::ChangeQueue;

#[test]
fn simple_change_queue() {
    let mut q = ChangeQueue::new();

    assert!(q.is_empty());

    q.add(1);

    assert!(!q.is_empty());

    let n = q.next();

    assert_eq!(n, Some(1));

    assert!(q.is_empty());

    q.add(1);
    q.add(2);
    q.add(2);
    q.add(3);
    q.add(2);

    assert!(!q.is_empty());
    q.next();
    q.next();
    q.next();
    assert!(q.is_empty());
}

#[test]
fn queue_hands_out_the_latest_first() {
    let mut q = ChangeQueue::new();
    q.add((0usize, 0usize));
    q.add((1, 0));
    q.add((0, 0));
    q.add((2, 5));
    assert_eq!(q.next(), Some((2, 5)));
    assert_eq!(q.next(), Some((1, 0)));
    assert_eq!(q.next(), Some((0, 0)));
    assert_eq!(q.next(), None);
    assert_eq!(q.next(), None);
    assert!(q.is_empty());
}

#[test]
fn a_value_can_wait_again_once_it_was_taken() {
    let mut q = ChangeQueue::new();
    q.add(7u8);
    assert_eq!(q.next(), Some(7));
    q.add(7);
    assert!(!q.is_empty());
    assert_eq!(q.next(), Some(7));
    assert!(q.is_empty());
}
