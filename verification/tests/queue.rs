use energy_monitor::queue::BoundedQueue;

#[test]
fn full_queue_refuses_and_keeps_the_message() {
    let mut q: BoundedQueue<u32> = BoundedQueue::new(2);
    assert!(q.push(1).is_ok());
    assert!(q.push(2).is_ok());

    // the queue is full: the message is handed back, nothing is dropped
    let refused = q.push(3).unwrap_err();
    assert_eq!(refused, 3);
    assert_eq!(q.len(), 2);

    // as soon as the handler takes one message, the refused one fits
    assert_eq!(q.pop(), Some(1));
    assert!(q.push(refused).is_ok());

    // order is preserved: single consumer sees arrival order
    assert_eq!(q.pop(), Some(2));
    assert_eq!(q.pop(), Some(3));
    assert_eq!(q.pop(), None);
}

#[test]
fn queue_reports_len_and_capacity() {
    let mut q: BoundedQueue<&'static str> = BoundedQueue::new(3);
    assert_eq!(q.capacity(), 3);
    assert_eq!(q.len(), 0);
    q.push("a").unwrap();
    assert_eq!(q.len(), 1);
}
