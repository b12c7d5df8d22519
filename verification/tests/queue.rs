use data_structures::queue::Queue;

#[test]
fn test_queue_functionality() {
    let mut queue: Queue<usize> = Queue::default();

    assert!(queue.is_empty());
    queue.enqueue(8);
    queue.enqueue(16);
    assert!(!queue.is_empty());
    assert_eq!(queue.len(), 2);

    assert_eq!(queue.peek_front(), Some(&8));
    assert_eq!(queue.peek_back(), Some(&16));

    assert_eq!(queue.dequeue(), Some(8));
    assert_eq!(queue.len(), 1);
    assert_eq!(queue.peek_front(), Some(&16));
    assert_eq!(queue.peek_back(), Some(&16));

    queue.drain();
    assert!(queue.is_empty());
    assert_eq!(queue.len(), 0);
    assert_eq!(queue.dequeue(), None);
}

#[test]
fn queue_is_first_in_first_out() {
    let mut queue = Queue::new();
    for v in 0..20 {
        queue.enqueue(v * 3);
    }
    for v in 0..20 {
        assert_eq!(queue.peek_front(), Some(&(v * 3)));
        assert_eq!(queue.peek_back(), Some(&57));
        assert_eq!(queue.dequeue(), Some(v * 3));
    }
    assert!(queue.is_empty());
}

#[test]
fn empty_queue_has_nothing_to_peek() {
    let mut queue: Queue<String> = Queue::new();
    assert_eq!(queue.peek_front(), None);
    assert_eq!(queue.peek_back(), None);
    assert_eq!(queue.dequeue(), None);
    assert_eq!(queue.len(), 0);
    queue.enqueue("only".to_string());
    assert_eq!(queue.peek_front(), queue.peek_back());
}
