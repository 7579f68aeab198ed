use data_structures::delayed_queue::{DelayedQueue, Message, TakeStep};

#[test]
fn message_new_keeps_fields() {
    let m = Message::new("x", 42);
    assert_eq!(m.element, "x");
    assert_eq!(m.instant, 42);
}

#[test]
fn queue_empty_take_fails() {
    let mut q: DelayedQueue<i32> = DelayedQueue::new();
    assert_eq!(q.size(), 0);
    assert!(matches!(q.take_step(100), TakeStep::Empty));
}

#[test]
fn queue_orders_by_instant() {
    let mut q = DelayedQueue::new();
    q.offer(20, 5);
    q.offer(30, 10);
    q.offer(10, 15);
    q.offer(5, 1);
    assert_eq!(q.size(), 4);
    assert!(matches!(q.take_step(100), TakeStep::Ready(5)));
    assert!(matches!(q.take_step(100), TakeStep::Ready(20)));
    assert!(matches!(q.take_step(100), TakeStep::Ready(30)));
    assert!(matches!(q.take_step(100), TakeStep::Ready(10)));
    assert!(matches!(q.take_step(100), TakeStep::Empty));
}

#[test]
fn queue_equal_instants_keep_offer_order() {
    let mut q = DelayedQueue::new();
    q.offer('a', 7);
    q.offer('b', 3);
    q.offer('c', 7);
    q.offer('d', 7);
    assert!(matches!(q.take_step(8), TakeStep::Ready('b')));
    assert!(matches!(q.take_step(8), TakeStep::Ready('a')));
    assert!(matches!(q.take_step(8), TakeStep::Ready('c')));
    assert!(matches!(q.take_step(8), TakeStep::Ready('d')));
}

#[test]
fn queue_waits_until_due() {
    let mut q = DelayedQueue::new();
    q.offer(20, 5);
    assert!(matches!(q.take_step(2), TakeStep::WaitFor(3)));
    // due only strictly after its instant
    assert!(matches!(q.take_step(5), TakeStep::WaitFor(0)));
    assert_eq!(q.size(), 1);
    assert!(matches!(q.take_step(6), TakeStep::Ready(20)));
    assert_eq!(q.size(), 0);
}

#[test]
fn queue_message_reads_in_order() {
    let mut q = DelayedQueue::new();
    q.offer(30, 10);
    q.offer(20, 5);
    assert_eq!(q.message(0).element, 20);
    assert_eq!(q.message(1).instant, 10);
}

#[test]
fn queue_takes_at_several_times_follow_instants() {
    let mut q = DelayedQueue::new();
    q.offer('c', 30);
    q.offer('a', 10);
    q.offer('b', 20);
    q.offer('d', 20);
    let mut taken = Vec::new();
    for now in [5, 11, 12, 21, 21, 22, 40, 40] {
        if let TakeStep::Ready(x) = q.take_step(now) {
            taken.push(x);
        }
    }
    assert_eq!(taken, vec!['a', 'b', 'd', 'c']);
}

#[test]
fn queue_size_counts_offers_minus_takes() {
    let mut q = DelayedQueue::new();
    q.offer(1, 1);
    q.offer(2, 2);
    q.offer(3, 50);
    let mut taken = 0;
    for now in [0, 3, 3, 3] {
        if let TakeStep::Ready(_) = q.take_step(now) {
            taken += 1;
        }
    }
    q.offer(4, 60);
    assert_eq!(taken, 2);
    assert_eq!(q.size(), 4 - taken);
}
