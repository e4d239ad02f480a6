use containers::queue::{CircularQueue, Queue, QueueError};

#[test]
fn queue_insert_is_ok() {
    let mut q = Queue::new();
    q.insert(1);
    assert_eq!(q.peek(), Some(&1));
}

#[test]
fn queue_peek_is_ok() {
    let mut q = Queue::new();
    q.insert(1);
    q.insert(2);
    assert_eq!(q.peek(), Some(&1));
}

#[test]
fn queue_remove_is_ok() {
    let mut q = Queue::new();
    q.insert(1);
    q.insert(2);
    let v = q.remove();
    assert_eq!(v, Some(1));
}

#[test]
fn queue_remove_from_empty_queue_returns_none() {
    let mut q: Queue<i32> = Queue::new();
    let v = q.remove();
    assert_eq!(v, None);
}

#[test]
fn queue_peek_on_empty_queue_returns_none() {
    let q: Queue<i32> = Queue::new();
    let v = q.peek();
    assert_eq!(v, None);
}

#[test]
fn circular_queue_insert_is_ok() {
    let mut cq = CircularQueue::new(10);
    assert_eq!(cq.insert(1).is_ok(), true);
}

#[test]
fn circular_queue_returns_error_when_full() {
    let mut cq = CircularQueue::new(3);
    cq.insert(1).unwrap();
    cq.insert(2).unwrap();
    cq.insert(3).unwrap();
    if let Err(e) = cq.insert(4) {
        assert_eq!(e, QueueError::QueueFull);
    } else {
        assert!(
            false,
            "logical error: insert must have returned a queue full error"
        );
    }
}

#[test]
fn circular_queue_remove_is_ok() {
    let mut cq = CircularQueue::new(3);
    cq.insert(1).unwrap();
    cq.insert(2).unwrap();
    cq.insert(3).unwrap();
    if let Ok(v) = cq.remove() {
        assert_eq!(v, Some(1));
    } else {
        assert!(false, "remove must have been successful");
    }
}

#[test]
fn circular_queue_remove_returns_error_when_queue_is_empty() {
    let mut cq: CircularQueue<i32> = CircularQueue::new(3);
    if let Err(e) = cq.remove() {
        assert_eq!(e, QueueError::QueueEmpty);
    } else {
        assert!(
            false,
            "attempt to remove element from empty queue must return an error"
        );
    }
}

#[test]
fn queue_removes_in_insertion_order() {
    let mut q = Queue::new();
    for i in 0..100 {
        q.insert(i);
    }
    for i in 0..100 {
        assert_eq!(q.remove(), Some(i));
    }
    assert_eq!(q.remove(), None);
}

#[test]
fn queue_interleaved_inserts_and_removes_keep_order() {
    let mut q = Queue::new();
    q.insert(1);
    q.insert(2);
    assert_eq!(q.remove(), Some(1));
    q.insert(3);
    assert_eq!(q.remove(), Some(2));
    assert_eq!(q.remove(), Some(3));
    assert_eq!(q.remove(), None);
}

#[test]
fn queue_peek_repeated_does_not_change_state() {
    let mut q = Queue::new();
    q.insert(7);
    q.insert(8);
    for _ in 0..5 {
        assert_eq!(q.peek(), Some(&7));
    }
    assert_eq!(q.remove(), Some(7));
    assert_eq!(q.peek(), Some(&8));
    assert_eq!(q.peek(), Some(&8));
    assert_eq!(q.remove(), Some(8));
    assert_eq!(q.peek(), None);
}

#[test]
fn circular_queue_removes_in_insertion_order() {
    let mut cq = CircularQueue::new(5);
    for i in 0..5 {
        assert!(cq.insert(i).is_ok());
    }
    for i in 0..5 {
        assert_eq!(cq.remove(), Ok(Some(i)));
    }
    assert_eq!(cq.remove(), Err(QueueError::QueueEmpty));
}

#[test]
fn circular_queue_scenario_capacity_three() {
    let mut cq = CircularQueue::new(3);
    assert_eq!(cq.insert(1), Ok(()));
    assert_eq!(cq.insert(2), Ok(()));
    assert_eq!(cq.insert(3), Ok(()));
    assert_eq!(cq.insert(4), Err(QueueError::QueueFull));
    assert_eq!(cq.remove(), Ok(Some(1)));
    assert_eq!(cq.insert(4), Ok(()));
    assert_eq!(cq.remove(), Ok(Some(2)));
    assert_eq!(cq.remove(), Ok(Some(3)));
    assert_eq!(cq.remove(), Ok(Some(4)));
    assert_eq!(cq.remove(), Err(QueueError::QueueEmpty));
}

#[test]
fn circular_queue_reuses_slots_over_many_cycles() {
    let mut cq = CircularQueue::new(4);
    let mut next_in = 0;
    let mut next_out = 0;
    for _ in 0..50 {
        while cq.insert(next_in).is_ok() {
            next_in += 1;
        }
        assert_eq!(next_in - next_out, 4);
        assert_eq!(cq.remove(), Ok(Some(next_out)));
        assert_eq!(cq.remove(), Ok(Some(next_out + 1)));
        next_out += 2;
    }
}

#[test]
fn circular_queue_of_size_zero_is_always_full_and_empty() {
    let mut cq: CircularQueue<i32> = CircularQueue::new(0);
    assert_eq!(cq.insert(1), Err(QueueError::QueueFull));
    assert_eq!(cq.remove(), Err(QueueError::QueueEmpty));
}

#[test]
fn circular_queue_of_size_one() {
    let mut cq = CircularQueue::new(1);
    assert_eq!(cq.insert(10), Ok(()));
    assert_eq!(cq.insert(11), Err(QueueError::QueueFull));
    assert_eq!(cq.remove(), Ok(Some(10)));
    assert_eq!(cq.insert(12), Ok(()));
    assert_eq!(cq.remove(), Ok(Some(12)));
    assert_eq!(cq.remove(), Err(QueueError::QueueEmpty));
}
