use algos::basic_data_structures::queue::Queue;

#[test]
fn test_create_queue() {
    let mut queue: Queue<i32> = Queue::new(5);
    assert_eq!(queue.len(), 0);
    for i in 0..5 {
        queue.enqueue(i).expect("is not at full cap");
    }
    assert!(queue.is_full());
}

#[test]
fn test_check_empty_queue() {
    let queue: Queue<i32> = Queue::new(5);
    assert!(queue.is_empty());
}

#[test]
fn test_check_full_queue() {
    let queue_a: Queue<i32> = Queue::new(5);
    assert!(!queue_a.is_full());

    let mut queue_b: Queue<i32> = Queue::new(5);
    for _ in 0..5 {
        queue_b.enqueue(1).expect("is not at full cap");
    }
    assert!(queue_b.is_full());
}

#[test]
fn test_clear_queue() {
    let mut queue: Queue<i32> = Queue::new(3);
    queue.enqueue(3).expect("is not at full cap");
    queue.enqueue(2).expect("is not at full cap");
    queue.enqueue(1).expect("is not at full cap");
    queue.clear();
    assert!(queue.is_empty());
}

#[test]
fn test_enqueue() {
    let mut queue_a: Queue<i32> = Queue::new(10);
    queue_a.enqueue(3).expect("is not at full cap");
    queue_a.enqueue(2).expect("is not at full cap");
    queue_a.enqueue(1).expect("is not at full cap");
    queue_a.enqueue(4).expect("is not at full cap");
    let mut iter = queue_a.iter();
    assert_eq!(iter.next(), Some(&4));
    assert_eq!(iter.next(), Some(&1));
    assert_eq!(iter.next(), Some(&2));
    assert_eq!(iter.next(), Some(&3));
    assert_eq!(iter.next(), None);

    let mut queue_b: Queue<i32> = Queue::new(3);
    queue_b.enqueue(3).expect("is not at full cap");
    queue_b.enqueue(2).expect("is not at full cap");
    queue_b.enqueue(1).expect("is not at full cap");
    match queue_b.enqueue(4) {
        Ok(..) => (),
        Err(e) => println!("{}", e),
    }
    assert_eq!(queue_b.len(), 3);
}

#[test]
fn test_dequeue() {
    let mut queue_a: Queue<i32> = Queue::new(3);
    queue_a.enqueue(3).expect("is not at full cap");
    queue_a.enqueue(2).expect("is not at full cap");
    queue_a.enqueue(1).expect("is not at full cap");
    assert_eq!(queue_a.dequeue(), Some(3));
    assert_eq!(queue_a.len(), 2);
    assert_eq!(queue_a.peek(), Some(&2));

    let mut queue_b: Queue<i32> = Queue::new(5);
    assert_eq!(queue_b.dequeue(), None);
    assert_eq!(queue_b.len(), 0);
}

#[test]
fn test_peek_queue() {
    let mut queue_a: Queue<i32> = Queue::new(3);
    queue_a.enqueue(3).expect("is not at full cap");
    queue_a.enqueue(2).expect("is not at full cap");
    queue_a.enqueue(1).expect("is not at full cap");
    assert_eq!(queue_a.peek(), Some(&3));

    let queue_b: Queue<i32> = Queue::new(2);
    assert_eq!(queue_b.peek(), None);
}

#[test]
fn test_get_len_queue() {
    let mut queue: Queue<i32> = Queue::new(10);
    queue.enqueue(3).expect("is not at full cap");
    queue.enqueue(2).expect("is not at full cap");
    queue.enqueue(1).expect("is not at full cap");
    assert_eq!(queue.len(), 3)
}

#[test]
fn test_iter_queue() {
    let mut queue: Queue<i32> = Queue::new(10);
    queue.enqueue(3).expect("is not at full cap");
    queue.enqueue(2).expect("is not at full cap");
    queue.enqueue(1).expect("is not at full cap");

    let mut iter = queue.iter();

    assert_eq!(iter.next(), Some(&1));
    assert_eq!(iter.next(), Some(&2));
    assert_eq!(iter.next(), Some(&3));
    assert_eq!(iter.next(), None);

    //Does not panic
    queue.enqueue(1).expect("should not panic");
}

#[test]
fn test_into_iter_queue() {
    let mut queue: Queue<i32> = Queue::new(10);
    queue.enqueue(3).expect("is not at full cap");
    queue.enqueue(2).expect("is not at full cap");
    queue.enqueue(1).expect("is not at full cap");

    let mut iter = queue.into_iter();

    assert_eq!(iter.next(), Some(1));
    assert_eq!(iter.next(), Some(2));
    assert_eq!(iter.next(), Some(3));
    assert_eq!(iter.next(), None);
}

#[test]
fn test_iter_mut_queue() {
    let mut queue: Queue<i32> = Queue::new(10);
    queue.enqueue(3).expect("is not at full cap");
    queue.enqueue(2).expect("is not at full cap");
    queue.enqueue(1).expect("is not at full cap");

    let mut iter = queue.iter_mut();

    assert_eq!(iter.next(), Some(&mut 1));
    assert_eq!(iter.next(), Some(&mut 2));
    assert_eq!(iter.next(), Some(&mut 3));
    assert_eq!(iter.next(), None);

    //Does not panic
    queue.enqueue(1).expect("should not panic");
}

#[test]
fn test_iter_mut_queue_2() {
    let mut queue: Queue<i32> = Queue::new(10);
    queue.enqueue(3).expect("is not at full cap");
    queue.enqueue(2).expect("is not at full cap");
    queue.enqueue(1).expect("is not at full cap");

    let mut iter = queue.iter_mut();

    //Modify the original queue from iter_mut
    while let Some(x) = iter.next() {
        *x *= 2;
    }

    let mut iter2 = queue.iter_mut();

    //Check if original queue has been modified in intended manner
    assert_eq!(iter2.next(), Some(&mut 2));
    assert_eq!(iter2.next(), Some(&mut 4));
    assert_eq!(iter2.next(), Some(&mut 6));
    assert_eq!(iter2.next(), None);

    //Does not panic
    queue.enqueue(1).expect("should not panic");
}
