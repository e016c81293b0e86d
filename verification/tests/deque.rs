use algos::basic_data_structures::deque::Deque;

#[test]
fn test_create_deque() {
    let mut deque: Deque<i32> = Deque::new(5);
    assert_eq!(deque.len(), 0);
    for i in 0..5 {
        deque.add_front(i).expect("is not at full cap");
    }
    assert!(deque.is_full());
}

#[test]
fn test_check_empty_deque() {
    let deque: Deque<i32> = Deque::new(5);
    assert!(deque.is_empty());
}

#[test]
fn test_check_full_deque() {
    let deque_a: Deque<i32> = Deque::new(5);
    assert!(!deque_a.is_full());

    let mut deque_b: Deque<i32> = Deque::new(5);
    for _ in 0..5 {
        deque_b.add_front(1).expect("is not at full cap");
    }
    assert!(deque_b.is_full());
}

#[test]
fn test_clear_deque() {
    let mut deque: Deque<i32> = Deque::new(3);
    deque.add_front(1).expect("is not at full cap");
    deque.add_front(2).expect("is not at full cap");
    deque.add_front(3).expect("is not at full cap");
    deque.clear();
    assert!(deque.is_empty());
}

#[test]
fn test_add_front_deque() {
    let mut deque_a: Deque<i32> = Deque::new(5);
    deque_a.add_front(1).expect("is not at full cap");
    deque_a.add_front(2).expect("is not at full cap");
    deque_a.add_front(3).expect("is not at full cap");
    deque_a.add_front(4).expect("is not at full cap");
    let mut iter = deque_a.iter();
    assert_eq!(iter.next(), Some(&1));
    assert_eq!(iter.next(), Some(&2));
    assert_eq!(iter.next(), Some(&3));
    assert_eq!(iter.next(), Some(&4));
    assert_eq!(iter.next(), None);

    let mut deque_b: Deque<i32> = Deque::new(3);
    deque_b.add_front(1).expect("is not at full cap");
    deque_b.add_front(2).expect("is not at full cap");
    deque_b.add_front(3).expect("is not at full cap");
    match deque_b.add_front(4) {
        Ok(..) => (),
        Err(e) => println!("{}", e),
    }
    assert_eq!(deque_b.len(), 3);
}

#[test]
fn test_add_rear_deque() {
    let mut deque_a: Deque<i32> = Deque::new(5);
    deque_a.add_front(1).expect("is not at full cap");
    deque_a.add_front(2).expect("is not at full cap");
    deque_a.add_front(3).expect("is not at full cap");
    deque_a.add_rear(4).expect("is not at full cap");
    let mut iter = deque_a.iter();
    assert_eq!(iter.next(), Some(&4));
    assert_eq!(iter.next(), Some(&1));
    assert_eq!(iter.next(), Some(&2));
    assert_eq!(iter.next(), Some(&3));
    assert_eq!(iter.next(), None);

    let mut deque_b: Deque<i32> = Deque::new(3);
    deque_b.add_front(1).expect("is not at full cap");
    deque_b.add_front(2).expect("is not at full cap");
    deque_b.add_front(3).expect("is not at full cap");
    match deque_b.add_rear(4) {
        Ok(..) => (),
        Err(e) => println!("{}", e),
    }
    assert_eq!(deque_b.len(), 3);
}

#[test]
fn test_remove_front_deque() {
    let mut deque_a: Deque<i32> = Deque::new(5);
    deque_a.add_front(1).expect("is not at full cap");
    deque_a.add_front(2).expect("is not at full cap");
    deque_a.add_front(3).expect("is not at full cap");
    assert_eq!(deque_a.remove_front(), Some(3));
    let mut iter = deque_a.iter();
    assert_eq!(iter.next(), Some(&1));
    assert_eq!(iter.next(), Some(&2));
    assert_eq!(iter.next(), None);

    let mut deque_b: Deque<i32> = Deque::new(5);
    assert_eq!(deque_b.remove_front(), None);
    assert_eq!(deque_b.len(), 0);
}

#[test]
fn test_remove_rear_deque() {
    let mut deque_a: Deque<i32> = Deque::new(5);
    deque_a.add_front(1).expect("is not at full cap");
    deque_a.add_front(2).expect("is not at full cap");
    deque_a.add_front(3).expect("is not at full cap");
    assert_eq!(deque_a.remove_rear(), Some(1));
    let mut iter = deque_a.iter();
    assert_eq!(iter.next(), Some(&2));
    assert_eq!(iter.next(), Some(&3));
    assert_eq!(iter.next(), None);

    let mut deque_b: Deque<i32> = Deque::new(5);
    assert_eq!(deque_b.remove_rear(), None);
    assert_eq!(deque_b.len(), 0);
}

#[test]
fn test_peek_front_deque() {
    let mut deque_a: Deque<i32> = Deque::new(5);
    deque_a.add_front(1).expect("is not at full cap");
    deque_a.add_front(2).expect("is not at full cap");
    deque_a.add_front(3).expect("is not at full cap");
    assert_eq!(deque_a.peek_front(), Some(&3));

    let deque_b: Deque<i32> = Deque::new(2);
    assert_eq!(deque_b.peek_front(), None);
}

#[test]
fn test_peek_rear_deque() {
    let mut deque_a: Deque<i32> = Deque::new(5);
    deque_a.add_front(1).expect("is not at full cap");
    deque_a.add_front(2).expect("is not at full cap");
    deque_a.add_front(3).expect("is not at full cap");
    assert_eq!(deque_a.peek_rear(), Some(&1));

    let deque_b: Deque<i32> = Deque::new(2);
    assert_eq!(deque_b.peek_rear(), None);
}

#[test]
fn test_get_len_deque() {
    let mut deque: Deque<i32> = Deque::new(10);
    deque.add_front(1).expect("is not at full cap");
    deque.add_front(2).expect("is not at full cap");
    deque.add_front(3).expect("is not at full cap");
    assert_eq!(deque.len(), 3)
}

#[test]
fn test_iter_deque() {
    let mut deque: Deque<i32> = Deque::new(10);
    deque.add_front(1).expect("is not at full cap");
    deque.add_front(2).expect("is not at full cap");
    deque.add_front(3).expect("is not at full cap");

    let mut iter = deque.iter();

    assert_eq!(iter.next(), Some(&1));
    assert_eq!(iter.next(), Some(&2));
    assert_eq!(iter.next(), Some(&3));
    assert_eq!(iter.next(), None);

    //Does not panic
    deque.add_front(1).expect("should not panic");
}

#[test]
fn test_into_iter_deque() {
    let mut deque: Deque<i32> = Deque::new(10);
    deque.add_front(1).expect("is not at full cap");
    deque.add_front(2).expect("is not at full cap");
    deque.add_front(3).expect("is not at full cap");

    let mut iter = deque.into_iter();

    assert_eq!(iter.next(), Some(1));
    assert_eq!(iter.next(), Some(2));
    assert_eq!(iter.next(), Some(3));
    assert_eq!(iter.next(), None);
}

#[test]
fn test_iter_mut_deque() {
    let mut deque: Deque<i32> = Deque::new(10);
    deque.add_front(1).expect("is not at full cap");
    deque.add_front(2).expect("is not at full cap");
    deque.add_front(3).expect("is not at full cap");

    let mut iter = deque.iter_mut();

    assert_eq!(iter.next(), Some(&mut 1));
    assert_eq!(iter.next(), Some(&mut 2));
    assert_eq!(iter.next(), Some(&mut 3));
    assert_eq!(iter.next(), None);

    //Does not panic
    deque.add_front(1).expect("should not panic");
}

#[test]
fn test_iter_mut_deque_2() {
    let mut deque: Deque<i32> = Deque::new(10);
    deque.add_front(1).expect("is not at full cap");
    deque.add_front(2).expect("is not at full cap");
    deque.add_front(3).expect("is not at full cap");

    let mut iter = deque.iter_mut();

    //Modify the original deque from iter_mut
    while let Some(x) = iter.next() {
        *x *= 2;
    }

    let mut iter2 = deque.iter_mut();

    //Check if original deque has been modified in intended manner
    assert_eq!(iter2.next(), Some(&mut 2));
    assert_eq!(iter2.next(), Some(&mut 4));
    assert_eq!(iter2.next(), Some(&mut 6));
    assert_eq!(iter2.next(), None);

    //Does not panic
    deque.add_front(1).expect("should not panic");
}
