use algos::basic_data_structures::stack::Stack;

#[test]
fn test_create_stack() {
    let stack: Stack<i32> = Stack::new();
    assert_eq!(*stack.get_size(), 0);
    assert!(stack.is_empty());
}

#[test]
fn test_check_empty_stack() {
    let stack: Stack<i32> = Stack::new();
    assert!(stack.is_empty());
}

#[test]
fn test_clear_stack() {
    let mut stack: Stack<i32> = Stack::new();
    stack.push(1);
    stack.push(2);
    stack.push(3);
    stack.clear();
    assert!(stack.is_empty());
}

#[test]
fn test_push_to_stack() {
    let mut stack: Stack<i32> = Stack::new();
    stack.push(1);
    stack.push(2);
    stack.push(3);
    stack.push(4);
    assert_eq!(*stack.get_size(), 4);
    assert_eq!(stack.pop(), Some(4));
    assert_eq!(stack.pop(), Some(3));
    assert_eq!(stack.pop(), Some(2));
    assert_eq!(stack.pop(), Some(1));
}

#[test]
fn test_pop_from_stack() {
    let mut stack_a: Stack<i32> = Stack::new();
    stack_a.push(1);
    stack_a.push(2);
    stack_a.push(3);
    stack_a.pop();
    assert_eq!(*stack_a.get_size(), 2);
    assert_eq!(stack_a.peek(), Some(&2));

    let mut stack_b: Stack<i32> = Stack::new();
    stack_b.pop();
    assert_eq!(*stack_b.get_size(), 0);
    assert!(stack_b.is_empty());
}

#[test]
fn test_peek_from_stack() {
    let mut stack_a: Stack<i32> = Stack::new();
    stack_a.push(1);
    stack_a.push(2);
    stack_a.push(3);
    assert_eq!(stack_a.peek(), Some(&3));

    let stack_b: Stack<i32> = Stack::new();
    assert_eq!(stack_b.peek(), None);
}

#[test]
fn test_get_stack_size() {
    let mut stack: Stack<i32> = Stack::new();
    stack.push(1);
    stack.push(2);
    stack.push(3);
    assert_eq!(stack.get_size(), &3)
}

#[test]
fn test_iter_stack() {
    let mut stack: Stack<i32> = Stack::new();
    stack.push(1);
    stack.push(2);
    stack.push(3);

    let mut iter = stack.iter();

    assert_eq!(iter.next(), Some(&3));
    assert_eq!(iter.next(), Some(&2));
    assert_eq!(iter.next(), Some(&1));
    assert_eq!(iter.next(), None);

    //Does not panic
    stack.push(1);
}

#[test]
fn test_into_iter_stack() {
    let mut stack: Stack<i32> = Stack::new();
    stack.push(1);
    stack.push(2);
    stack.push(3);

    let mut iter = stack.into_iter();

    assert_eq!(iter.next(), Some(3));
    assert_eq!(iter.next(), Some(2));
    assert_eq!(iter.next(), Some(1));
    assert_eq!(iter.next(), None);
}

#[test]
fn test_iter_mut_stack() {
    let mut stack: Stack<i32> = Stack::new();
    stack.push(1);
    stack.push(2);
    stack.push(3);

    let mut iter = stack.iter_mut();

    assert_eq!(iter.next(), Some(&mut 3));
    assert_eq!(iter.next(), Some(&mut 2));
    assert_eq!(iter.next(), Some(&mut 1));
    assert_eq!(iter.next(), None);

    //Does not panic
    stack.push(1);
}

#[test]
fn test_iter_mut_stack_2() {
    let mut stack: Stack<i32> = Stack::new();
    stack.push(1);
    stack.push(2);
    stack.push(3);

    let mut iter = stack.iter_mut();

    //Modify the original stack from iter_mut
    while let Some(x) = iter.next() {
        *x *= 2;
    }

    let mut iter2 = stack.iter_mut();

    //Check if original stack has been modified in intended manner
    assert_eq!(iter2.next(), Some(&mut 6));
    assert_eq!(iter2.next(), Some(&mut 4));
    assert_eq!(iter2.next(), Some(&mut 2));
    assert_eq!(iter2.next(), None);

    //Does not panic
    stack.push(1);
}
