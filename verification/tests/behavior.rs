use algos::basic_data_structures::deque::Deque;
use algos::basic_data_structures::node_chain::{BorrowCursor, IndexError, NodeChain};
use algos::basic_data_structures::queue::Queue;
use algos::sort::bubble::bubble_sort;
use algos::sort::heap::heap_sort;
use algos::sort::merge::merge_sort;
use algos::sort::quick::quick_sort;

fn collect_chain(mut cursor: BorrowCursor<'_, i32>) -> Vec<i32> {
    let mut out = Vec::new();
    while let Some(v) = cursor.next() {
        out.push(*v);
    }
    out
}

#[test]
fn length_tracks_successful_mutations() {
    let mut chain: NodeChain<i32> = NodeChain::new();
    assert_eq!(chain.len(), 0);
    chain.push(1);
    chain.push(2);
    assert_eq!(chain.len(), 2);
    assert_eq!(chain.insert_at(1, 9), Ok(()));
    assert_eq!(chain.len(), 3);
    assert_eq!(chain.pop(), Some(2));
    assert_eq!(chain.len(), 2);
    assert_eq!(chain.delete_at(1), Ok(Some(1)));
    assert_eq!(chain.len(), 1);
    // a failed insert and a boundary delete leave the length alone
    assert_eq!(chain.insert_at(5, 7), Err(IndexError::OutOfBounds));
    assert_eq!(chain.len(), 1);
    assert_eq!(chain.delete_at(1), Ok(None));
    assert_eq!(chain.len(), 1);
    // removals on an empty chain yield nothing and change nothing
    assert_eq!(chain.pop(), Some(9));
    assert_eq!(chain.pop(), None);
    assert_eq!(chain.delete_at(0), Ok(None));
    assert_eq!(chain.len(), 0);
}

#[test]
fn push_order_head_is_most_recent() {
    let mut chain: NodeChain<i32> = NodeChain::new();
    chain.push(1);
    chain.push(2);
    assert_eq!(chain.peek(), Some(&2));
    assert_eq!(collect_chain(chain.iter()), vec![2, 1]);
}

#[test]
fn insert_at_zero_equals_push() {
    let mut with_insert: NodeChain<i32> = NodeChain::new();
    with_insert.push(7);
    with_insert.push(8);
    assert_eq!(with_insert.insert_at(0, 9), Ok(()));

    let mut with_push: NodeChain<i32> = NodeChain::new();
    with_push.push(7);
    with_push.push(8);
    with_push.push(9);

    assert_eq!(
        collect_chain(with_insert.iter()),
        collect_chain(with_push.iter())
    );
    assert_eq!(with_insert.len(), with_push.len());
}

#[test]
fn consuming_cursor_round_trip() {
    let mut chain: NodeChain<i32> = NodeChain::new();
    chain.push(3);
    chain.push(2);
    chain.push(1);
    let expected = collect_chain(chain.iter());
    let n = chain.len();

    let mut cursor = chain.into_iter();
    let mut drained = Vec::new();
    while let Some(v) = cursor.next() {
        drained.push(v);
    }
    assert_eq!(drained.len(), n);
    assert_eq!(drained, expected);
    // the exhausted state is terminal
    assert_eq!(cursor.next(), None);
    assert_eq!(cursor.next(), None);
    assert_eq!(cursor.next(), None);
}

#[test]
fn out_of_bounds_leaves_chain_unchanged() {
    let mut chain: NodeChain<i32> = NodeChain::new();
    chain.push(1);
    chain.push(2);
    let before = collect_chain(chain.iter());

    assert_eq!(chain.insert_at(5, 42), Err(IndexError::OutOfBounds));
    assert_eq!(chain.delete_at(5), Err(IndexError::OutOfBounds));

    assert_eq!(chain.len(), 2);
    assert_eq!(collect_chain(chain.iter()), before);
}

#[test]
fn insert_at_end_appends() {
    let mut chain: NodeChain<i32> = NodeChain::new();
    chain.push(2);
    chain.push(1);
    assert_eq!(chain.insert_at(2, 3), Ok(()));
    assert_eq!(collect_chain(chain.iter()), vec![1, 2, 3]);
}

#[test]
fn delete_at_boundary_is_a_no_op() {
    let mut chain: NodeChain<i32> = NodeChain::new();
    chain.push(2);
    chain.push(1);
    assert_eq!(chain.delete_at(2), Ok(None));
    assert_eq!(collect_chain(chain.iter()), vec![1, 2]);
}

#[test]
fn mutation_through_cursor_is_visible() {
    let mut chain: NodeChain<i32> = NodeChain::new();
    chain.push(3);
    chain.push(2);
    chain.push(1);

    let mut cursor = chain.iter_mut();
    while let Some(x) = cursor.next() {
        *x *= 2;
    }

    assert_eq!(collect_chain(chain.iter()), vec![2, 4, 6]);
}

#[test]
fn teardown_of_long_chain_completes() {
    let mut chain: NodeChain<u64> = NodeChain::new();
    for i in 0..100_000u64 {
        chain.push(i);
    }
    assert_eq!(chain.len(), 100_000);
    chain.teardown();
    assert_eq!(chain.len(), 0);
    assert!(chain.is_empty());
}

#[test]
fn find_reports_every_match_or_nothing() {
    let chain: NodeChain<i32> = NodeChain::new();
    assert_eq!(chain.find(1), None);

    let mut chain: NodeChain<i32> = NodeChain::new();
    chain.push(5);
    chain.push(5);
    chain.push(6);
    assert_eq!(chain.find(5), Some(vec![1, 2]));
    assert_eq!(chain.find(6), Some(vec![0]));
    assert_eq!(chain.find(7), None);
}

#[test]
fn queue_reports_exact_capacity_error() {
    let mut queue: Queue<i32> = Queue::new(1);
    assert_eq!(queue.enqueue(1), Ok(()));
    assert_eq!(queue.enqueue(2), Err("No space available"));
    assert_eq!(queue.len(), 1);

    let mut zero: Queue<i32> = Queue::new(0);
    assert_eq!(zero.enqueue(1), Err("No space available"));
}

#[test]
fn deque_reports_exact_capacity_error() {
    let mut deque: Deque<i32> = Deque::new(1);
    assert_eq!(deque.add_front(1), Ok(()));
    assert_eq!(deque.add_front(2), Err("No space available"));
    assert_eq!(deque.add_rear(2), Err("No space available"));
    assert_eq!(deque.len(), 1);
}

#[test]
fn sorts_agree_on_duplicates() {
    let input = vec![3, 1, 4, 1, 5, 9, 2, 6, 5, 3, 5];
    let expected = vec![1, 1, 2, 3, 3, 4, 5, 5, 5, 6, 9];

    let mut a = input.clone();
    bubble_sort(&mut a);
    assert_eq!(a, expected);

    let mut b = input.clone();
    heap_sort(&mut b);
    assert_eq!(b, expected);

    let mut c = input.clone();
    merge_sort(&mut c);
    assert_eq!(c, expected);

    let mut d = input.clone();
    quick_sort(&mut d);
    assert_eq!(d, expected);
}

#[test]
fn dropping_long_chain_completes() {
    let mut chain: NodeChain<u64> = NodeChain::new();
    for i in 0..100_000u64 {
        chain.push(i);
    }
    assert_eq!(chain.len(), 100_000);
    drop(chain);

    let mut chain: NodeChain<u64> = NodeChain::new();
    for i in 0..100_000u64 {
        chain.push(i);
    }
    let mut cursor = chain.into_iter();
    assert_eq!(cursor.next(), Some(99_999));
    assert_eq!(cursor.next(), Some(99_998));
    drop(cursor);
}
