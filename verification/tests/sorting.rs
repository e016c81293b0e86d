use algos::sort::bubble::{
    bubble_sort, cant_believe_it_can_sort_asc, cant_believe_it_can_sort_desc, cocktail_sort,
    comb_sort,
};
use algos::sort::heap::heap_sort;
use algos::sort::insertion::{binary_insertion_sort, insertion_sort};
use algos::sort::merge::merge_sort;
use algos::sort::quick::quick_sort;
use algos::sort::selection::selection_sort;
use algos::sort::shell::shell_sort;

#[test]
fn test_bubble_sort_integers() {
    let mut nums = [5, 2, 1, 3, 6];
    bubble_sort(&mut nums);
    assert_eq!(nums, [1, 2, 3, 5, 6]);
}

#[test]
fn test_bubble_sort_chars() {
    let mut nums = ['c', 'a', 'b'];
    bubble_sort(&mut nums);
    assert_eq!(nums, ['a', 'b', 'c']);
}

#[test]
fn test_bubble_sort_empty() {
    let mut nums: [i32; 0] = [];
    bubble_sort(&mut nums);
    assert_eq!(nums, []);
}

#[test]
fn test_cocktail_sort_integers() {
    let mut nums = [5, 2, 1, 3, 6];
    cocktail_sort(&mut nums);
    assert_eq!(nums, [1, 2, 3, 5, 6]);
}

#[test]
fn test_cocktail_sort_chars() {
    let mut nums = ['c', 'a', 'b'];
    cocktail_sort(&mut nums);
    assert_eq!(nums, ['a', 'b', 'c']);
}

#[test]
fn test_cocktail_sort_empty() {
    let mut nums: [i32; 0] = [];
    cocktail_sort(&mut nums);
    assert_eq!(nums, []);
}

#[test]
fn test_comb_sort_integers() {
    let mut nums = [5, 2, 1, 3, 6];
    comb_sort(&mut nums);
    assert_eq!(nums, [1, 2, 3, 5, 6]);
}

#[test]
fn test_comb_sort_chars() {
    let mut nums = ['c', 'a', 'b'];
    comb_sort(&mut nums);
    assert_eq!(nums, ['a', 'b', 'c']);
}

#[test]
fn test_comb_sort_empty() {
    let mut nums: [i32; 0] = [];
    comb_sort(&mut nums);
    assert_eq!(nums, []);
}

#[test]
fn test_cant_believe_it_can_sort_asc_integers() {
    let mut nums = [5, 2, 1, 3, 6];
    cant_believe_it_can_sort_asc(&mut nums);
    assert_eq!(nums, [1, 2, 3, 5, 6]);
}

#[test]
fn test_cant_believe_it_can_sort_asc_chars() {
    let mut nums = ['c', 'a', 'b'];
    cant_believe_it_can_sort_asc(&mut nums);
    assert_eq!(nums, ['a', 'b', 'c']);
}

#[test]
fn test_cant_believe_it_can_sort_asc_empty() {
    let mut nums: [i32; 0] = [];
    cant_believe_it_can_sort_asc(&mut nums);
    assert_eq!(nums, []);
}

#[test]
fn test_cant_believe_it_can_sort_desc_integers() {
    let mut nums = [5, 2, 1, 3, 6];
    cant_believe_it_can_sort_desc(&mut nums);
    assert_eq!(nums, [6, 5, 3, 2, 1]);
}

#[test]
fn test_cant_believe_it_can_sort_desc_chars() {
    let mut nums = ['c', 'a', 'b'];
    cant_believe_it_can_sort_desc(&mut nums);
    assert_eq!(nums, ['c', 'b', 'a']);
}

#[test]
fn test_cant_believe_it_can_sort_desc_empty() {
    let mut nums: [i32; 0] = [];
    cant_believe_it_can_sort_desc(&mut nums);
    assert_eq!(nums, []);
}

#[test]
fn test_i32_array_heap_sort() {
    let mut nums = [4, 10, 3, 5, 1];
    heap_sort(&mut nums);
    assert_eq!(nums, [1, 3, 4, 5, 10]);
}

#[test]
fn test_char_array_heap_sort() {
    let mut nums = ['c', 'a', 'd', 'b'];
    heap_sort(&mut nums);
    assert_eq!(nums, ['a', 'b', 'c', 'd']);
}

#[test]
fn test_empty_case_heap_sort() {
    let mut nums: Vec<i32> = Vec::new();
    heap_sort(&mut nums);
    assert_eq!(nums, vec![]);
}

#[test]
fn test_insertion_sort_empty() {
    let mut vec: Vec<i32> = Vec::new();
    insertion_sort(&mut vec);
    assert_eq!(vec, vec![]);

    let mut vec: Vec<i32> = Vec::new();
    binary_insertion_sort(&mut vec);
    assert_eq!(vec, vec![]);
}

#[test]
fn test_insertion_sort_different_collections() {
    let mut vec = vec![5, 2, 1, 3, 6, 4];
    insertion_sort(&mut vec);
    assert_eq!(vec, vec![1, 2, 3, 4, 5, 6]);

    let mut arr = [5, 2, 1, 3, 6, 4];
    let len = arr.len();
    binary_insertion_sort(&mut arr[0..len]);
    assert_eq!(arr, [1, 2, 3, 4, 5, 6]);
}

#[test]
fn test_merge_sort_vec_i32() {
    let mut nums = vec![5, 3, 8, 1, 2];
    merge_sort(&mut nums);
    assert_eq!(nums, vec![1, 2, 3, 5, 8]);
}

#[test]
fn test_merge_sort_array_i32() {
    let mut nums = [5, 3, 8, 1, 2];
    merge_sort(&mut nums);
    assert_eq!(nums, [1, 2, 3, 5, 8]);
}

#[test]
fn test_merge_sort_i32() {
    let mut nums = vec![5, 3, 8, 1, 2];
    merge_sort(&mut nums);
    assert_eq!(nums, vec![1, 2, 3, 5, 8]);
}

#[test]
fn test_merge_sort_empty() {
    let mut nums = Vec::<i32>::new();
    merge_sort(&mut nums);
    assert_eq!(nums, Vec::<i32>::new());
}

#[test]
fn test_quick_sort_empty() {
    let mut vec: Vec<i32> = Vec::new();
    quick_sort(&mut vec);
    assert_eq!(vec, vec![]);
}

#[test]
fn test_quick_sort_different_collections() {
    let mut vec = vec![5, 2, 1, 3, 6, 4];
    quick_sort(&mut vec);
    assert_eq!(vec, vec![1, 2, 3, 4, 5, 6]);

    let mut arr = [5, 2, 1, 3, 6, 4];
    quick_sort(&mut arr);
    assert_eq!(arr, [1, 2, 3, 4, 5, 6]);
}

#[test]
fn test_selection_sort_i32() {
    let mut nums = vec![5, 2, 9, 1, 5, 6];
    selection_sort(&mut nums);
    assert_eq!(nums, vec![1, 2, 5, 5, 6, 9]);
}

#[test]
fn test_selection_sort_empty() {
    let mut nums: Vec<i32> = Vec::new();
    selection_sort(&mut nums);
    assert_eq!(nums, vec![]);
}

#[test]
fn test_selection_sort_single() {
    let mut nums = vec![5];
    selection_sort(&mut nums);
    assert_eq!(nums, vec![5]);
}

#[test]
fn test_shell_sort_empty_collection() {
    let mut nums: [i32; 0] = [];
    shell_sort(&mut nums);
    assert_eq!(nums, []);
}

#[test]
fn test_shell_sort_single_element() {
    let mut nums = [5];
    shell_sort(&mut nums);
    assert_eq!(nums, [5]);
}

#[test]
fn test_shell_sort_multiple_elements() {
    let mut nums_a = [5, 3, 8, 4, 2];
    shell_sort(&mut nums_a);
    assert_eq!(nums_a, [2, 3, 4, 5, 8]);

    let mut nums_b = vec![5, 3, 8, 4, 2];
    shell_sort(&mut nums_b);
    assert_eq!(nums_b, vec![2, 3, 4, 5, 8]);
}
