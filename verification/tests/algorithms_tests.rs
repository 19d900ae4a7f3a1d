use dsa::algorithms::{binary_search, bubble_sort, linear_search, quick_sort};

#[test]
fn linear_search_test() {
    let list1: Vec<i32> = vec![1, 2, 3, 4];
    let list2: Vec<i32> = vec![];

    assert!(linear_search(&list1, 3));
    assert!(!linear_search(&list1, 5));
    assert!(!linear_search(&list2, 1));
}

#[test]
fn binary_search_test() {
    let list1: Vec<i32> = (1..100).collect();
    let list2: Vec<i32> = vec![542];
    let list3: Vec<i32> = vec![];

    assert!(binary_search(&list1, 56));
    assert!(!binary_search(&list1, 1001));
    assert!(binary_search(&list2, 542));
    assert!(!binary_search(&list3, 1));
}

#[test]
fn bubble_sort_test() {
    let mut list1: Vec<i32> = vec![4, 1, 7, 1, 8, 2, 83, 12, 123, 23];
    let mut list2: Vec<i32> = vec![4, 1, 7, 1, 8, 2, 83, 12, 123, 23];
    let mut list3: Vec<i32> = vec![];

    bubble_sort(&mut list1, true);
    bubble_sort(&mut list2, false);
    bubble_sort(&mut list3, true);

    assert_eq!(vec![1, 1, 2, 4, 7, 8, 12, 23, 83, 123], list1);
    assert_eq!(vec![123, 83, 23, 12, 8, 7, 4, 2, 1, 1], list2);
    assert_eq!(Vec::<i32>::new(), list3);
}

#[test]
fn quick_sort_test() {
    let mut list1: Vec<i32> = vec![4, 1, 7, 1, 8, 2, 83, 12, 123, 23];

    quick_sort(&mut list1);

    assert_eq!(vec![1, 1, 2, 4, 7, 8, 12, 23, 83, 123], list1);
}

#[test]
fn search_duplicates_and_bounds() {
    let list: Vec<i32> = vec![-5, -5, 0, 3, 3, 9];
    assert!(binary_search(&list, -5));
    assert!(binary_search(&list, 9));
    assert!(!binary_search(&list, 1));
    assert!(linear_search(&list, 0));
    assert!(!linear_search(&list, -1));
}

#[test]
fn sorts_agree_on_singleton() {
    let mut a: Vec<i32> = vec![7];
    let mut b: Vec<i32> = vec![7];
    bubble_sort(&mut a, true);
    quick_sort(&mut b);
    assert_eq!(a, b);
}
