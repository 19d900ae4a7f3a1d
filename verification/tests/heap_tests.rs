use dsa::heap::{MaxHeap, MinHeap};

#[test]
fn max_heap_insertion() {
    let mut heap: MaxHeap<i32> = MaxHeap::<i32>::new();
    heap.insert(300);
    heap.insert(30);
    heap.insert(230);
    heap.insert(40);
    heap.insert(50);
    heap.insert(700);
    heap.insert(912);

    assert_eq!(vec![912, 50, 700, 30, 40, 230, 300], heap.to_vec());
}

#[test]
fn max_heap_pop() {
    let mut heap: MaxHeap<i32> = MaxHeap::<i32>::new();
    heap.insert(300);
    heap.insert(30);
    heap.insert(50);
    heap.insert(700);
    heap.insert(912);

    assert_eq!(Some(912), heap.pop());
    assert_eq!(Some(700), heap.pop());
    assert_eq!(Some(300), heap.pop());
    assert_eq!(Some(50), heap.pop());
    assert_eq!(Some(30), heap.pop());
    assert_eq!(None, heap.pop());
}

#[test]
fn min_heap_insertion() {
    let mut heap: MinHeap<i32> = MinHeap::<i32>::new();
    heap.insert(300);
    heap.insert(30);
    heap.insert(230);
    heap.insert(40);
    heap.insert(50);
    heap.insert(700);
    heap.insert(912);

    assert_eq!(vec![30, 40, 230, 300, 50, 700, 912], heap.to_vec());
}

#[test]
fn min_heap_pop() {
    let mut heap: MinHeap<i32> = MinHeap::<i32>::new();
    heap.insert(300);
    heap.insert(30);
    heap.insert(50);
    heap.insert(700);
    heap.insert(912);

    assert_eq!(Some(30), heap.pop());
    assert_eq!(Some(50), heap.pop());
    assert_eq!(Some(300), heap.pop());
    assert_eq!(Some(700), heap.pop());
    assert_eq!(Some(912), heap.pop());
    assert_eq!(None, heap.pop());
}

#[test]
fn heap_edit() {
    let mut heap: MinHeap<i32> = MinHeap::<i32>::new();
    heap.insert(300);
    heap.insert(30);
    heap.insert(50);
    heap.insert(700);
    heap.insert(912);
    heap.edit(|e| *e == 300, 40);

    assert_eq!(Some(30), heap.pop());
    assert_eq!(Some(40), heap.pop());
    assert_eq!(Some(50), heap.pop());
    assert_eq!(Some(700), heap.pop());
    assert_eq!(Some(912), heap.pop());
    assert_eq!(None, heap.pop());
}

// Draining a min-heap yields a non-decreasing run, whatever went in.
#[test]
fn min_drain_is_sorted() {
    let mut heap: MinHeap<i64> = MinHeap::<i64>::new();
    for v in [9i64, -3, 14, 0, 9, -3, 27, 5, 1] {
        heap.insert(v);
    }
    let mut drained: Vec<i64> = Vec::new();
    while let Some(v) = heap.pop() {
        drained.push(v);
    }
    assert_eq!(vec![-3i64, -3, 0, 1, 5, 9, 9, 14, 27], drained);
}

// Dual check for the max-heap: the run never increases.
#[test]
fn max_drain_is_sorted() {
    let mut heap: MaxHeap<i64> = MaxHeap::<i64>::new();
    for v in [9i64, -3, 14, 0, 9, -3, 27, 5, 1] {
        heap.insert(v);
    }
    let mut drained: Vec<i64> = Vec::new();
    while let Some(v) = heap.pop() {
        drained.push(v);
    }
    assert_eq!(vec![27i64, 14, 9, 9, 5, 1, 0, -3, -3], drained);
}

// Lowering a tracked value keeps the heap sound: the drain stays sorted.
#[test]
fn edit_decrease_keeps_order() {
    let mut heap: MinHeap<i32> = MinHeap::<i32>::new();
    for v in [10, 20, 30, 40, 50] {
        heap.insert(v);
    }
    heap.edit(|e| *e == 50, 5);
    let mut drained: Vec<i32> = Vec::new();
    while let Some(v) = heap.pop() {
        drained.push(v);
    }
    assert_eq!(vec![5, 10, 20, 30, 40], drained);
}

#[test]
fn empty_heap_len_and_pop() {
    let mut heap: MinHeap<i32> = MinHeap::<i32>::new();
    assert_eq!(0, heap.len());
    assert_eq!(None, heap.pop());
    heap.insert(1);
    assert_eq!(1, heap.len());
}
