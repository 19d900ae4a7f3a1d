use dsa::errordsa;
use dsa::linkedlist2::LinkedList;

#[test]
fn push_and_print() {
    let mut list: LinkedList<i32> = LinkedList::<i32>::new();
    list.push_back(101);
    list.push_back(202);
    list.push_back(303);
    list.push_front(1);
    list.push_front(2);
    assert_eq!("[2, 1, 101, 202, 303]".to_owned(), list.to_string());
}

#[test]
fn linkedlist2_get() {
    let mut list: LinkedList<i32> = LinkedList::<i32>::new();

    assert_eq!(errordsa::Error::IndexOutOfBound, list.get(0).unwrap_err());

    list.push_back(101);
    list.push_back(202);
    list.push_back(303);

    assert_eq!(202, *list.get(1).unwrap());

    assert_eq!(errordsa::Error::IndexOutOfBound, list.get(3).unwrap_err());
}

#[test]
fn linkedlist2_remove() {
    let mut list: LinkedList<i32> = LinkedList::<i32>::new();
    list.push_back(101);
    list.push_back(202);
    list.push_back(303);
    list.push_back(404);

    list.remove(0).unwrap();
    list.remove(2).unwrap();
    list.remove(1).unwrap();

    assert_eq!(202, *list.get(0).unwrap());
}

#[test]
fn linkedlist2_edit() {
    let mut list: LinkedList<i32> = LinkedList::<i32>::new();
    list.push_back(101);
    list.push_back(202);
    list.push_back(303);
    list.edit(0, 777).unwrap();
    list.edit(2, 777).unwrap();

    assert_eq!(777, *list.get(0).unwrap());
    assert_eq!(777, *list.get(2).unwrap());

    assert_eq!(errordsa::Error::IndexOutOfBound, list.get(3).unwrap_err());
}

#[test]
fn empty_again_after_removal() {
    let mut list: LinkedList<i32> = LinkedList::<i32>::new();
    list.push_back(42);
    list.remove(0).unwrap();
    assert_eq!(errordsa::Error::IndexOutOfBound, list.get(0).unwrap_err());
    assert_eq!(
        errordsa::Error::IndexOutOfBound,
        list.remove(0).unwrap_err()
    );
    list.push_back(7);
    assert_eq!(7, *list.get(0).unwrap());
}
