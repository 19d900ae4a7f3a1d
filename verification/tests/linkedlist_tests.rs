use dsa::errordsa;
use dsa::linkedlist::LinkedList;

#[test]
fn push_back_and_print() {
    let mut list: LinkedList<i32> = LinkedList::<i32>::new();
    list.push_back(101);
    list.push_back(202);
    list.push_back(303);
    assert_eq!("[101, 202, 303]".to_owned(), list.to_string());
    assert_eq!(3, list.len());
}

#[test]
fn linkedlist_get() {
    let mut list: LinkedList<i32> = LinkedList::<i32>::new();
    list.push_back(101);
    list.push_back(202);
    list.push_back(303);

    assert_eq!(202, *list.get(1).unwrap());

    assert_eq!(errordsa::Error::IndexOutOfBound, list.get(3).unwrap_err());
}

#[test]
fn linkedlist_edit() {
    let mut list: LinkedList<i32> = LinkedList::<i32>::new();
    list.push_back(101);
    list.push_back(202);
    list.push_back(303);
    list.edit(0, 777).unwrap();
    list.edit(2, 777).unwrap();

    assert_eq!(777, *list.get(0).unwrap());
    assert_eq!(777, *list.get(2).unwrap());

    assert_eq!(errordsa::Error::IndexOutOfBound, list.get(3).unwrap_err());
}

#[test]
fn push_front() {
    let mut list: LinkedList<i32> = LinkedList::<i32>::new();
    list.push_front(101);
    list.push_front(202);
    list.push_front(303);

    assert_eq!(303, *list.get(0).unwrap())
}

#[test]
fn linkedlist_remove() {
    let mut list: LinkedList<i32> = LinkedList::<i32>::new();
    list.push_back(101);
    list.push_back(202);
    list.push_back(303);
    list.push_back(404);

    list.remove(0).unwrap();
    list.remove(2).unwrap();
    list.remove(0).unwrap();

    assert_eq!(303, *list.get(0).unwrap());
}

#[test]
fn insert_ordered() {
    let mut list_asc: LinkedList<i32> = LinkedList::<i32>::new();
    list_asc.insert_ordered_asc(324);
    list_asc.insert_ordered_asc(12);
    list_asc.insert_ordered_asc(24);
    list_asc.insert_ordered_asc(400);

    assert_eq!("[12, 24, 324, 400]".to_owned(), list_asc.to_string());

    let mut list_desc: LinkedList<i32> = LinkedList::<i32>::new();
    list_desc.insert_ordered_desc(324);
    list_desc.insert_ordered_desc(12);
    list_desc.insert_ordered_desc(24);
    list_desc.insert_ordered_desc(400);

    assert_eq!("[400, 324, 24, 12]".to_owned(), list_desc.to_string());
}

#[test]
fn remove_out_of_bounds() {
    let mut list: LinkedList<i32> = LinkedList::<i32>::new();
    list.push_back(1);
    assert_eq!(errordsa::Error::IndexOutOfBound, list.remove(5).unwrap_err());
    assert_eq!(1, list.len());
    list.remove(0).unwrap();
    assert_eq!(0, list.len());
}

#[test]
fn ordered_insert_with_duplicates() {
    let mut list: LinkedList<i32> = LinkedList::<i32>::new();
    list.insert_ordered_asc(5);
    list.insert_ordered_asc(5);
    list.insert_ordered_asc(1);
    list.insert_ordered_asc(9);
    assert_eq!("[1, 5, 5, 9]".to_owned(), list.to_string());
    assert_eq!(4, list.len());
}
