use kvs::index::{CommandPos, Index};

fn place(gen: u64, pos: u64, len: u64) -> CommandPos {
    CommandPos { gen, pos, len }
}

#[test]
fn from_range_takes_start_and_length() {
    assert_eq!(CommandPos::from_range(3, 10, 25), place(3, 10, 15));
    assert_eq!(CommandPos::from_range(1, 0, 0), place(1, 0, 0));
}

#[test]
fn new_index_has_no_key() {
    let index = Index::new();
    assert_eq!(index.get("k"), None);
    assert!(!index.contains_key("k"));
    assert!(index.entries().is_empty());
}

#[test]
fn insert_returns_the_place_before() {
    let mut index = Index::new();
    assert_eq!(index.insert("k".to_string(), place(1, 0, 5)), None);
    assert_eq!(index.get("k"), Some(place(1, 0, 5)));
    assert_eq!(index.insert("k".to_string(), place(1, 5, 7)), Some(place(1, 0, 5)));
    assert_eq!(index.get("k"), Some(place(1, 5, 7)));
    assert!(index.contains_key("k"));
    assert_eq!(index.entries().len(), 1);
}

#[test]
fn remove_returns_the_place_and_forgets_the_key() {
    let mut index = Index::new();
    index.insert("a".to_string(), place(1, 0, 5));
    index.insert("b".to_string(), place(1, 5, 5));
    assert_eq!(index.remove("a"), Some(place(1, 0, 5)));
    assert_eq!(index.get("a"), None);
    assert_eq!(index.remove("a"), None);
    assert_eq!(index.get("b"), Some(place(1, 5, 5)));
}

#[test]
fn entries_come_in_the_order_of_the_bytes_of_their_keys() {
    let mut index = Index::new();
    for (i, key) in ["b", "a", "ab", "B", "é", "z", ""].iter().enumerate() {
        index.insert(key.to_string(), place(1, i as u64, 1));
    }
    let keys: Vec<String> = index.entries().into_iter().map(|(key, _)| key).collect();
    assert_eq!(keys, vec!["", "B", "a", "ab", "b", "z", "é"]);
    let places: Vec<u64> = index.entries().into_iter().map(|(_, place)| place.pos).collect();
    assert_eq!(places, vec![6, 3, 1, 2, 0, 5, 4]);
}
