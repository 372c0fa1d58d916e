use fdu::ranking::{insert_top_n, keep_largest, SizeEntry};

fn entry(path: &str, size: u64) -> SizeEntry {
    SizeEntry { path: path.to_string(), size }
}

#[test]
fn insert_top_n_into_empty_list() {
    let mut list: Vec<SizeEntry> = Vec::new();
    insert_top_n(&mut list, SizeEntry { path: "a".into(), size: 100 }, 3);
    assert_eq!(list.len(), 1);
    assert_eq!(list[0].size, 100);
}

#[test]
fn insert_top_n_maintains_descending_order() {
    let mut list: Vec<SizeEntry> = Vec::new();
    insert_top_n(&mut list, SizeEntry { path: "a".into(), size: 50 }, 5);
    insert_top_n(&mut list, SizeEntry { path: "b".into(), size: 200 }, 5);
    insert_top_n(&mut list, SizeEntry { path: "c".into(), size: 100 }, 5);
    assert_eq!(list.len(), 3);
    assert_eq!(list[0].size, 200);
    assert_eq!(list[1].size, 100);
    assert_eq!(list[2].size, 50);
}

#[test]
fn insert_top_n_truncates_at_n() {
    let mut list: Vec<SizeEntry> = Vec::new();
    for size in [10, 20, 30, 40, 50] {
        insert_top_n(&mut list, SizeEntry { path: format!("f{}", size), size }, 3);
    }
    assert_eq!(list.len(), 3);
    assert_eq!(list[0].size, 50);
    assert_eq!(list[1].size, 40);
    assert_eq!(list[2].size, 30);
}

#[test]
fn insert_top_n_takes_an_entry_as_large_as_the_last() {
    let mut list = vec![entry("a", 9), entry("b", 5)];
    insert_top_n(&mut list, entry("c", 5), 2);
    assert_eq!(list.len(), 2);
    assert_eq!(list[1].path, "c");
    insert_top_n(&mut list, entry("d", 4), 2);
    assert_eq!(list[1].path, "c");
    insert_top_n(&mut list, entry("e", 10), 0);
    assert_eq!(list[0].path, "a");
}

#[test]
fn keep_largest_ranks_and_cuts() {
    let list = vec![entry("a", 1), entry("b", 7), entry("c", 3), entry("d", 5)];
    let top = keep_largest(list.clone(), 2);
    assert_eq!(top.len(), 2);
    assert_eq!((top[0].path.as_str(), top[0].size), ("b", 7));
    assert_eq!((top[1].path.as_str(), top[1].size), ("d", 5));
    assert_eq!(keep_largest(list, 9).len(), 4);
}
