use fdu::dirs::DirTree;
use fdu::ranking::SizeEntry;

fn entry(path: &str, size: u64) -> SizeEntry {
    SizeEntry { path: path.to_string(), size }
}

fn pairs(list: &[SizeEntry]) -> Vec<(String, u64)> {
    list.iter().map(|e| (e.path.clone(), e.size)).collect()
}

/// `/r` with `/r/a`, `/r/a/b` and `/r/c`.
fn tree(top_n: usize) -> DirTree {
    let mut tree = DirTree::new(top_n, '/');
    assert_eq!(tree.add_dir("/r".to_string(), None), 0);
    assert_eq!(tree.add_dir("/r/a".to_string(), Some(0)), 1);
    assert_eq!(tree.add_dir("/r/a/b".to_string(), Some(1)), 2);
    assert_eq!(tree.add_dir("/r/c".to_string(), Some(0)), 3);
    tree
}

#[test]
fn bytes_count_for_all_directories_above() {
    let mut tree = tree(10);
    tree.add_bytes(2, 100);
    tree.add_bytes(1, 20);
    tree.add_bytes(2, 3);
    let sizes: Vec<u64> = tree.nodes.iter().map(|n| n.size).collect();
    assert_eq!(sizes, [123, 123, 103, 0]);
    let counted: Vec<bool> = tree.nodes.iter().map(|n| n.counted).collect();
    assert_eq!(counted, [true, true, true, false]);
}

#[test]
fn no_directory_is_larger_than_its_holder() {
    let mut tree = tree(10);
    for (dir, bytes) in [(3, 7), (2, 100), (0, 1), (1, 50), (3, 9)] {
        tree.add_bytes(dir, bytes);
        for node in &tree.nodes {
            if let Some(parent) = node.parent {
                assert!(node.size <= tree.nodes[parent].size);
            }
        }
    }
}

#[test]
fn the_largest_directories_come_first() {
    let mut tree = tree(2);
    tree.add_bytes(3, 500);
    tree.add_bytes(2, 100);
    assert_eq!(
        pairs(&tree.top_dirs()),
        [("/r".to_string(), 600), ("/r/c".to_string(), 500)]
    );
}

#[test]
fn a_directory_that_got_no_bytes_is_counted_once_it_is_visited() {
    let mut tree = tree(10);
    assert!(tree.top_dirs().is_empty());
    tree.add_bytes(3, 0);
    assert_eq!(tree.top_dirs().len(), 2);
}

#[test]
fn files_of_a_directory_and_of_all_below_it() {
    let mut tree = tree(2);
    tree.insert_dir_file(0, entry("/r/x", 1));
    tree.insert_dir_file(1, entry("/r/a/y", 30));
    tree.insert_dir_file(1, entry("/r/a/z", 10));
    tree.insert_dir_file(1, entry("/r/a/w", 20));
    tree.insert_dir_file(2, entry("/r/a/b/v", 25));
    tree.insert_dir_file(3, entry("/r/c/u", 99));
    assert_eq!(
        pairs(&tree.nodes[1].files),
        [("/r/a/y".to_string(), 30), ("/r/a/w".to_string(), 20)]
    );
    assert_eq!(
        pairs(&tree.files_below(&"/r/a".to_string())),
        [("/r/a/y".to_string(), 30), ("/r/a/b/v".to_string(), 25)]
    );
    assert_eq!(
        pairs(&tree.files_below(&"/r".to_string())),
        [("/r/c/u".to_string(), 99), ("/r/a/y".to_string(), 30)]
    );
    assert!(tree.files_below(&"/q".to_string()).is_empty());
}

#[test]
fn belonging_goes_by_whole_names() {
    let mut tree = DirTree::new(5, '/');
    tree.add_dir("/".to_string(), None);
    tree.add_dir("/ab".to_string(), Some(0));
    tree.add_dir("/a".to_string(), Some(0));
    tree.insert_dir_file(1, entry("/ab/x", 1));
    tree.insert_dir_file(2, entry("/a/y", 2));
    assert_eq!(pairs(&tree.files_below(&"/a".to_string())), [("/a/y".to_string(), 2)]);
    // Slashes at the end make no difference to what lies below.
    assert_eq!(tree.files_below(&"/".to_string()).len(), 2);
}

#[test]
fn belonging_goes_by_the_separator() {
    let mut tree = DirTree::new(5, '\\');
    tree.add_dir("C:\\r".to_string(), None);
    tree.add_dir("C:\\r\\a".to_string(), Some(0));
    tree.add_dir("C:\\r/b".to_string(), Some(0));
    tree.insert_dir_file(1, entry("C:\\r\\a\\x", 20));
    tree.insert_dir_file(2, entry("C:\\r/b\\y", 30));
    let files = tree.files_below(&"C:\\r".to_string());
    assert_eq!(pairs(&files), [("C:\\r\\a\\x".to_string(), 20)]);
    assert_eq!(tree.files_below(&"C:\\r\\".to_string()).len(), 1);
}

#[test]
fn a_file_changes_the_list_of_its_directory_only() {
    let mut tree = tree(3);
    for (dir, path) in [(1, "/r/a/p"), (1, "/r/a/q"), (2, "/r/a/b/p"), (2, "/r/a/b/q")] {
        tree.insert_dir_file(dir, entry(path, 5));
    }
    let before: Vec<_> = tree.nodes.iter().map(|n| pairs(&n.files)).collect();
    tree.add_bytes(2, 9);
    let after: Vec<_> = tree.nodes.iter().map(|n| pairs(&n.files)).collect();
    assert_eq!(before, after);
    tree.insert_dir_file(1, entry("/r/a/large", 7));
    assert_eq!(pairs(&tree.nodes[1].files)[1..], before[1]);
    assert_eq!(pairs(&tree.nodes[1].files)[0], ("/r/a/large".to_string(), 7));
    assert_eq!(pairs(&tree.nodes[2].files), before[2]);
    assert_eq!(tree.nodes[1].size, 9);
}
