use fdu::paths::{join_path, shorten_path, truncate_path, try_truncate_path};

#[test]
fn shorten_path_under_home() {
    let home = "/home/somebody";
    let input = format!("{}/Documents/file.txt", home);
    assert_eq!(shorten_path(&input, Some(home)), "~/Documents/file.txt");
}

#[test]
fn shorten_path_not_under_home() {
    let path = "/tmp/some/other/path";
    assert_eq!(shorten_path(path, None), path);
    assert_eq!(shorten_path(path, Some("/home/somebody")), path);
}

#[test]
fn shorten_path_compares_characters_only() {
    assert_eq!(shorten_path("/home/user2/x", Some("/home/user")), "~2/x");
    assert_eq!(shorten_path("/x", Some("")), "~/x");
}

#[test]
fn truncate_path_keeps_the_end() {
    assert_eq!(truncate_path("/a/b/c/d", 8, None), "/a/b/c/d");
    assert_eq!(truncate_path("/a/b/c/d", 7, None), ".../c/d");
    assert_eq!(truncate_path("/a/b/c/d", 3, None), "...");
    assert_eq!(truncate_path("/a/b/c/d", 0, None), "...");
    assert_eq!(truncate_path("/home/me/abc", 5, Some("/home/me")), "~/abc");
}

#[test]
fn truncate_path_counts_bytes() {
    // Each of these characters takes two bytes.
    assert_eq!(try_truncate_path("ääää", 8, None), Some("ääää".to_string()));
    assert_eq!(try_truncate_path("ääää", 7, None), Some("...ää".to_string()));
    assert_eq!(try_truncate_path("ääää", 6, None), None);
}

#[test]
fn truncated_paths_fit() {
    let path = "/var/lib/containers/storage/overlay";
    for width in 0..40 {
        let shown = truncate_path(path, width, None);
        assert!(shown.len() <= width.max(3));
        if path.len() <= width {
            assert_eq!(shown, path);
        }
    }
}

#[test]
fn join_path_puts_one_separator() {
    assert_eq!(join_path("/", "etc", '/'), "/etc");
    assert_eq!(join_path("/etc", "hosts", '/'), "/etc/hosts");
    assert_eq!(join_path("C:", "x", '\\'), "C:\\x");
    assert_eq!(join_path("", "x", '/'), "x");
}
