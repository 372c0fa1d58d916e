use fdu::glob::glob_match;

#[test]
fn glob_exact_match() {
    assert!(glob_match("node_modules", "node_modules"));
    assert!(!glob_match("node_modules", "node_module"));
}

#[test]
fn glob_star_pattern() {
    assert!(glob_match("*.log", "error.log"));
    assert!(glob_match("*.log", ".log"));
    assert!(!glob_match("*.log", "error.txt"));
    assert!(glob_match("build*", "build"));
    assert!(glob_match("build*", "build-output"));
    assert!(glob_match("*test*", "my_test_file"));
}

#[test]
fn glob_question_mark() {
    assert!(glob_match("?.txt", "a.txt"));
    assert!(!glob_match("?.txt", "ab.txt"));
}

#[test]
fn glob_combined() {
    assert!(glob_match("*.t?t", "file.txt"));
    assert!(!glob_match("*.t?t", "file.text"));
}

#[test]
fn glob_backtracks_over_stars() {
    assert!(glob_match("*a*b*c", "xxaxxbxxabc"));
    assert!(!glob_match("*a*b*c", "xxaxxbxxabd"));
    assert!(glob_match("**", ""));
    assert!(glob_match("", ""));
    assert!(!glob_match("", "x"));
    assert!(!glob_match("?", ""));
    assert!(glob_match("ä?ö", "äüö"));
}

#[test]
fn glob_star_meets_a_star_in_the_name() {
    // A star of the pattern takes a star of the name literally.
    assert!(glob_match("*", "*"));
    assert!(!glob_match("*", "*a"));
    assert!(glob_match("*", "a*"));
    assert!(glob_match("**", "*a"));
}

#[test]
fn glob_without_wildcards_is_equality() {
    for name in ["", "a", "ab", "abc", "b"] {
        for pattern in ["", "a", "ab", "abc", "b"] {
            assert_eq!(glob_match(pattern, name), pattern == name);
        }
    }
}

#[test]
fn glob_star_takes_any_run() {
    let text = "abcabc";
    for rest in ["", "c", "bc", "cabc", "x", "abcabc"] {
        let pattern = format!("*{}", rest);
        let expected = (0..=text.len()).any(|k| glob_match(rest, &text[k..]));
        assert_eq!(glob_match(&pattern, text), expected);
    }
}
