use lsp_client::select::{contains, wanted};

fn list(items: &[&str]) -> Vec<String> {
    items.iter().map(|s| s.to_string()).collect()
}

#[test]
fn contains_finds_a_part_anywhere() {
    assert!(contains("/project/target/debug/a.rs", "target"));
    assert!(contains("/project/target", "/project"));
    assert!(contains("/project/target", "target"));
    assert!(contains("abc", "abc"));
    assert!(contains("abc", ""));
    assert!(contains("", ""));
    assert!(!contains("", "a"));
    assert!(!contains("abc", "abcd"));
    assert!(!contains("abc", "ac"));
    assert!(!contains("aab", "aba"));
    assert!(contains("aaab", "aab"));
}

#[test]
fn contains_compares_whole_characters() {
    assert!(contains("caf\u{00e9}/src", "\u{00e9}/"));
    assert!(contains("\u{4e16}\u{754c}", "\u{754c}"));
    assert!(!contains("\u{4e16}\u{754c}", "\u{754d}"));
    assert!(!contains("caf\u{00e9}", "\u{00e8}"));
}

#[test]
fn wanted_needs_a_listed_extension() {
    let suffixes = list(&["rs", "toml"]);
    let ignore = list(&[]);
    assert!(wanted("/p/src/main.rs", Some("rs"), &suffixes, &ignore));
    assert!(wanted("/p/Cargo.toml", Some("toml"), &suffixes, &ignore));
    assert!(!wanted("/p/readme.md", Some("md"), &suffixes, &ignore));
    assert!(!wanted("/p/Makefile", None, &suffixes, &ignore));
    assert!(!wanted("/p/src/main.rs", Some("rs"), &list(&[]), &ignore));
    // The extension is compared whole.
    assert!(!wanted("/p/a.rss", Some("rss"), &suffixes, &ignore));
    assert!(!wanted("/p/a.r", Some("r"), &suffixes, &ignore));
}

#[test]
fn wanted_leaves_out_ignored_paths() {
    let suffixes = list(&["rs"]);
    let ignore = list(&["target", ".git/"]);
    assert!(wanted("/p/src/main.rs", Some("rs"), &suffixes, &ignore));
    assert!(!wanted("/p/target/debug/build.rs", Some("rs"), &suffixes, &ignore));
    assert!(!wanted("/p/.git/hooks/x.rs", Some("rs"), &suffixes, &ignore));
    assert!(!wanted("/p/src/targets.rs", Some("rs"), &suffixes, &ignore));
    assert!(wanted("/p/src/git.rs", Some("rs"), &suffixes, &ignore));
}
