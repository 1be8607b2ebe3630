use codegenome::paths::{components_of, paths_equal};

#[test]
fn paths_equal_follows_components() {
    assert!(paths_equal("a/b", "a//b"));
    assert!(paths_equal("a/b", "a/./b"));
    assert!(paths_equal("a/b", "a/b/"));
    assert!(paths_equal("a/b/.", "a/b"));
    assert!(paths_equal("/x", "//x"));
    assert!(!paths_equal("./a", "a"));
    assert!(!paths_equal("/a", "a"));
    assert!(!paths_equal("a/../b", "b"));
    assert!(paths_equal("", ""));
}

#[test]
fn components_of_examples() {
    let c = components_of("/usr//lib/./x.rs/");
    let words: Vec<String> = c.iter().map(|v| v.iter().collect()).collect();
    assert_eq!(words, vec!["/", "usr", "lib", "x.rs"]);
    let d: Vec<String> = components_of("./a").iter().map(|v| v.iter().collect()).collect();
    assert_eq!(d, vec![".", "a"]);
}
