use codegenome::lang::detect::{
    detect_language, group_by_language, is_excluded_dir, language_of_extension, supported_extensions, Language,
    SourceFile,
};

#[test]
fn detect_language_by_extension() {
    assert_eq!(detect_language("src/main.rs"), Some("rust"));
    assert_eq!(detect_language("web/app.ts"), Some("typescript"));
    assert_eq!(detect_language("web/view.tsx"), Some("typescript-tsx"));
    assert_eq!(detect_language("tool.py"), Some("python"));
    assert_eq!(detect_language("README.md"), None);
    assert_eq!(detect_language("Makefile"), None);
    assert_eq!(detect_language(".rs"), None);
    assert_eq!(detect_language("archive.tar.rs"), Some("rust"));
    assert_eq!(detect_language(".hidden.py"), Some("python"));
    assert_eq!(detect_language("src/lib.rs/"), Some("rust"));
    assert_eq!(detect_language("src/lib.rs/."), Some("rust"));
    assert_eq!(detect_language("pkg.rs/.."), None);
    assert_eq!(detect_language("dir.rs/file"), None);
    assert_eq!(detect_language("name."), None);
}

#[test]
fn supported_extensions_map_to_languages() {
    let exts = supported_extensions();
    assert_eq!(exts, &["rs", "ts", "tsx", "py"]);
    for e in exts {
        assert!(language_of_extension(e).is_some());
    }
    assert_eq!(language_of_extension("js"), None);
}

#[test]
fn excluded_directories() {
    for d in [".git", ".idea", "target", "node_modules", "__pycache__", "venv", "vendor"] {
        assert!(is_excluded_dir(d), "{d} must be skipped");
    }
    for d in ["src", "targets", "", "vendors", "lib"] {
        assert!(!is_excluded_dir(d), "{d} must be walked");
    }
}

#[test]
fn group_by_language_partitions_supported_files() {
    let files: Vec<SourceFile> = vec![
        ("a.py".to_string(), b"x = 1".to_vec()),
        ("b.rs".to_string(), b"fn b() {}".to_vec()),
        ("notes.txt".to_string(), b"hi".to_vec()),
        ("c.rs".to_string(), b"fn c() {}".to_vec()),
    ];
    let groups = group_by_language(&files);
    assert_eq!(groups.len(), 2);
    assert_eq!(groups[0].language, Language::Python);
    assert_eq!(groups[0].files.len(), 1);
    assert_eq!(groups[1].language, Language::Rust);
    assert_eq!(groups[1].language.name(), "rust");
    let paths: Vec<&str> = groups[1].files.iter().map(|f| f.0.as_str()).collect();
    assert_eq!(paths, vec!["b.rs", "c.rs"]);
    assert_eq!(groups[1].files[1].1, b"fn c() {}".to_vec());
}
