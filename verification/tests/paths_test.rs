use inscope::paths::{
    is_ignored_path, normalize_rel_path, path_components, path_extension, path_less,
    path_starts_with, paths_equal, relativize_to_cwd, FileSet,
};
use std::path::{Path, PathBuf};

#[test]
fn components_follow_std_path() {
    for p in ["a/b", "/a//b/", "./a/./b", ".", "..", "../x", "", "/", "a/..", ".hidden/x", "a/b/."] {
        let expected: Vec<String> = Path::new(p)
            .components()
            .map(|c| c.as_os_str().to_str().unwrap().to_string())
            .collect();
        assert_eq!(path_components(p), expected, "{p:?}");
    }
}

#[test]
fn normalize_rel_path_drops_current_dirs() {
    assert_eq!(normalize_rel_path("./a/./b//c"), "a/b/c");
    assert_eq!(normalize_rel_path("/x/y/"), "/x/y");
    assert_eq!(normalize_rel_path("../a"), "../a");
    assert_eq!(normalize_rel_path("."), "");
    assert_eq!(normalize_rel_path("/"), "/");
}

#[test]
fn normalize_rel_path_matches_pathbuf_pushes() {
    for p in ["./a/./b//c", "/x/y/", "../a/../b", "a", "./", "//a"] {
        let mut out = PathBuf::new();
        for c in Path::new(p).components() {
            if c == std::path::Component::CurDir {
                continue;
            }
            out.push(c.as_os_str());
        }
        assert_eq!(normalize_rel_path(p), out.to_str().unwrap(), "{p:?}");
    }
}

#[test]
fn relativize_strips_working_directory() {
    assert_eq!(relativize_to_cwd("/home/u/p/src/a.rs", Some("/home/u/p")), "src/a.rs");
    assert_eq!(relativize_to_cwd("/other/a.rs", Some("/home/u/p")), "/other/a.rs");
    assert_eq!(relativize_to_cwd("/home/u/p", Some("/home/u/p")), "");
    assert_eq!(relativize_to_cwd("./src/a.rs", Some("/home/u/p")), "src/a.rs");
    assert_eq!(relativize_to_cwd("/home/u/p/a", None), "/home/u/p/a");
    assert_eq!(relativize_to_cwd("/home/u/pa/b", Some("/home/u/p")), "/home/u/pa/b");
}

#[test]
fn ignored_paths_have_an_ignored_component() {
    assert!(is_ignored_path(".git"));
    assert!(is_ignored_path("a/node_modules/b.js"));
    assert!(is_ignored_path("/x/target/debug"));
    assert!(!is_ignored_path("a/targets/b"));
    assert!(!is_ignored_path("src/git.rs"));
}

#[test]
fn extension_follows_std_path() {
    for p in ["a.rs", "dir/a.tar.gz", ".bashrc", "a.", "noext", "dir.d/file", "..", "a/.", "x/.a.b"] {
        let expected = Path::new(p).extension().map(|e| e.to_str().unwrap().to_string());
        assert_eq!(path_extension(p), expected, "{p:?}");
    }
}

#[test]
fn starts_with_compares_components() {
    assert!(path_starts_with("contracts/dex/Bad.sol", "contracts"));
    assert!(path_starts_with("contracts/dex", "contracts/dex"));
    assert!(!path_starts_with("contracts2/x", "contracts"));
    assert!(path_starts_with("a//b", "a/./"));
}

#[test]
fn path_order_is_by_components() {
    let pairs = [("a/b", "a-b"), ("a", "a/b"), ("/z", "a"), ("../a", "a"), ("a/b", "a/c")];
    for (x, y) in pairs {
        assert_eq!(path_less(x, y), Path::new(x) < Path::new(y), "{x:?} {y:?}");
        assert_eq!(path_less(y, x), Path::new(y) < Path::new(x), "{y:?} {x:?}");
    }
    assert!(paths_equal("a//b/", "a/b"));
    assert!(!paths_equal("a/b", "a/c"));
}

#[test]
fn file_set_keeps_path_order_without_repeats() {
    let mut set = FileSet::new();
    assert!(set.insert("src/b.rs".to_string()));
    assert!(set.insert("src/a.rs".to_string()));
    assert!(set.insert("src-x/a.rs".to_string()));
    assert!(!set.insert("src//a.rs".to_string()));
    assert_eq!(set.len(), 3);
    assert_eq!(set.to_vec(), vec!["src/a.rs", "src/b.rs", "src-x/a.rs"]);
    assert!(set.contains("src//b.rs"));
    assert!(!set.contains("./src/b.rs"));
    assert!(!set.contains("src/c.rs"));
    assert_eq!(set.get(0), "src/a.rs");
}
