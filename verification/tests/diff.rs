use ecc_kernel::diff::{normalize_repo_path, touched_files_from_unified_diff, TouchedFile};

fn pairs(files: &[TouchedFile]) -> Vec<(String, bool)> {
    files.iter().map(|f| (f.path.clone(), f.valid)).collect()
}

#[test]
fn repo_path_is_cleaned() {
    assert_eq!(normalize_repo_path("src/lib.x"), Some("src/lib.x".to_string()));
    assert_eq!(normalize_repo_path("src\\a\\b.x"), Some("src/a/b.x".to_string()));
    assert_eq!(normalize_repo_path("./src//a/../b"), Some("src/b".to_string()));
    assert_eq!(normalize_repo_path("a/b/../../c"), Some("c".to_string()));
}

#[test]
fn repo_path_rejects_absolute_and_drive_paths() {
    assert_eq!(normalize_repo_path("/etc/passwd"), None);
    assert_eq!(normalize_repo_path("\\windows"), None);
    assert_eq!(normalize_repo_path("C:/x"), None);
    assert_eq!(normalize_repo_path("c:\\x"), None);
    assert_eq!(normalize_repo_path("1:/x"), Some("1:/x".to_string()));
    assert_eq!(normalize_repo_path("C:x"), Some("C:x".to_string()));
}

#[test]
fn repo_path_rejects_climbing_above_root() {
    assert_eq!(normalize_repo_path("../x"), None);
    assert_eq!(normalize_repo_path("a/../../x"), None);
    assert_eq!(normalize_repo_path("../../etc/passwd"), None);
    assert_eq!(normalize_repo_path("a/../../a/b"), None);
}

#[test]
fn repo_path_rejects_paths_that_name_nothing() {
    assert_eq!(normalize_repo_path(""), None);
    assert_eq!(normalize_repo_path("."), None);
    assert_eq!(normalize_repo_path("a/.."), None);
    assert_eq!(normalize_repo_path("./"), None);
}

#[test]
fn deleted_file_yields_before_path() {
    let diff = "diff --git a/old/gone.x b//dev/null\ndeleted file mode 100644\n--- a/old/gone.x\n+++ /dev/null\n";
    let files = touched_files_from_unified_diff(diff).unwrap();
    assert_eq!(pairs(&files), vec![("old/gone.x".to_string(), true)]);
}

#[test]
fn modified_file_yields_after_path() {
    let diff = "diff --git a/src/a.x b/src/b.x\nsimilarity index 90%\n";
    let files = touched_files_from_unified_diff(diff).unwrap();
    assert_eq!(pairs(&files), vec![("src/b.x".to_string(), true)]);
}

#[test]
fn same_path_twice_yields_one_entry() {
    let diff = "diff --git a/src/a.x b/src/a.x\n@@ -1 +1 @@\n-x\n+y\ndiff --git a/src/b.x b/src/b.x\ndiff --git a/src/a.x b/./src/a.x\n";
    let files = touched_files_from_unified_diff(diff).unwrap();
    assert_eq!(
        pairs(&files),
        vec![("src/a.x".to_string(), true), ("src/b.x".to_string(), true)]
    );
}

#[test]
fn traversal_path_is_kept_verbatim_and_invalid() {
    let diff = "diff --git a/../../etc/passwd b/../../etc/passwd\n";
    let files = touched_files_from_unified_diff(diff).unwrap();
    assert_eq!(pairs(&files), vec![("../../etc/passwd".to_string(), false)]);
}

#[test]
fn invalid_paths_are_listed_each_time() {
    let diff = "diff --git a//abs b//abs\ndiff --git a//abs b//abs\n";
    let files = touched_files_from_unified_diff(diff).unwrap();
    assert_eq!(
        pairs(&files),
        vec![("/abs".to_string(), false), ("/abs".to_string(), false)]
    );
}

#[test]
fn empty_and_headerless_texts_touch_nothing() {
    assert!(touched_files_from_unified_diff("").unwrap().is_empty());
    assert!(touched_files_from_unified_diff("just some text\n--- a/x\n+++ b/x\n").unwrap().is_empty());
    assert!(touched_files_from_unified_diff(" diff --git a/x b/x\n").unwrap().is_empty());
    assert!(touched_files_from_unified_diff("diff --gitx a/x\n").unwrap().is_empty());
    assert!(touched_files_from_unified_diff("diff --git").unwrap().is_empty());
}

#[test]
fn truncated_header_is_a_parse_failure() {
    assert_eq!(
        touched_files_from_unified_diff("diff --git a/src/x.rs b/src/x.rs\ndiff --git a/only-one-token\n").err(),
        Some("malformed file header in patch: diff --git a/only-one-token".to_string())
    );
    assert_eq!(
        touched_files_from_unified_diff("diff --git a/x\n").err(),
        Some("malformed file header in patch: diff --git a/x".to_string())
    );
    assert_eq!(
        touched_files_from_unified_diff("diff --git \n").err(),
        Some("malformed file header in patch: diff --git ".to_string())
    );
    assert_eq!(
        touched_files_from_unified_diff("x\ndiff --git  \t \ndiff --git b\n").err(),
        Some("malformed file header in patch: diff --git  \t ".to_string())
    );
    assert_eq!(
        touched_files_from_unified_diff("diff --git diff --git a/x").err(),
        Some("malformed file header in patch: diff --git diff --git a/x".to_string())
    );
}

#[test]
fn header_details_are_tolerated() {
    let files = touched_files_from_unified_diff("diff --git a/x.x b/x.x\r\ndiff --git diff --git   a/y.x \t b/y.x extra\n").unwrap();
    assert_eq!(
        pairs(&files),
        vec![("x.x".to_string(), true), ("y.x".to_string(), true)]
    );
    let files = touched_files_from_unified_diff("diff --git x.x y.x").unwrap();
    assert_eq!(pairs(&files), vec![("y.x".to_string(), true)]);
}

#[test]
fn drive_prefix_is_refused_wherever_it_comes_to_stand_in_front() {
    assert_eq!(normalize_repo_path("./C:/x"), None);
    assert_eq!(normalize_repo_path("x/../c:/y"), None);
    assert_eq!(normalize_repo_path("a/../b/../Z:\\w"), None);
    assert_eq!(normalize_repo_path("a/C:/x"), Some("a/C:/x".to_string()));
    assert_eq!(normalize_repo_path("./C:x/y"), Some("C:x/y".to_string()));
    assert_eq!(normalize_repo_path("C:/../x"), None);
    let files = touched_files_from_unified_diff("diff --git a/./C:/x b/./C:/x\n").unwrap();
    assert_eq!(pairs(&files), vec![("./C:/x".to_string(), false)]);
}

#[test]
fn repo_relative_results_have_the_stated_shape() {
    for p in ["src/lib.x", "a\\b", "./x//y/", "a/b/../c/./d", "C:x", "1:/x", "a/C:/x"] {
        let s = normalize_repo_path(p).unwrap();
        assert!(!s.is_empty());
        assert!(!s.contains('\\'));
        assert!(!s.starts_with('/') && !s.ends_with('/'));
        assert!(s.split('/').all(|seg| !seg.is_empty() && seg != "." && seg != ".."));
        let b = s.as_bytes();
        assert!(!(b.len() >= 3 && b[0].is_ascii_alphabetic() && b[1] == b':' && b[2] == b'/'));
        assert_eq!(normalize_repo_path(&s), Some(s.clone()));
    }
}
