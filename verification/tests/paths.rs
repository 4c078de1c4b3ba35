use ecc_kernel::lexical::{
    abs_path, is_absolute, is_contained, join_path, normalize_worktree_path, parent_path,
};
use ecc_kernel::diff::normalize_repo_path;
use ecc_kernel::verify::output_path;
use ecc_kernel::worktree::assert_external_worktree_path;

#[test]
fn normalize_drops_dot_and_empty_segments() {
    assert_eq!(normalize_worktree_path("/repo/./a//b/"), "/repo/a/b");
    assert_eq!(normalize_worktree_path("a/./b"), "a/b");
    assert_eq!(normalize_worktree_path("."), "");
    assert_eq!(normalize_worktree_path(""), "");
    assert_eq!(normalize_worktree_path("/"), "/");
    assert_eq!(normalize_worktree_path("//"), "/");
}

#[test]
fn normalize_resolves_parent_segments() {
    assert_eq!(normalize_worktree_path("/repo/a/../b"), "/repo/b");
    assert_eq!(normalize_worktree_path("a/b/../../c"), "c");
    assert_eq!(normalize_worktree_path("a/.."), "");
}

#[test]
fn normalize_keeps_parent_segments_that_climb_out() {
    assert_eq!(normalize_worktree_path("../a"), "../a");
    assert_eq!(normalize_worktree_path("../../a"), "../../a");
    assert_eq!(normalize_worktree_path("a/../../b"), "../b");
    assert_eq!(normalize_worktree_path("/.."), "/..");
    assert_eq!(normalize_worktree_path("/../a/.."), "/..");
    assert_eq!(normalize_worktree_path("/a/../../b"), "/../b");
}

#[test]
fn normalize_is_idempotent_on_samples() {
    for p in ["/repo/./a/../b", "../x/./y/..", "", "/", "/..", "a//b/", "./.", "/a/../../b/c/.."] {
        let once = normalize_worktree_path(p);
        assert_eq!(normalize_worktree_path(&once), once);
    }
}

#[test]
fn normalize_agrees_with_std_components() {
    for p in ["/repo/./a/../b", "../x/./y/..", "", "/", "/..", "a//b/", "./.", "/a/../../b/c/..", "x/y/z"] {
        let mut out: Vec<std::path::Component> = Vec::new();
        for c in std::path::Path::new(p).components() {
            match c {
                std::path::Component::CurDir => {}
                std::path::Component::ParentDir => match out.last() {
                    Some(std::path::Component::Normal(_)) => {
                        out.pop();
                    }
                    _ => out.push(c),
                },
                _ => out.push(c),
            }
        }
        let mut pb = std::path::PathBuf::new();
        for c in out {
            pb.push(c.as_os_str());
        }
        assert_eq!(normalize_worktree_path(p), pb.display().to_string());
    }
}

#[test]
fn join_follows_path_rules() {
    assert_eq!(join_path("/repo", "src/lib.x"), "/repo/src/lib.x");
    assert_eq!(join_path("/repo/", "src"), "/repo/src");
    assert_eq!(join_path("/repo", "/etc"), "/etc");
    assert_eq!(join_path("", "src"), "src");
}

#[test]
fn abs_path_takes_relative_paths_from_cwd() {
    assert_eq!(abs_path("/home/u", "repo/../wt"), "/home/u/wt");
    assert_eq!(abs_path("/home/u", "/repo/./x"), "/repo/x");
    assert_eq!(abs_path("/home/u", ""), "/home/u");
    assert!(is_absolute("/repo"));
    assert!(!is_absolute("repo"));
    assert!(!is_absolute(""));
}

#[test]
fn subpath_of_root_is_contained() {
    assert!(is_contained("/", "/repo", &join_path("/repo", "a/b")));
    assert!(is_contained("/", "/repo", &join_path("/repo", "a/../b")));
    assert!(is_contained("/", "/repo", "/repo"));
    assert!(is_contained("/cwd", "repo", "repo/.worktrees/a"));
    assert!(is_contained("/cwd", "repo", "/cwd/repo/x"));
}

#[test]
fn subpath_that_climbs_out_is_not_contained() {
    assert!(!is_contained("/", "/repo", &join_path("/repo", "../etc")));
    assert!(!is_contained("/", "/repo", "/"));
}

#[test]
fn sibling_with_shared_text_is_not_contained() {
    assert!(!is_contained("/", "/r", "/repo"));
    assert!(!is_contained("/", "/repo", "/repo-old"));
    assert!(!is_contained("/", "/repo", "/repo-old/x"));
    assert!(is_contained("/", "/repo", "/repo/old"));
}

#[test]
fn nested_worktree_is_refused() {
    let err = assert_external_worktree_path("/", "/repo", "/repo/.worktrees/a").unwrap_err();
    assert_eq!(
        err,
        "Refusing to create worktree inside repo root (would recurse): repoRoot=/repo worktreePath=/repo/.worktrees/a"
    );
    let err = assert_external_worktree_path("/home/u", "repo/.", "repo/x/../wt").unwrap_err();
    assert_eq!(
        err,
        "Refusing to create worktree inside repo root (would recurse): repoRoot=/home/u/repo worktreePath=/home/u/repo/wt"
    );
}

#[test]
fn external_worktree_is_accepted() {
    assert_eq!(assert_external_worktree_path("/", "/repo", "/worktrees/a"), Ok(()));
    assert_eq!(assert_external_worktree_path("/", "/repo", "/repo-wt"), Ok(()));
    assert_eq!(assert_external_worktree_path("/", "/repo", "/repo/../wt"), Ok(()));
}

#[test]
fn repo_relative_paths_stay_under_any_root() {
    for p in ["src/lib.x", "a/../b", "./x//y/", "a\\b\\..\\c", "x/../c:y"] {
        let clean = normalize_repo_path(p).unwrap();
        for root in ["/repo", "repo", "/", "", "/a/../b"] {
            assert!(is_contained("/cwd", root, &join_path(root, &clean)), "{p} under {root}");
        }
    }
}

#[test]
fn evidence_files_lie_in_the_evidence_directory() {
    for name in ["Build", "../../etc/passwd", "..", "", "a/b"] {
        for out_dir in ["/out", "out/dir", "", "/"] {
            let path = output_path(out_dir, name);
            assert!(is_contained("/cwd", out_dir, &path), "{path} under {out_dir}");
        }
    }
    assert_eq!(output_path("/out", "../../etc/passwd"), "/out/etc-passwd.txt");
    assert_eq!(output_path("/out", ".."), "/out/command.txt");
}

#[test]
fn parent_is_the_path_without_its_last_component() {
    assert_eq!(parent_path("/wt/a"), Some("/wt".to_string()));
    assert_eq!(parent_path("/wt/a/"), Some("/wt".to_string()));
    assert_eq!(parent_path("/a"), Some("/".to_string()));
    assert_eq!(parent_path("a"), Some(String::new()));
    assert_eq!(parent_path("a/b//c"), Some("a/b".to_string()));
    assert_eq!(parent_path("a/./b"), Some("a".to_string()));
    assert_eq!(parent_path("./a"), Some(".".to_string()));
    assert_eq!(parent_path("/a/b/../c"), Some("/a/b/..".to_string()));
    assert_eq!(parent_path("/"), None);
    assert_eq!(parent_path(""), None);
}

#[test]
fn parent_agrees_with_std() {
    for p in [
        "/wt/a", "/wt/a/", "/a", "a", "a/b//c", "a/./b", "./a", "/a/b/../c", "/", "", ".", "..",
        "a/..", "/..", "//", "//a", "a/.", "a/./", "./", "././a", "/./a", "/a/.", "a//", "/a//b/",
        "../a", "a/b/.//", "/.", ".//a",
    ] {
        let expected = std::path::Path::new(p).parent().map(|d| d.display().to_string());
        assert_eq!(parent_path(p), expected, "parent of {p:?}");
    }
}
