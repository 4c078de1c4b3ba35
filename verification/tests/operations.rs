use ecc_kernel::commit::{commit_all, CommitAllIn};
use ecc_kernel::host::{collect_output, run_cmd, run_git, CmdOut, Reply, Request, Turn};
use ecc_kernel::patch::{patch_apply, PatchApplyIn};
use ecc_kernel::worktree::{
    branch_exists, ensure_branch_at, is_git_worktree, worktree_ensure, worktree_remove,
    WorktreeEnsureIn, WorktreeRemoveIn,
};

fn ran(ok: bool, status: i32, stdout: &str, stderr: &str) -> Reply {
    Reply::Ran(CmdOut { ok, status, stdout: stdout.to_string(), stderr: stderr.to_string() })
}

fn git_args<T>(turn: Turn<T>) -> Vec<String> {
    match turn {
        Turn::Ask(Request::Run { program, args, cwd }) => {
            assert_eq!(program, "git");
            assert_eq!(cwd, None);
            args
        }
        Turn::Ask(_) => panic!("asked for something other than git"),
        Turn::Done(_, _) => panic!("done, not asking"),
        Turn::Fail(msg) => panic!("failed: {msg}"),
    }
}

fn failure<T>(turn: Turn<T>) -> String {
    match turn {
        Turn::Fail(msg) => msg,
        Turn::Ask(_) => panic!("asking, not failed"),
        Turn::Done(_, _) => panic!("done, not failed"),
    }
}

fn done<T>(turn: Turn<T>) -> (T, usize) {
    match turn {
        Turn::Done(value, used) => (value, used),
        Turn::Ask(_) => panic!("asking, not done"),
        Turn::Fail(msg) => panic!("failed: {msg}"),
    }
}

fn ensure_input(root: &str, path: &str) -> WorktreeEnsureIn {
    WorktreeEnsureIn {
        repo_root: root.to_string(),
        worktree_path: path.to_string(),
        branch: "agent/a".to_string(),
        base_sha: "abc123".to_string(),
    }
}

#[test]
fn run_git_asks_for_git() {
    match run_git(vec!["status".to_string()], Some("/repo".to_string())) {
        Request::Run { program, args, cwd } => {
            assert_eq!(program, "git");
            assert_eq!(args, vec!["status"]);
            assert_eq!(cwd, Some("/repo".to_string()));
        }
        _ => panic!("not a run"),
    }
}

#[test]
fn output_is_collected_with_exit_code_and_trimmed_text() {
    let out = collect_output(false, None, " a b \n\n", "warn\t ");
    assert!(!out.ok);
    assert_eq!(out.status, 1);
    assert_eq!(out.stdout, " a b");
    assert_eq!(out.stderr, "warn");
    let out = collect_output(true, Some(0), "", "");
    assert!(out.ok);
    assert_eq!(out.status, 0);
    assert_eq!(out.stdout, "");
    let out = collect_output(false, Some(-7), "x", "y");
    assert_eq!(out.status, -7);
}

#[test]
fn output_bytes_are_decoded_lossily() {
    let out = run_cmd(true, Some(0), b"ok \xff done\n", "caf\u{e9}  ".as_bytes());
    assert_eq!(out.stdout, "ok \u{fffd} done");
    assert_eq!(out.stderr, "caf\u{e9}");
    assert_eq!(out.status, 0);
}

#[test]
fn branch_exists_asks_then_judges() {
    let args = git_args(branch_exists("/repo", "agent/a", &[], 0));
    assert_eq!(
        args,
        vec!["-C", "/repo", "show-ref", "--verify", "--quiet", "refs/heads/agent/a"]
    );
    assert_eq!(done(branch_exists("/repo", "b", &[ran(true, 0, "", "")], 0)), (true, 1));
    assert_eq!(done(branch_exists("/repo", "b", &[ran(false, 1, "", "")], 0)), (false, 1));
    assert_eq!(
        done(branch_exists("/repo", "b", &[Reply::Failed("no git".to_string())], 0)),
        (false, 1)
    );
    assert_eq!(
        done(branch_exists("/repo", "b", &[Reply::Done, ran(false, 0, "", "")], 1)),
        (true, 2)
    );
}

#[test]
fn ensure_branch_creates_only_a_missing_branch() {
    let exists = [ran(true, 0, "", "")];
    assert_eq!(done(ensure_branch_at("/repo", "b", "abc", &exists, 0)), ((), 1));
    let missing = [ran(false, 1, "", "")];
    let args = git_args(ensure_branch_at("/repo", "b", "abc", &missing, 0));
    assert_eq!(args, vec!["-C", "/repo", "branch", "b", "abc"]);
    let created = [ran(false, 1, "", ""), ran(true, 0, "", "")];
    assert_eq!(done(ensure_branch_at("/repo", "b", "abc", &created, 0)), ((), 2));
    let refused = [ran(false, 1, "", ""), ran(false, 128, "", "fatal: bad sha")];
    assert_eq!(failure(ensure_branch_at("/repo", "b", "abc", &refused, 0)), "fatal: bad sha");
    let silent = [ran(false, 1, "", ""), ran(false, 128, "", "")];
    assert_eq!(failure(ensure_branch_at("/repo", "b", "abc", &silent, 0)), "git branch failed");
    let no_git = [ran(false, 1, "", ""), Reply::Failed("not found".to_string())];
    assert_eq!(failure(ensure_branch_at("/repo", "b", "abc", &no_git, 0)), "git failed: not found");
}

#[test]
fn is_git_worktree_needs_existence_and_gits_word() {
    match is_git_worktree("/wt", &[], 0) {
        Turn::Ask(Request::Exists { path }) => assert_eq!(path, "/wt"),
        _ => panic!("expected a question of existence"),
    }
    assert_eq!(done(is_git_worktree("/wt", &[Reply::Exists(false)], 0)), (false, 1));
    let args = git_args(is_git_worktree("/wt", &[Reply::Exists(true)], 0));
    assert_eq!(args, vec!["-C", "/wt", "rev-parse", "--is-inside-work-tree"]);
    let yes = [Reply::Exists(true), ran(true, 0, "true", "")];
    assert_eq!(done(is_git_worktree("/wt", &yes, 0)), (true, 2));
    let padded = [Reply::Exists(true), ran(true, 0, " true\n", "")];
    assert_eq!(done(is_git_worktree("/wt", &padded, 0)), (true, 2));
    let no = [Reply::Exists(true), ran(true, 0, "false", "")];
    assert_eq!(done(is_git_worktree("/wt", &no, 0)), (false, 2));
    let failed = [Reply::Exists(true), ran(false, 128, "true", "")];
    assert_eq!(done(is_git_worktree("/wt", &failed, 0)), (false, 2));
    let no_git = [Reply::Exists(true), Reply::Failed("x".to_string())];
    assert_eq!(done(is_git_worktree("/wt", &no_git, 0)), (false, 2));
}

fn expect_exists<T>(turn: Turn<T>, expected: &str) {
    match turn {
        Turn::Ask(Request::Exists { path }) => assert_eq!(path, expected),
        _ => panic!("expected a question of existence"),
    }
}

#[test]
fn ensure_refuses_nested_worktree_before_asking_anything() {
    let input = ensure_input("/repo", "/repo/.worktrees/a");
    let expected = "Refusing to create worktree inside repo root (would recurse): repoRoot=/repo worktreePath=/repo/.worktrees/a";
    assert_eq!(failure(worktree_ensure("/", &input, &[])), expected);
    let log = [Reply::Exists(false), ran(true, 0, "", ""), Reply::Done, ran(true, 0, "", "")];
    assert_eq!(failure(worktree_ensure("/", &input, &log)), expected);
    let relative = ensure_input("repo", "repo/wt");
    assert_eq!(
        failure(worktree_ensure("/home/u", &relative, &[])),
        "Refusing to create worktree inside repo root (would recurse): repoRoot=/home/u/repo worktreePath=/home/u/repo/wt"
    );
}

#[test]
fn ensure_creates_a_new_worktree_step_by_step() {
    let input = ensure_input("/repo", "/wt/a");
    let mut log: Vec<Reply> = Vec::new();
    expect_exists(worktree_ensure("/", &input, &log), "/wt/a");
    log.push(Reply::Exists(false));
    let args = git_args(worktree_ensure("/", &input, &log));
    assert_eq!(
        args,
        vec!["-C", "/repo", "show-ref", "--verify", "--quiet", "refs/heads/agent/a"]
    );
    log.push(ran(false, 1, "", ""));
    let args = git_args(worktree_ensure("/", &input, &log));
    assert_eq!(args, vec!["-C", "/repo", "branch", "agent/a", "abc123"]);
    log.push(ran(true, 0, "", ""));
    match worktree_ensure("/", &input, &log) {
        Turn::Ask(Request::CreateDirAll { path }) => assert_eq!(path, "/wt"),
        _ => panic!("expected the parent directory to be asked for"),
    }
    log.push(Reply::Done);
    let args = git_args(worktree_ensure("/", &input, &log));
    assert_eq!(args, vec!["-C", "/repo", "worktree", "add", "/wt/a", "agent/a"]);
    log.push(ran(true, 0, "", ""));
    let (out, used) = done(worktree_ensure("/", &input, &log));
    assert_eq!(out.worktree_path, "/wt/a");
    assert_eq!(used, 5);
}

#[test]
fn ensure_takes_an_existing_branch_as_it_is() {
    let input = ensure_input("/repo", "wt");
    let log = [Reply::Exists(false), ran(true, 0, "", "")];
    match worktree_ensure("/home/u", &input, &log) {
        Turn::Ask(Request::CreateDirAll { path }) => assert_eq!(path, ""),
        _ => panic!("expected the parent directory to be asked for"),
    }
    let log = [Reply::Exists(false), ran(true, 0, "", ""), Reply::Done, ran(true, 0, "", "")];
    let (out, used) = done(worktree_ensure("/home/u", &input, &log));
    assert_eq!(out.worktree_path, "wt");
    assert_eq!(used, 4);
}

#[test]
fn ensure_twice_gives_the_same_answer() {
    let input = ensure_input("/repo", "/wt/a");
    let first = [
        Reply::Exists(false),
        ran(false, 1, "", ""),
        ran(true, 0, "", ""),
        Reply::Done,
        ran(true, 0, "", ""),
    ];
    let (first_out, _) = done(worktree_ensure("/", &input, &first));
    let second = [Reply::Exists(true), Reply::Exists(true), ran(true, 0, "true", "")];
    for len in 0..second.len() {
        match worktree_ensure("/", &input, &second[..len]) {
            Turn::Ask(Request::Run { args, .. }) => assert_eq!(args[2], "rev-parse"),
            Turn::Ask(Request::Exists { .. }) => {}
            _ => panic!("expected only questions"),
        }
    }
    let (second_out, used) = done(worktree_ensure("/", &input, &second));
    assert_eq!(used, 3);
    assert_eq!(first_out.worktree_path, second_out.worktree_path);
    assert_eq!(second_out.worktree_path, "/wt/a");
}

#[test]
fn existing_path_that_is_no_checkout_is_refused_without_any_change() {
    let input = ensure_input("/repo", "/wt/a");
    let log = [Reply::Exists(true), Reply::Exists(true), ran(false, 128, "", "fatal")];
    for len in 0..log.len() {
        match worktree_ensure("/", &input, &log[..len]) {
            Turn::Ask(Request::Exists { path }) => assert_eq!(path, "/wt/a"),
            Turn::Ask(Request::Run { args, .. }) => {
                assert_eq!(args, vec!["-C", "/wt/a", "rev-parse", "--is-inside-work-tree"]);
            }
            _ => panic!("expected only questions"),
        }
    }
    assert_eq!(
        failure(worktree_ensure("/", &input, &log)),
        "Worktree path exists but is not a git worktree: /wt/a"
    );
    let vanished = [Reply::Exists(true), Reply::Exists(false)];
    assert_eq!(
        failure(worktree_ensure("/", &input, &vanished)),
        "Worktree path exists but is not a git worktree: /wt/a"
    );
}

#[test]
fn ensure_reports_failures() {
    let input = ensure_input("/repo", "/wt/a");
    let no_parent = [Reply::Exists(false), ran(true, 0, "", ""), Reply::Failed("denied".to_string())];
    assert_eq!(
        failure(worktree_ensure("/", &input, &no_parent)),
        "failed to create worktree parent dir /wt: denied"
    );
    let no_branch = [Reply::Exists(false), ran(false, 1, "", ""), ran(false, 128, "", "bad sha")];
    assert_eq!(failure(worktree_ensure("/", &input, &no_branch)), "bad sha");
    let add_silent = [Reply::Exists(false), ran(true, 0, "", ""), Reply::Done, ran(false, 1, "", "")];
    assert_eq!(
        failure(worktree_ensure("/", &input, &add_silent)),
        "git worktree add failed: /wt/a"
    );
    let add_loud = [Reply::Exists(false), ran(true, 0, "", ""), Reply::Done, ran(false, 1, "", "boom")];
    assert_eq!(failure(worktree_ensure("/", &input, &add_loud)), "boom");
    let odd = [Reply::Done];
    assert_eq!(failure(worktree_ensure("/", &input, &odd)), "unexpected reply from the host");
    let odd = [Reply::Exists(false), ran(true, 0, "", ""), Reply::Exists(true)];
    assert_eq!(failure(worktree_ensure("/", &input, &odd)), "unexpected reply from the host");
}

#[test]
fn remove_defers_to_git() {
    let plain = WorktreeRemoveIn {
        repo_root: "/repo".to_string(),
        worktree_path: "/wt/a".to_string(),
        force: false,
    };
    assert_eq!(
        git_args(worktree_remove(&plain, &[])),
        vec!["-C", "/repo", "worktree", "remove", "/wt/a"]
    );
    let forced = WorktreeRemoveIn {
        repo_root: "/repo".to_string(),
        worktree_path: "/wt/a".to_string(),
        force: true,
    };
    assert_eq!(
        git_args(worktree_remove(&forced, &[])),
        vec!["-C", "/repo", "worktree", "remove", "--force", "/wt/a"]
    );
    let (out, used) = done(worktree_remove(&plain, &[ran(true, 0, "", "")]));
    assert!(out.ok);
    assert_eq!(used, 1);
    assert_eq!(
        failure(worktree_remove(&plain, &[ran(false, 1, "", "fatal: dirty")])),
        "fatal: dirty"
    );
    assert_eq!(
        failure(worktree_remove(&plain, &[ran(false, 1, "", "")])),
        "git worktree remove failed: /wt/a"
    );
}

#[test]
fn commit_all_stages_commits_and_reports_head() {
    let input = CommitAllIn { repo_root: "/wt/a".to_string(), message: "fix: it".to_string() };
    let mut log: Vec<Reply> = Vec::new();
    assert_eq!(git_args(commit_all(&input, &log)), vec!["-C", "/wt/a", "add", "-A"]);
    log.push(ran(true, 0, "", ""));
    assert_eq!(
        git_args(commit_all(&input, &log)),
        vec!["-C", "/wt/a", "commit", "-m", "fix: it"]
    );
    log.push(ran(true, 0, "[x] fix", ""));
    assert_eq!(git_args(commit_all(&input, &log)), vec!["-C", "/wt/a", "rev-parse", "HEAD"]);
    log.push(ran(true, 0, "  deadbeef", ""));
    let (out, used) = done(commit_all(&input, &log));
    assert_eq!(out.sha, "deadbeef");
    assert_eq!(used, 3);
}

#[test]
fn commit_all_stops_at_first_failure() {
    let input = CommitAllIn { repo_root: "/wt/a".to_string(), message: "m".to_string() };
    assert_eq!(failure(commit_all(&input, &[ran(false, 1, "", "")])), "git add failed");
    assert_eq!(failure(commit_all(&input, &[ran(false, 1, "", "locked")])), "locked");
    let nothing = [ran(true, 0, "", ""), ran(false, 1, "nothing to commit", "")];
    assert_eq!(failure(commit_all(&input, &nothing)), "git commit failed");
    let no_head = [ran(true, 0, "", ""), ran(true, 0, "", ""), ran(false, 128, "", "")];
    assert_eq!(failure(commit_all(&input, &no_head)), "git rev-parse HEAD failed");
    assert_eq!(
        failure(commit_all(&input, &[Reply::Failed("no such file".to_string())])),
        "git failed: no such file"
    );
}

fn patch_input(allowed: &[&str]) -> PatchApplyIn {
    PatchApplyIn {
        worktree_path: "/wt/a".to_string(),
        patch_path: "/tmp/p.diff".to_string(),
        allowed_path_prefixes: allowed.iter().map(|p| p.to_string()).collect(),
    }
}

#[test]
fn patch_apply_reads_checks_and_applies() {
    let input = patch_input(&["src/"]);
    let mut log: Vec<Reply> = Vec::new();
    match patch_apply(&input, &log) {
        Turn::Ask(Request::ReadText { path }) => assert_eq!(path, "/tmp/p.diff"),
        _ => panic!("expected the patch to be read"),
    }
    log.push(Reply::Text(
        "diff --git a/src/a.x b/src/a.x\n--- a/src/a.x\n+++ b/src/a.x\ndiff --git a/src/b.x b/src/b.x\n".to_string(),
    ));
    assert_eq!(
        git_args(patch_apply(&input, &log)),
        vec!["-C", "/wt/a", "apply", "--check", "/tmp/p.diff"]
    );
    log.push(ran(true, 0, "", ""));
    assert_eq!(git_args(patch_apply(&input, &log)), vec!["-C", "/wt/a", "apply", "/tmp/p.diff"]);
    log.push(ran(true, 0, "", ""));
    let (out, used) = done(patch_apply(&input, &log));
    assert_eq!(out.touched_files, vec!["src/a.x", "src/b.x"]);
    assert_eq!(used, 3);
}

#[test]
fn empty_patch_is_a_no_op_success() {
    let input = patch_input(&[]);
    let (out, used) = done(patch_apply(&input, &[Reply::Text(" \n\t\n".to_string())]));
    assert!(out.touched_files.is_empty());
    assert_eq!(used, 1);
    let (out, _) = done(patch_apply(&input, &[Reply::Text(String::new())]));
    assert!(out.touched_files.is_empty());
}

#[test]
fn patch_without_headers_is_not_a_diff() {
    let input = patch_input(&["src/"]);
    assert_eq!(
        failure(patch_apply(&input, &[Reply::Text("hello\n".to_string())])),
        "patch has content but no \"diff --git\" headers (not a unified diff?)"
    );
}

#[test]
fn patch_with_truncated_header_is_refused() {
    let input = patch_input(&["src/"]);
    let text = "diff --git a/src/x.rs b/src/x.rs\ndiff --git a/only-one-token\n";
    let log = [Reply::Text(text.to_string()), ran(true, 0, "", ""), ran(true, 0, "", "")];
    let expected = "malformed file header in patch: diff --git a/only-one-token";
    assert_eq!(failure(patch_apply(&input, &log[..1])), expected);
    assert_eq!(failure(patch_apply(&input, &log)), expected);
}

#[test]
fn unowned_patch_never_reaches_git() {
    let input = patch_input(&["src/"]);
    let text = "diff --git a/src/a.x b/src/a.x\ndiff --git a/docs/d.x b/docs/d.x\ndiff --git a/x b//etc/passwd\n";
    let log = [Reply::Text(text.to_string()), ran(true, 0, "", ""), ran(true, 0, "", "")];
    let expected = "patch ownership check failed:\n- unauthorized path: docs/d.x\n- invalid path in patch: /etc/passwd";
    assert_eq!(failure(patch_apply(&input, &log[..1])), expected);
    assert_eq!(failure(patch_apply(&input, &log)), expected);
    let none = patch_input(&[]);
    assert_eq!(failure(patch_apply(&none, &log[..1])), "allowedPathPrefixes is empty");
}

#[test]
fn patch_apply_reports_failures() {
    let input = patch_input(&["src/"]);
    assert_eq!(
        failure(patch_apply(&input, &[Reply::Failed("No such file".to_string())])),
        "failed to read patch file: /tmp/p.diff: No such file"
    );
    let text = Reply::Text("diff --git a/src/a.x b/src/a.x\n".to_string());
    assert_eq!(
        failure(patch_apply(&input, &[text, ran(false, 1, "", "")])),
        "git apply --check failed"
    );
    let text = Reply::Text("diff --git a/src/a.x b/src/a.x\n".to_string());
    assert_eq!(
        failure(patch_apply(&input, &[text, ran(true, 0, "", ""), ran(false, 1, "", "")])),
        "git apply failed"
    );
    let text = Reply::Text("diff --git a/src/a.x b/src/a.x\n".to_string());
    assert_eq!(
        failure(patch_apply(&input, &[text, ran(false, 1, "", "error: patch failed")])),
        "error: patch failed"
    );
}
