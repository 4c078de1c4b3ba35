//! Guards for the place of an isolated checkout, and the decisions taken
//! while one is created or removed.

use vstd::prelude::*;
use crate::host::{
    git_call, git_outcome, git_result, run_git, unexpected_reply, Ask, Reply, Request, Step, Turn,
};
use crate::lexical::{abs_path, absolute, contained, is_contained, parent, parent_path};
use crate::text::{
    append_chars, chars_of, concat2, copy_of, push_owned, push_text, same_chars, string_of, texts,
    trim_chars, trimmed,
};

verus! {

/// The refusal given for a worktree that would lie inside its repository.
pub open spec fn nested_worktree_message(repo: Seq<char>, worktree: Seq<char>) -> Seq<char> {
    "Refusing to create worktree inside repo root (would recurse): repoRoot="@ + repo
        + " worktreePath="@ + worktree
}

/// Refuses a worktree location at or under the repository root, since a
/// checkout placed there would contain itself. Both paths are compared in
/// canonical absolute form, relative ones being taken from `cwd`; the
/// refusal names both in that form.
pub fn assert_external_worktree_path(cwd: &str, repo_root: &str, worktree_path: &str) -> (r:
    Result<(), String>)
    ensures
        r is Ok <==> !contained(cwd@, repo_root@, worktree_path@),
        r matches Err(msg) ==> msg@ == nested_worktree_message(
            absolute(cwd@, repo_root@),
            absolute(cwd@, worktree_path@),
        ),
{
    if is_contained(cwd, repo_root, worktree_path) {
        let repo = abs_path(cwd, repo_root);
        let wt = abs_path(cwd, worktree_path);
        let mut msg = chars_of(
            "Refusing to create worktree inside repo root (would recurse): repoRoot=",
        );
        append_chars(&mut msg, &chars_of(repo.as_str()));
        append_chars(&mut msg, &chars_of(" worktreePath="));
        append_chars(&mut msg, &chars_of(wt.as_str()));
        Err(string_of(&msg))
    } else {
        Ok(())
    }
}

/// What is needed to create an isolated checkout.
pub struct WorktreeEnsureIn {
    pub repo_root: String,
    pub worktree_path: String,
    pub branch: String,
    pub base_sha: String,
}

/// The checkout that is there once `worktree_ensure` has ended well.
pub struct WorktreeEnsureOut {
    pub worktree_path: String,
}

impl View for WorktreeEnsureOut {
    type V = Seq<char>;

    open spec fn view(&self) -> Seq<char> {
        self.worktree_path@
    }
}

/// What is needed to remove a checkout.
pub struct WorktreeRemoveIn {
    pub repo_root: String,
    pub worktree_path: String,
    pub force: bool,
}

/// The answer of `worktree_remove`.
pub struct WorktreeRemoveOut {
    pub ok: bool,
}

impl View for WorktreeRemoveOut {
    type V = bool;

    open spec fn view(&self) -> bool {
        self.ok
    }
}

/// The question whether a branch exists.
pub open spec fn branch_probe(repo_root: Seq<char>, branch: Seq<char>) -> Ask {
    git_call(
        seq!["-C"@, repo_root, "show-ref"@, "--verify"@, "--quiet"@, "refs/heads/"@ + branch],
        None,
    )
}

/// Where the question whether a branch exists stands: it is asked once,
/// and the branch exists exactly when git ran and ended with code 0.
pub open spec fn branch_exists_step(
    repo_root: Seq<char>,
    branch: Seq<char>,
    log: Seq<Reply>,
    at: int,
) -> Step<bool> {
    if at >= log.len() {
        Step::Ask(branch_probe(repo_root, branch))
    } else {
        Step::Done(
            match log[at] {
                Reply::Ran(out) => out.status == 0,
                _ => false,
            },
            at + 1,
        )
    }
}

/// Finds out whether the repository has the branch. The replies of this
/// question begin at `at` in the log.
pub fn branch_exists(repo_root: &str, branch: &str, log: &[Reply], at: usize) -> (turn: Turn<bool>)
    ensures
        turn@ == branch_exists_step(repo_root@, branch@, log@, at as int),
{
    if at >= log.len() {
        let mut args: Vec<String> = Vec::new();
        push_text(&mut args, "-C");
        push_text(&mut args, repo_root);
        push_text(&mut args, "show-ref");
        push_text(&mut args, "--verify");
        push_text(&mut args, "--quiet");
        push_owned(&mut args, concat2("refs/heads/", branch));
        assert(texts(args@) =~= seq![
            "-C"@,
            repo_root@,
            "show-ref"@,
            "--verify"@,
            "--quiet"@,
            "refs/heads/"@ + branch@,
        ]);
        return Turn::Ask(run_git(args, None));
    }
    let found = match &log[at] {
        Reply::Ran(out) => out.status == 0,
        _ => false,
    };
    Turn::Done(found, at + 1)
}

/// The request to create a branch at a revision.
pub open spec fn branch_create(repo_root: Seq<char>, branch: Seq<char>, base_sha: Seq<char>) -> Ask {
    git_call(seq!["-C"@, repo_root, "branch"@, branch, base_sha], None)
}

/// Where making sure of a branch stands. A branch that exists is taken as
/// it is, at whatever revision; one that does not is created at the base
/// revision.
pub open spec fn ensure_branch_step(
    repo_root: Seq<char>,
    branch: Seq<char>,
    base_sha: Seq<char>,
    log: Seq<Reply>,
    at: int,
) -> Step<()> {
    match branch_exists_step(repo_root, branch, log, at) {
        Step::Ask(ask) => Step::Ask(ask),
        Step::Fail(msg) => Step::Fail(msg),
        Step::Done(found, next) => if found {
            Step::Done((), next)
        } else if next >= log.len() {
            Step::Ask(branch_create(repo_root, branch, base_sha))
        } else {
            match git_result(log[next], "git branch failed"@) {
                Ok(_) => Step::Done((), next + 1),
                Err(msg) => Step::Fail(msg),
            }
        },
    }
}

/// Makes sure that the branch exists: where it does not, it is created at
/// `base_sha`; where it does, it is never moved. The replies of this
/// operation begin at `at` in the log.
pub fn ensure_branch_at(
    repo_root: &str,
    branch: &str,
    base_sha: &str,
    log: &[Reply],
    at: usize,
) -> (turn: Turn<()>)
    ensures
        turn@ == ensure_branch_step(repo_root@, branch@, base_sha@, log@, at as int),
{
    match branch_exists(repo_root, branch, log, at) {
        Turn::Ask(request) => Turn::Ask(request),
        Turn::Fail(msg) => Turn::Fail(msg),
        Turn::Done(found, next) => {
            if found {
                return Turn::Done((), next);
            }
            if next >= log.len() {
                let mut args: Vec<String> = Vec::new();
                push_text(&mut args, "-C");
                push_text(&mut args, repo_root);
                push_text(&mut args, "branch");
                push_text(&mut args, branch);
                push_text(&mut args, base_sha);
                assert(texts(args@) =~= seq!["-C"@, repo_root@, "branch"@, branch@, base_sha@]);
                return Turn::Ask(run_git(args, None));
            }
            match git_outcome(&log[next], "git branch failed") {
                Ok(_) => Turn::Done((), next + 1),
                Err(msg) => Turn::Fail(msg),
            }
        },
    }
}

/// The question whether a directory is inside a checkout.
pub open spec fn worktree_probe(dir: Seq<char>) -> Ask {
    git_call(seq!["-C"@, dir, "rev-parse"@, "--is-inside-work-tree"@], None)
}

/// Where the question whether a directory is a checkout stands. It is one
/// exactly when it exists, git ran there with success, and git's answer,
/// white space apart, is `true`.
pub open spec fn is_git_worktree_step(dir: Seq<char>, log: Seq<Reply>, at: int) -> Step<bool> {
    if at >= log.len() {
        Step::Ask(Ask::Exists { path: dir })
    } else if log[at] != Reply::Exists(true) {
        Step::Done(false, at + 1)
    } else if at + 1 >= log.len() {
        Step::Ask(worktree_probe(dir))
    } else {
        Step::Done(
            match log[at + 1] {
                Reply::Ran(out) => out.ok && trimmed(out.stdout@) == "true"@,
                _ => false,
            },
            at + 2,
        )
    }
}

/// Finds out whether the directory is a checkout that git knows. The
/// replies of this question begin at `at` in the log.
pub fn is_git_worktree(dir: &str, log: &[Reply], at: usize) -> (turn: Turn<bool>)
    ensures
        turn@ == is_git_worktree_step(dir@, log@, at as int),
{
    if at >= log.len() {
        return Turn::Ask(Request::Exists { path: copy_of(dir) });
    }
    let exists = match &log[at] {
        Reply::Exists(there) => *there,
        _ => false,
    };
    if !exists {
        return Turn::Done(false, at + 1);
    }
    if at + 1 >= log.len() {
        let mut args: Vec<String> = Vec::new();
        push_text(&mut args, "-C");
        push_text(&mut args, dir);
        push_text(&mut args, "rev-parse");
        push_text(&mut args, "--is-inside-work-tree");
        assert(texts(args@) =~= seq!["-C"@, dir@, "rev-parse"@, "--is-inside-work-tree"@]);
        return Turn::Ask(run_git(args, None));
    }
    let inside = match &log[at + 1] {
        Reply::Ran(out) => out.ok && same_chars(
            &trim_chars(&chars_of(out.stdout.as_str())),
            &chars_of("true"),
        ),
        _ => false,
    };
    Turn::Done(inside, at + 2)
}

/// What is reported of a path that exists and is no checkout.
pub open spec fn not_a_worktree_message(path: Seq<char>) -> Seq<char> {
    "Worktree path exists but is not a git worktree: "@ + path
}

/// What is reported when the directory above the checkout could not be
/// created: the directory, and the system's words.
pub open spec fn parent_dir_message(dir: Seq<char>, reason: Seq<char>) -> Seq<char> {
    "failed to create worktree parent dir "@ + dir + ": "@ + reason
}

/// What is reported when git would not add the checkout and said nothing.
pub open spec fn worktree_add_fallback(path: Seq<char>) -> Seq<char> {
    "git worktree add failed: "@ + path
}

/// The request to add a checkout of a branch.
pub open spec fn worktree_add(repo_root: Seq<char>, path: Seq<char>, branch: Seq<char>) -> Ask {
    git_call(seq!["-C"@, repo_root, "worktree"@, "add"@, path, branch], None)
}

/// Where the adding of the checkout stands. Its reply stands at `at`.
pub open spec fn add_worktree_step(input: WorktreeEnsureIn, log: Seq<Reply>, at: int) -> Step<
    Seq<char>,
> {
    let path = input.worktree_path@;
    if at >= log.len() {
        Step::Ask(worktree_add(input.repo_root@, path, input.branch@))
    } else {
        match git_result(log[at], worktree_add_fallback(path)) {
            Ok(_) => Step::Done(path, at + 1),
            Err(msg) => Step::Fail(msg),
        }
    }
}

/// Where the creation of a new checkout stands, once it is known that
/// nothing exists at its path: the branch is made sure of, the directory
/// above the path is created with all that lead to it, and the checkout is
/// added. Its replies begin at `at` in the log.
pub open spec fn create_worktree_step(input: WorktreeEnsureIn, log: Seq<Reply>, at: int) -> Step<
    Seq<char>,
> {
    match ensure_branch_step(input.repo_root@, input.branch@, input.base_sha@, log, at) {
        Step::Ask(ask) => Step::Ask(ask),
        Step::Fail(msg) => Step::Fail(msg),
        Step::Done(_, next) => match parent(input.worktree_path@) {
            None => add_worktree_step(input, log, next),
            Some(dir) => if next >= log.len() {
                Step::Ask(Ask::CreateDirAll { path: dir })
            } else {
                match log[next] {
                    Reply::Done => add_worktree_step(input, log, next + 1),
                    Reply::Failed(reason) => Step::Fail(parent_dir_message(dir, reason@)),
                    _ => Step::Fail(unexpected_reply()),
                }
            },
        },
    }
}

/// Where the check of an existing path stands: it must be a checkout that
/// git knows, and is then taken as it is. Its replies begin at `at`.
pub open spec fn adopt_worktree_step(input: WorktreeEnsureIn, log: Seq<Reply>, at: int) -> Step<
    Seq<char>,
> {
    let path = input.worktree_path@;
    match is_git_worktree_step(path, log, at) {
        Step::Ask(ask) => Step::Ask(ask),
        Step::Fail(msg) => Step::Fail(msg),
        Step::Done(inside, next) => if inside {
            Step::Done(path, next)
        } else {
            Step::Fail(not_a_worktree_message(path))
        },
    }
}

/// Where `worktree_ensure` stands, given the replies so far.
///
/// Both guards come before anything is changed. A path at or under the
/// repository root is refused before anything is asked of the host. Then
/// the host is asked whether the path exists. An existing path is adopted
/// if it is a checkout and refused if not, and nothing is created for it,
/// no branch either. Only for a free path is the branch made sure of, the
/// directory above it created, and a new checkout of the branch added.
pub open spec fn worktree_ensure_step(cwd: Seq<char>, input: WorktreeEnsureIn, log: Seq<Reply>) -> Step<
    Seq<char>,
> {
    let path = input.worktree_path@;
    if contained(cwd, input.repo_root@, path) {
        Step::Fail(
            nested_worktree_message(absolute(cwd, input.repo_root@), absolute(cwd, path)),
        )
    } else if log.len() == 0 {
        Step::Ask(Ask::Exists { path })
    } else {
        match log[0] {
            Reply::Exists(there) => if there {
                adopt_worktree_step(input, log, 1)
            } else {
                create_worktree_step(input, log, 1)
            },
            _ => Step::Fail(unexpected_reply()),
        }
    }
}

/// Adds the checkout.
fn add_worktree(input: &WorktreeEnsureIn, log: &[Reply], at: usize) -> (turn: Turn<
    WorktreeEnsureOut,
>)
    ensures
        turn@ == add_worktree_step(*input, log@, at as int),
{
    let path = input.worktree_path.as_str();
    if at >= log.len() {
        let mut args: Vec<String> = Vec::new();
        push_text(&mut args, "-C");
        push_text(&mut args, input.repo_root.as_str());
        push_text(&mut args, "worktree");
        push_text(&mut args, "add");
        push_text(&mut args, path);
        push_text(&mut args, input.branch.as_str());
        assert(texts(args@) =~= seq![
            "-C"@,
            input.repo_root@,
            "worktree"@,
            "add"@,
            path@,
            input.branch@,
        ]);
        return Turn::Ask(run_git(args, None));
    }
    let fallback = concat2("git worktree add failed: ", path);
    match git_outcome(&log[at], fallback.as_str()) {
        Ok(_) => Turn::Done(WorktreeEnsureOut { worktree_path: copy_of(path) }, at + 1),
        Err(msg) => Turn::Fail(msg),
    }
}

/// Creates the checkout where nothing exists at its path.
fn create_worktree(input: &WorktreeEnsureIn, log: &[Reply], at: usize) -> (turn: Turn<
    WorktreeEnsureOut,
>)
    ensures
        turn@ == create_worktree_step(*input, log@, at as int),
{
    let next = match ensure_branch_at(
        input.repo_root.as_str(),
        input.branch.as_str(),
        input.base_sha.as_str(),
        log,
        at,
    ) {
        Turn::Ask(request) => {
            return Turn::Ask(request);
        },
        Turn::Fail(msg) => {
            return Turn::Fail(msg);
        },
        Turn::Done(_, next) => next,
    };
    let dir = match parent_path(input.worktree_path.as_str()) {
        None => {
            return add_worktree(input, log, next);
        },
        Some(dir) => dir,
    };
    if next >= log.len() {
        return Turn::Ask(Request::CreateDirAll { path: dir });
    }
    match &log[next] {
        Reply::Done => add_worktree(input, log, next + 1),
        Reply::Failed(reason) => {
            let mut msg = chars_of("failed to create worktree parent dir ");
            append_chars(&mut msg, &chars_of(dir.as_str()));
            append_chars(&mut msg, &chars_of(": "));
            append_chars(&mut msg, &chars_of(reason.as_str()));
            Turn::Fail(string_of(&msg))
        },
        _ => Turn::Fail(copy_of("unexpected reply from the host")),
    }
}

/// Adopts what exists at the path, if it is a checkout.
fn adopt_worktree(input: &WorktreeEnsureIn, log: &[Reply], at: usize) -> (turn: Turn<
    WorktreeEnsureOut,
>)
    ensures
        turn@ == adopt_worktree_step(*input, log@, at as int),
{
    let path = input.worktree_path.as_str();
    match is_git_worktree(path, log, at) {
        Turn::Ask(request) => Turn::Ask(request),
        Turn::Fail(msg) => Turn::Fail(msg),
        Turn::Done(inside, next) => {
            if inside {
                Turn::Done(WorktreeEnsureOut { worktree_path: copy_of(path) }, next)
            } else {
                Turn::Fail(concat2("Worktree path exists but is not a git worktree: ", path))
            }
        },
    }
}

/// Makes sure that an isolated checkout of the branch exists at the path.
///
/// The log holds the host's replies so far, the first call being made with
/// an empty log. Relative paths are taken from `cwd`. A path at or under
/// the repository root is refused at once, whatever the log holds, and a
/// path that exists is only looked at: nothing is changed for either.
pub fn worktree_ensure(cwd: &str, input: &WorktreeEnsureIn, log: &[Reply]) -> (turn: Turn<
    WorktreeEnsureOut,
>)
    ensures
        turn@ == worktree_ensure_step(cwd@, *input, log@),
        contained(cwd@, input.repo_root@, input.worktree_path@) ==> turn is Fail,
        turn matches Turn::Done(out, _) ==> out.worktree_path@ == input.worktree_path@,
{
    let path = input.worktree_path.as_str();
    match assert_external_worktree_path(cwd, input.repo_root.as_str(), path) {
        Err(msg) => {
            return Turn::Fail(msg);
        },
        Ok(_) => {},
    }
    if log.len() == 0 {
        return Turn::Ask(Request::Exists { path: copy_of(path) });
    }
    match &log[0] {
        Reply::Exists(there) => {
            if *there {
                adopt_worktree(input, log, 1)
            } else {
                create_worktree(input, log, 1)
            }
        },
        _ => Turn::Fail(copy_of("unexpected reply from the host")),
    }
}

/// A checkout that would lie at or under its repository is refused
/// whatever the log holds: the host is never asked for anything, so
/// nothing is changed.
pub proof fn lemma_nested_worktree_refused(cwd: Seq<char>, input: WorktreeEnsureIn, log: Seq<Reply>)
    requires
        contained(cwd, input.repo_root@, input.worktree_path@),
    ensures
        worktree_ensure_step(cwd, input, log) == Step::<Seq<char>>::Fail(
            nested_worktree_message(
                absolute(cwd, input.repo_root@),
                absolute(cwd, input.worktree_path@),
            ),
        ),
{
}

/// Whenever `worktree_ensure` ends well, its answer is the path that was
/// asked for: a second call with the same input answers as the first did.
pub proof fn lemma_ensure_answers_its_path(cwd: Seq<char>, input: WorktreeEnsureIn, log: Seq<Reply>)
    ensures
        worktree_ensure_step(cwd, input, log) matches Step::Done(path, _) ==> path
            == input.worktree_path@,
{
}

/// Whether a request only asks a question and changes nothing: whether a
/// path exists, or whether a directory is a checkout.
pub open spec fn only_asks(ask: Ask, path: Seq<char>) -> bool {
    ask == (Ask::Exists { path }) || ask == worktree_probe(path)
}

/// For a path that exists, `worktree_ensure` changes nothing, whatever the
/// log goes on to hold: it only asks whether the path is a checkout. No
/// branch is created, no directory, no checkout.
pub proof fn lemma_existing_path_is_never_changed(
    cwd: Seq<char>,
    input: WorktreeEnsureIn,
    log: Seq<Reply>,
)
    requires
        log.len() > 0,
        log[0] == Reply::Exists(true),
    ensures
        worktree_ensure_step(cwd, input, log) matches Step::Ask(ask) ==> only_asks(
            ask,
            input.worktree_path@,
        ),
{
}

/// A path that exists and is no checkout is refused.
pub proof fn lemma_existing_non_checkout_refused(
    cwd: Seq<char>,
    input: WorktreeEnsureIn,
    log: Seq<Reply>,
)
    requires
        !contained(cwd, input.repo_root@, input.worktree_path@),
        log.len() >= 3,
        log[0] == Reply::Exists(true),
        log[1] == Reply::Exists(true),
        !(log[2] matches Reply::Ran(answer) && answer.ok && trimmed(answer.stdout@) == "true"@),
    ensures
        worktree_ensure_step(cwd, input, log) == Step::<Seq<char>>::Fail(
            not_a_worktree_message(input.worktree_path@),
        ),
{
}

/// Whether the log tells of a path that exists and is a checkout.
pub open spec fn tells_of_checkout(log: Seq<Reply>) -> bool {
    &&& log.len() == 3
    &&& log[0] == Reply::Exists(true)
    &&& log[1] == Reply::Exists(true)
    &&& log[2] matches Reply::Ran(answer) && answer.ok && trimmed(answer.stdout@) == "true"@
}

/// Against a checkout that is there already, `worktree_ensure` only asks
/// questions: whether the path exists, and whether it is a checkout. Then
/// it ends well with the path, and has created nothing.
pub proof fn lemma_existing_checkout_adopted(
    cwd: Seq<char>,
    input: WorktreeEnsureIn,
    log: Seq<Reply>,
)
    requires
        !contained(cwd, input.repo_root@, input.worktree_path@),
        tells_of_checkout(log),
    ensures
        worktree_ensure_step(cwd, input, log.take(0)) == Step::<Seq<char>>::Ask(
            Ask::Exists { path: input.worktree_path@ },
        ),
        worktree_ensure_step(cwd, input, log.take(1)) == Step::<Seq<char>>::Ask(
            Ask::Exists { path: input.worktree_path@ },
        ),
        worktree_ensure_step(cwd, input, log.take(2)) == Step::<Seq<char>>::Ask(
            worktree_probe(input.worktree_path@),
        ),
        worktree_ensure_step(cwd, input, log) == Step::Done(input.worktree_path@, 3),
{
    assert(log.take(1)[0] == log[0]);
    assert(log.take(2)[0] == log[0] && log.take(2)[1] == log[1]);
}

/// `worktree_ensure` asks at most five things of the host: with five
/// replies in the log it has ended.
pub proof fn lemma_ensure_ends(cwd: Seq<char>, input: WorktreeEnsureIn, log: Seq<Reply>)
    requires
        log.len() >= 5,
    ensures
        !(worktree_ensure_step(cwd, input, log) is Ask),
{
}

/// What is reported when git would not remove the checkout and said
/// nothing.
pub open spec fn worktree_remove_fallback(path: Seq<char>) -> Seq<char> {
    "git worktree remove failed: "@ + path
}

/// The arguments with which git removes a checkout.
pub open spec fn worktree_remove_args(input: WorktreeRemoveIn) -> Seq<Seq<char>> {
    if input.force {
        seq!["-C"@, input.repo_root@, "worktree"@, "remove"@, "--force"@, input.worktree_path@]
    } else {
        seq!["-C"@, input.repo_root@, "worktree"@, "remove"@, input.worktree_path@]
    }
}

/// Where `worktree_remove` stands, given the replies so far: git is asked
/// once, and its refusal is reported in its own words.
pub open spec fn worktree_remove_step(input: WorktreeRemoveIn, log: Seq<Reply>) -> Step<bool> {
    if log.len() == 0 {
        Step::Ask(git_call(worktree_remove_args(input), None))
    } else {
        match git_result(log[0], worktree_remove_fallback(input.worktree_path@)) {
            Ok(_) => Step::Done(true, 1),
            Err(msg) => Step::Fail(msg),
        }
    }
}

/// Removes a checkout. The removal is git's own; a checkout with changes
/// is removed only where `force` is set.
pub fn worktree_remove(input: &WorktreeRemoveIn, log: &[Reply]) -> (turn: Turn<WorktreeRemoveOut>)
    ensures
        turn@ == worktree_remove_step(*input, log@),
{
    let path = input.worktree_path.as_str();
    if log.len() == 0 {
        let mut args: Vec<String> = Vec::new();
        push_text(&mut args, "-C");
        push_text(&mut args, input.repo_root.as_str());
        push_text(&mut args, "worktree");
        push_text(&mut args, "remove");
        if input.force {
            push_text(&mut args, "--force");
        }
        push_text(&mut args, path);
        assert(texts(args@) =~= worktree_remove_args(*input));
        return Turn::Ask(run_git(args, None));
    }
    let fallback = concat2("git worktree remove failed: ", path);
    match git_outcome(&log[0], fallback.as_str()) {
        Ok(_) => Turn::Done(WorktreeRemoveOut { ok: true }, 1),
        Err(msg) => Turn::Fail(msg),
    }
}

/// `worktree_remove` asks one thing of the host.
pub proof fn lemma_remove_ends(input: WorktreeRemoveIn, log: Seq<Reply>)
    requires
        log.len() >= 1,
    ensures
        !(worktree_remove_step(input, log) is Ask),
{
}

} // verus!
