//! Committing everything that has changed in a checkout.

use vstd::prelude::*;
use crate::host::{git_call, git_outcome, git_result, run_git, Reply, Step, Turn};
use crate::text::{chars_of, push_text, string_of, texts, trim_chars, trimmed};

verus! {

/// What is needed for a commit.
pub struct CommitAllIn {
    pub repo_root: String,
    pub message: String,
}

/// The commit that was made.
pub struct CommitAllOut {
    pub sha: String,
}

impl View for CommitAllOut {
    type V = Seq<char>;

    open spec fn view(&self) -> Seq<char> {
        self.sha@
    }
}

/// The arguments with which git stages every change.
pub open spec fn stage_args(repo_root: Seq<char>) -> Seq<Seq<char>> {
    seq!["-C"@, repo_root, "add"@, "-A"@]
}

/// The arguments with which git commits what is staged.
pub open spec fn commit_args(repo_root: Seq<char>, message: Seq<char>) -> Seq<Seq<char>> {
    seq!["-C"@, repo_root, "commit"@, "-m"@, message]
}

/// The arguments with which git names the commit that is checked out.
pub open spec fn head_args(repo_root: Seq<char>) -> Seq<Seq<char>> {
    seq!["-C"@, repo_root, "rev-parse"@, "HEAD"@]
}

/// Where `commit_all` stands, given the replies so far: every change is
/// staged, then committed, then the new commit is asked for. Each step is
/// taken only after the one before it has succeeded, and the first failure
/// ends the operation.
pub open spec fn commit_all_step(input: CommitAllIn, log: Seq<Reply>) -> Step<Seq<char>> {
    let root = input.repo_root@;
    if log.len() == 0 {
        Step::Ask(git_call(stage_args(root), None))
    } else {
        match git_result(log[0], "git add failed"@) {
            Err(msg) => Step::Fail(msg),
            Ok(_) => if log.len() == 1 {
                Step::Ask(git_call(commit_args(root, input.message@), None))
            } else {
                match git_result(log[1], "git commit failed"@) {
                    Err(msg) => Step::Fail(msg),
                    Ok(_) => if log.len() == 2 {
                        Step::Ask(git_call(head_args(root), None))
                    } else {
                        match git_result(log[2], "git rev-parse HEAD failed"@) {
                            Err(msg) => Step::Fail(msg),
                            Ok(out) => Step::Done(trimmed(out.stdout@), 3),
                        }
                    },
                }
            },
        }
    }
}

/// Commits every change in the checkout and answers with the new commit.
/// The log holds the host's replies so far, the first call being made with
/// an empty log.
pub fn commit_all(input: &CommitAllIn, log: &[Reply]) -> (turn: Turn<CommitAllOut>)
    ensures
        turn@ == commit_all_step(*input, log@),
{
    let root = input.repo_root.as_str();
    if log.len() == 0 {
        let mut args: Vec<String> = Vec::new();
        push_text(&mut args, "-C");
        push_text(&mut args, root);
        push_text(&mut args, "add");
        push_text(&mut args, "-A");
        assert(texts(args@) =~= stage_args(root@));
        return Turn::Ask(run_git(args, None));
    }
    match git_outcome(&log[0], "git add failed") {
        Err(msg) => {
            return Turn::Fail(msg);
        },
        Ok(_) => {},
    }
    if log.len() == 1 {
        let mut args: Vec<String> = Vec::new();
        push_text(&mut args, "-C");
        push_text(&mut args, root);
        push_text(&mut args, "commit");
        push_text(&mut args, "-m");
        push_text(&mut args, input.message.as_str());
        assert(texts(args@) =~= commit_args(root@, input.message@));
        return Turn::Ask(run_git(args, None));
    }
    match git_outcome(&log[1], "git commit failed") {
        Err(msg) => {
            return Turn::Fail(msg);
        },
        Ok(_) => {},
    }
    if log.len() == 2 {
        let mut args: Vec<String> = Vec::new();
        push_text(&mut args, "-C");
        push_text(&mut args, root);
        push_text(&mut args, "rev-parse");
        push_text(&mut args, "HEAD");
        assert(texts(args@) =~= head_args(root@));
        return Turn::Ask(run_git(args, None));
    }
    match git_outcome(&log[2], "git rev-parse HEAD failed") {
        Err(msg) => Turn::Fail(msg),
        Ok(out) => {
            let sha = string_of(&trim_chars(&chars_of(out.stdout.as_str())));
            Turn::Done(CommitAllOut { sha }, 3)
        },
    }
}

/// `commit_all` asks at most three things of the host: with three replies
/// in the log it has ended.
pub proof fn lemma_commit_ends(input: CommitAllIn, log: Seq<Reply>)
    requires
        log.len() >= 3,
    ensures
        !(commit_all_step(input, log) is Ask),
{
}

/// Nothing is committed unless staging has succeeded, and the name of the
/// new commit is asked for only after committing has succeeded.
pub proof fn lemma_commit_in_order(input: CommitAllIn, log: Seq<Reply>)
    requires
        log.len() >= 1,
        commit_all_step(input, log) is Ask || commit_all_step(input, log) is Done,
    ensures
        log[0] matches Reply::Ran(staged) && staged.ok,
        log.len() >= 2 ==> (log[1] matches Reply::Ran(committed) && committed.ok),
{
}

} // verus!
