//! Applying a patch to a checkout, once it is known to touch only what the
//! caller allows.

use vstd::prelude::*;
use crate::diff::{
    parsed, touched, touched_files_from_unified_diff, touched_views, TouchedFile,
};
use crate::host::{
    git_call, git_outcome, git_result, run_git, unexpected_reply, Ask, Reply, Request, Step, Turn,
};
use crate::ownership::{ensure_owned, ownership_verdict};
use crate::text::{
    append_chars, chars_of, copy_of, push_text, string_of, texts, trim_chars, trimmed,
};

verus! {

/// What is needed to apply a patch.
pub struct PatchApplyIn {
    pub worktree_path: String,
    pub patch_path: String,
    pub allowed_path_prefixes: Vec<String>,
}

/// The files that the applied patch touched.
pub struct PatchApplyOut {
    pub touched_files: Vec<String>,
}

impl View for PatchApplyOut {
    type V = Seq<Seq<char>>;

    open spec fn view(&self) -> Seq<Seq<char>> {
        texts(self.touched_files@)
    }
}

/// The paths of the valid files among those touched, in order.
pub open spec fn valid_paths(files: Seq<(Seq<char>, bool)>) -> Seq<Seq<char>>
    decreases files.len(),
{
    if files.len() == 0 {
        Seq::empty()
    } else if files.last().1 {
        valid_paths(files.drop_last()).push(files.last().0)
    } else {
        valid_paths(files.drop_last())
    }
}

/// What is reported when the patch file could not be read.
pub open spec fn unreadable_patch_message(path: Seq<char>, reason: Seq<char>) -> Seq<char> {
    "failed to read patch file: "@ + path + ": "@ + reason
}

/// What is reported of a text that is not empty and names no file.
pub open spec fn not_a_diff_message() -> Seq<char> {
    "patch has content but no \"diff --git\" headers (not a unified diff?)"@
}

/// The arguments with which git tries a patch without applying it.
pub open spec fn check_args(input: PatchApplyIn) -> Seq<Seq<char>> {
    seq!["-C"@, input.worktree_path@, "apply"@, "--check"@, input.patch_path@]
}

/// The arguments with which git applies a patch.
pub open spec fn apply_args(input: PatchApplyIn) -> Seq<Seq<char>> {
    seq!["-C"@, input.worktree_path@, "apply"@, input.patch_path@]
}

/// Where the application stands once the patch is known to be owned: git
/// tries the patch, then applies it.
pub open spec fn apply_owned_step(
    input: PatchApplyIn,
    files: Seq<(Seq<char>, bool)>,
    log: Seq<Reply>,
) -> Step<Seq<Seq<char>>> {
    if log.len() <= 1 {
        Step::Ask(git_call(check_args(input), None))
    } else {
        match git_result(log[1], "git apply --check failed"@) {
            Err(msg) => Step::Fail(msg),
            Ok(_) => if log.len() == 2 {
                Step::Ask(git_call(apply_args(input), None))
            } else {
                match git_result(log[2], "git apply failed"@) {
                    Err(msg) => Step::Fail(msg),
                    Ok(_) => Step::Done(valid_paths(files), 3),
                }
            },
        }
    }
}

/// What is decided of the text of a patch, before git is asked for
/// anything: `None` where the patch may go on to git.
///
/// A text of white space alone is a patch that changes nothing, and ends
/// the operation well. A text with a header that is cut short is refused
/// as malformed, and one that names no file is no diff. A patch that is
/// not owned is refused with the report of the ownership check.
pub open spec fn judge_text(input: PatchApplyIn, text: Seq<char>) -> Option<Step<Seq<Seq<char>>>> {
    if trimmed(text).len() == 0 {
        Some(Step::Done(Seq::empty(), 1))
    } else {
        match parsed(text) {
            Err(msg) => Some(Step::Fail(msg)),
            Ok(files) => if files.len() == 0 {
                Some(Step::Fail(not_a_diff_message()))
            } else {
                match ownership_verdict(texts(input.allowed_path_prefixes@), files) {
                    Err(msg) => Some(Step::Fail(msg)),
                    Ok(_) => None,
                }
            },
        }
    }
}

/// Where `patch_apply` stands, given the replies so far: the patch is
/// read and judged, and only a patch that is owned goes on to git.
pub open spec fn patch_apply_step(input: PatchApplyIn, log: Seq<Reply>) -> Step<Seq<Seq<char>>> {
    if log.len() == 0 {
        Step::Ask(Ask::ReadText { path: input.patch_path@ })
    } else {
        match log[0] {
            Reply::Text(text) => match judge_text(input, text@) {
                Some(step) => step,
                None => apply_owned_step(input, touched(text@), log),
            },
            Reply::Failed(reason) => Step::Fail(
                unreadable_patch_message(input.patch_path@, reason@),
            ),
            _ => Step::Fail(unexpected_reply()),
        }
    }
}

/// Git is asked to try or apply a patch only after every header of the
/// patch was found whole and the ownership check has accepted it.
pub proof fn lemma_git_only_for_owned_patch(input: PatchApplyIn, log: Seq<Reply>)
    requires
        patch_apply_step(input, log) matches Step::Ask(ask) && ask is Run,
    ensures
        log.len() > 0,
        log[0] matches Reply::Text(text) && parsed(text@) is Ok && ownership_verdict(
            texts(input.allowed_path_prefixes@),
            touched(text@),
        ) is Ok,
{
}

/// Every valid path is the path of a touched file.
proof fn lemma_valid_paths_are_touched(files: Seq<(Seq<char>, bool)>)
    ensures
        forall|i: int|
            0 <= i < valid_paths(files).len() ==> files.contains(
                (#[trigger] valid_paths(files)[i], true),
            ),
    decreases files.len(),
{
    if files.len() > 0 {
        let init = files.drop_last();
        lemma_valid_paths_are_touched(init);
        assert forall|i: int| 0 <= i < valid_paths(files).len() implies files.contains(
            (#[trigger] valid_paths(files)[i], true),
        ) by {
            if i < valid_paths(init).len() {
                let entry = (valid_paths(init)[i], true);
                let j = choose|j: int| 0 <= j < init.len() && init[j] == entry;
                assert(files[j] == entry);
            } else {
                assert(files[files.len() - 1] == (valid_paths(files)[i], true));
            }
        }
    }
}

/// A patch is applied only where every file it touches is covered by the
/// allow-list: each path that `patch_apply` answers with is covered.
pub proof fn lemma_applied_patch_is_owned(input: PatchApplyIn, log: Seq<Reply>)
    ensures
        patch_apply_step(input, log) matches Step::Done(paths, _) ==> forall|i: int|
            0 <= i < paths.len() ==> crate::ownership::allows(
                texts(input.allowed_path_prefixes@),
                #[trigger] paths[i],
            ),
{
    if let Step::Done(paths, _) = patch_apply_step(input, log) {
        if paths.len() > 0 {
            let text = log[0]->Text_0@;
            let files = touched(text);
            let raw = texts(input.allowed_path_prefixes@);
            assert(judge_text(input, text) is None);
            crate::ownership::lemma_no_violations(raw, files);
            lemma_valid_paths_are_touched(files);
            assert forall|i: int| 0 <= i < paths.len() implies crate::ownership::allows(
                raw,
                #[trigger] paths[i],
            ) by {
                let entry = (paths[i], true);
                let j = choose|j: int| 0 <= j < files.len() && files[j] == entry;
                assert(files[j].1 && crate::ownership::allows(raw, files[j].0));
            }
        }
    }
}

/// `patch_apply` asks at most three things of the host: with three replies
/// in the log it has ended.
pub proof fn lemma_patch_ends(input: PatchApplyIn, log: Seq<Reply>)
    requires
        log.len() >= 3,
    ensures
        !(patch_apply_step(input, log) is Ask),
{
}

/// The paths of the valid files among those touched.
fn valid_paths_of(files: &Vec<TouchedFile>) -> (out: Vec<String>)
    ensures
        texts(out@) == valid_paths(touched_views(files@)),
{
    let ghost all = touched_views(files@);
    let mut out: Vec<String> = Vec::new();
    let mut i: usize = 0;
    while i < files.len()
        invariant
            i <= files.len(),
            all == touched_views(files@),
            texts(out@) == valid_paths(all.take(i as int)),
        decreases files.len() - i,
    {
        proof {
            assert(all.take(i as int + 1).drop_last() == all.take(i as int));
            assert(all.take(i as int + 1).last() == files@[i as int]@);
        }
        if files[i].valid {
            push_text(&mut out, files[i].path.as_str());
        }
        i += 1;
    }
    assert(all.take(files.len() as int) == all);
    out
}

/// Applies a patch to a checkout, if it touches only what the allow-list
/// covers. The log holds the host's replies so far, the first call being
/// made with an empty log.
pub fn patch_apply(input: &PatchApplyIn, log: &[Reply]) -> (turn: Turn<PatchApplyOut>)
    ensures
        turn@ == patch_apply_step(*input, log@),
{
    if log.len() == 0 {
        return Turn::Ask(Request::ReadText { path: copy_of(input.patch_path.as_str()) });
    }
    let text = match &log[0] {
        Reply::Text(text) => text,
        Reply::Failed(reason) => {
            let mut msg = chars_of("failed to read patch file: ");
            append_chars(&mut msg, &chars_of(input.patch_path.as_str()));
            append_chars(&mut msg, &chars_of(": "));
            append_chars(&mut msg, &chars_of(reason.as_str()));
            return Turn::Fail(string_of(&msg));
        },
        _ => {
            return Turn::Fail(copy_of("unexpected reply from the host"));
        },
    };
    if trim_chars(&chars_of(text.as_str())).len() == 0 {
        let none: Vec<String> = Vec::new();
        assert(texts(none@) =~= Seq::<Seq<char>>::empty());
        return Turn::Done(PatchApplyOut { touched_files: none }, 1);
    }
    let files = match touched_files_from_unified_diff(text.as_str()) {
        Ok(files) => files,
        Err(msg) => {
            return Turn::Fail(msg);
        },
    };
    if files.len() == 0 {
        return Turn::Fail(
            copy_of("patch has content but no \"diff --git\" headers (not a unified diff?)"),
        );
    }
    match ensure_owned(files.as_slice(), input.allowed_path_prefixes.as_slice()) {
        Err(msg) => {
            return Turn::Fail(msg);
        },
        Ok(_) => {},
    }
    if log.len() == 1 {
        let mut args: Vec<String> = Vec::new();
        push_text(&mut args, "-C");
        push_text(&mut args, input.worktree_path.as_str());
        push_text(&mut args, "apply");
        push_text(&mut args, "--check");
        push_text(&mut args, input.patch_path.as_str());
        assert(texts(args@) =~= check_args(*input));
        return Turn::Ask(run_git(args, None));
    }
    match git_outcome(&log[1], "git apply --check failed") {
        Err(msg) => {
            return Turn::Fail(msg);
        },
        Ok(_) => {},
    }
    if log.len() == 2 {
        let mut args: Vec<String> = Vec::new();
        push_text(&mut args, "-C");
        push_text(&mut args, input.worktree_path.as_str());
        push_text(&mut args, "apply");
        push_text(&mut args, input.patch_path.as_str());
        assert(texts(args@) =~= apply_args(*input));
        return Turn::Ask(run_git(args, None));
    }
    match git_outcome(&log[2], "git apply failed") {
        Err(msg) => Turn::Fail(msg),
        Ok(_) => Turn::Done(PatchApplyOut { touched_files: valid_paths_of(&files) }, 3),
    }
}

} // verus!
