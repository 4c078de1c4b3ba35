//! Which files a unified diff touches.
//!
//! Only the file headers of the diff are read. Each names a file before and
//! after the change; the path that is kept is brought into repo-relative
//! form, and one that cannot be is kept as it was written and marked
//! invalid. A header that names fewer than two paths is cut short, and
//! makes the whole diff malformed.

use vstd::prelude::*;
use crate::lexical::{dot, dotdot, is_rooted};
use crate::text::{
    ascii_letter, chars_of, copy_chars, is_ascii_letter, join, join_chars, replace_char, replaced,
    rows, same_chars, split, split_chars, starts_with_chars, string_of, strip_prefix_chars,
    strip_prefixes_chars, without_prefix, without_prefixes, words, words_of,
};

verus! {

/// A file named by a diff. `valid` is false for a path that has no safe
/// repo-relative form; `path` then holds the text as the diff gave it.
pub struct TouchedFile {
    pub path: String,
    pub valid: bool,
}

impl View for TouchedFile {
    type V = (Seq<char>, bool);

    open spec fn view(&self) -> (Seq<char>, bool) {
        (self.path@, self.valid)
    }
}

/// The views of a list of touched files.
pub open spec fn touched_views(files: Seq<TouchedFile>) -> Seq<(Seq<char>, bool)> {
    files.map_values(|f: TouchedFile| f@)
}

/// The path with `/` for every `\`.
pub open spec fn posix(p: Seq<char>) -> Seq<char> {
    replaced(p, '\\', '/')
}

/// Whether the path begins with a drive letter, as in `C:/`.
pub open spec fn has_drive(p: Seq<char>) -> bool {
    p.len() >= 3 && is_ascii_letter(p[0]) && p[1] == ':' && p[2] == '/'
}

/// One step down a relative path: the kept segments after meeting `seg`,
/// or `None` once a `..` has climbed above the start.
pub open spec fn descend(kept: Option<Seq<Seq<char>>>, seg: Seq<char>) -> Option<Seq<Seq<char>>> {
    match kept {
        None => None,
        Some(stack) => if seg.len() == 0 || seg == dot() {
            Some(stack)
        } else if seg == dotdot() {
            if stack.len() == 0 {
                None
            } else {
                Some(stack.drop_last())
            }
        } else {
            Some(stack.push(seg))
        },
    }
}

/// The segments kept after meeting each of `segs` in turn.
pub open spec fn descend_all(segs: Seq<Seq<char>>) -> Option<Seq<Seq<char>>>
    decreases segs.len(),
{
    if segs.len() == 0 {
        Some(Seq::empty())
    } else {
        descend(descend_all(segs.drop_last()), segs.last())
    }
}

/// The repo-relative form of a path: separators unified, empty and `.`
/// segments removed, each `..` resolved against the segment before it.
/// There is none for an absolute path, for one that climbs above the
/// repository root, for one that names nothing, and for one with a drive
/// letter in front, be it as written or once the segments are resolved.
pub open spec fn repo_relative(p: Seq<char>) -> Option<Seq<char>> {
    let q = posix(p);
    if is_rooted(q) || has_drive(q) {
        None
    } else {
        match descend_all(split(q, '/')) {
            Some(stack) => if stack.len() > 0 && !has_drive(join(stack, seq!['/'])) {
                Some(join(stack, seq!['/']))
            } else {
                None
            },
            None => None,
        }
    }
}

/// Once a path has climbed above its start, nothing after brings it back.
proof fn lemma_descend_stays_lost(segs: Seq<Seq<char>>, k: int)
    requires
        0 <= k <= segs.len(),
        descend_all(segs.take(k)) is None,
    ensures
        descend_all(segs) is None,
    decreases segs.len() - k,
{
    if k < segs.len() {
        assert(segs.take(k + 1).drop_last() == segs.take(k));
        lemma_descend_stays_lost(segs, k + 1);
    } else {
        assert(segs.take(k) == segs);
    }
}

/// The repo-relative form of the path held in `chars`.
fn repo_relative_chars(chars: &Vec<char>) -> (out: Option<Vec<char>>)
    ensures
        match out {
            Some(clean) => repo_relative(chars@) == Some(clean@),
            None => repo_relative(chars@) is None,
        },
{
    let q = replace_char(chars, '\\', '/');
    if q.len() > 0 && q[0] == '/' {
        return None;
    }
    if q.len() >= 3 && ascii_letter(q[0]) && q[1] == ':' && q[2] == '/' {
        return None;
    }
    let parts = split_chars(&q, '/');
    let ghost segs = split(q@, '/');
    let mut stack: Vec<Vec<char>> = Vec::new();
    let mut i: usize = 0;
    while i < parts.len()
        invariant
            i <= parts.len(),
            q@ == posix(chars@),
            !is_rooted(q@),
            !has_drive(q@),
            segs == split(q@, '/'),
            rows(parts@) == segs,
            descend_all(segs.take(i as int)) == Some(rows(stack@)),
        decreases parts.len() - i,
    {
        let part = &parts[i];
        proof {
            assert(segs.take(i as int + 1).drop_last() == segs.take(i as int));
            assert(segs.take(i as int + 1).last() == part@);
        }
        let is_dot = part.len() == 1 && part[0] == '.';
        let is_dotdot = part.len() == 2 && part[0] == '.' && part[1] == '.';
        assert(is_dot == (part@ == dot())) by {
            if is_dot {
                assert(part@ =~= dot());
            }
        }
        assert(is_dotdot == (part@ == dotdot())) by {
            if is_dotdot {
                assert(part@ =~= dotdot());
            }
        }
        if part.len() == 0 || is_dot {
        } else if is_dotdot {
            if stack.len() == 0 {
                proof {
                    assert(descend_all(segs.take(i as int + 1)) is None);
                    lemma_descend_stays_lost(segs, i as int + 1);
                }
                return None;
            }
            let ghost before = rows(stack@);
            stack.pop();
            assert(rows(stack@) == before.drop_last());
        } else {
            let ghost before = rows(stack@);
            stack.push(copy_chars(part));
            assert(rows(stack@) == before.push(part@));
        }
        i += 1;
    }
    assert(segs.take(parts.len() as int) == segs);
    if stack.len() == 0 {
        return None;
    }
    let mut sep: Vec<char> = Vec::new();
    sep.push('/');
    assert(sep@ == seq!['/']);
    let out = join_chars(&stack, 0, &sep);
    assert(rows(stack@).skip(0) == rows(stack@));
    if out.len() >= 3 && ascii_letter(out[0]) && out[1] == ':' && out[2] == '/' {
        return None;
    }
    Some(out)
}

/// Brings a path named by a diff into repo-relative form, or finds that it
/// has none: an absolute path, a drive letter in front of what is written
/// or of what it resolves to, a climb above the repository root, or
/// nothing named at all.
pub fn normalize_repo_path(p: &str) -> (out: Option<String>)
    ensures
        match out {
            Some(clean) => repo_relative(p@) == Some(clean@) && is_repo_relative(clean@),
            None => repo_relative(p@) is None,
        },
{
    proof {
        lemma_repo_relative_shape(p@);
    }
    match repo_relative_chars(&chars_of(p)) {
        Some(clean) => Some(string_of(&clean)),
        None => None,
    }
}

/// The words that open a file header.
pub open spec fn header_tag() -> Seq<char> {
    "diff --git "@
}

/// The path that stands for "no file" in a header.
pub open spec fn no_file() -> Seq<char> {
    "/dev/null"@
}

/// The file that a line of a diff names, if the line is a file header with
/// both of its paths: the path after the change, or the one before it where
/// the file was deleted. The markers `a/` and `b/` are taken off.
pub open spec fn header_file(line: Seq<char>) -> Option<Seq<char>> {
    if !header_tag().is_prefix_of(line) {
        None
    } else {
        let named = words(without_prefixes(line, header_tag()));
        if named.len() < 2 {
            None
        } else {
            let before = without_prefix(named[0], "a/"@);
            let after = without_prefix(named[1], "b/"@);
            Some(
                if after == no_file() {
                    before
                } else {
                    after
                },
            )
        }
    }
}

/// Whether a line is a file header that is cut short: it begins as a
/// header does and names fewer than two paths.
pub open spec fn truncated_header(line: Seq<char>) -> bool {
    header_tag().is_prefix_of(line) && words(without_prefixes(line, header_tag())).len() < 2
}

/// The place of the first header that is cut short, if there is one.
pub open spec fn first_truncated(lines: Seq<Seq<char>>) -> Option<int>
    decreases lines.len(),
{
    if lines.len() == 0 {
        None
    } else {
        match first_truncated(lines.drop_last()) {
            Some(at) => Some(at),
            None => if truncated_header(lines.last()) {
                Some(lines.len() - 1)
            } else {
                None
            },
        }
    }
}

/// What is reported of a header that is cut short.
pub open spec fn malformed_header_message(line: Seq<char>) -> Seq<char> {
    "malformed file header in patch: "@ + line
}

/// The list of touched files after one more line of the diff. A valid path
/// is listed once, where it first occurs; an invalid one is listed each
/// time, as written.
pub open spec fn record(acc: Seq<(Seq<char>, bool)>, line: Seq<char>) -> Seq<(Seq<char>, bool)> {
    match header_file(line) {
        None => acc,
        Some(file) => match repo_relative(file) {
            Some(clean) => if acc.contains((clean, true)) {
                acc
            } else {
                acc.push((clean, true))
            },
            None => acc.push((file, false)),
        },
    }
}

/// The files touched by the given lines of a diff.
pub open spec fn touched_by(lines: Seq<Seq<char>>) -> Seq<(Seq<char>, bool)>
    decreases lines.len(),
{
    if lines.len() == 0 {
        Seq::empty()
    } else {
        record(touched_by(lines.drop_last()), lines.last())
    }
}

/// The files touched by a diff of which every header is whole.
pub open spec fn touched(text: Seq<char>) -> Seq<(Seq<char>, bool)> {
    touched_by(split(text, '\n'))
}

/// What the headers of a diff give: the files it touches, or, where a
/// header is cut short, the report of the first such header.
pub open spec fn parsed(text: Seq<char>) -> Result<Seq<(Seq<char>, bool)>, Seq<char>> {
    let lines = split(text, '\n');
    match first_truncated(lines) {
        Some(at) => Err(malformed_header_message(lines[at])),
        None => Ok(touched(text)),
    }
}

/// The first header that is cut short is one, none before it is, and
/// there is one exactly when some line is a header that is cut short.
pub proof fn lemma_first_truncated(lines: Seq<Seq<char>>)
    ensures
        match first_truncated(lines) {
            Some(at) => {
                &&& 0 <= at < lines.len()
                &&& truncated_header(lines[at])
                &&& forall|j: int| 0 <= j < at ==> !truncated_header(#[trigger] lines[j])
            },
            None => forall|j: int| 0 <= j < lines.len() ==> !truncated_header(#[trigger] lines[j]),
        },
    decreases lines.len(),
{
    if lines.len() > 0 {
        let init = lines.drop_last();
        lemma_first_truncated(init);
        assert forall|j: int| 0 <= j < init.len() implies init[j] == lines[j] by {}
        match first_truncated(init) {
            Some(at) => {
                assert(lines[at] == init[at]);
                assert forall|j: int| 0 <= j < at implies !truncated_header(
                    #[trigger] lines[j],
                ) by {
                    assert(init[j] == lines[j]);
                }
            },
            None => {
                assert forall|j: int| 0 <= j < init.len() implies !truncated_header(
                    #[trigger] lines[j],
                ) by {
                    assert(init[j] == lines[j]);
                }
            },
        }
    }
}

/// A header that is cut short among the first lines is the first among all
/// the lines too.
proof fn lemma_first_truncated_stays(lines: Seq<Seq<char>>, k: int)
    requires
        0 <= k <= lines.len(),
        first_truncated(lines.take(k)) is Some,
    ensures
        first_truncated(lines) == first_truncated(lines.take(k)),
    decreases lines.len() - k,
{
    if k < lines.len() {
        assert(lines.take(k + 1).drop_last() == lines.take(k));
        lemma_first_truncated_stays(lines, k + 1);
    } else {
        assert(lines.take(k) == lines);
    }
}

/// No valid path is listed twice.
pub open spec fn valid_once(files: Seq<(Seq<char>, bool)>) -> bool {
    forall|i: int, j: int|
        0 <= i < j < files.len() && files[i].1 && files[j].1 ==> files[i].0 != files[j].0
}

/// However often a diff names a file, its valid path is listed once.
pub proof fn lemma_touched_valid_once(lines: Seq<Seq<char>>)
    ensures
        valid_once(touched_by(lines)),
    decreases lines.len(),
{
    if lines.len() > 0 {
        lemma_touched_valid_once(lines.drop_last());
        let acc = touched_by(lines.drop_last());
        let next = record(acc, lines.last());
        assert forall|i: int, j: int|
            0 <= i < j < next.len() && next[i].1 && next[j].1 implies next[i].0 != next[j].0 by {
            if j < acc.len() {
                assert(next[i] == acc[i] && next[j] == acc[j]);
            } else {
                assert(next == acc.push(next[j]));
                assert(next[i] == acc[i]);
                if next[i].0 == next[j].0 {
                    assert(acc[i] == (next[j].0, true));
                    assert(acc.contains((next[j].0, true)));
                }
            }
        }
    }
}

/// Whether the entry is what the header in `line` gives: the repo-relative
/// form of the file it names, or that file as written where it has no such
/// form.
pub open spec fn entry_of(line: Seq<char>, entry: (Seq<char>, bool)) -> bool {
    match header_file(line) {
        Some(file) => if entry.1 {
            repo_relative(file) == Some(entry.0)
        } else {
            file == entry.0 && repo_relative(file) is None
        },
        None => false,
    }
}

/// Every entry of the list is what some header of the diff gives, and what
/// every header gives is in the list. So the file of a deletion is listed
/// under its path before the change, and a path that cannot be brought
/// into repo-relative form is listed as the diff wrote it.
pub proof fn lemma_touched_matches_headers(lines: Seq<Seq<char>>)
    ensures
        forall|i: int|
            0 <= i < touched_by(lines).len() ==> exists|k: int|
                0 <= k < lines.len() && entry_of(lines[k], #[trigger] touched_by(lines)[i]),
        forall|k: int, entry: (Seq<char>, bool)|
            0 <= k < lines.len() && #[trigger] entry_of(lines[k], entry) ==> touched_by(
                lines,
            ).contains(entry),
    decreases lines.len(),
{
    if lines.len() > 0 {
        let init = lines.drop_last();
        let line = lines.last();
        let acc = touched_by(init);
        let next = touched_by(lines);
        lemma_touched_matches_headers(init);
        assert forall|i: int| 0 <= i < next.len() implies exists|k: int|
            0 <= k < lines.len() && entry_of(lines[k], #[trigger] next[i]) by {
            if i < acc.len() {
                assert(next[i] == acc[i]);
                let k = choose|k: int| 0 <= k < init.len() && entry_of(init[k], acc[i]);
                assert(lines[k] == init[k]);
            } else {
                assert(entry_of(lines[lines.len() - 1], next[i]));
            }
        }
        assert forall|k: int, entry: (Seq<char>, bool)|
            0 <= k < lines.len() && #[trigger] entry_of(lines[k], entry) implies next.contains(
            entry,
        ) by {
            if k < init.len() {
                assert(init[k] == lines[k]);
                assert(acc.contains(entry));
                let j = choose|j: int| 0 <= j < acc.len() && acc[j] == entry;
                assert(next[j] == entry);
            } else {
                if entry.1 {
                    if acc.contains(entry) {
                        let j = choose|j: int| 0 <= j < acc.len() && acc[j] == entry;
                        assert(next[j] == entry);
                    } else {
                        assert(next[acc.len() as int] == entry);
                    }
                } else {
                    assert(next[acc.len() as int] == entry);
                }
            }
        }
    }
}

/// Whether a segment can stand in a repo-relative path: it is not empty,
/// it is neither `.` nor `..`, and it holds no separator.
pub open spec fn clean_segment(seg: Seq<char>) -> bool {
    seg.len() > 0 && seg != dot() && seg != dotdot() && !seg.contains('/') && !seg.contains('\\')
}

/// The segments kept on the way down a path are clean, if the pieces they
/// are taken from hold no separator.
proof fn lemma_descend_keeps_clean(segs: Seq<Seq<char>>)
    requires
        forall|i: int|
            0 <= i < segs.len() ==> !(#[trigger] segs[i]).contains('/') && !segs[i].contains('\\'),
    ensures
        descend_all(segs) matches Some(stack) ==> forall|j: int|
            0 <= j < stack.len() ==> clean_segment(#[trigger] stack[j]),
    decreases segs.len(),
{
    if segs.len() > 0 {
        let init = segs.drop_last();
        assert forall|i: int| 0 <= i < init.len() implies !(#[trigger] init[i]).contains('/')
            && !init[i].contains('\\') by {
            assert(init[i] == segs[i]);
        }
        lemma_descend_keeps_clean(init);
        assert(segs.last() == segs[segs.len() - 1]);
    }
}

/// Clean segments are kept as they are on the way down.
proof fn lemma_descend_clean_fixed(stack: Seq<Seq<char>>)
    requires
        forall|j: int| 0 <= j < stack.len() ==> clean_segment(#[trigger] stack[j]),
    ensures
        descend_all(stack) == Some(stack),
    decreases stack.len(),
{
    if stack.len() > 0 {
        let init = stack.drop_last();
        assert forall|j: int| 0 <= j < init.len() implies clean_segment(#[trigger] init[j]) by {
            assert(init[j] == stack[j]);
        }
        lemma_descend_clean_fixed(init);
        assert(clean_segment(stack[stack.len() - 1]));
        assert(init.push(stack.last()) == stack);
    } else {
        assert(stack == Seq::<Seq<char>>::empty());
    }
}

/// What holds of every path in repo-relative form.
pub open spec fn is_repo_relative(clean: Seq<char>) -> bool {
    &&& clean.len() > 0
    &&& !is_rooted(clean)
    &&& !has_drive(clean)
    &&& !clean.contains('\\')
    &&& clean.last() != '/'
    &&& repo_relative(clean) == Some(clean)
    &&& forall|i: int|
        0 <= i < split(clean, '/').len() ==> clean_segment(#[trigger] split(clean, '/')[i])
    &&& descend_all(split(clean, '/')) == Some(split(clean, '/'))
}

/// A repo-relative form is made of clean segments with `/` between them:
/// it is not empty, begins neither at the root nor with a drive letter,
/// holds no `\\`, and no segment of it is empty, `.` or `..`. So it names
/// something at or below the repository root, and it is its own
/// repo-relative form.
pub proof fn lemma_repo_relative_shape(p: Seq<char>)
    ensures
        repo_relative(p) matches Some(clean) ==> is_repo_relative(clean),
{
    if repo_relative(p) is Some {
        let q = posix(p);
        let segs = split(q, '/');
        let stack = descend_all(segs)->0;
        let clean = join(stack, seq!['/']);
        assert(!q.contains('\\')) by {
            if q.contains('\\') {
                let j = choose|j: int| 0 <= j < q.len() && q[j] == '\\';
                assert(q[j] == if p[j] == '\\' {
                    '/'
                } else {
                    p[j]
                });
            }
        }
        crate::text::lemma_split_pieces_lack_sep(q, '/');
        crate::text::lemma_split_pieces_lack(q, '/', '\\');
        lemma_descend_keeps_clean(segs);
        assert forall|i: int| 0 <= i < stack.len() implies !(#[trigger] stack[i]).contains('/') by {
            assert(clean_segment(stack[i]));
        }
        crate::text::lemma_split_join(stack, '/');
        assert(split(clean, '/') == stack);
        lemma_descend_clean_fixed(stack);
        assert(clean_segment(stack[0]));
        crate::text::lemma_join_begins(stack, seq!['/']);
        assert(clean[0] == stack[0][0]);
        assert(stack[0].contains(stack[0][0]));
        assert forall|i: int| 0 <= i < stack.len() implies !(#[trigger] stack[i]).contains(
            '\\',
        ) by {
            assert(clean_segment(stack[i]));
        }
        assert(!seq!['/'].contains('\\'));
        crate::text::lemma_join_lacks(stack, seq!['/'], '\\');
        crate::text::lemma_join_ends(stack, seq!['/']);
        let last = stack.last();
        assert(clean_segment(stack[stack.len() - 1]));
        assert(clean.last() == last.last()) by {
            assert(clean.subrange(clean.len() - last.len(), clean.len() as int)[last.len() - 1]
                == last[last.len() - 1]);
        }
        assert(last.contains(last.last()));
        assert(posix(clean) =~= clean) by {
            assert forall|j: int| 0 <= j < clean.len() implies clean[j] != '\\' by {
                assert(clean.contains(clean[j]));
            }
        }
    }
}

/// A path in repo-relative form cannot escape: joined to any root, it lies
/// at or under that root.
pub proof fn lemma_repo_relative_inside_root(cwd: Seq<char>, root: Seq<char>, p: Seq<char>)
    ensures
        repo_relative(p) matches Some(clean) ==> crate::lexical::contained(
            cwd,
            root,
            crate::lexical::joined(root, clean),
        ),
{
    if repo_relative(p) is Some {
        let clean = repo_relative(p)->0;
        let segs = split(clean, '/');
        let none = Seq::<Seq<char>>::empty();
        lemma_repo_relative_shape(p);
        crate::lexical::lemma_marks_differ();
        assert(none + segs == segs);
        assert forall|i: int| 0 <= i < segs.len() implies #[trigger] crate::lexical::canonical_at(
            segs,
            i,
        ) by {
            assert(clean_segment(segs[i]));
            if segs[i] == crate::lexical::root_mark() {
                assert(segs[i][0] == '/');
                assert(segs[i].contains('/'));
            }
        }
        crate::lexical::lemma_collapse_fixed(none, segs);
        assert forall|i: int| 0 <= i < segs.len() implies segs[i] != dotdot() by {
            assert(clean_segment(segs[i]));
        }
        crate::lexical::lemma_subpath_contained(cwd, root, clean);
    }
}

/// The views of a list of entries under construction.
spec fn entries(v: Seq<(Vec<char>, bool)>) -> Seq<(Seq<char>, bool)> {
    v.map_values(|e: (Vec<char>, bool)| (e.0@, e.1))
}

/// What a line of a diff is.
enum Line {
    /// Not a file header.
    Other,
    /// A file header that names fewer than two paths.
    Truncated,
    /// A file header, with the file that it names.
    Names(Vec<char>),
}

/// Reads one line of a diff.
fn read_line(
    line: &Vec<char>,
    tag: &Vec<char>,
    before_mark: &Vec<char>,
    after_mark: &Vec<char>,
    null: &Vec<char>,
) -> (out: Line)
    requires
        tag@ == header_tag(),
        before_mark@ == "a/"@,
        after_mark@ == "b/"@,
        null@ == no_file(),
    ensures
        match out {
            Line::Other => header_file(line@) is None && !truncated_header(line@),
            Line::Truncated => truncated_header(line@),
            Line::Names(file) => header_file(line@) == Some(file@) && !truncated_header(line@),
        },
{
    if !starts_with_chars(line, tag) {
        return Line::Other;
    }
    let rest = strip_prefixes_chars(line, tag);
    let named = words_of(&rest);
    if named.len() < 2 {
        return Line::Truncated;
    }
    assert(rows(named@)[0] == named@[0]@);
    assert(rows(named@)[1] == named@[1]@);
    let before = strip_prefix_chars(&named[0], before_mark);
    let after = strip_prefix_chars(&named[1], after_mark);
    if same_chars(&after, null) {
        Line::Names(before)
    } else {
        Line::Names(after)
    }
}

/// Whether the valid path `clean` is listed already.
fn listed(files: &Vec<(Vec<char>, bool)>, clean: &Vec<char>) -> (yes: bool)
    ensures
        yes == entries(files@).contains((clean@, true)),
{
    let ghost all = entries(files@);
    let mut i: usize = 0;
    while i < files.len()
        invariant
            i <= files.len(),
            all == entries(files@),
            forall|j: int| 0 <= j < i ==> all[j] != (clean@, true),
        decreases files.len() - i,
    {
        if files[i].1 && same_chars(&files[i].0, clean) {
            assert(all[i as int] == (clean@, true));
            return true;
        }
        i += 1;
    }
    false
}

/// Whether every valid entry holds a path in repo-relative form.
pub open spec fn valid_are_relative(files: Seq<(Seq<char>, bool)>) -> bool {
    forall|i: int| 0 <= i < files.len() && (#[trigger] files[i]).1 ==> is_repo_relative(files[i].0)
}

/// Every valid entry of the list holds a path in repo-relative form.
pub proof fn lemma_touched_valid_are_relative(lines: Seq<Seq<char>>)
    ensures
        valid_are_relative(touched_by(lines)),
    decreases lines.len(),
{
    if lines.len() > 0 {
        let acc = touched_by(lines.drop_last());
        let next = touched_by(lines);
        lemma_touched_valid_are_relative(lines.drop_last());
        match header_file(lines.last()) {
            Some(file) => {
                lemma_repo_relative_shape(file);
            },
            None => {},
        }
        assert forall|i: int| 0 <= i < next.len() && (#[trigger] next[i]).1 implies is_repo_relative(
            next[i].0,
        ) by {
            if i < acc.len() {
                assert(next[i] == acc[i]);
            }
        }
    }
}

/// Reads the file headers of a unified diff and lists the files it touches,
/// in the order in which the diff first names them. A text without headers
/// gives an empty list. A header that is cut short, one that names fewer
/// than two paths, is an error of the diff's format: the first such header
/// is reported, and no list is given.
pub fn touched_files_from_unified_diff(patch_text: &str) -> (out: Result<Vec<TouchedFile>, String>)
    ensures
        match out {
            Ok(files) => {
                &&& parsed(patch_text@) == Ok::<Seq<(Seq<char>, bool)>, Seq<char>>(
                    touched_views(files@),
                )
                &&& valid_once(touched_views(files@))
                &&& valid_are_relative(touched_views(files@))
            },
            Err(msg) => parsed(patch_text@) == Err::<Seq<(Seq<char>, bool)>, Seq<char>>(msg@),
        },
        out is Err <==> exists|k: int|
            0 <= k < split(patch_text@, '\n').len() && truncated_header(
                #[trigger] split(patch_text@, '\n')[k],
            ),
{
    let text = chars_of(patch_text);
    let lines = split_chars(&text, '\n');
    let tag = chars_of("diff --git ");
    let before_mark = chars_of("a/");
    let after_mark = chars_of("b/");
    let null = chars_of("/dev/null");
    let ghost all = split(text@, '\n');
    proof {
        lemma_first_truncated(all);
    }
    let mut files: Vec<(Vec<char>, bool)> = Vec::new();
    let mut i: usize = 0;
    while i < lines.len()
        invariant
            i <= lines.len(),
            rows(lines@) == all,
            all == split(patch_text@, '\n'),
            tag@ == header_tag(),
            before_mark@ == "a/"@,
            after_mark@ == "b/"@,
            null@ == no_file(),
            entries(files@) == touched_by(all.take(i as int)),
            first_truncated(all.take(i as int)) is None,
            match first_truncated(all) {
                Some(at) => 0 <= at < all.len() && truncated_header(all[at]),
                None => forall|j: int| 0 <= j < all.len() ==> !truncated_header(#[trigger] all[j]),
            },
        decreases lines.len() - i,
    {
        proof {
            assert(all.take(i as int + 1).drop_last() == all.take(i as int));
            assert(all.take(i as int + 1).last() == lines@[i as int]@);
        }
        let ghost before = entries(files@);
        match read_line(&lines[i], &tag, &before_mark, &after_mark, &null) {
            Line::Other => {},
            Line::Truncated => {
                proof {
                    assert(first_truncated(all.take(i as int + 1)) == Some(i as int));
                    lemma_first_truncated_stays(all, i as int + 1);
                }
                let mut msg = chars_of("malformed file header in patch: ");
                crate::text::append_chars(&mut msg, &lines[i]);
                return Err(string_of(&msg));
            },
            Line::Names(file) => match repo_relative_chars(&file) {
                Some(clean) => {
                    if !listed(&files, &clean) {
                        files.push((clean, true));
                        assert(entries(files@) == before.push((clean@, true)));
                    }
                },
                None => {
                    files.push((file, false));
                    assert(entries(files@) == before.push((file@, false)));
                },
            },
        }
        i += 1;
    }
    assert(all.take(lines.len() as int) == all);
    let mut out: Vec<TouchedFile> = Vec::new();
    let mut k: usize = 0;
    while k < files.len()
        invariant
            k <= files.len(),
            touched_views(out@) == entries(files@).take(k as int),
        decreases files.len() - k,
    {
        let ghost before = touched_views(out@);
        out.push(TouchedFile { path: string_of(&files[k].0), valid: files[k].1 });
        assert(touched_views(out@) == before.push((files@[k as int].0@, files@[k as int].1)));
        assert(entries(files@).take(k as int + 1) == entries(files@).take(k as int).push(
            entries(files@)[k as int],
        ));
        k += 1;
    }
    proof {
        assert(entries(files@).take(files.len() as int) == entries(files@));
        lemma_touched_valid_once(all);
        lemma_touched_valid_are_relative(all);
    }
    Ok(out)
}

} // verus!
