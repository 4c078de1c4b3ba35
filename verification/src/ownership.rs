//! Ownership of a patch: every file it touches must lie under one of the
//! path prefixes that the caller allows.

use vstd::prelude::*;
use crate::diff::{posix, touched_views, TouchedFile};
use crate::text::{
    append_chars, chars_of, end_without, join, join_chars, replace_char, rows, same_chars,
    starts_with_chars, string_of, texts, trim_chars, trim_end_char, trimmed,
};

verus! {

/// Whether a prefix as the caller wrote it says anything: one of white
/// space alone does not.
pub open spec fn usable(raw: Seq<char>) -> bool {
    trimmed(posix(raw)).len() > 0
}

/// The form in which a prefix is matched: `/` for every `\`, and a `/` at
/// the end.
pub open spec fn prefix_form(raw: Seq<char>) -> Seq<char> {
    let q = posix(raw);
    if q.len() > 0 && q.last() == '/' {
        q
    } else {
        q.push('/')
    }
}

/// Whether a prefix in matching form covers a path: the path is the
/// directory that the prefix names, or lies below it.
pub open spec fn authorizes(prefix: Seq<char>, path: Seq<char>) -> bool {
    path == trim_end_char(prefix, '/') || prefix.is_prefix_of(path)
}

/// Whether one of the prefixes, each in matching form, covers the path.
pub open spec fn covered(prefixes: Seq<Seq<char>>, path: Seq<char>) -> bool {
    exists|i: int| 0 <= i < prefixes.len() && authorizes(#[trigger] prefixes[i], path)
}

/// Whether the allow-list, as the caller wrote it, offers the prefix `x` in
/// matching form.
pub open spec fn offered(raw: Seq<Seq<char>>, x: Seq<char>) -> bool {
    exists|i: int| 0 <= i < raw.len() && usable(#[trigger] raw[i]) && x == prefix_form(raw[i])
}

/// Whether the allow-list, as the caller wrote it, covers the path.
pub open spec fn allows(raw: Seq<Seq<char>>, path: Seq<char>) -> bool {
    exists|i: int|
        0 <= i < raw.len() && usable(#[trigger] raw[i]) && authorizes(prefix_form(raw[i]), path)
}

/// Whether the allow-list says nothing at all.
pub open spec fn allows_nothing(raw: Seq<Seq<char>>) -> bool {
    forall|i: int| 0 <= i < raw.len() ==> !usable(#[trigger] raw[i])
}

/// `a` comes before `b` in the order of the dictionary, character by
/// character in the order of their code points.
pub open spec fn precedes(a: Seq<char>, b: Seq<char>) -> bool
    decreases a.len(),
{
    if b.len() == 0 {
        false
    } else if a.len() == 0 {
        true
    } else if a[0] != b[0] {
        a[0] < b[0]
    } else {
        precedes(a.drop_first(), b.drop_first())
    }
}

/// Each text comes before all that follow it; so none occurs twice.
pub open spec fn ascending(list: Seq<Seq<char>>) -> bool {
    forall|i: int, j: int| 0 <= i < j < list.len() ==> precedes(list[i], list[j])
}

/// No text comes before itself.
pub proof fn lemma_precedes_irreflexive(a: Seq<char>)
    ensures
        !precedes(a, a),
    decreases a.len(),
{
    if a.len() > 0 {
        lemma_precedes_irreflexive(a.drop_first());
    }
}

/// What comes before a text comes before all that the text comes before.
pub proof fn lemma_precedes_transitive(a: Seq<char>, b: Seq<char>, c: Seq<char>)
    requires
        precedes(a, b),
        precedes(b, c),
    ensures
        precedes(a, c),
    decreases a.len(),
{
    if a.len() > 0 && a[0] == b[0] && b[0] == c[0] {
        lemma_precedes_transitive(a.drop_first(), b.drop_first(), c.drop_first());
    }
}

/// Of two different texts one comes before the other.
pub proof fn lemma_precedes_total(a: Seq<char>, b: Seq<char>)
    ensures
        precedes(a, b) || precedes(b, a) || a == b,
    decreases a.len(),
{
    if a.len() == 0 || b.len() == 0 {
        if a.len() == 0 && b.len() == 0 {
            assert(a =~= b);
        }
    } else if a[0] == b[0] {
        lemma_precedes_total(a.drop_first(), b.drop_first());
        if a.drop_first() == b.drop_first() {
            assert(a =~= seq![a[0]] + a.drop_first());
            assert(b =~= seq![b[0]] + b.drop_first());
        }
    }
}

/// Whether `a` comes before `b`.
fn comes_before(a: &Vec<char>, b: &Vec<char>) -> (yes: bool)
    ensures
        yes == precedes(a@, b@),
{
    let mut i: usize = 0;
    assert(a@.skip(0) == a@ && b@.skip(0) == b@);
    while i < a.len() && i < b.len()
        invariant
            i <= a.len(),
            i <= b.len(),
            precedes(a@, b@) == precedes(a@.skip(i as int), b@.skip(i as int)),
        decreases a.len() - i,
    {
        proof {
            assert(a@.skip(i as int).drop_first() == a@.skip(i as int + 1));
            assert(b@.skip(i as int).drop_first() == b@.skip(i as int + 1));
            assert(a@.skip(i as int)[0] == a@[i as int]);
            assert(b@.skip(i as int)[0] == b@[i as int]);
        }
        if a[i] != b[i] {
            return a[i] < b[i];
        }
        i += 1;
    }
    i < b.len()
}

/// The matching form of a prefix, if the prefix says anything.
fn prefix_form_chars(raw: &Vec<char>) -> (out: Option<Vec<char>>)
    ensures
        match out {
            Some(form) => usable(raw@) && form@ == prefix_form(raw@),
            None => !usable(raw@),
        },
{
    let mut q = replace_char(raw, '\\', '/');
    if trim_chars(&q).len() == 0 {
        return None;
    }
    if q.len() == 0 || q[q.len() - 1] != '/' {
        q.push('/');
    }
    Some(q)
}

/// Puts `x` in its place in the ascending list, unless it is there.
fn insert_ascending(list: &mut Vec<Vec<char>>, x: Vec<char>)
    requires
        ascending(rows(old(list)@)),
    ensures
        ascending(rows(final(list)@)),
        forall|y: Seq<char>|
            rows(final(list)@).contains(y) <==> (rows(old(list)@).contains(y) || y == x@),
{
    let ghost before = rows(list@);
    let mut at: usize = 0;
    while at < list.len() && comes_before(&list[at], &x)
        invariant
            at <= list.len(),
            rows(list@) == before,
            forall|k: int| 0 <= k < at ==> precedes(before[k], x@),
        decreases list.len() - at,
    {
        at += 1;
    }
    if at < list.len() && same_chars(&list[at], &x) {
        assert(before[at as int] == x@);
        assert(before.contains(x@));
        return ;
    }
    list.insert(at, x);
    let ghost after = rows(list@);
    proof {
        assert(after == before.insert(at as int, x@));
        if at < before.len() {
            lemma_precedes_total(before[at as int], x@);
        }
        assert forall|i: int, j: int| 0 <= i < j < after.len() implies precedes(
            after[i],
            after[j],
        ) by {
            if j < at {
                assert(after[i] == before[i] && after[j] == before[j]);
            } else if j == at {
                assert(after[i] == before[i]);
            } else if i < at {
                assert(after[i] == before[i] && after[j] == before[j - 1]);
                if i == j - 1 {
                } else {
                }
            } else if i == at {
                assert(after[j] == before[j - 1]);
                if j - 1 > at {
                    lemma_precedes_transitive(x@, before[at as int], before[j - 1]);
                }
            } else {
                assert(after[i] == before[i - 1] && after[j] == before[j - 1]);
            }
        }
        assert forall|y: Seq<char>| after.contains(y) <==> (before.contains(y) || y == x@) by {
            if after.contains(y) {
                let k = choose|k: int| 0 <= k < after.len() && after[k] == y;
                if k < at {
                    assert(before[k] == y);
                } else if k > at {
                    assert(before[k - 1] == y);
                }
            }
            if before.contains(y) {
                let k = choose|k: int| 0 <= k < before.len() && before[k] == y;
                if k < at {
                    assert(after[k] == y);
                } else {
                    assert(after[k + 1] == y);
                }
            }
            if y == x@ {
                assert(after[at as int] == y);
            }
        }
    }
}

/// The prefixes of the allow-list in matching form, in ascending order.
fn allowed_forms(raw: &[String]) -> (list: Vec<Vec<char>>)
    ensures
        ascending(rows(list@)),
        forall|x: Seq<char>| rows(list@).contains(x) <==> offered(texts(raw@), x),
{
    let ghost given = texts(raw@);
    let mut list: Vec<Vec<char>> = Vec::new();
    let mut i: usize = 0;
    while i < raw.len()
        invariant
            i <= raw.len(),
            given == texts(raw@),
            ascending(rows(list@)),
            forall|x: Seq<char>| rows(list@).contains(x) <==> offered(given.take(i as int), x),
        decreases raw.len() - i,
    {
        let ghost seen = given.take(i as int);
        let ghost more = given.take(i as int + 1);
        let ghost before = rows(list@);
        let cur = chars_of(raw[i].as_str());
        assert(cur@ == given[i as int]);
        let form = prefix_form_chars(&cur);
        proof {
            assert forall|x: Seq<char>| offered(more, x) <==> (offered(seen, x) || (usable(cur@)
                && x == prefix_form(cur@))) by {
                if offered(more, x) {
                    let k = choose|k: int|
                        0 <= k < more.len() && usable(#[trigger] more[k]) && x == prefix_form(
                            more[k],
                        );
                    if k < i {
                        assert(seen[k] == more[k]);
                    }
                }
                if offered(seen, x) {
                    let k = choose|k: int|
                        0 <= k < seen.len() && usable(#[trigger] seen[k]) && x == prefix_form(
                            seen[k],
                        );
                    assert(more[k] == seen[k]);
                }
                if usable(cur@) && x == prefix_form(cur@) {
                    assert(more[i as int] == cur@);
                }
            }
        }
        match form {
            Some(f) => {
                insert_ascending(&mut list, f);
            },
            None => {},
        }
        i += 1;
    }
    assert(given.take(raw.len() as int) == given);
    list
}

/// The prefixes of an allow-list in the form in which they are matched:
/// `/` for every `\`, a `/` at the end, those of white space alone left
/// out, in ascending order and each once.
pub fn normalize_prefixes(allowed_prefixes: &[String]) -> (out: Vec<String>)
    ensures
        ascending(texts(out@)),
        forall|x: Seq<char>| texts(out@).contains(x) <==> offered(texts(allowed_prefixes@), x),
{
    let list = allowed_forms(allowed_prefixes);
    let mut out: Vec<String> = Vec::new();
    let mut k: usize = 0;
    while k < list.len()
        invariant
            k <= list.len(),
            texts(out@) == rows(list@).take(k as int),
        decreases list.len() - k,
    {
        let ghost before = texts(out@);
        out.push(string_of(&list[k]));
        assert(texts(out@) == before.push(list@[k as int]@));
        assert(rows(list@).take(k as int + 1) == rows(list@).take(k as int).push(
            rows(list@)[k as int],
        ));
        k += 1;
    }
    assert(rows(list@).take(list.len() as int) == rows(list@));
    out
}

/// A prefix is matched on whole segments: the prefix `dir/` covers `dir`
/// itself and everything below it, and nothing that only lengthens the
/// name `dir`.
pub proof fn lemma_prefix_covers_whole_segments(dir: Seq<char>, rest: Seq<char>, more: Seq<char>)
    requires
        dir.len() > 0,
        dir.last() != '/',
        more.len() > 0,
        more[0] != '/',
    ensures
        authorizes(dir.push('/'), dir),
        authorizes(dir.push('/'), dir.push('/') + rest),
        !authorizes(dir.push('/'), dir + more),
{
    let prefix = dir.push('/');
    assert(prefix.drop_last() == dir);
    assert(trim_end_char(dir, '/') == dir);
    assert(trim_end_char(prefix, '/') == dir);
    assert((prefix + rest).subrange(0, prefix.len() as int) == prefix);
    assert((dir + more).len() != dir.len());
    if prefix.is_prefix_of(dir + more) {
        assert((dir + more).subrange(0, prefix.len() as int)[dir.len() as int] == more[0]);
        assert(prefix[dir.len() as int] == '/');
    }
}

/// What is wrong with a touched file, in words, if anything is: its path
/// is invalid, or no prefix of the allow-list covers it.
pub open spec fn violation(raw: Seq<Seq<char>>, file: (Seq<char>, bool)) -> Option<Seq<char>> {
    if !file.1 {
        Some("invalid path in patch: "@ + file.0)
    } else if !allows(raw, file.0) {
        Some("unauthorized path: "@ + file.0)
    } else {
        None
    }
}

/// The violations among the touched files, all of them, in the order of
/// the files.
pub open spec fn violations(raw: Seq<Seq<char>>, files: Seq<(Seq<char>, bool)>) -> Seq<Seq<char>>
    decreases files.len(),
{
    if files.len() == 0 {
        Seq::empty()
    } else {
        match violation(raw, files.last()) {
            Some(line) => violations(raw, files.drop_last()).push(line),
            None => violations(raw, files.drop_last()),
        }
    }
}

/// Where nothing is in violation, every touched file is valid and covered
/// by the allow-list.
pub proof fn lemma_no_violations(raw: Seq<Seq<char>>, files: Seq<(Seq<char>, bool)>)
    requires
        violations(raw, files).len() == 0,
    ensures
        forall|j: int| 0 <= j < files.len() ==> (#[trigger] files[j]).1 && allows(raw, files[j].0),
    decreases files.len(),
{
    if files.len() > 0 {
        lemma_no_violations(raw, files.drop_last());
        assert forall|j: int| 0 <= j < files.len() implies (#[trigger] files[j]).1 && allows(
            raw,
            files[j].0,
        ) by {
            if j < files.len() - 1 {
                assert(files.drop_last()[j] == files[j]);
            }
        }
    }
}

/// What is said of an allow-list without a usable prefix.
pub open spec fn empty_allow_list_message() -> Seq<char> {
    "allowedPathPrefixes is empty"@
}

/// The report of a patch that is not owned: a heading, then one line for
/// each violation.
pub open spec fn violations_message(lines: Seq<Seq<char>>) -> Seq<char> {
    "patch ownership check failed:\n- "@ + join(lines, "\n- "@)
}

/// The outcome of the ownership check: an allow-list that says nothing is
/// an error of its own, whatever the patch touches; otherwise the patch is
/// accepted exactly when no touched file is in violation.
pub open spec fn ownership_verdict(raw: Seq<Seq<char>>, files: Seq<(Seq<char>, bool)>) -> Result<
    (),
    Seq<char>,
> {
    if allows_nothing(raw) {
        Err(empty_allow_list_message())
    } else if violations(raw, files).len() > 0 {
        Err(violations_message(violations(raw, files)))
    } else {
        Ok(())
    }
}

/// An empty allow-list fails the check whatever the patch touches, and
/// also when it touches nothing.
pub proof fn lemma_empty_allow_list_fails(files: Seq<(Seq<char>, bool)>)
    ensures
        ownership_verdict(Seq::empty(), files) == Err::<(), Seq<char>>(empty_allow_list_message()),
{
}

/// A list that holds exactly the offered prefixes covers what the
/// allow-list allows, and is empty when the allow-list says nothing.
proof fn lemma_forms_stand_for_raw(list: Seq<Seq<char>>, raw: Seq<Seq<char>>)
    requires
        forall|x: Seq<char>| list.contains(x) <==> offered(raw, x),
    ensures
        list.len() == 0 <==> allows_nothing(raw),
        forall|path: Seq<char>| covered(list, path) <==> allows(raw, path),
{
    if list.len() > 0 {
        assert(list.contains(list[0]));
        assert(offered(raw, list[0]));
    }
    if !allows_nothing(raw) {
        let i = choose|i: int| 0 <= i < raw.len() && usable(#[trigger] raw[i]);
        assert(offered(raw, prefix_form(raw[i])));
        assert(list.contains(prefix_form(raw[i])));
    }
    assert forall|path: Seq<char>| covered(list, path) <==> allows(raw, path) by {
        if covered(list, path) {
            let j = choose|j: int| 0 <= j < list.len() && authorizes(#[trigger] list[j], path);
            assert(list.contains(list[j]));
            assert(offered(raw, list[j]));
        }
        if allows(raw, path) {
            let i = choose|i: int|
                0 <= i < raw.len() && usable(#[trigger] raw[i]) && authorizes(
                    prefix_form(raw[i]),
                    path,
                );
            assert(offered(raw, prefix_form(raw[i])));
            assert(list.contains(prefix_form(raw[i])));
        }
    }
}

/// Whether the prefix covers the path.
fn authorizes_chars(prefix: &Vec<char>, path: &Vec<char>) -> (yes: bool)
    ensures
        yes == authorizes(prefix@, path@),
{
    let to = end_without(prefix, '/');
    let base = crate::text::slice_chars(prefix, 0, to);
    same_chars(path, &base) || starts_with_chars(path, prefix)
}

/// Whether one of the prefixes covers the path.
fn covered_chars(list: &Vec<Vec<char>>, path: &Vec<char>) -> (yes: bool)
    ensures
        yes == covered(rows(list@), path@),
{
    let ghost forms = rows(list@);
    let mut i: usize = 0;
    while i < list.len()
        invariant
            i <= list.len(),
            forms == rows(list@),
            forall|j: int| 0 <= j < i ==> !authorizes(#[trigger] forms[j], path@),
        decreases list.len() - i,
    {
        if authorizes_chars(&list[i], path) {
            assert(authorizes(forms[i as int], path@));
            return true;
        }
        i += 1;
    }
    false
}

/// Checks that a patch touches only what the allow-list covers.
///
/// An allow-list without a usable prefix is refused, whatever is touched.
/// Otherwise every touched file is judged, none is skipped after the first
/// violation, and a patch in violation is refused with a report that names
/// every offending path.
pub fn ensure_owned(touched_files: &[TouchedFile], allowed_prefixes: &[String]) -> (r: Result<
    (),
    String,
>)
    ensures
        match r {
            Ok(()) => ownership_verdict(
                texts(allowed_prefixes@),
                touched_views(touched_files@),
            ) is Ok,
            Err(msg) => ownership_verdict(texts(allowed_prefixes@), touched_views(touched_files@))
                == Err::<(), Seq<char>>(msg@),
        },
        allowed_prefixes@.len() == 0 ==> r is Err,
{
    let ghost raw = texts(allowed_prefixes@);
    let ghost files = touched_views(touched_files@);
    let allowed = allowed_forms(allowed_prefixes);
    proof {
        lemma_forms_stand_for_raw(rows(allowed@), raw);
    }
    if allowed.len() == 0 {
        return Err(string_of(&chars_of("allowedPathPrefixes is empty")));
    }
    let mut lines: Vec<Vec<char>> = Vec::new();
    let mut i: usize = 0;
    while i < touched_files.len()
        invariant
            i <= touched_files.len(),
            files == touched_views(touched_files@),
            forall|path: Seq<char>| covered(rows(allowed@), path) <==> allows(raw, path),
            rows(lines@) == violations(raw, files.take(i as int)),
        decreases touched_files.len() - i,
    {
        let file = &touched_files[i];
        let path = chars_of(file.path.as_str());
        proof {
            assert(files.take(i as int + 1).drop_last() == files.take(i as int));
            assert(files.take(i as int + 1).last() == (path@, file.valid));
        }
        let ghost before = rows(lines@);
        if !file.valid {
            let mut line = chars_of("invalid path in patch: ");
            append_chars(&mut line, &path);
            lines.push(line);
            assert(rows(lines@) == before.push("invalid path in patch: "@ + path@));
        } else if !covered_chars(&allowed, &path) {
            let mut line = chars_of("unauthorized path: ");
            append_chars(&mut line, &path);
            lines.push(line);
            assert(rows(lines@) == before.push("unauthorized path: "@ + path@));
        }
        i += 1;
    }
    assert(files.take(touched_files.len() as int) == files);
    if lines.len() > 0 {
        let mut msg = chars_of("patch ownership check failed:\n- ");
        let body = join_chars(&lines, 0, &chars_of("\n- "));
        assert(rows(lines@).skip(0) == rows(lines@));
        append_chars(&mut msg, &body);
        return Err(string_of(&msg));
    }
    Ok(())
}

} // verus!
