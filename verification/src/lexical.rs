//! Lexical path algebra: canonical form and containment, decided on the
//! text of a path alone. Nothing here touches the filesystem, so a symlink
//! is never resolved.
//!
//! A path is a sequence of characters with `/` as its separator. Its
//! components are the root marker (for a path that begins with `/`)
//! followed by the pieces between separators.

use vstd::prelude::*;
use crate::text::{
    append_chars, chars_of, join, join_chars, rows, same_chars, split, split_chars, string_of,
};

verus! {

/// The component that stands for the root of an absolute path. No piece
/// between separators can equal it.
pub open spec fn root_mark() -> Seq<char> {
    seq!['/']
}

/// The component `.`: the directory itself.
pub open spec fn dot() -> Seq<char> {
    seq!['.']
}

/// The component `..`: the parent directory.
pub open spec fn dotdot() -> Seq<char> {
    seq!['.', '.']
}

/// Whether the path begins at the root.
pub open spec fn is_rooted(p: Seq<char>) -> bool {
    p.len() > 0 && p[0] == '/'
}

/// The raw components of a path, before any are collapsed.
pub open spec fn components(p: Seq<char>) -> Seq<Seq<char>> {
    if is_rooted(p) {
        seq![root_mark()] + split(p, '/')
    } else {
        split(p, '/')
    }
}

/// One step of the normalizer: what the stack of kept components becomes
/// when it meets the component `c`.
///
/// Empty pieces and `.` are dropped. `..` removes the component on top of
/// the stack, unless there is none or the top is itself `..` or the root
/// marker; then the `..` is kept, so that a path which climbs out of its
/// start still shows that it does.
pub open spec fn lex_step(stack: Seq<Seq<char>>, c: Seq<char>) -> Seq<Seq<char>> {
    if c.len() == 0 || c == dot() {
        stack
    } else if c == dotdot() && stack.len() > 0 && stack.last() != dotdot() && stack.last()
        != root_mark() {
        stack.drop_last()
    } else {
        stack.push(c)
    }
}

/// The stack after meeting each of `comps` in turn, left to right.
pub open spec fn collapse_onto(stack: Seq<Seq<char>>, comps: Seq<Seq<char>>) -> Seq<Seq<char>>
    decreases comps.len(),
{
    if comps.len() == 0 {
        stack
    } else {
        lex_step(collapse_onto(stack, comps.drop_last()), comps.last())
    }
}

/// The canonical components of a path.
pub open spec fn lexical(p: Seq<char>) -> Seq<Seq<char>> {
    collapse_onto(Seq::empty(), components(p))
}

/// The text of a path with the given components.
pub open spec fn render(comps: Seq<Seq<char>>) -> Seq<char> {
    if comps.len() > 0 && comps[0] == root_mark() {
        root_mark() + join(comps.drop_first(), root_mark())
    } else {
        join(comps, root_mark())
    }
}

/// The canonical text of a path.
pub open spec fn normalized(p: Seq<char>) -> Seq<char> {
    render(lexical(p))
}

/// `sub` appended to `base` as a path: an absolute `sub` replaces `base`;
/// otherwise the two are joined, with a separator where `base` lacks one.
pub open spec fn joined(base: Seq<char>, sub: Seq<char>) -> Seq<char> {
    if is_rooted(sub) {
        sub
    } else if base.len() == 0 || base.last() == '/' {
        base + sub
    } else {
        base + root_mark() + sub
    }
}

/// The canonical absolute form of `p`, relative paths being taken from `cwd`.
pub open spec fn absolute(cwd: Seq<char>, p: Seq<char>) -> Seq<char> {
    normalized(joined(cwd, p))
}

/// Whether `candidate` lies at or under `root`: the canonical components of
/// the root begin those of the candidate. A shared run of characters that
/// ends inside a component does not count.
pub open spec fn contained(cwd: Seq<char>, root: Seq<char>, candidate: Seq<char>) -> bool {
    lexical(joined(cwd, root)).is_prefix_of(lexical(joined(cwd, candidate)))
}

/// Whether the component is `.`.
fn is_dot(c: &Vec<char>) -> (b: bool)
    ensures
        b == (c@ == dot()),
{
    let b = c.len() == 1 && c[0] == '.';
    assert(b ==> c@ =~= dot());
    b
}

/// Whether the component is `..`.
fn is_dotdot(c: &Vec<char>) -> (b: bool)
    ensures
        b == (c@ == dotdot()),
{
    let b = c.len() == 2 && c[0] == '.' && c[1] == '.';
    assert(b ==> c@ =~= dotdot());
    b
}

/// Whether the component is the root marker.
fn is_root_mark(c: &Vec<char>) -> (b: bool)
    ensures
        b == (c@ == root_mark()),
{
    let b = c.len() == 1 && c[0] == '/';
    assert(b ==> c@ =~= root_mark());
    b
}

/// The root marker.
fn root_mark_chars() -> (c: Vec<char>)
    ensures
        c@ == root_mark(),
{
    let mut c: Vec<char> = Vec::new();
    c.push('/');
    assert(c@ =~= root_mark());
    c
}

/// Lets the stack meet one component.
fn meet(stack: &mut Vec<Vec<char>>, c: Vec<char>)
    ensures
        rows(final(stack)@) == lex_step(rows(old(stack)@), c@),
{
    if c.len() == 0 || is_dot(&c) {
        return ;
    }
    if is_dotdot(&c) && stack.len() > 0 {
        let top = &stack[stack.len() - 1];
        if !is_dotdot(top) && !is_root_mark(top) {
            stack.pop();
            assert(rows(stack@) == rows(old(stack)@).drop_last());
            return ;
        }
    }
    stack.push(c);
    assert(rows(stack@) == rows(old(stack)@).push(c@));
}

/// Whether the path begins at the root.
pub fn is_absolute(path: &str) -> (b: bool)
    ensures
        b == is_rooted(path@),
{
    let chars = chars_of(path);
    chars.len() > 0 && chars[0] == '/'
}

/// The canonical components of the path held in `chars`.
fn lexical_components(chars: &Vec<char>) -> (stack: Vec<Vec<char>>)
    ensures
        rows(stack@) == lexical(chars@),
{
    let mut parts = split_chars(chars, '/');
    let mut stack: Vec<Vec<char>> = Vec::new();
    let ghost base: Seq<Seq<char>> = if is_rooted(chars@) {
        seq![root_mark()]
    } else {
        Seq::empty()
    };
    if chars.len() > 0 && chars[0] == '/' {
        stack.push(root_mark_chars());
    }
    assert(rows(stack@) == base);
    let ghost pieces = split(chars@, '/');
    let mut i: usize = 0;
    while i < parts.len()
        invariant
            i <= parts.len(),
            rows(parts@).len() == pieces.len(),
            forall|j: int| i <= j < parts.len() ==> (#[trigger] parts@[j])@ == pieces[j],
            rows(stack@) == collapse_onto(base, pieces.take(i as int)),
        decreases parts.len() - i,
    {
        proof {
            assert(pieces.take(i as int + 1).drop_last() == pieces.take(i as int));
            assert(pieces.take(i as int + 1).last() == pieces[i as int]);
        }
        let mut piece: Vec<char> = Vec::new();
        std::mem::swap(&mut piece, &mut parts[i]);
        meet(&mut stack, piece);
        i += 1;
    }
    proof {
        assert(pieces.take(parts.len() as int) == pieces);
        lemma_collapse_concat(Seq::empty(), base, pieces);
        assert(collapse_onto(Seq::empty(), base) == base) by {
            if is_rooted(chars@) {
                lemma_collapse_single(Seq::empty(), root_mark());
                lemma_marks_differ();
                assert(Seq::<Seq<char>>::empty().push(root_mark()) == base);
            }
        }
        if !is_rooted(chars@) {
            assert(base + pieces == pieces);
        }
    }
    stack
}

/// The text of a path with the given components.
fn render_components(comps: &Vec<Vec<char>>) -> (out: Vec<char>)
    ensures
        out@ == render(rows(comps@)),
{
    let sep = root_mark_chars();
    if comps.len() > 0 && is_root_mark(&comps[0]) {
        let mut out = root_mark_chars();
        let rest = join_chars(comps, 1, &sep);
        append_chars(&mut out, &rest);
        assert(rows(comps@).skip(1) == rows(comps@).drop_first());
        out
    } else {
        let out = join_chars(comps, 0, &sep);
        assert(rows(comps@).skip(0) == rows(comps@));
        out
    }
}

/// The three special components are pairwise different.
pub proof fn lemma_marks_differ()
    ensures
        root_mark() != dot(),
        root_mark() != dotdot(),
        dot() != dotdot(),
{
    assert(root_mark()[0] != dot()[0]);
    assert(root_mark().len() != dotdot().len());
    assert(dot().len() != dotdot().len());
}

/// Collapsing a single component is one step.
pub proof fn lemma_collapse_single(stack: Seq<Seq<char>>, c: Seq<char>)
    ensures
        collapse_onto(stack, seq![c]) == lex_step(stack, c),
{
    assert(seq![c].drop_last() == Seq::<Seq<char>>::empty());
    assert(seq![c].last() == c);
    assert(collapse_onto(stack, seq![c].drop_last()) == stack);
}

/// Collapsing a list in two parts is collapsing the second onto the result
/// of the first.
pub proof fn lemma_collapse_concat(stack: Seq<Seq<char>>, a: Seq<Seq<char>>, b: Seq<Seq<char>>)
    ensures
        collapse_onto(stack, a + b) == collapse_onto(collapse_onto(stack, a), b),
    decreases b.len(),
{
    if b.len() == 0 {
        assert(a + b == a);
    } else {
        assert((a + b).drop_last() == a + b.drop_last());
        assert((a + b).last() == b.last());
        lemma_collapse_concat(stack, a, b.drop_last());
    }
}

/// Whether the piece at `i` counts as a component of the path: it is not
/// empty, and it is `.` only where it stands in front of a relative path.
pub open spec fn is_component(pieces: Seq<Seq<char>>, rooted: bool, i: int) -> bool {
    pieces[i].len() > 0 && (pieces[i] != dot() || (i == 0 && !rooted))
}

/// The place of the last component among the first `n` pieces.
pub open spec fn last_component(pieces: Seq<Seq<char>>, rooted: bool, n: int) -> Option<int>
    decreases n,
{
    if n <= 0 {
        None
    } else if is_component(pieces, rooted, n - 1) {
        Some(n - 1)
    } else {
        last_component(pieces, rooted, n - 1)
    }
}

/// The path without its last component, as it is written: the text up to
/// the end of the component before the last, the root for a component
/// right under the root, and the empty path for a single relative
/// component. The root and the empty path have no parent.
pub open spec fn parent(path: Seq<char>) -> Option<Seq<char>> {
    let pieces = split(path, '/');
    let rooted = is_rooted(path);
    match last_component(pieces, rooted, pieces.len() as int) {
        None => None,
        Some(last) => match last_component(pieces, rooted, last) {
            Some(prev) => Some(join(pieces.take(prev + 1), root_mark())),
            None => Some(
                if rooted {
                    root_mark()
                } else {
                    Seq::empty()
                },
            ),
        },
    }
}

/// The place of the last component among the first `n` pieces.
fn last_component_of(pieces: &Vec<Vec<char>>, rooted: bool, n: usize) -> (at: Option<usize>)
    requires
        n <= pieces.len(),
    ensures
        match at {
            Some(i) => i < n && last_component(rows(pieces@), rooted, n as int) == Some(i as int),
            None => last_component(rows(pieces@), rooted, n as int) is None,
        },
{
    let mut k: usize = n;
    while k > 0
        invariant
            k <= n <= pieces.len(),
            last_component(rows(pieces@), rooted, k as int) == last_component(
                rows(pieces@),
                rooted,
                n as int,
            ),
        decreases k,
    {
        let piece = &pieces[k - 1];
        assert(rows(pieces@)[k as int - 1] == piece@);
        if piece.len() > 0 && (!is_dot(piece) || (k - 1 == 0 && !rooted)) {
            return Some(k - 1);
        }
        k -= 1;
    }
    None
}

/// The path without its last component, as it is written, if it has a
/// component to leave out.
pub fn parent_path(path: &str) -> (out: Option<String>)
    ensures
        match out {
            Some(dir) => parent(path@) == Some(dir@),
            None => parent(path@) is None,
        },
{
    let chars = chars_of(path);
    let rooted = chars.len() > 0 && chars[0] == '/';
    let mut pieces = split_chars(&chars, '/');
    let ghost all = rows(pieces@);
    let last = match last_component_of(&pieces, rooted, pieces.len()) {
        Some(last) => last,
        None => {
            return None;
        },
    };
    match last_component_of(&pieces, rooted, last) {
        Some(prev) => {
            pieces.truncate(prev + 1);
            assert(rows(pieces@) == all.take(prev as int + 1));
            let text = join_chars(&pieces, 0, &root_mark_chars());
            assert(rows(pieces@).skip(0) == rows(pieces@));
            Some(string_of(&text))
        },
        None => {
            if rooted {
                Some(string_of(&root_mark_chars()))
            } else {
                let none: Vec<char> = Vec::new();
                Some(string_of(&none))
            }
        },
    }
}

/// Whether the components in `root` begin those in `candidate`.
fn begins(root: &Vec<Vec<char>>, candidate: &Vec<Vec<char>>) -> (yes: bool)
    ensures
        yes == rows(root@).is_prefix_of(rows(candidate@)),
{
    if root.len() > candidate.len() {
        return false;
    }
    let ghost r = rows(root@);
    let ghost c = rows(candidate@);
    let mut i: usize = 0;
    while i < root.len()
        invariant
            i <= root.len() <= candidate.len(),
            r == rows(root@),
            c == rows(candidate@),
            r.take(i as int) == c.take(i as int),
        decreases root.len() - i,
    {
        if !same_chars(&root[i], &candidate[i]) {
            assert(c.subrange(0, r.len() as int)[i as int] != r[i as int]);
            return false;
        }
        assert(r.take(i as int + 1) == r.take(i as int).push(r[i as int]));
        assert(c.take(i as int + 1) == c.take(i as int).push(c[i as int]));
        i += 1;
    }
    assert(r.take(r.len() as int) == r);
    assert(c.take(r.len() as int) == c.subrange(0, r.len() as int));
    true
}

/// `sub` appended to `base` as a path.
fn joined_chars(base: &Vec<char>, sub: &Vec<char>) -> (out: Vec<char>)
    ensures
        out@ == joined(base@, sub@),
{
    let mut out: Vec<char> = Vec::new();
    if sub.len() > 0 && sub[0] == '/' {
        append_chars(&mut out, sub);
        assert(out@ == sub@);
    } else if base.len() == 0 || base[base.len() - 1] == '/' {
        append_chars(&mut out, base);
        append_chars(&mut out, sub);
        assert(out@ == base@ + sub@);
    } else {
        append_chars(&mut out, base);
        out.push('/');
        append_chars(&mut out, sub);
        assert(out@ == base@ + root_mark() + sub@);
    }
    out
}

/// Appends `sub` to `base` as a path. An absolute `sub` replaces `base`.
pub fn join_path(base: &str, sub: &str) -> (out: String)
    ensures
        out@ == joined(base@, sub@),
{
    let out = joined_chars(&chars_of(base), &chars_of(sub));
    string_of(&out)
}

/// The canonical absolute form of `path`. A relative path is taken from
/// `cwd`, which is not consulted for an absolute one.
pub fn abs_path(cwd: &str, path: &str) -> (out: String)
    ensures
        out@ == absolute(cwd@, path@),
        is_rooted(path@) ==> out@ == normalized(path@),
{
    let whole = joined_chars(&chars_of(cwd), &chars_of(path));
    let comps = lexical_components(&whole);
    let text = render_components(&comps);
    string_of(&text)
}

/// Whether `candidate` lies at or under `root`, both taken from `cwd` where
/// they are relative. The test is on whole components: `/repo-old` is not
/// under `/repo`.
pub fn is_contained(cwd: &str, root: &str, candidate: &str) -> (inside: bool)
    ensures
        inside == contained(cwd@, root@, candidate@),
{
    let base = chars_of(cwd);
    let root_comps = lexical_components(&joined_chars(&base, &chars_of(root)));
    let cand_comps = lexical_components(&joined_chars(&base, &chars_of(candidate)));
    begins(&root_comps, &cand_comps)
}

/// What holds of the component at `i` in a canonical list.
pub open spec fn canonical_at(c: Seq<Seq<char>>, i: int) -> bool {
    &&& c[i].len() > 0
    &&& c[i] != dot()
    &&& if c[i] == root_mark() {
        i == 0
    } else {
        !c[i].contains('/')
    }
    &&& (c[i] == dotdot() && i > 0) ==> (c[i - 1] == dotdot() || c[i - 1] == root_mark())
}

/// A component list as the normalizer leaves it: the root marker only in
/// front, no empty piece and no `.`, and every `..` right behind the root
/// marker or another `..`.
pub open spec fn canonical(c: Seq<Seq<char>>) -> bool {
    forall|i: int| 0 <= i < c.len() ==> #[trigger] canonical_at(c, i)
}

/// What holds of the raw components of any path: the root marker only in
/// front, and no separator inside any other component.
pub open spec fn raw(c: Seq<Seq<char>>) -> bool {
    forall|i: int|
        0 <= i < c.len() ==> if #[trigger] c[i] == root_mark() {
            i == 0
        } else {
            !c[i].contains('/')
        }
}

/// The raw components of any path are raw.
pub proof fn lemma_components_raw(p: Seq<char>)
    ensures
        raw(components(p)),
{
    crate::text::lemma_split_pieces_lack_sep(p, '/');
    let pieces = split(p, '/');
    let c = components(p);
    assert forall|i: int| 0 <= i < pieces.len() implies pieces[i] != root_mark() by {
        if pieces[i] == root_mark() {
            assert(pieces[i][0] == '/');
            assert(pieces[i].contains('/'));
        }
    }
    assert forall|i: int| 0 <= i < c.len() implies if #[trigger] c[i] == root_mark() {
        i == 0
    } else {
        !c[i].contains('/')
    } by {
        if is_rooted(p) {
            if i > 0 {
                assert(c[i] == pieces[i - 1]);
            }
        } else {
            assert(c[i] == pieces[i]);
        }
    }
}

/// One step of the normalizer keeps a canonical stack canonical.
proof fn lemma_step_keeps_canonical(stack: Seq<Seq<char>>, c: Seq<char>)
    requires
        canonical(stack),
        c == root_mark() ==> stack.len() == 0,
        c != root_mark() ==> !c.contains('/'),
    ensures
        canonical(lex_step(stack, c)),
{
    let next = lex_step(stack, c);
    lemma_marks_differ();
    assert forall|i: int| 0 <= i < next.len() implies #[trigger] canonical_at(next, i) by {
        if i < stack.len() {
            assert(canonical_at(stack, i));
            assert(next[i] == stack[i]);
            if i > 0 {
                assert(next[i - 1] == stack[i - 1]);
            }
        } else {
            assert(next == stack.push(c));
            assert(next[i] == c);
            if i > 0 {
                assert(next[i - 1] == stack.last());
            }
        }
    }
}

/// Collapsing raw components leaves a canonical list.
pub proof fn lemma_collapse_canonical(comps: Seq<Seq<char>>)
    requires
        raw(comps),
    ensures
        canonical(collapse_onto(Seq::empty(), comps)),
    decreases comps.len(),
{
    if comps.len() > 0 {
        let init = comps.drop_last();
        assert forall|i: int| 0 <= i < init.len() implies if #[trigger] init[i] == root_mark() {
            i == 0
        } else {
            !init[i].contains('/')
        } by {
            assert(init[i] == comps[i]);
        }
        lemma_collapse_canonical(init);
        let c = comps.last();
        assert(c == comps[comps.len() - 1]);
        if c == root_mark() {
            assert(init.len() == 0);
        }
        lemma_step_keeps_canonical(collapse_onto(Seq::empty(), init), c);
    }
}

/// A canonical list collapses to itself, on top of whatever came before it
/// in the list.
pub proof fn lemma_collapse_fixed(stack: Seq<Seq<char>>, comps: Seq<Seq<char>>)
    requires
        canonical(stack + comps),
    ensures
        collapse_onto(stack, comps) == stack + comps,
    decreases comps.len(),
{
    let whole = stack + comps;
    if comps.len() == 0 {
        assert(stack + comps == stack);
    } else {
        let init = comps.drop_last();
        let shorter = stack + init;
        assert forall|i: int| 0 <= i < shorter.len() implies #[trigger] canonical_at(
            shorter,
            i,
        ) by {
            assert(canonical_at(whole, i));
            assert(shorter[i] == whole[i]);
            if i > 0 {
                assert(shorter[i - 1] == whole[i - 1]);
            }
        }
        lemma_collapse_fixed(stack, init);
        let c = comps.last();
        let at = whole.len() - 1;
        assert(canonical_at(whole, at));
        assert(whole[at] == c);
        if at > 0 {
            assert(whole[at - 1] == shorter.last());
        }
        assert(shorter.push(c) == whole);
    }
}

/// Rendering a canonical list and taking the result apart again gives the
/// list back.
pub proof fn lemma_lexical_of_render(c: Seq<Seq<char>>)
    requires
        canonical(c),
    ensures
        lexical(render(c)) == c,
{
    let none = Seq::<Seq<char>>::empty();
    let blank = Seq::<char>::empty();
    lemma_marks_differ();
    if c.len() == 0 {
        assert(render(c) == blank);
        assert(split(blank, '/') == seq![blank]);
        lemma_collapse_single(none, blank);
    } else if c[0] == root_mark() {
        let rest = c.drop_first();
        let body = join(rest, root_mark());
        assert(render(c) == root_mark() + body);
        assert(is_rooted(render(c)));
        assert(blank + seq!['/'] + body == root_mark() + body);
        crate::text::lemma_split_concat(blank, body, '/');
        assert(split(blank, '/') == seq![blank]);
        let head = seq![root_mark(), blank];
        assert(collapse_onto(none, head) == seq![root_mark()]) by {
            assert(head.drop_last() == seq![root_mark()]);
            lemma_collapse_single(none, root_mark());
            assert(none.push(root_mark()) == seq![root_mark()]);
        }
        assert forall|i: int| 0 <= i < rest.len() implies !(#[trigger] rest[i]).contains('/') by {
            assert(canonical_at(c, i + 1));
            assert(rest[i] == c[i + 1]);
        }
        if rest.len() == 0 {
            assert(split(body, '/') == seq![blank]);
            assert(components(render(c)) == head + seq![blank]);
            lemma_collapse_concat(none, head, seq![blank]);
            lemma_collapse_single(seq![root_mark()], blank);
            assert(c == seq![root_mark()]);
        } else {
            crate::text::lemma_split_join(rest, '/');
            assert(components(render(c)) == head + rest);
            lemma_collapse_concat(none, head, rest);
            assert(seq![root_mark()] + rest == c);
            lemma_collapse_fixed(seq![root_mark()], rest);
        }
    } else {
        assert forall|i: int| 0 <= i < c.len() implies !(#[trigger] c[i]).contains('/') by {
            assert(canonical_at(c, i));
            if c[i] == root_mark() {
                assert(i == 0);
            }
        }
        crate::text::lemma_join_begins(c, root_mark());
        assert(canonical_at(c, 0));
        assert(!is_rooted(render(c))) by {
            assert(render(c)[0] == c[0][0]);
            assert(c[0].contains(c[0][0]));
        }
        crate::text::lemma_split_join(c, '/');
        assert(none + c == c);
        lemma_collapse_fixed(none, c);
    }
}

/// The canonical components of any path are in canonical form.
pub proof fn lemma_lexical_canonical(p: Seq<char>)
    ensures
        canonical(lexical(p)),
{
    lemma_components_raw(p);
    lemma_collapse_canonical(components(p));
}

/// Normalizing is idempotent: a canonical text is its own canonical form.
pub proof fn lemma_normalize_idempotent(p: Seq<char>)
    ensures
        lexical(normalized(p)) == lexical(p),
        normalized(normalized(p)) == normalized(p),
{
    lemma_lexical_canonical(p);
    lemma_lexical_of_render(lexical(p));
}

/// Whether a relative path stays at or below the directory it starts from:
/// none of its `..` climbs above that directory.
pub open spec fn confined(sub: Seq<char>) -> bool {
    !is_rooted(sub) && !collapse_onto(Seq::empty(), split(sub, '/')).contains(dotdot())
}

/// Components that never climb above their start collapse the same way on
/// top of any stack.
proof fn lemma_collapse_confined(stack: Seq<Seq<char>>, comps: Seq<Seq<char>>)
    requires
        !collapse_onto(Seq::empty(), comps).contains(dotdot()),
    ensures
        collapse_onto(stack, comps) == stack + collapse_onto(Seq::empty(), comps),
    decreases comps.len(),
{
    let none = Seq::<Seq<char>>::empty();
    if comps.len() == 0 {
        assert(stack + none == stack);
    } else {
        let init = comps.drop_last();
        let c = comps.last();
        let below = collapse_onto(none, init);
        let after = lex_step(below, c);
        if c.len() == 0 || c == dot() {
        } else if c == dotdot() && below.len() > 0 && below.last() != dotdot() && below.last()
            != root_mark() {
            assert forall|j: int| 0 <= j < below.len() implies below[j] != dotdot() by {
                if j < below.len() - 1 {
                    assert(after[j] == below[j]);
                    assert(after.contains(below[j]));
                }
            }
        } else {
            assert(after == below.push(c));
            assert(after[below.len() as int] == c);
            assert(after.contains(c));
            assert(c != dotdot());
            assert forall|j: int| 0 <= j < below.len() implies below[j] != dotdot() by {
                assert(after[j] == below[j]);
                assert(after.contains(below[j]));
            }
        }
        lemma_collapse_confined(stack, init);
        if c.len() == 0 || c == dot() {
        } else if c == dotdot() {
            assert((stack + below).last() == below.last());
            assert((stack + below).drop_last() == stack + below.drop_last());
        } else {
            assert((stack + below).push(c) == stack + below.push(c));
        }
    }
}

/// Joining a relative path onto a base continues the collapse of the base.
proof fn lemma_collapse_joined(stack: Seq<Seq<char>>, a: Seq<char>, b: Seq<char>)
    requires
        !is_rooted(b),
    ensures
        is_rooted(joined(a, b)) == is_rooted(a),
        collapse_onto(stack, components(joined(a, b))) == collapse_onto(
            collapse_onto(stack, components(a)),
            split(b, '/'),
        ),
{
    let blank = Seq::<char>::empty();
    if a.len() == 0 {
        assert(a + b == b);
        assert(split(a, '/') == seq![blank]);
        lemma_collapse_single(stack, blank);
    } else if a.last() == '/' {
        let front = a.drop_last();
        assert(a + b == front + seq!['/'] + b);
        assert(a == front + seq!['/'] + blank);
        crate::text::lemma_split_concat(front, b, '/');
        crate::text::lemma_split_concat(front, blank, '/');
        assert(split(blank, '/') == seq![blank]);
        assert((a + b)[0] == a[0]);
        let lead = if is_rooted(a) {
            seq![root_mark()] + split(front, '/')
        } else {
            split(front, '/')
        };
        assert(components(a) == lead + seq![blank]);
        assert(components(a + b) == lead + split(b, '/'));
        lemma_collapse_concat(stack, lead, seq![blank]);
        lemma_collapse_single(collapse_onto(stack, lead), blank);
        lemma_collapse_concat(stack, lead, split(b, '/'));
    } else {
        let whole = a + root_mark() + b;
        assert(whole[0] == a[0]);
        crate::text::lemma_split_concat(a, b, '/');
        assert(components(whole) == components(a) + split(b, '/'));
        lemma_collapse_concat(stack, components(a), split(b, '/'));
    }
}

/// Whatever is joined onto a root without climbing out of it lies under
/// that root.
pub proof fn lemma_subpath_contained(cwd: Seq<char>, root: Seq<char>, sub: Seq<char>)
    requires
        confined(sub),
    ensures
        contained(cwd, root, joined(root, sub)),
{
    let none = Seq::<Seq<char>>::empty();
    let whole = joined(root, sub);
    let tail = collapse_onto(none, split(sub, '/'));
    lemma_collapse_joined(none, root, sub);
    if is_rooted(root) {
        lemma_collapse_confined(lexical(root), split(sub, '/'));
        assert(lexical(whole) == lexical(root) + tail);
    } else {
        let base = lexical(cwd);
        lemma_collapse_joined(none, cwd, whole);
        lemma_collapse_joined(base, root, sub);
        lemma_collapse_joined(none, cwd, root);
        let under = lexical(joined(cwd, root));
        lemma_collapse_confined(under, split(sub, '/'));
        assert(lexical(joined(cwd, whole)) == under + tail);
    }
}

/// The text of a canonical list begins at the root exactly when the list
/// begins with the root marker.
proof fn lemma_render_rooted(c: Seq<Seq<char>>)
    requires
        canonical(c),
    ensures
        is_rooted(render(c)) == (c.len() > 0 && c[0] == root_mark()),
{
    if c.len() > 0 && c[0] != root_mark() {
        crate::text::lemma_join_begins(c, root_mark());
        assert(canonical_at(c, 0));
        assert(render(c)[0] == c[0][0]);
        assert(c[0].contains(c[0][0]));
    }
}

/// Text added behind a join lands in its last piece.
proof fn lemma_join_grow_last(parts: Seq<Seq<char>>, sep: Seq<char>, more: Seq<char>)
    requires
        parts.len() >= 1,
    ensures
        join(parts.drop_last().push(parts.last() + more), sep) == join(parts, sep) + more,
{
    let grown = parts.drop_last().push(parts.last() + more);
    assert(grown.last() == parts.last() + more);
    assert(grown.drop_last() == parts.drop_last());
    if parts.len() > 1 {
        assert(join(parts.drop_last(), sep) + sep + (parts.last() + more) == join(
            parts.drop_last(),
            sep,
        ) + sep + parts.last() + more);
    }
}

/// A path that only lengthens the last component of a canonical absolute
/// root shares its text but no component boundary with it, and is not
/// under it.
pub proof fn lemma_sibling_not_contained(cwd: Seq<char>, root: Seq<char>, more: Seq<char>)
    requires
        is_rooted(root),
        normalized(root) == root,
        root.len() > 1,
        more.len() > 0,
        !more.contains('/'),
    ensures
        !contained(cwd, root, root + more),
{
    let c = lexical(root);
    lemma_lexical_canonical(root);
    lemma_render_rooted(c);
    lemma_marks_differ();
    let rest = c.drop_first();
    assert(rest.len() > 0) by {
        if rest.len() == 0 {
            assert(join(rest, root_mark()) == Seq::<char>::empty());
            assert(root == root_mark());
        }
    }
    let last = rest.last();
    let grown_rest = rest.drop_last().push(last + more);
    let grown = seq![root_mark()] + grown_rest;
    lemma_join_grow_last(rest, root_mark(), more);
    assert(grown.drop_first() == grown_rest);
    assert(render(grown) == root + more) by {
        assert(root_mark() + (join(rest, root_mark()) + more) == root_mark() + join(
            rest,
            root_mark(),
        ) + more);
    }
    let at = c.len() - 1;
    assert(c[at] == last);
    assert(grown[at] == last + more);
    assert(canonical_at(c, at));
    assert forall|i: int| 0 <= i < grown.len() implies #[trigger] canonical_at(grown, i) by {
        assert(canonical_at(c, i));
        if i < at {
            assert(grown[i] == c[i]);
            if i > 0 {
                assert(grown[i - 1] == c[i - 1]);
            }
        } else {
            let piece = last + more;
            assert(piece.len() >= 2);
            assert(piece != dot());
            assert(piece != root_mark());
            assert(piece != dotdot()) by {
                if piece == dotdot() {
                    assert(last.len() == 1);
                    assert(last[0] == piece[0]);
                    assert(last == dot());
                }
            }
            assert(!piece.contains('/')) by {
                if piece.contains('/') {
                    let j = choose|j: int| 0 <= j < piece.len() && piece[j] == '/';
                    if j < last.len() {
                        assert(last[j] == '/');
                        assert(last.contains('/'));
                    } else {
                        assert(more[j - last.len()] == '/');
                        assert(more.contains('/'));
                    }
                }
            }
        }
    }
    lemma_lexical_of_render(grown);
    assert((root + more)[0] == root[0]);
    assert(grown.subrange(0, c.len() as int)[at] != c[at]) by {
        assert((last + more).len() != last.len());
    }
}

/// Brings a path into canonical form without consulting the filesystem:
/// empty pieces and `.` are removed, and each `..` cancels the component
/// before it where there is one to cancel.
pub fn normalize_worktree_path(path: &str) -> (out: String)
    ensures
        out@ == normalized(path@),
{
    let chars = chars_of(path);
    let comps = lexical_components(&chars);
    let text = render_components(&comps);
    string_of(&text)
}

} // verus!
