//! Character-level helpers shared by the path, diff and naming modules.
//!
//! Strings are viewed as sequences of Unicode scalar values; every function
//! here states its result over that view.

use vstd::prelude::*;

verus! {

/// `String::push` appends exactly the given character.
pub assume_specification[ String::push ](s: &mut String, ch: char)
    ensures
        final(s)@ == old(s)@.push(ch),
;

/// Whether `c` is white space: one of the code points with the Unicode
/// property `White_Space`, which are the controls U+0009 to U+000D and
/// U+0085, the space, and the spaces and line and paragraph separators
/// beyond ASCII.
pub open spec fn is_white_space(c: char) -> bool {
    ||| '\u{9}' <= c && c <= '\u{d}'
    ||| c == ' '
    ||| c == '\u{85}'
    ||| c == '\u{a0}'
    ||| c == '\u{1680}'
    ||| '\u{2000}' <= c && c <= '\u{200a}'
    ||| c == '\u{2028}'
    ||| c == '\u{2029}'
    ||| c == '\u{202f}'
    ||| c == '\u{205f}'
    ||| c == '\u{3000}'
}

/// Whether `c` is an ASCII letter.
pub open spec fn is_ascii_letter(c: char) -> bool {
    ('a' <= c && c <= 'z') || ('A' <= c && c <= 'Z')
}

/// Whether `c` is an ASCII digit.
pub open spec fn is_ascii_digit(c: char) -> bool {
    '0' <= c && c <= '9'
}

/// `s` without the white space at its start.
pub open spec fn trim_start(s: Seq<char>) -> Seq<char>
    decreases s.len(),
{
    if s.len() > 0 && is_white_space(s[0]) {
        trim_start(s.drop_first())
    } else {
        s
    }
}

/// `s` without the white space at its end.
pub open spec fn trim_end(s: Seq<char>) -> Seq<char>
    decreases s.len(),
{
    if s.len() > 0 && is_white_space(s.last()) {
        trim_end(s.drop_last())
    } else {
        s
    }
}

/// `s` without the white space at either end.
pub open spec fn trimmed(s: Seq<char>) -> Seq<char> {
    trim_end(trim_start(s))
}

/// `s` without the run of `c` at its end.
pub open spec fn trim_end_char(s: Seq<char>, c: char) -> Seq<char>
    decreases s.len(),
{
    if s.len() > 0 && s.last() == c {
        trim_end_char(s.drop_last(), c)
    } else {
        s
    }
}

/// `s` without the run of `c` at its start.
pub open spec fn trim_start_char(s: Seq<char>, c: char) -> Seq<char>
    decreases s.len(),
{
    if s.len() > 0 && s[0] == c {
        trim_start_char(s.drop_first(), c)
    } else {
        s
    }
}

/// The pieces of `s` that lie between white-space characters.
pub open spec fn fields(s: Seq<char>) -> Seq<Seq<char>>
    decreases s.len(),
{
    if s.len() == 0 {
        seq![Seq::<char>::empty()]
    } else {
        let init = fields(s.drop_last());
        if is_white_space(s.last()) {
            init.push(Seq::<char>::empty())
        } else {
            init.drop_last().push(init.last().push(s.last()))
        }
    }
}

/// The pieces that are not empty, in order.
pub open spec fn nonempty(parts: Seq<Seq<char>>) -> Seq<Seq<char>>
    decreases parts.len(),
{
    if parts.len() == 0 {
        Seq::<Seq<char>>::empty()
    } else if parts.last().len() > 0 {
        nonempty(parts.drop_last()).push(parts.last())
    } else {
        nonempty(parts.drop_last())
    }
}

/// The words of `s`: its maximal runs of characters that are not white
/// space.
pub open spec fn words(s: Seq<char>) -> Seq<Seq<char>> {
    nonempty(fields(s))
}

/// `s` without `prefix` in front, where it is there.
pub open spec fn without_prefix(s: Seq<char>, prefix: Seq<char>) -> Seq<char> {
    if prefix.is_prefix_of(s) {
        s.skip(prefix.len() as int)
    } else {
        s
    }
}

/// `s` without any of the repetitions of `prefix` in front of it.
pub open spec fn without_prefixes(s: Seq<char>, prefix: Seq<char>) -> Seq<char>
    decreases s.len(),
{
    if prefix.len() > 0 && prefix.is_prefix_of(s) {
        without_prefixes(s.skip(prefix.len() as int), prefix)
    } else {
        s
    }
}

/// The views of a list of character buffers.
pub open spec fn rows(v: Seq<Vec<char>>) -> Seq<Seq<char>> {
    v.map_values(|r: Vec<char>| r@)
}

/// The views of a list of strings.
pub open spec fn texts(v: Seq<String>) -> Seq<Seq<char>> {
    v.map_values(|s: String| s@)
}

/// The pieces of `s` that lie between occurrences of `sep`. There is always
/// at least one piece; adjacent separators give empty pieces.
pub open spec fn split(s: Seq<char>, sep: char) -> Seq<Seq<char>>
    decreases s.len(),
{
    if s.len() == 0 {
        seq![Seq::<char>::empty()]
    } else {
        let init = split(s.drop_last(), sep);
        if s.last() == sep {
            init.push(Seq::<char>::empty())
        } else {
            init.drop_last().push(init.last().push(s.last()))
        }
    }
}

/// The pieces glued together with `sep` between neighbours.
pub open spec fn join(parts: Seq<Seq<char>>, sep: Seq<char>) -> Seq<char>
    decreases parts.len(),
{
    if parts.len() == 0 {
        Seq::<char>::empty()
    } else if parts.len() == 1 {
        parts[0]
    } else {
        join(parts.drop_last(), sep) + sep + parts.last()
    }
}

/// `s` with every occurrence of `from` replaced by `to`.
pub open spec fn replaced(s: Seq<char>, from: char, to: char) -> Seq<char> {
    s.map_values(
        |c: char|
            if c == from {
                to
            } else {
                c
            },
    )
}

/// The characters of `s`, in order.
pub(crate) fn chars_of(s: &str) -> (v: Vec<char>)
    ensures
        v@ == s@,
{
    let mut v: Vec<char> = Vec::new();
    for c in it: s.chars()
        invariant
            it.seq() == s@,
            v@ == it.seq().take(it.index() as int),
    {
        v.push(c);
    }
    v
}

/// The string made of the characters of `v`, in order.
pub(crate) fn string_of(v: &Vec<char>) -> (s: String)
    ensures
        s@ == v@,
{
    let mut s = String::new();
    let mut i: usize = 0;
    while i < v.len()
        invariant
            i <= v.len(),
            s@ == v@.take(i as int),
        decreases v.len() - i,
    {
        s.push(v[i]);
        i += 1;
    }
    s
}

/// Whether the two buffers hold the same characters.
pub(crate) fn same_chars(a: &Vec<char>, b: &Vec<char>) -> (same: bool)
    ensures
        same == (a@ == b@),
{
    if a.len() != b.len() {
        return false;
    }
    let mut i: usize = 0;
    while i < a.len()
        invariant
            i <= a.len(),
            a.len() == b.len(),
            a@.take(i as int) == b@.take(i as int),
        decreases a.len() - i,
    {
        if a[i] != b[i] {
            return false;
        }
        assert(a@.take(i as int + 1) == a@.take(i as int).push(a@[i as int]));
        assert(b@.take(i as int + 1) == b@.take(i as int).push(b@[i as int]));
        i += 1;
    }
    assert(a@.take(a.len() as int) == a@);
    assert(b@.take(b.len() as int) == b@);
    true
}

/// Whether `s` begins with the characters of `prefix`.
pub(crate) fn starts_with_chars(s: &Vec<char>, prefix: &Vec<char>) -> (yes: bool)
    ensures
        yes == prefix@.is_prefix_of(s@),
{
    if prefix.len() > s.len() {
        return false;
    }
    let mut i: usize = 0;
    while i < prefix.len()
        invariant
            i <= prefix.len() <= s.len(),
            prefix@.take(i as int) == s@.take(i as int),
        decreases prefix.len() - i,
    {
        if prefix[i] != s[i] {
            assert(s@.subrange(0, prefix.len() as int)[i as int] != prefix@[i as int]);
            return false;
        }
        assert(prefix@.take(i as int + 1) == prefix@.take(i as int).push(prefix@[i as int]));
        assert(s@.take(i as int + 1) == s@.take(i as int).push(s@[i as int]));
        i += 1;
    }
    assert(prefix@.take(prefix.len() as int) == prefix@);
    assert(s@.take(prefix.len() as int) == s@.subrange(0, prefix.len() as int));
    true
}

/// Whether `c` is white space.
pub fn white_space(c: char) -> (b: bool)
    ensures
        b == is_white_space(c),
{
    (c >= '\u{9}' && c <= '\u{d}') || c == ' ' || c == '\u{85}' || c == '\u{a0}' || c == '\u{1680}'
        || (c >= '\u{2000}' && c <= '\u{200a}') || c == '\u{2028}' || c == '\u{2029}' || c
        == '\u{202f}' || c == '\u{205f}' || c == '\u{3000}'
}

/// Whether `c` is an ASCII letter.
pub(crate) fn ascii_letter(c: char) -> (b: bool)
    ensures
        b == is_ascii_letter(c),
{
    (c >= 'a' && c <= 'z') || (c >= 'A' && c <= 'Z')
}

/// Whether `c` is an ASCII digit.
pub(crate) fn ascii_digit(c: char) -> (b: bool)
    ensures
        b == is_ascii_digit(c),
{
    c >= '0' && c <= '9'
}

/// The characters of `v` from `from` up to `to`.
pub(crate) fn slice_chars(v: &Vec<char>, from: usize, to: usize) -> (out: Vec<char>)
    requires
        from <= to <= v.len(),
    ensures
        out@ == v@.subrange(from as int, to as int),
{
    let mut out: Vec<char> = Vec::new();
    let mut i: usize = from;
    while i < to
        invariant
            from <= i <= to <= v.len(),
            out@ == v@.subrange(from as int, i as int),
        decreases to - i,
    {
        out.push(v[i]);
        assert(v@.subrange(from as int, i as int + 1) == v@.subrange(from as int, i as int).push(
            v@[i as int],
        ));
        i += 1;
    }
    out
}

/// Where `v` begins once the white space at its start is passed.
fn space_start(v: &Vec<char>, to: usize) -> (from: usize)
    requires
        to <= v.len(),
    ensures
        from <= to,
        v@.subrange(from as int, to as int) == trim_start(v@.subrange(0, to as int)),
{
    let mut from: usize = 0;
    while from < to && white_space(v[from])
        invariant
            from <= to <= v.len(),
            trim_start(v@.subrange(from as int, to as int)) == trim_start(
                v@.subrange(0, to as int),
            ),
        decreases to - from,
    {
        assert(v@.subrange(from as int, to as int).drop_first() == v@.subrange(
            from as int + 1,
            to as int,
        ));
        from += 1;
    }
    from
}

/// Where `v` ends once the white space at its end is dropped.
fn space_end(v: &Vec<char>) -> (to: usize)
    ensures
        to <= v.len(),
        v@.subrange(0, to as int) == trim_end(v@),
{
    let mut to: usize = v.len();
    assert(v@.subrange(0, to as int) == v@);
    while to > 0 && white_space(v[to - 1])
        invariant
            to <= v.len(),
            trim_end(v@.subrange(0, to as int)) == trim_end(v@),
        decreases to,
    {
        assert(v@.subrange(0, to as int).drop_last() == v@.subrange(0, to as int - 1));
        to -= 1;
    }
    to
}

/// `v` without the white space at its end.
pub(crate) fn trim_end_chars(v: &Vec<char>) -> (out: Vec<char>)
    ensures
        out@ == trim_end(v@),
{
    let to = space_end(v);
    slice_chars(v, 0, to)
}

/// `v` without the white space at either end.
pub(crate) fn trim_chars(v: &Vec<char>) -> (out: Vec<char>)
    ensures
        out@ == trimmed(v@),
{
    let to = space_end(v);
    let from = space_start(v, to);
    proof {
        lemma_trim_commutes(v@);
    }
    slice_chars(v, from, to)
}

/// The words of `v`, in order.
pub(crate) fn words_of(v: &Vec<char>) -> (out: Vec<Vec<char>>)
    ensures
        rows(out@) == words(v@),
{
    let mut done: Vec<Vec<char>> = Vec::new();
    let mut cur: Vec<char> = Vec::new();
    let mut i: usize = 0;
    while i < v.len()
        invariant
            i <= v.len(),
            fields(v@.take(i as int)).len() >= 1,
            rows(done@) == nonempty(fields(v@.take(i as int)).drop_last()),
            cur@ == fields(v@.take(i as int)).last(),
        decreases v.len() - i,
    {
        let c = v[i];
        proof {
            let next = v@.take(i as int + 1);
            assert(next.drop_last() == v@.take(i as int));
            assert(next.last() == c);
            lemma_fields_nonempty(next);
            let init = fields(v@.take(i as int));
            if is_white_space(c) {
                assert(init.push(Seq::<char>::empty()).drop_last() == init);
            } else {
                assert(init.drop_last().push(init.last().push(c)).drop_last() == init.drop_last());
            }
        }
        if white_space(c) {
            if cur.len() > 0 {
                let ghost before = rows(done@);
                done.push(cur);
                assert(rows(done@) == before.push(done@.last()@));
            }
            cur = Vec::new();
        } else {
            cur.push(c);
        }
        i += 1;
    }
    proof {
        assert(v@.take(v.len() as int) == v@);
        lemma_fields_nonempty(v@);
    }
    if cur.len() > 0 {
        let ghost before = rows(done@);
        done.push(cur);
        assert(rows(done@) == before.push(done@.last()@));
    }
    done
}

/// `v` with every occurrence of `from` replaced by `to`.
pub(crate) fn replace_char(v: &Vec<char>, from: char, to: char) -> (out: Vec<char>)
    ensures
        out@ == replaced(v@, from, to),
{
    let mut out: Vec<char> = Vec::new();
    let mut i: usize = 0;
    while i < v.len()
        invariant
            i <= v.len(),
            out@ == replaced(v@.take(i as int), from, to),
        decreases v.len() - i,
    {
        let c = v[i];
        out.push(if c == from {
            to
        } else {
            c
        });
        assert(v@.take(i as int + 1) == v@.take(i as int).push(c));
        assert(out@ == replaced(v@.take(i as int + 1), from, to));
        i += 1;
    }
    assert(v@.take(v.len() as int) == v@);
    out
}

/// `v` without `prefix` in front, where it is there.
pub(crate) fn strip_prefix_chars(v: &Vec<char>, prefix: &Vec<char>) -> (out: Vec<char>)
    ensures
        out@ == without_prefix(v@, prefix@),
{
    if starts_with_chars(v, prefix) {
        slice_chars(v, prefix.len(), v.len())
    } else {
        slice_chars(v, 0, v.len())
    }
}

/// `v` without any of the repetitions of `prefix` in front of it.
pub(crate) fn strip_prefixes_chars(v: &Vec<char>, prefix: &Vec<char>) -> (out: Vec<char>)
    ensures
        out@ == without_prefixes(v@, prefix@),
{
    let mut out = slice_chars(v, 0, v.len());
    assert(out@ == v@);
    while prefix.len() > 0 && starts_with_chars(&out, prefix)
        invariant
            without_prefixes(out@, prefix@) == without_prefixes(v@, prefix@),
        decreases out.len(),
    {
        out = slice_chars(&out, prefix.len(), out.len());
    }
    out
}

/// Where `v` ends once the run of `c` at its end is dropped.
pub(crate) fn end_without(v: &Vec<char>, c: char) -> (to: usize)
    ensures
        to <= v.len(),
        v@.subrange(0, to as int) == trim_end_char(v@, c),
{
    let mut to: usize = v.len();
    assert(v@.subrange(0, to as int) == v@);
    while to > 0 && v[to - 1] == c
        invariant
            to <= v.len(),
            trim_end_char(v@.subrange(0, to as int), c) == trim_end_char(v@, c),
        decreases to,
    {
        assert(v@.subrange(0, to as int).drop_last() == v@.subrange(0, to as int - 1));
        to -= 1;
    }
    to
}

/// `v` without the runs of `c` at its two ends.
pub(crate) fn trim_char_both(v: &Vec<char>, c: char) -> (out: Vec<char>)
    ensures
        out@ == trim_start_char(trim_end_char(v@, c), c),
{
    let to = end_without(v, c);
    let mut from: usize = 0;
    assert(v@.subrange(0, to as int) == v@.subrange(from as int, to as int));
    while from < to && v[from] == c
        invariant
            from <= to <= v.len(),
            trim_start_char(v@.subrange(from as int, to as int), c) == trim_start_char(
                trim_end_char(v@, c),
                c,
            ),
        decreases to - from,
    {
        assert(v@.subrange(from as int, to as int).drop_first() == v@.subrange(
            from as int + 1,
            to as int,
        ));
        from += 1;
    }
    slice_chars(v, from, to)
}

/// Appends the characters of `more` to `out`.
pub(crate) fn append_chars(out: &mut Vec<char>, more: &Vec<char>)
    ensures
        final(out)@ == old(out)@ + more@,
{
    let mut i: usize = 0;
    while i < more.len()
        invariant
            i <= more.len(),
            out@ == old(out)@ + more@.take(i as int),
        decreases more.len() - i,
    {
        out.push(more[i]);
        i += 1;
    }
    assert(more@.take(more.len() as int) == more@);
}

/// Glues the buffers from index `start` on together, with `sep` between
/// neighbours.
pub(crate) fn join_chars(parts: &Vec<Vec<char>>, start: usize, sep: &Vec<char>) -> (out: Vec<char>)
    requires
        start <= parts.len(),
    ensures
        out@ == join(rows(parts@).skip(start as int), sep@),
{
    let mut out: Vec<char> = Vec::new();
    let mut i: usize = start;
    while i < parts.len()
        invariant
            start <= i <= parts.len(),
            out@ == join(rows(parts@).subrange(start as int, i as int), sep@),
        decreases parts.len() - i,
    {
        proof {
            let grown = rows(parts@).subrange(start as int, i as int + 1);
            assert(grown.drop_last() == rows(parts@).subrange(start as int, i as int));
            assert(grown.last() == parts@[i as int]@);
        }
        if i > start {
            append_chars(&mut out, sep);
        }
        append_chars(&mut out, &parts[i]);
        i += 1;
    }
    assert(rows(parts@).subrange(start as int, parts.len() as int) == rows(parts@).skip(
        start as int,
    ));
    out
}

/// Splits `v` at every occurrence of `sep`.
pub(crate) fn split_chars(v: &Vec<char>, sep: char) -> (parts: Vec<Vec<char>>)
    ensures
        rows(parts@) == split(v@, sep),
{
    let mut parts: Vec<Vec<char>> = Vec::new();
    let mut cur: Vec<char> = Vec::new();
    let mut i: usize = 0;
    while i < v.len()
        invariant
            i <= v.len(),
            rows(parts@).push(cur@) == split(v@.take(i as int), sep),
        decreases v.len() - i,
    {
        let c = v[i];
        proof {
            let next = v@.take(i as int + 1);
            assert(next.drop_last() == v@.take(i as int));
            assert(next.last() == c);
        }
        if c == sep {
            let ghost before = rows(parts@);
            parts.push(cur);
            cur = Vec::new();
            assert(rows(parts@) == before.push(parts@.last()@));
        } else {
            let ghost before = cur@;
            cur.push(c);
            assert(rows(parts@).push(before).drop_last() == rows(parts@));
        }
        i += 1;
    }
    let ghost before = rows(parts@);
    parts.push(cur);
    proof {
        assert(v@.take(v.len() as int) == v@);
        assert(rows(parts@) == before.push(parts@.last()@));
    }
    parts
}

/// A copy of the buffer.
pub(crate) fn copy_chars(v: &Vec<char>) -> (out: Vec<char>)
    ensures
        out@ == v@,
{
    let out = slice_chars(v, 0, v.len());
    assert(v@.subrange(0, v.len() as int) == v@);
    out
}

/// A copy of the text.
pub(crate) fn copy_of(s: &str) -> (out: String)
    ensures
        out@ == s@,
{
    string_of(&chars_of(s))
}

/// A text built of two parts.
pub(crate) fn concat2(a: &str, b: &str) -> (out: String)
    ensures
        out@ == a@ + b@,
{
    let mut buf = chars_of(a);
    append_chars(&mut buf, &chars_of(b));
    string_of(&buf)
}

/// Adds a copy of the text to the end of the list.
pub(crate) fn push_text(list: &mut Vec<String>, s: &str)
    ensures
        texts(final(list)@) == texts(old(list)@).push(s@),
{
    list.push(string_of(&chars_of(s)));
    assert(texts(list@) =~= texts(old(list)@).push(s@));
}

/// Adds the text to the end of the list.
pub(crate) fn push_owned(list: &mut Vec<String>, s: String)
    ensures
        texts(final(list)@) == texts(old(list)@).push(s@),
{
    list.push(s);
    assert(texts(list@) =~= texts(old(list)@).push(s@));
}

/// A split has at least one piece.
pub proof fn lemma_split_nonempty(s: Seq<char>, sep: char)
    ensures
        split(s, sep).len() >= 1,
    decreases s.len(),
{
    if s.len() > 0 {
        lemma_split_nonempty(s.drop_last(), sep);
    }
}

/// No piece of a split contains the separator.
pub proof fn lemma_split_pieces_lack_sep(s: Seq<char>, sep: char)
    ensures
        forall|i: int| 0 <= i < split(s, sep).len() ==> !(#[trigger] split(s, sep)[i]).contains(sep),
    decreases s.len(),
{
    lemma_split_nonempty(s, sep);
    if s.len() > 0 {
        let init = split(s.drop_last(), sep);
        lemma_split_pieces_lack_sep(s.drop_last(), sep);
        lemma_split_nonempty(s.drop_last(), sep);
        if s.last() != sep {
            let grown = init.last().push(s.last());
            assert forall|j: int| 0 <= j < grown.len() implies grown[j] != sep by {
                if j < init.last().len() {
                    assert(init.last()[j] == grown[j]);
                    assert(init.last().contains(grown[j]));
                }
            }
        }
    }
}

/// Splitting distributes over a separator placed between two texts.
pub proof fn lemma_split_concat(a: Seq<char>, b: Seq<char>, sep: char)
    ensures
        split(a + seq![sep] + b, sep) == split(a, sep) + split(b, sep),
    decreases b.len(),
{
    let whole = a + seq![sep] + b;
    if b.len() == 0 {
        assert(whole.drop_last() == a);
        assert(split(b, sep) == seq![Seq::<char>::empty()]);
        assert(split(a, sep).push(Seq::<char>::empty()) == split(a, sep) + split(b, sep));
    } else {
        assert(whole.drop_last() == a + seq![sep] + b.drop_last());
        assert(whole.last() == b.last());
        lemma_split_concat(a, b.drop_last(), sep);
        lemma_split_nonempty(b.drop_last(), sep);
        lemma_split_nonempty(a, sep);
        let left = split(a, sep);
        let init = split(b.drop_last(), sep);
        if b.last() == sep {
            assert((left + init).push(Seq::<char>::empty()) == left + init.push(
                Seq::<char>::empty(),
            ));
        } else {
            assert((left + init).last() == init.last());
            assert((left + init).drop_last() == left + init.drop_last());
            assert((left + init.drop_last()).push(init.last().push(b.last())) == left
                + init.drop_last().push(init.last().push(b.last())));
        }
    }
}

/// A text without separators splits into itself.
pub proof fn lemma_split_plain(s: Seq<char>, sep: char)
    requires
        !s.contains(sep),
    ensures
        split(s, sep) == seq![s],
    decreases s.len(),
{
    if s.len() == 0 {
        assert(s == Seq::<char>::empty());
    } else {
        assert forall|j: int| 0 <= j < s.drop_last().len() implies s.drop_last()[j] != sep by {
            assert(s[j] == s.drop_last()[j]);
            assert(s.contains(s[j]));
        }
        lemma_split_plain(s.drop_last(), sep);
        assert(s.contains(s.last()));
        assert(seq![s.drop_last()].drop_last().push(s.drop_last().push(s.last())) == seq![s]) by {
            assert(s.drop_last().push(s.last()) == s);
        }
    }
}

/// Joining separator-free pieces and splitting again gives the pieces back.
pub proof fn lemma_split_join(parts: Seq<Seq<char>>, sep: char)
    requires
        parts.len() >= 1,
        forall|i: int| 0 <= i < parts.len() ==> !(#[trigger] parts[i]).contains(sep),
    ensures
        split(join(parts, seq![sep]), sep) == parts,
    decreases parts.len(),
{
    if parts.len() == 1 {
        lemma_split_plain(parts[0], sep);
    } else {
        let init = parts.drop_last();
        assert forall|i: int| 0 <= i < init.len() implies !(#[trigger] init[i]).contains(sep) by {
            assert(init[i] == parts[i]);
        }
        lemma_split_join(init, sep);
        lemma_split_concat(join(init, seq![sep]), parts.last(), sep);
        lemma_split_plain(parts.last(), sep);
        assert(init + seq![parts.last()] == parts);
    }
}

/// Trimming the start of a text leaves its end alone, and the other way
/// round.
pub proof fn lemma_trim_commutes(s: Seq<char>)
    ensures
        trim_start(trim_end(s)) == trim_end(trim_start(s)),
    decreases s.len(),
{
    if s.len() == 0 {
    } else if is_white_space(s.last()) {
        lemma_trim_commutes(s.drop_last());
        lemma_trim_start_of_blank_end(s);
    } else {
        lemma_trim_start_keeps_end(s);
    }
}

/// Trimming the start of a text that ends in white space.
proof fn lemma_trim_start_of_blank_end(s: Seq<char>)
    requires
        s.len() > 0,
        is_white_space(s.last()),
    ensures
        trim_end(trim_start(s)) == trim_end(trim_start(s.drop_last())),
    decreases s.len(),
{
    if is_white_space(s[0]) {
        if s.len() == 1 {
            assert(s.drop_first() == s.drop_last());
        } else {
            lemma_trim_start_of_blank_end(s.drop_first());
            assert(s.drop_first().drop_last() == s.drop_last().drop_first());
            assert(s.drop_last()[0] == s[0]);
        }
    } else {
        assert(s.len() > 1);
        assert(s.drop_last()[0] == s[0]);
    }
}

/// Trimming the start of a text that does not end in white space leaves a
/// text that does not end in white space.
proof fn lemma_trim_start_keeps_end(s: Seq<char>)
    requires
        s.len() > 0,
        !is_white_space(s.last()),
    ensures
        trim_end(trim_start(s)) == trim_start(s),
        trim_start(s).len() > 0,
        trim_start(s).last() == s.last(),
    decreases s.len(),
{
    if is_white_space(s[0]) {
        assert(s.len() > 1);
        assert(s.drop_first().last() == s.last());
        lemma_trim_start_keeps_end(s.drop_first());
    }
}

/// There is at least one piece between white-space characters.
pub proof fn lemma_fields_nonempty(s: Seq<char>)
    ensures
        fields(s).len() >= 1,
    decreases s.len(),
{
    if s.len() > 0 {
        lemma_fields_nonempty(s.drop_last());
    }
}

/// A non-empty join begins with its first piece.
pub proof fn lemma_join_begins(parts: Seq<Seq<char>>, sep: Seq<char>)
    requires
        parts.len() >= 1,
    ensures
        parts[0].is_prefix_of(join(parts, sep)),
    decreases parts.len(),
{
    if parts.len() > 1 {
        lemma_join_begins(parts.drop_last(), sep);
        assert(parts.drop_last()[0] == parts[0]);
    }
}

/// No piece of a split holds a character that the text does not hold.
pub proof fn lemma_split_pieces_lack(s: Seq<char>, sep: char, c: char)
    requires
        !s.contains(c),
    ensures
        forall|i: int| 0 <= i < split(s, sep).len() ==> !(#[trigger] split(s, sep)[i]).contains(c),
    decreases s.len(),
{
    if s.len() > 0 {
        let init = split(s.drop_last(), sep);
        assert forall|j: int| 0 <= j < s.drop_last().len() implies s.drop_last()[j] != c by {
            assert(s[j] == s.drop_last()[j]);
            assert(s.contains(s[j]));
        }
        lemma_split_pieces_lack(s.drop_last(), sep, c);
        lemma_split_nonempty(s.drop_last(), sep);
        assert(s.contains(s.last()));
        if s.last() != sep {
            let grown = init.last().push(s.last());
            assert forall|j: int| 0 <= j < grown.len() implies grown[j] != c by {
                if j < init.last().len() {
                    assert(init.last()[j] == grown[j]);
                    assert(init.last().contains(grown[j]));
                }
            }
        }
    }
}

/// A non-empty join ends with its last piece.
pub proof fn lemma_join_ends(parts: Seq<Seq<char>>, sep: Seq<char>)
    requires
        parts.len() >= 1,
    ensures
        parts.last().is_suffix_of(join(parts, sep)),
{
    let whole = join(parts, sep);
    let last = parts.last();
    if parts.len() > 1 {
        let front = join(parts.drop_last(), sep) + sep;
        assert(whole == front + last);
        assert(whole.subrange(whole.len() - last.len(), whole.len() as int) == last);
    } else {
        assert(whole.subrange(0, whole.len() as int) == last);
    }
}

/// A join holds no character that neither its pieces nor the separator
/// hold.
pub proof fn lemma_join_lacks(parts: Seq<Seq<char>>, sep: Seq<char>, c: char)
    requires
        !sep.contains(c),
        forall|i: int| 0 <= i < parts.len() ==> !(#[trigger] parts[i]).contains(c),
    ensures
        !join(parts, sep).contains(c),
    decreases parts.len(),
{
    let whole = join(parts, sep);
    if parts.len() == 1 {
        assert(whole == parts[0]);
    } else if parts.len() > 1 {
        let init = parts.drop_last();
        assert forall|i: int| 0 <= i < init.len() implies !(#[trigger] init[i]).contains(c) by {
            assert(init[i] == parts[i]);
        }
        lemma_join_lacks(init, sep, c);
        let front = join(init, sep);
        let last = parts.last();
        assert(last == parts[parts.len() - 1]);
        if whole.contains(c) {
            let j = choose|j: int| 0 <= j < whole.len() && whole[j] == c;
            if j < front.len() {
                assert(front[j] == c);
                assert(front.contains(c));
            } else if j < front.len() + sep.len() {
                assert(sep[j - front.len()] == c);
                assert(sep.contains(c));
            } else {
                assert(last[j - front.len() - sep.len()] == c);
                assert(last.contains(c));
            }
        }
    }
}

} // verus!
