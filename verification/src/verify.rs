//! The verification run: named commands, the evidence file of each, and
//! the summary of all.

use vstd::prelude::*;
use crate::host::{unexpected_reply, Ask, Reply, Request, Step, Turn};
use crate::lexical::{join_path, joined};
use crate::text::{
    append_chars, ascii_digit, ascii_letter, chars_of, concat2, copy_of, is_ascii_digit,
    is_ascii_letter, string_of, trim_char_both, trim_chars, trim_end_char, trim_start_char, trimmed,
};

verus! {

/// A command to run, and the name under which its output is kept.
pub struct VerifyCmdIn {
    pub name: String,
    pub command: String,
}

/// A verification run: the commands, the checkout in which they run, and
/// the directory that receives the evidence.
pub struct VerifyRunIn {
    pub worktree_path: String,
    pub out_dir: String,
    pub commands: Vec<VerifyCmdIn>,
}

/// How one command ended, and where its output is.
pub struct VerifyCmdOut {
    pub name: String,
    pub command: String,
    pub ok: bool,
    pub exit_code: i32,
    pub output_path: String,
}

/// The outcome of a verification run.
pub struct VerifySummaryOut {
    pub version: i32,
    pub ran_at: String,
    pub commands: Vec<VerifyCmdOut>,
    pub ok: bool,
}

/// How one command ended, as contracts speak of it.
pub struct ResultView {
    pub name: Seq<char>,
    pub command: Seq<char>,
    pub ok: bool,
    pub exit_code: i32,
    pub output_path: Seq<char>,
}

/// The outcome of a run, as contracts speak of it.
pub struct SummaryView {
    pub version: i32,
    pub ran_at: Seq<char>,
    pub commands: Seq<ResultView>,
    pub ok: bool,
}

impl View for VerifyCmdOut {
    type V = ResultView;

    open spec fn view(&self) -> ResultView {
        ResultView {
            name: self.name@,
            command: self.command@,
            ok: self.ok,
            exit_code: self.exit_code,
            output_path: self.output_path@,
        }
    }
}

/// The views of a list of results.
pub open spec fn result_views(results: Seq<VerifyCmdOut>) -> Seq<ResultView> {
    results.map_values(|r: VerifyCmdOut| r@)
}

impl View for VerifySummaryOut {
    type V = SummaryView;

    open spec fn view(&self) -> SummaryView {
        SummaryView {
            version: self.version,
            ran_at: self.ran_at@,
            commands: result_views(self.commands@),
            ok: self.ok,
        }
    }
}

/// The lower-case form of a text, as the standard library maps it.
pub uninterp spec fn lowercase(s: Seq<char>) -> Seq<char>;

/// `str::to_lowercase` maps a text to its lower-case form by the rules of
/// Unicode; the mapping is given a name here and not spelled out.
pub assume_specification[ str::to_lowercase ](s: &str) -> (out: String)
    ensures
        out@ == lowercase(s@),
;

/// Whether a character is kept in a file name as it is: an ASCII letter
/// or digit. Every other character belongs to a run that one separator
/// stands for.
pub open spec fn keeps(c: char) -> bool {
    is_ascii_letter(c) || is_ascii_digit(c)
}

/// The text with each run of characters that are not kept replaced by one
/// `-`.
pub open spec fn dashed(s: Seq<char>) -> Seq<char>
    decreases s.len(),
{
    if s.len() == 0 {
        Seq::empty()
    } else if keeps(s.last()) {
        dashed(s.drop_last()).push(s.last())
    } else if s.len() >= 2 && !keeps(s[s.len() - 2]) {
        dashed(s.drop_last())
    } else {
        dashed(s.drop_last()).push('-')
    }
}

/// What stands in for a name of which nothing is left.
pub open spec fn placeholder() -> Seq<char> {
    "command"@
}

/// The file name made of a text already in lower case: each run of
/// characters other than letters and digits becomes one `-`, the `-` at
/// both ends are dropped, and the placeholder stands in where nothing is
/// left.
pub open spec fn file_stem(lowered: Seq<char>) -> Seq<char> {
    let core = trim_start_char(trim_end_char(dashed(lowered), '-'), '-');
    if core.len() == 0 {
        placeholder()
    } else {
        core
    }
}

/// The file name that stands for a command's name.
pub open spec fn safe_name_of(name: Seq<char>) -> Seq<char> {
    file_stem(lowercase(trimmed(name)))
}

/// Whether the text is made of ASCII letters, digits and single `-`
/// between them alone.
pub open spec fn is_safe_name(s: Seq<char>) -> bool {
    &&& forall|i: int| 0 <= i < s.len() ==> keeps(#[trigger] s[i]) || s[i] == '-'
    &&& forall|i: int| 0 <= i < s.len() - 1 ==> !(#[trigger] s[i] == '-' && s[i + 1] == '-')
    &&& s.len() > 0 ==> s[0] != '-' && s.last() != '-'
}

/// Once runs are replaced, only letters, digits and `-` are left, no `-`
/// follows another, and a `-` stands at the end exactly where the text
/// ends in a character that is not kept.
proof fn lemma_dashed_shape(s: Seq<char>)
    ensures
        forall|i: int| 0 <= i < dashed(s).len() ==> keeps(#[trigger] dashed(s)[i]) || dashed(s)[i]
            == '-',
        forall|i: int|
            0 <= i < dashed(s).len() - 1 ==> !(#[trigger] dashed(s)[i] == '-' && dashed(s)[i + 1]
                == '-'),
        s.len() > 0 ==> dashed(s).len() > 0 && (dashed(s).last() == '-' <==> !keeps(s.last())),
    decreases s.len(),
{
    if s.len() > 0 {
        let init = s.drop_last();
        lemma_dashed_shape(init);
        if init.len() > 0 {
            assert(init.last() == s[s.len() - 2]);
        }
    }
}

/// What is left when the run of `c` at the end is dropped is the front of
/// the text, up to the place that is returned.
proof fn lemma_trim_end_is_front(s: Seq<char>, c: char) -> (k: int)
    ensures
        0 <= k <= s.len(),
        trim_end_char(s, c) == s.take(k),
        k > 0 ==> s[k - 1] != c,
    decreases s.len(),
{
    if s.len() > 0 && s.last() == c {
        let k = lemma_trim_end_is_front(s.drop_last(), c);
        assert(s.drop_last().take(k) == s.take(k));
        k
    } else {
        assert(s.take(s.len() as int) == s);
        s.len() as int
    }
}

/// What is left when the run of `c` at the start is dropped is the back of
/// the text, from the place that is returned.
proof fn lemma_trim_start_is_back(s: Seq<char>, c: char) -> (k: int)
    ensures
        0 <= k <= s.len(),
        trim_start_char(s, c) == s.skip(k),
        k < s.len() ==> s[k] != c,
    decreases s.len(),
{
    if s.len() > 0 && s[0] == c {
        let k = lemma_trim_start_is_back(s.drop_first(), c);
        assert(s.drop_first().skip(k) == s.skip(k + 1));
        k + 1
    } else {
        assert(s.skip(0) == s);
        0
    }
}

/// A file name made here is safe for a file: it is not empty, it is made
/// of ASCII letters, digits and `-` alone, no `-` follows another, and it
/// neither begins nor ends with `-`.
pub proof fn lemma_file_stem_is_safe(lowered: Seq<char>)
    ensures
        file_stem(lowered).len() > 0,
        is_safe_name(file_stem(lowered)),
{
    let marked = dashed(lowered);
    lemma_dashed_shape(lowered);
    let to = lemma_trim_end_is_front(marked, '-');
    let front = marked.take(to);
    let from = lemma_trim_start_is_back(front, '-');
    let core = front.skip(from);
    if core.len() == 0 {
        reveal_strlit("command");
        let p = placeholder();
        assert(p.len() == 7);
        assert(p[0] == 'c' && p[1] == 'o' && p[2] == 'm' && p[3] == 'm' && p[4] == 'a' && p[5]
            == 'n' && p[6] == 'd');
        assert forall|i: int| 0 <= i < p.len() implies keeps(#[trigger] p[i]) by {}
    } else {
        assert forall|i: int| 0 <= i < core.len() implies keeps(#[trigger] core[i]) || core[i]
            == '-' by {
            assert(core[i] == marked[from + i]);
        }
        assert forall|i: int| 0 <= i < core.len() - 1 implies !(#[trigger] core[i] == '-'
            && core[i + 1] == '-') by {
            assert(core[i] == marked[from + i]);
            assert(core[i + 1] == marked[from + i + 1]);
        }
        assert(core[0] == front[from]);
        assert(core.last() == marked[to - 1]);
    }
}

/// Makes a file name of a text that is in lower case already.
pub fn file_stem_for(lowered: &str) -> (out: String)
    ensures
        out@ == file_stem(lowered@),
        out@.len() > 0,
        is_safe_name(out@),
{
    proof {
        lemma_file_stem_is_safe(lowered@);
    }
    let text = chars_of(lowered);
    let mut marked: Vec<char> = Vec::new();
    let mut in_run = false;
    let mut i: usize = 0;
    while i < text.len()
        invariant
            i <= text.len(),
            marked@ == dashed(text@.take(i as int)),
            in_run == (i > 0 && !keeps(text@[i as int - 1])),
        decreases text.len() - i,
    {
        let c = text[i];
        proof {
            let next = text@.take(i as int + 1);
            assert(next.drop_last() == text@.take(i as int));
            assert(next.last() == c);
            if i > 0 {
                assert(next[next.len() - 2] == text@[i as int - 1]);
            }
        }
        if ascii_letter(c) || ascii_digit(c) {
            marked.push(c);
            in_run = false;
        } else if !in_run {
            marked.push('-');
            in_run = true;
        }
        i += 1;
    }
    assert(text@.take(text.len() as int) == text@);
    let core = trim_char_both(&marked, '-');
    if core.len() == 0 {
        string_of(&chars_of("command"))
    } else {
        string_of(&core)
    }
}

/// Derives from a command's name a name that is safe for a file: white
/// space at the ends is dropped, the rest is put in lower case, and each
/// run of characters other than letters and digits becomes one `-`. Names
/// with the same safe form share a file.
pub fn safe_name(name: &str) -> (out: String)
    ensures
        out@ == safe_name_of(name@),
        out@.len() > 0,
        is_safe_name(out@),
{
    let core = string_of(&trim_chars(&chars_of(name)));
    let lowered = core.as_str().to_lowercase();
    file_stem_for(lowered.as_str())
}

/// The time that is reported where the clock's reading cannot be written
/// down.
pub open spec fn epoch_text() -> Seq<char> {
    "1970-01-01T00:00:00Z"@
}

/// What the character at `i` of a time of day in UTC is: the date as
/// `YYYY-MM-DD`, a `T`, the time as `HH:MM:SS`.
pub open spec fn timestamp_char_ok(t: Seq<char>, i: int) -> bool {
    if i == 4 || i == 7 {
        t[i] == '-'
    } else if i == 10 {
        t[i] == 'T'
    } else if i == 13 || i == 16 {
        t[i] == ':'
    } else {
        is_ascii_digit(t[i])
    }
}

/// Whether a text has the shape of a time in UTC as RFC 3339 writes it:
/// date and time of day, whatever fraction of a second follows, and `Z`.
pub open spec fn is_utc_timestamp(t: Seq<char>) -> bool {
    &&& t.len() >= 20
    &&& forall|i: int| 0 <= i < 19 ==> #[trigger] timestamp_char_ok(t, i)
    &&& t.last() == 'Z'
}

/// Reads the clock with `OffsetDateTime::now_utc` of the crate `time` and
/// writes the reading down with `OffsetDateTime::format` in the format
/// `Rfc3339`; `None` where the formatter refuses the reading. The text
/// differs from call to call; what is claimed of it is its shape, which is
/// that of every text this formatter makes of a time whose offset is UTC.
#[verifier::external_body]
fn rfc3339_now() -> (formatted: Option<String>)
    ensures
        formatted matches Some(text) ==> is_utc_timestamp(text@),
{
    time::OffsetDateTime::now_utc().format(&time::format_description::well_known::Rfc3339).ok()
}

/// The time to report, given what the formatter made of the clock's
/// reading.
pub fn timestamp_or_epoch(formatted: Option<String>) -> (out: String)
    ensures
        out@ == match formatted {
            Some(text) => text@,
            None => epoch_text(),
        },
{
    match formatted {
        Some(text) => text,
        None => copy_of("1970-01-01T00:00:00Z"),
    }
}

/// The fallback has the shape of a time.
pub proof fn lemma_epoch_is_timestamp()
    ensures
        is_utc_timestamp(epoch_text()),
{
    reveal_strlit("1970-01-01T00:00:00Z");
    let t = epoch_text();
    assert(t.len() == 20);
    assert forall|i: int| 0 <= i < 19 implies #[trigger] timestamp_char_ok(t, i) by {
        assert(t[0] == '1' && t[1] == '9' && t[2] == '7' && t[3] == '0');
        assert(t[4] == '-' && t[5] == '0' && t[6] == '1' && t[7] == '-');
        assert(t[8] == '0' && t[9] == '1' && t[10] == 'T' && t[11] == '0');
        assert(t[12] == '0' && t[13] == ':' && t[14] == '0' && t[15] == '0');
        assert(t[16] == ':' && t[17] == '0' && t[18] == '0');
    }
    assert(t[19] == 'Z');
}

/// The present time in UTC, written as RFC 3339 asks.
pub fn now_iso() -> (out: String)
    ensures
        is_utc_timestamp(out@),
{
    proof {
        lemma_epoch_is_timestamp();
    }
    timestamp_or_epoch(rfc3339_now())
}

/// The reply to `Request::Now`.
pub fn clock_reply() -> (reply: Reply)
    ensures
        reply matches Reply::Text(text) && is_utc_timestamp(text@),
{
    Reply::Text(now_iso())
}

/// The version of the summary's layout.
pub open spec fn summary_version() -> i32 {
    1
}

/// The exit code that is recorded: the command's own, or 1 where it had
/// none.
pub open spec fn recorded_code(code: Option<i32>) -> i32 {
    match code {
        Some(c) => c,
        None => 1,
    }
}

/// The file that receives the output of the command with the given name.
pub open spec fn output_path_of(out_dir: Seq<char>, name: Seq<char>) -> Seq<char> {
    joined(out_dir, safe_name_of(name) + ".txt"@)
}

/// The file that receives the summary.
pub open spec fn summary_path_of(out_dir: Seq<char>) -> Seq<char> {
    joined(out_dir, "summary.json"@)
}

/// A file name without a separator that is neither `.` nor `..` stays in
/// the directory it is joined to.
proof fn lemma_plain_name_confined(name: Seq<char>)
    requires
        name.len() > 2,
        !name.contains('/'),
    ensures
        crate::lexical::confined(name),
{
    let none = Seq::<Seq<char>>::empty();
    crate::text::lemma_split_plain(name, '/');
    crate::lexical::lemma_collapse_single(none, name);
    assert(name[0] != '/') by {
        assert(name.contains(name[0]));
    }
    let kept = none.push(name);
    assert forall|i: int| 0 <= i < kept.len() implies kept[i] != crate::lexical::dotdot() by {
        assert(kept[i] == name);
    }
}

/// The evidence of a run lies in its evidence directory: the output file
/// of every command, whatever its name, and the summary.
pub proof fn lemma_evidence_inside_out_dir(cwd: Seq<char>, out_dir: Seq<char>, name: Seq<char>)
    ensures
        crate::lexical::contained(cwd, out_dir, output_path_of(out_dir, name)),
        crate::lexical::contained(cwd, out_dir, summary_path_of(out_dir)),
{
    let stem = safe_name_of(name);
    let file = stem + ".txt"@;
    lemma_file_stem_is_safe(lowercase(trimmed(name)));
    reveal_strlit(".txt");
    assert(".txt"@.len() == 4);
    assert(!file.contains('/')) by {
        if file.contains('/') {
            let j = choose|j: int| 0 <= j < file.len() && file[j] == '/';
            if j < stem.len() {
                assert(keeps(stem[j]) || stem[j] == '-');
            } else {
                let k = j - stem.len();
                assert(".txt"@[k] == '/');
                assert(".txt"@[0] == '.' && ".txt"@[1] == 't' && ".txt"@[2] == 'x' && ".txt"@[3]
                    == 't');
            }
        }
    }
    lemma_plain_name_confined(file);
    crate::lexical::lemma_subpath_contained(cwd, out_dir, file);
    reveal_strlit("summary.json");
    let summary = "summary.json"@;
    assert(summary.len() == 12);
    assert(!summary.contains('/')) by {
        if summary.contains('/') {
            let j = choose|j: int| 0 <= j < summary.len() && summary[j] == '/';
            assert(summary[0] == 's' && summary[1] == 'u' && summary[2] == 'm' && summary[3] == 'm'
                && summary[4] == 'a' && summary[5] == 'r' && summary[6] == 'y' && summary[7] == '.'
                && summary[8] == 'j' && summary[9] == 's' && summary[10] == 'o' && summary[11]
                == 'n');
        }
    }
    lemma_plain_name_confined(summary);
    crate::lexical::lemma_subpath_contained(cwd, out_dir, summary);
}

/// What is recorded of a command that ended with the given code. It has
/// succeeded exactly when the recorded code is 0.
pub open spec fn result_of(out_dir: Seq<char>, cmd: VerifyCmdIn, code: Option<i32>) -> ResultView {
    ResultView {
        name: cmd.name@,
        command: cmd.command@,
        ok: recorded_code(code) == 0,
        exit_code: recorded_code(code),
        output_path: output_path_of(out_dir, cmd.name@),
    }
}

/// Whether every command succeeded.
pub open spec fn all_ok(results: Seq<ResultView>) -> bool {
    forall|i: int| 0 <= i < results.len() ==> (#[trigger] results[i]).ok
}

/// The summary of the given results, taken at the given time.
pub open spec fn summary_of(results: Seq<ResultView>, ran_at: Seq<char>) -> SummaryView {
    SummaryView { version: summary_version(), ran_at, commands: results, ok: all_ok(results) }
}

/// The results of the first `count` commands, read from the log, where the
/// reply to command `i` stands at `i + 1`. A command that could not be run
/// at all ends the whole run with a report that names its output file; one
/// that ran and failed is a result like any other.
pub open spec fn results_so_far(input: VerifyRunIn, log: Seq<Reply>, count: int) -> Result<
    Seq<ResultView>,
    Seq<char>,
>
    decreases count,
{
    if count <= 0 {
        Ok(Seq::empty())
    } else {
        match results_so_far(input, log, count - 1) {
            Err(msg) => Err(msg),
            Ok(results) => match log[count] {
                Reply::Exit(code) => Ok(
                    results.push(result_of(input.out_dir@, input.commands@[count - 1], code)),
                ),
                Reply::Failed(reason) => Err(
                    shell_message(
                        output_path_of(input.out_dir@, input.commands@[count - 1].name@),
                        reason@,
                    ),
                ),
                _ => Err(unexpected_reply()),
            },
        }
    }
}

/// What is reported when the evidence directory could not be created.
pub open spec fn out_dir_message(out_dir: Seq<char>, reason: Seq<char>) -> Seq<char> {
    "failed to create verify outDir "@ + out_dir + ": "@ + reason
}

/// What is reported when a command could not be run at all, be it that
/// its output file could not be made or that the shell did not start: the
/// output file, and the system's words.
pub open spec fn shell_message(output_path: Seq<char>, reason: Seq<char>) -> Seq<char> {
    "failed to run command with output file "@ + output_path + ": "@ + reason
}

/// What is reported when a file could not be written: the file, and the
/// system's words.
pub open spec fn write_message(path: Seq<char>, reason: Seq<char>) -> Seq<char> {
    "failed to write "@ + path + ": "@ + reason
}

/// What is reported when the summary could not be written as JSON.
pub open spec fn encode_message(reason: Seq<char>) -> Seq<char> {
    "failed to serialize verify summary: "@ + reason
}

/// The request to run the command at `index`.
pub open spec fn shell_ask(input: VerifyRunIn, index: int) -> Ask {
    Ask::Shell {
        command: input.commands@[index].command@,
        workdir: input.worktree_path@,
        output_path: output_path_of(input.out_dir@, input.commands@[index].name@),
    }
}

/// Where the run stands once every command has a result: the clock is
/// read, the summary is written as JSON and, with a line end behind it,
/// put into its file; the run then ends with that same summary.
pub open spec fn conclude_step(input: VerifyRunIn, results: Seq<ResultView>, log: Seq<Reply>) -> Step<
    SummaryView,
> {
    let n = input.commands@.len() as int;
    if log.len() <= n + 1 {
        Step::Ask(Ask::Now)
    } else {
        match log[n + 1] {
            Reply::Text(ran_at) => {
                let summary = summary_of(results, ran_at@);
                if log.len() == n + 2 {
                    Step::Ask(Ask::Encode { summary })
                } else {
                    match log[n + 2] {
                        Reply::Text(json) => if log.len() == n + 3 {
                            Step::Ask(
                                Ask::WriteText {
                                    path: summary_path_of(input.out_dir@),
                                    text: json@.push('\n'),
                                },
                            )
                        } else {
                            match log[n + 3] {
                                Reply::Done => Step::Done(summary, n + 4),
                                Reply::Failed(reason) => Step::Fail(
                                    write_message(summary_path_of(input.out_dir@), reason@),
                                ),
                                _ => Step::Fail(unexpected_reply()),
                            }
                        },
                        Reply::Failed(reason) => Step::Fail(encode_message(reason@)),
                        _ => Step::Fail(unexpected_reply()),
                    }
                }
            },
            _ => Step::Fail(unexpected_reply()),
        }
    }
}

/// Where `verify_run` stands, given the replies so far.
///
/// The evidence directory is created first. The commands then run one
/// after the other in the order given, each with a file of its own name
/// for its output; a command that fails does not stop those after it.
pub open spec fn verify_run_step(input: VerifyRunIn, log: Seq<Reply>) -> Step<SummaryView> {
    let n = input.commands@.len() as int;
    if log.len() == 0 {
        Step::Ask(Ask::CreateDirAll { path: input.out_dir@ })
    } else {
        match log[0] {
            Reply::Done => {
                let answered = if log.len() - 1 < n {
                    log.len() - 1
                } else {
                    n
                };
                match results_so_far(input, log, answered) {
                    Err(msg) => Step::Fail(msg),
                    Ok(results) => if answered < n {
                        Step::Ask(shell_ask(input, answered))
                    } else {
                        conclude_step(input, results, log)
                    },
                }
            },
            Reply::Failed(reason) => Step::Fail(out_dir_message(input.out_dir@, reason@)),
            _ => Step::Fail(unexpected_reply()),
        }
    }
}

/// The summary of the given results, taken at the given time. The run as
/// a whole has succeeded exactly when every command has.
pub fn summarize(results: Vec<VerifyCmdOut>, ran_at: String) -> (summary: VerifySummaryOut)
    ensures
        summary@ == summary_of(result_views(results@), ran_at@),
        summary.commands@ == results@,
{
    let mut ok = true;
    let mut i: usize = 0;
    while i < results.len()
        invariant
            i <= results.len(),
            ok == all_ok(result_views(results@).take(i as int)),
        decreases results.len() - i,
    {
        let ghost seen = result_views(results@).take(i as int);
        let ghost more = result_views(results@).take(i as int + 1);
        proof {
            assert(more[i as int] == results@[i as int]@);
            if all_ok(more) {
                assert forall|j: int| 0 <= j < seen.len() implies (#[trigger] seen[j]).ok by {
                    assert(more[j] == seen[j]);
                }
            }
            if all_ok(seen) && results@[i as int].ok {
                assert forall|j: int| 0 <= j < more.len() implies (#[trigger] more[j]).ok by {
                    if j < i {
                        assert(more[j] == seen[j]);
                    }
                }
            }
        }
        if !results[i].ok {
            ok = false;
        }
        i += 1;
    }
    assert(result_views(results@).take(results.len() as int) == result_views(results@));
    VerifySummaryOut { version: 1, ran_at, commands: results, ok }
}

/// What is recorded of a command that ended with the given code.
pub fn record_result(out_dir: &str, cmd: &VerifyCmdIn, code: Option<i32>) -> (result: VerifyCmdOut)
    ensures
        result@ == result_of(out_dir@, *cmd, code),
{
    let exit_code: i32 = match code {
        Some(c) => c,
        None => 1,
    };
    VerifyCmdOut {
        name: copy_of(cmd.name.as_str()),
        command: copy_of(cmd.command.as_str()),
        ok: exit_code == 0,
        exit_code,
        output_path: output_path(out_dir, cmd.name.as_str()),
    }
}

/// The file that receives the output of the command with the given name.
pub fn output_path(out_dir: &str, name: &str) -> (path: String)
    ensures
        path@ == output_path_of(out_dir@, name@),
{
    let stem = safe_name(name);
    let file = concat2(stem.as_str(), ".txt");
    join_path(out_dir, file.as_str())
}

/// A report of the form `what path: reason`.
fn framed(what: &str, path: &str, reason: &str) -> (out: String)
    ensures
        out@ == what@ + path@ + ": "@ + reason@,
{
    let mut msg = chars_of(what);
    append_chars(&mut msg, &chars_of(path));
    append_chars(&mut msg, &chars_of(": "));
    append_chars(&mut msg, &chars_of(reason));
    string_of(&msg)
}

/// Concludes a run of which every command has a result.
fn conclude(input: &VerifyRunIn, results: Vec<VerifyCmdOut>, log: &[Reply]) -> (turn: Turn<
    VerifySummaryOut,
>)
    requires
        log.len() >= input.commands@.len() + 1,
    ensures
        turn@ == conclude_step(*input, result_views(results@), log@),
{
    let n = input.commands.len();
    if log.len() == n + 1 {
        return Turn::Ask(Request::Now);
    }
    let ran_at = match &log[n + 1] {
        Reply::Text(text) => copy_of(text.as_str()),
        _ => {
            return Turn::Fail(copy_of("unexpected reply from the host"));
        },
    };
    let summary = summarize(results, ran_at);
    if log.len() == n + 2 {
        return Turn::Ask(Request::Encode { summary });
    }
    let json = match &log[n + 2] {
        Reply::Text(json) => json,
        Reply::Failed(reason) => {
            return Turn::Fail(concat2("failed to serialize verify summary: ", reason.as_str()));
        },
        _ => {
            return Turn::Fail(copy_of("unexpected reply from the host"));
        },
    };
    if log.len() == n + 3 {
        let mut text = chars_of(json.as_str());
        text.push('\n');
        return Turn::Ask(
            Request::WriteText {
                path: join_path(input.out_dir.as_str(), "summary.json"),
                text: string_of(&text),
            },
        );
    }
    match &log[n + 3] {
        Reply::Done => Turn::Done(summary, n + 4),
        Reply::Failed(reason) => {
            let path = join_path(input.out_dir.as_str(), "summary.json");
            Turn::Fail(framed("failed to write ", path.as_str(), reason.as_str()))
        },
        _ => Turn::Fail(copy_of("unexpected reply from the host")),
    }
}

/// Runs the commands of a verification run against a checkout, keeps the
/// output of each as evidence, and ends with the summary, which by then is
/// on file as well. The log holds the host's replies so far, the first
/// call being made with an empty log.
pub fn verify_run(input: &VerifyRunIn, log: &[Reply]) -> (turn: Turn<VerifySummaryOut>)
    ensures
        turn@ == verify_run_step(*input, log@),
{
    let out_dir = input.out_dir.as_str();
    if log.len() == 0 {
        return Turn::Ask(Request::CreateDirAll { path: copy_of(out_dir) });
    }
    match &log[0] {
        Reply::Done => {},
        Reply::Failed(reason) => {
            return Turn::Fail(framed("failed to create verify outDir ", out_dir, reason.as_str()));
        },
        _ => {
            return Turn::Fail(copy_of("unexpected reply from the host"));
        },
    }
    let n = input.commands.len();
    let answered: usize = if log.len() - 1 < n {
        log.len() - 1
    } else {
        n
    };
    let mut results: Vec<VerifyCmdOut> = Vec::new();
    let mut i: usize = 0;
    assert(result_views(results@) =~= Seq::<ResultView>::empty());
    while i < answered
        invariant
            i <= answered <= n,
            n == input.commands@.len(),
            answered < log.len(),
            log@[0] is Done,
            answered == if log.len() - 1 < n {
                log.len() - 1
            } else {
                n as int
            },
            out_dir@ == input.out_dir@,
            results_so_far(*input, log@, i as int) == Ok::<Seq<ResultView>, Seq<char>>(
                result_views(results@),
            ),
        decreases answered - i,
    {
        let ghost before = result_views(results@);
        match &log[i + 1] {
            Reply::Exit(code) => {
                let result = record_result(out_dir, &input.commands[i], *code);
                let ghost recorded = result@;
                results.push(result);
                assert(result_views(results@) =~= before.push(recorded));
            },
            Reply::Failed(reason) => {
                proof {
                    lemma_results_stay_failed(*input, log@, i as int + 1, answered as int);
                }
                let path = output_path(out_dir, input.commands[i].name.as_str());
                return Turn::Fail(
                    framed(
                        "failed to run command with output file ",
                        path.as_str(),
                        reason.as_str(),
                    ),
                );
            },
            _ => {
                proof {
                    lemma_results_stay_failed(*input, log@, i as int + 1, answered as int);
                }
                return Turn::Fail(copy_of("unexpected reply from the host"));
            },
        }
        i += 1;
    }
    if answered < n {
        let cmd = &input.commands[answered];
        return Turn::Ask(
            Request::Shell {
                command: copy_of(cmd.command.as_str()),
                workdir: copy_of(input.worktree_path.as_str()),
                output_path: output_path(out_dir, cmd.name.as_str()),
            },
        );
    }
    conclude(input, results, log)
}

/// The number of commands of a run.
pub open spec fn command_count(input: VerifyRunIn) -> int {
    input.commands@.len() as int
}

/// The results of the first commands depend only on the replies that
/// answer them.
proof fn lemma_results_of_prefix(input: VerifyRunIn, log: Seq<Reply>, len: int, count: int)
    requires
        0 <= count < len <= log.len(),
    ensures
        results_so_far(input, log.take(len), count) == results_so_far(input, log, count),
    decreases count,
{
    if count > 0 {
        lemma_results_of_prefix(input, log, len, count - 1);
        assert(log.take(len)[count] == log[count]);
    }
}

/// The summary with which a run ends is the one that was written as JSON
/// before, and what was put into the summary's file is that JSON with a
/// line end behind it.
pub proof fn lemma_summary_on_file_is_returned(
    input: VerifyRunIn,
    log: Seq<Reply>,
    summary: SummaryView,
)
    requires
        verify_run_step(input, log) matches Step::Done(s, _) && s == summary,
    ensures
        log.len() >= command_count(input) + 4,
        log[command_count(input) + 2] is Text,
        verify_run_step(input, log.take(command_count(input) + 2)) == Step::<SummaryView>::Ask(
            Ask::Encode { summary },
        ),
        verify_run_step(input, log.take(command_count(input) + 3)) == Step::<SummaryView>::Ask(
            Ask::WriteText {
                path: summary_path_of(input.out_dir@),
                text: log[command_count(input) + 2]->Text_0@.push('\n'),
            },
        ),
        summary.version == summary_version(),
        summary.ok == all_ok(summary.commands),
        summary.commands.len() == input.commands@.len(),
        forall|i: int|
            0 <= i < summary.commands.len() ==> (#[trigger] summary.commands[i]).name
                == input.commands@[i].name@ && summary.commands[i].command
                == input.commands@[i].command@,
{
    let n = input.commands@.len() as int;
    assert(log.len() >= n + 4);
    let short = log.take(n + 2);
    let longer = log.take(n + 3);
    lemma_results_of_prefix(input, log, n + 2, n);
    lemma_results_of_prefix(input, log, n + 3, n);
    assert(short[0] == log[0] && longer[0] == log[0]);
    assert(short[n + 1] == log[n + 1] && longer[n + 1] == log[n + 1]);
    assert(longer[n + 2] == log[n + 2]);
    lemma_results_len(input, log, n);
}

/// `verify_run` asks four things of the host beside the commands: with a
/// reply to each in the log it has ended.
pub proof fn lemma_verify_ends(input: VerifyRunIn, log: Seq<Reply>)
    requires
        log.len() >= command_count(input) + 4,
    ensures
        !(verify_run_step(input, log) is Ask),
{
}

/// Whether the results are those of the first `count` commands, in the
/// order of the commands: the result at `i` is that of the command at `i`,
/// made of the reply at `i + 1`.
pub open spec fn in_order(
    input: VerifyRunIn,
    log: Seq<Reply>,
    results: Seq<ResultView>,
    count: int,
) -> bool {
    &&& results.len() == count
    &&& forall|i: int|
        0 <= i < count ==> #[trigger] results[i] == result_of(
            input.out_dir@,
            input.commands@[i],
            log[i + 1]->Exit_0,
        )
}

/// The results stand in the order of the commands, one for each command
/// that was answered.
pub proof fn lemma_results_len(input: VerifyRunIn, log: Seq<Reply>, count: int)
    requires
        0 <= count,
    ensures
        results_so_far(input, log, count) matches Ok(results) ==> in_order(
            input,
            log,
            results,
            count,
        ),
    decreases count,
{
    if count > 0 {
        lemma_results_len(input, log, count - 1);
        if let Ok(results) = results_so_far(input, log, count) {
            let before = results_so_far(input, log, count - 1)->Ok_0;
            assert(in_order(input, log, before, count - 1));
            assert forall|i: int| 0 <= i < count implies #[trigger] results[i] == result_of(
                input.out_dir@,
                input.commands@[i],
                log[i + 1]->Exit_0,
            ) by {
                if i < count - 1 {
                    assert(results[i] == before[i]);
                }
            }
        }
    }
}

/// A run that has failed at one command has failed at every later count,
/// and with the same report.
proof fn lemma_results_stay_failed(input: VerifyRunIn, log: Seq<Reply>, at: int, count: int)
    requires
        0 <= at <= count,
        results_so_far(input, log, at) is Err,
    ensures
        results_so_far(input, log, count) == results_so_far(input, log, at),
    decreases count - at,
{
    if at < count {
        lemma_results_stay_failed(input, log, at, count - 1);
    }
}

} // verus!
