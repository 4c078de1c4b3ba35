//! The boundary between the decisions taken here and the host that acts on
//! them.
//!
//! Nothing in this crate starts a process or touches a file. An operation
//! that needs the outside world is a function of its input and of the log
//! of replies that the host has given so far: it either asks the host for
//! one more thing, or it is finished. The host performs what is asked,
//! adds the reply to the end of the log, and calls again. The log is the
//! whole state of the operation.

use vstd::prelude::*;
use crate::text::{chars_of, concat2, copy_of, string_of, texts, trim_end, trim_end_chars};
use crate::verify::{SummaryView, VerifySummaryOut};

verus! {

/// What a finished process left behind.
pub struct CmdOut {
    /// Whether the process reported success.
    pub ok: bool,
    /// Its exit code, or 1 where it had none.
    pub status: i32,
    /// What it wrote to its standard output, without white space at the end.
    pub stdout: String,
    /// What it wrote to its standard error, without white space at the end.
    pub stderr: String,
}

/// What the host is asked to do next.
pub enum Request {
    /// Run a program to its end and collect its output. Answered by
    /// `Reply::Ran`, or by `Reply::Failed` with the system's words where
    /// the program could not be started.
    Run { program: String, args: Vec<String>, cwd: Option<String> },
    /// Say whether anything exists at the path. Answered by `Reply::Exists`.
    Exists { path: String },
    /// Create the directory and all that lead to it. Answered by
    /// `Reply::Done`, or by `Reply::Failed` with the system's words.
    CreateDirAll { path: String },
    /// Read a file as text. Answered by `Reply::Text`, or by
    /// `Reply::Failed` with the system's words.
    ReadText { path: String },
    /// Run a command line through the shell in the directory `workdir`, with
    /// no input and with both output streams sent to one new file at
    /// `output_path`. Answered by `Reply::Exit`, or by `Reply::Failed`
    /// with the system's words where the file could not be made or the
    /// shell not started.
    Shell { command: String, workdir: String, output_path: String },
    /// Read the clock. Answered by `Reply::Text` with the time in UTC;
    /// `clock_reply` gives that answer.
    Now,
    /// Write the summary as indented JSON. Answered by `Reply::Text`, or
    /// by `Reply::Failed` with the encoder's words.
    Encode { summary: VerifySummaryOut },
    /// Write the text to a new file at the path. Answered by
    /// `Reply::Done`, or by `Reply::Failed` with the system's words.
    WriteText { path: String, text: String },
}

/// What the host answers.
pub enum Reply {
    /// The program ran to its end.
    Ran(CmdOut),
    /// Whether the path exists.
    Exists(bool),
    /// The thing was done.
    Done,
    /// The text asked for.
    Text(String),
    /// The command's exit code, if it had one.
    Exit(Option<i32>),
    /// The thing could not be done.
    Failed(String),
}

/// Where an operation stands, given the replies so far.
pub enum Turn<T> {
    /// The host is to do this and add its reply to the log.
    Ask(Request),
    /// The operation has ended well. The number is the place in the log
    /// behind the last reply that it has read.
    Done(T, usize),
    /// The operation has ended with this error.
    Fail(String),
}

/// A request, as contracts speak of it.
pub enum Ask {
    Run { program: Seq<char>, args: Seq<Seq<char>>, cwd: Option<Seq<char>> },
    Exists { path: Seq<char> },
    CreateDirAll { path: Seq<char> },
    ReadText { path: Seq<char> },
    Shell { command: Seq<char>, workdir: Seq<char>, output_path: Seq<char> },
    Now,
    Encode { summary: SummaryView },
    WriteText { path: Seq<char>, text: Seq<char> },
}

/// A turn, as contracts speak of it.
pub enum Step<V> {
    Ask(Ask),
    Done(V, int),
    Fail(Seq<char>),
}

impl View for Request {
    type V = Ask;

    open spec fn view(&self) -> Ask {
        match *self {
            Request::Run { program, args, cwd } => Ask::Run {
                program: program@,
                args: texts(args@),
                cwd: match cwd {
                    Some(dir) => Some(dir@),
                    None => None,
                },
            },
            Request::Exists { path } => Ask::Exists { path: path@ },
            Request::CreateDirAll { path } => Ask::CreateDirAll { path: path@ },
            Request::ReadText { path } => Ask::ReadText { path: path@ },
            Request::Shell { command, workdir, output_path } => Ask::Shell {
                command: command@,
                workdir: workdir@,
                output_path: output_path@,
            },
            Request::Now => Ask::Now,
            Request::Encode { summary } => Ask::Encode { summary: summary@ },
            Request::WriteText { path, text } => Ask::WriteText { path: path@, text: text@ },
        }
    }
}

impl<T: View> View for Turn<T> {
    type V = Step<T::V>;

    open spec fn view(&self) -> Step<T::V> {
        match *self {
            Turn::Ask(request) => Step::Ask(request@),
            Turn::Done(value, used) => Step::Done(value@, used as int),
            Turn::Fail(msg) => Step::Fail(msg@),
        }
    }
}

/// The request to run git with the given arguments.
pub open spec fn git_call(args: Seq<Seq<char>>, cwd: Option<Seq<char>>) -> Ask {
    Ask::Run { program: "git"@, args, cwd }
}

/// Asks for a run of git with the given arguments, in the directory `cwd`
/// where one is given.
pub fn run_git(args: Vec<String>, cwd: Option<String>) -> (request: Request)
    ensures
        request@ == git_call(
            texts(args@),
            match cwd {
                Some(dir) => Some(dir@),
                None => None,
            },
        ),
{
    Request::Run { program: string_of(&chars_of("git")), args, cwd }
}

/// What is reported for a reply that does not answer what was asked.
pub open spec fn unexpected_reply() -> Seq<char> {
    "unexpected reply from the host"@
}

/// What is reported when git could not be started.
pub open spec fn git_not_started(reason: Seq<char>) -> Seq<char> {
    "git failed: "@ + reason
}

/// What a failed run of a tool is reported with: the tool's own words on
/// its standard error, or the fallback where it said nothing.
pub open spec fn failure_text(out: CmdOut, fallback: Seq<char>) -> Seq<char> {
    if out.stderr@.len() == 0 {
        fallback
    } else {
        out.stderr@
    }
}

/// The reply to a run of git, read as a result: the output of a run that
/// succeeded, or what to report.
pub open spec fn git_result(reply: Reply, fallback: Seq<char>) -> Result<CmdOut, Seq<char>> {
    match reply {
        Reply::Ran(out) => if out.ok {
            Ok(out)
        } else {
            Err(failure_text(out, fallback))
        },
        Reply::Failed(reason) => Err(git_not_started(reason@)),
        _ => Err(unexpected_reply()),
    }
}

/// Reads the reply to a run of git as a result.
pub fn git_outcome<'a>(reply: &'a Reply, fallback: &str) -> (r: Result<&'a CmdOut, String>)
    ensures
        match r {
            Ok(out) => git_result(*reply, fallback@) == Ok::<CmdOut, Seq<char>>(*out),
            Err(msg) => git_result(*reply, fallback@) == Err::<CmdOut, Seq<char>>(msg@),
        },
{
    match reply {
        Reply::Ran(out) => {
            if out.ok {
                Ok(out)
            } else if out.stderr.as_str().is_empty() {
                Err(copy_of(fallback))
            } else {
                Err(copy_of(out.stderr.as_str()))
            }
        },
        Reply::Failed(reason) => Err(concat2("git failed: ", reason.as_str())),
        _ => Err(copy_of("unexpected reply from the host")),
    }
}

/// What a finished process left behind, made of what the system reports of
/// it: where it had no exit code (a signal ended it), the code is 1, and
/// the white space at the end of its output is dropped.
pub fn collect_output(success: bool, code: Option<i32>, stdout: &str, stderr: &str) -> (out: CmdOut)
    ensures
        out.ok == success,
        out.status == match code {
            Some(c) => c,
            None => 1i32,
        },
        out.stdout@ == trim_end(stdout@),
        out.stderr@ == trim_end(stderr@),
{
    CmdOut {
        ok: success,
        status: match code {
            Some(c) => c,
            None => 1,
        },
        stdout: string_of(&trim_end_chars(&chars_of(stdout))),
        stderr: string_of(&trim_end_chars(&chars_of(stderr))),
    }
}

/// The text that a run of bytes stands for, with the replacement
/// character in the place of whatever is not UTF-8.
pub uninterp spec fn utf8_lossy(bytes: Seq<u8>) -> Seq<char>;

/// `String::from_utf8_lossy` reads bytes as UTF-8 and puts U+FFFD where
/// they are not; the text is given a name here and not spelled out.
#[verifier::external_body]
fn decode_lossy(bytes: &[u8]) -> (out: String)
    ensures
        out@ == utf8_lossy(bytes@),
{
    String::from_utf8_lossy(bytes).into_owned()
}

/// What a finished process left behind, made of what the system reports of
/// it, its output being taken as bytes.
pub fn run_cmd(success: bool, code: Option<i32>, stdout: &[u8], stderr: &[u8]) -> (out: CmdOut)
    ensures
        out.ok == success,
        out.status == match code {
            Some(c) => c,
            None => 1i32,
        },
        out.stdout@ == trim_end(utf8_lossy(stdout@)),
        out.stderr@ == trim_end(utf8_lossy(stderr@)),
{
    let stdout_text = decode_lossy(stdout);
    let stderr_text = decode_lossy(stderr);
    collect_output(success, code, stdout_text.as_str(), stderr_text.as_str())
}

} // verus!
