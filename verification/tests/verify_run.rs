use ecc_kernel::host::{Reply, Request, Turn};
use ecc_kernel::verify::{
    clock_reply, now_iso, record_result, summarize, timestamp_or_epoch, verify_run, VerifyCmdIn,
    VerifyRunIn, VerifySummaryOut,
};

fn cmd(name: &str, command: &str) -> VerifyCmdIn {
    VerifyCmdIn { name: name.to_string(), command: command.to_string() }
}

fn three_commands() -> VerifyRunIn {
    VerifyRunIn {
        worktree_path: "/wt/a".to_string(),
        out_dir: "/out".to_string(),
        commands: vec![cmd("Build", "make"), cmd("Unit Tests", "make test"), cmd("lint", "make lint")],
    }
}

fn failure<T>(turn: Turn<T>) -> String {
    match turn {
        Turn::Fail(msg) => msg,
        Turn::Ask(_) => panic!("asking, not failed"),
        Turn::Done(_, _) => panic!("done, not failed"),
    }
}

fn same_summary(a: &VerifySummaryOut, b: &VerifySummaryOut) -> bool {
    a.version == b.version
        && a.ran_at == b.ran_at
        && a.ok == b.ok
        && a.commands.len() == b.commands.len()
        && a.commands.iter().zip(b.commands.iter()).all(|(x, y)| {
            x.name == y.name
                && x.command == y.command
                && x.ok == y.ok
                && x.exit_code == y.exit_code
                && x.output_path == y.output_path
        })
}

#[test]
fn second_command_failing_fails_the_run_but_not_the_rest() {
    let input = three_commands();
    let mut log: Vec<Reply> = Vec::new();
    match verify_run(&input, &log) {
        Turn::Ask(Request::CreateDirAll { path }) => assert_eq!(path, "/out"),
        _ => panic!("expected the evidence directory first"),
    }
    log.push(Reply::Done);
    let codes = [Some(0), Some(2), Some(0)];
    let mut paths: Vec<String> = Vec::new();
    for (i, code) in codes.iter().enumerate() {
        match verify_run(&input, &log) {
            Turn::Ask(Request::Shell { command, workdir, output_path }) => {
                assert_eq!(command, input.commands[i].command);
                assert_eq!(workdir, "/wt/a");
                paths.push(output_path);
            }
            _ => panic!("expected command {i} to be run"),
        }
        log.push(Reply::Exit(*code));
    }
    assert_eq!(paths, vec!["/out/build.txt", "/out/unit-tests.txt", "/out/lint.txt"]);
    assert!(matches!(verify_run(&input, &log), Turn::Ask(Request::Now)));
    log.push(Reply::Text("2024-05-06T07:08:09Z".to_string()));
    let encoded = match verify_run(&input, &log) {
        Turn::Ask(Request::Encode { summary }) => summary,
        _ => panic!("expected the summary to be encoded"),
    };
    log.push(Reply::Text("{\n  \"ok\": false\n}".to_string()));
    match verify_run(&input, &log) {
        Turn::Ask(Request::WriteText { path, text }) => {
            assert_eq!(path, "/out/summary.json");
            assert_eq!(text, "{\n  \"ok\": false\n}\n");
        }
        _ => panic!("expected the summary to be written"),
    }
    log.push(Reply::Done);
    let (summary, used) = match verify_run(&input, &log) {
        Turn::Done(summary, used) => (summary, used),
        _ => panic!("expected the run to end"),
    };
    assert_eq!(used, 7);
    assert!(!summary.ok);
    assert_eq!(summary.version, 1);
    assert_eq!(summary.ran_at, "2024-05-06T07:08:09Z");
    assert_eq!(summary.commands.len(), 3);
    assert!(summary.commands[0].ok);
    assert!(!summary.commands[1].ok);
    assert_eq!(summary.commands[1].exit_code, 2);
    assert!(summary.commands[2].ok);
    assert_eq!(summary.commands[1].name, "Unit Tests");
    assert_eq!(summary.commands[1].command, "make test");
    let out_paths: Vec<&str> = summary.commands.iter().map(|c| c.output_path.as_str()).collect();
    assert_eq!(out_paths, vec!["/out/build.txt", "/out/unit-tests.txt", "/out/lint.txt"]);
    assert!(same_summary(&encoded, &summary));
}

#[test]
fn all_commands_passing_passes_the_run() {
    let input = three_commands();
    let log = [
        Reply::Done,
        Reply::Exit(Some(0)),
        Reply::Exit(Some(0)),
        Reply::Exit(Some(0)),
        Reply::Text("t".to_string()),
        Reply::Text("{}".to_string()),
        Reply::Done,
    ];
    match verify_run(&input, &log) {
        Turn::Done(summary, _) => assert!(summary.ok),
        _ => panic!("expected the run to end"),
    }
}

#[test]
fn run_without_commands_still_writes_a_summary() {
    let input = VerifyRunIn {
        worktree_path: "/wt".to_string(),
        out_dir: "out".to_string(),
        commands: Vec::new(),
    };
    assert!(matches!(verify_run(&input, &[Reply::Done]), Turn::Ask(Request::Now)));
    let log = [Reply::Done, Reply::Text("t".to_string()), Reply::Text("{}".to_string())];
    match verify_run(&input, &log) {
        Turn::Ask(Request::WriteText { path, text }) => {
            assert_eq!(path, "out/summary.json");
            assert_eq!(text, "{}\n");
        }
        _ => panic!("expected the summary to be written"),
    }
    let log = [Reply::Done, Reply::Text("t".to_string()), Reply::Text("{}".to_string()), Reply::Done];
    match verify_run(&input, &log) {
        Turn::Done(summary, used) => {
            assert!(summary.ok);
            assert!(summary.commands.is_empty());
            assert_eq!(used, 4);
        }
        _ => panic!("expected the run to end"),
    }
}

#[test]
fn command_killed_by_signal_counts_as_exit_code_one() {
    let result = record_result("/out", &cmd("x", "sleep 9"), None);
    assert_eq!(result.exit_code, 1);
    assert!(!result.ok);
    assert_eq!(result.output_path, "/out/x.txt");
    let result = record_result("/out", &cmd("x", "true"), Some(0));
    assert_eq!(result.exit_code, 0);
    assert!(result.ok);
    let result = record_result("/out", &cmd("x", "false"), Some(-1));
    assert!(!result.ok);
}

#[test]
fn names_with_the_same_safe_form_share_a_file() {
    let a = record_result("/out", &cmd("Unit Tests", "a"), Some(0));
    let b = record_result("/out", &cmd("unit-tests", "b"), Some(0));
    assert_eq!(a.output_path, b.output_path);
}

#[test]
fn verify_run_reports_host_failures() {
    let input = three_commands();
    assert_eq!(
        failure(verify_run(&input, &[Reply::Failed("read-only".to_string())])),
        "failed to create verify outDir /out: read-only"
    );
    let log = [Reply::Done, Reply::Exit(Some(0)), Reply::Failed("gone".to_string())];
    assert_eq!(
        failure(verify_run(&input, &log)),
        "failed to run command with output file /out/unit-tests.txt: gone"
    );
    let log = [
        Reply::Done,
        Reply::Exit(Some(0)),
        Reply::Failed("first".to_string()),
        Reply::Failed("second".to_string()),
    ];
    assert_eq!(
        failure(verify_run(&input, &log)),
        "failed to run command with output file /out/unit-tests.txt: first"
    );
    let log = [
        Reply::Done,
        Reply::Exit(Some(0)),
        Reply::Exit(Some(0)),
        Reply::Exit(Some(0)),
        Reply::Text("t".to_string()),
        Reply::Failed("key must be a string".to_string()),
    ];
    assert_eq!(
        failure(verify_run(&input, &log)),
        "failed to serialize verify summary: key must be a string"
    );
    let log = [
        Reply::Done,
        Reply::Exit(Some(0)),
        Reply::Exit(Some(0)),
        Reply::Exit(Some(0)),
        Reply::Text("t".to_string()),
        Reply::Text("{}".to_string()),
        Reply::Failed("disk full".to_string()),
    ];
    assert_eq!(failure(verify_run(&input, &log)), "failed to write /out/summary.json: disk full");
    assert_eq!(
        failure(verify_run(&input, &[Reply::Exists(true)])),
        "unexpected reply from the host"
    );
}

#[test]
fn summary_is_the_conjunction_of_results() {
    let ok = record_result("/o", &cmd("a", "a"), Some(0));
    let bad = record_result("/o", &cmd("b", "b"), Some(3));
    let summary = summarize(vec![ok, bad], "t".to_string());
    assert!(!summary.ok);
    assert_eq!(summary.version, 1);
    assert_eq!(summary.ran_at, "t");
    assert_eq!(summary.commands.len(), 2);
    let summary = summarize(Vec::new(), "t".to_string());
    assert!(summary.ok);
}

#[test]
fn timestamp_falls_back_to_epoch() {
    assert_eq!(timestamp_or_epoch(None), "1970-01-01T00:00:00Z");
    assert_eq!(timestamp_or_epoch(Some("2024-01-02T03:04:05Z".to_string())), "2024-01-02T03:04:05Z");
}

#[test]
fn now_iso_is_an_rfc3339_time_in_utc() {
    let before = time::OffsetDateTime::now_utc();
    let now = now_iso();
    let after = time::OffsetDateTime::now_utc();
    let b = now.as_bytes();
    assert!(b.len() >= 20, "too short: {now}");
    for (i, c) in b.iter().enumerate().take(19) {
        match i {
            4 | 7 => assert_eq!(*c, b'-'),
            10 => assert_eq!(*c, b'T'),
            13 | 16 => assert_eq!(*c, b':'),
            _ => assert!(c.is_ascii_digit(), "not a digit at {i}: {now}"),
        }
    }
    assert!(now.ends_with('Z'), "not in UTC: {now}");
    let year: i32 = now[0..4].parse().unwrap();
    assert!(before.year() <= year && year <= after.year());
    let hour: u8 = now[11..13].parse().unwrap();
    assert!(hour < 24);
    match clock_reply() {
        Reply::Text(text) => assert!(text.ends_with('Z')),
        _ => panic!("expected a text"),
    }
}
