use restic_sizes::restic::{
    with_stderr, Completion, ErrorKind, ExitState, LaunchError, Listing, LsEvent, LsStep, Output,
    Restic, ResticError, RunError,
};

fn restic() -> Restic {
    Restic::new(Some("/srv/repo".to_string()), Some("pass show backup".to_string()))
}

fn exited(success: bool, code: i32, stdout: &str, stderr: &str) -> Completion {
    Completion::Exited(Output {
        success,
        code: Some(code),
        stdout: stdout.as_bytes().to_vec(),
        stderr: stderr.as_bytes().to_vec(),
    })
}

#[test]
fn arguments_with_repo_and_password_command() {
    let r = restic();
    assert_eq!(
        r.config_args(),
        vec!["--repo", "/srv/repo", "--password-command", "pass show backup", "--json", "cat", "config"]
    );
    assert_eq!(
        r.snapshots_args(),
        vec!["--repo", "/srv/repo", "--password-command", "pass show backup", "--json", "snapshots"]
    );
    assert_eq!(
        r.ls_args("abc123"),
        vec!["--repo", "/srv/repo", "--password-command", "pass show backup", "--json", "ls", "abc123"]
    );
}

#[test]
fn arguments_without_options() {
    let r = Restic::new(None, None);
    assert_eq!(r.snapshots_args(), vec!["--json", "snapshots"]);
    let r = Restic::new(Some("s3:bucket".to_string()), None);
    assert_eq!(r.ls_args("x"), vec!["--repo", "s3:bucket", "--json", "ls", "x"]);
}

#[test]
fn config_is_read() {
    let c = restic().config(exited(true, 0, "{\"id\":\"5d0e\",\"version\":2}", "")).ok().unwrap();
    assert_eq!(c.id, "5d0e");
}

#[test]
fn exit_failure_carries_stderr() {
    let e = restic().config(exited(false, 1, "", "Fatal: repository is locked\n")).err().unwrap();
    assert!(matches!(e.kind, ErrorKind::Run(RunError::Exit(Some(1)))));
    assert!(e.stderr.as_deref().unwrap().contains("repository is locked"));
    assert!(e.message().contains("repository is locked"));
    assert_eq!(e.message(), "restic error, stderr dump:\nFatal: repository is locked\n");
}

#[test]
fn exit_failure_of_snapshots_carries_stderr() {
    let e = restic().snapshots(exited(false, 11, "", "repository is locked")).err().unwrap();
    assert!(matches!(e.kind, ErrorKind::Run(RunError::Exit(Some(11)))));
    assert_eq!(e.stderr.as_deref(), Some("repository is locked"));
}

#[test]
fn invalid_stderr_bytes_are_replaced() {
    let run = Completion::Exited(Output {
        success: false,
        code: None,
        stdout: vec![],
        stderr: vec![b'o', b'k', 0xff],
    });
    let e = restic().config(run).err().unwrap();
    assert!(matches!(e.kind, ErrorKind::Run(RunError::Exit(None))));
    assert_eq!(e.stderr.as_deref(), Some("ok\u{fffd}"));
}

#[test]
fn launch_and_wait_failures() {
    let e = restic()
        .config(Completion::Launch(LaunchError { message: "not found".to_string() }))
        .err()
        .unwrap();
    assert!(matches!(e.kind, ErrorKind::Launch(ref l) if l.message == "not found"));
    assert!(e.stderr.is_none());
    assert_eq!(e.message(), "restic error");
    let e = restic().snapshots(Completion::Wait("broken pipe".to_string())).err().unwrap();
    assert!(matches!(e.kind, ErrorKind::Run(RunError::Io(ref m)) if m == "broken pipe"));
    assert!(e.stderr.is_none());
}

#[test]
fn launch_error_converts() {
    let e: ResticError = LaunchError { message: "denied".to_string() }.into();
    assert!(matches!(e.kind, ErrorKind::Launch(ref l) if l.message == "denied"));
    assert!(e.stderr.is_none());
}

#[test]
fn non_utf8_output_fails() {
    let run = Completion::Exited(Output {
        success: true,
        code: Some(0),
        stdout: vec![b'{', 0xc3, 0x28, b'}'],
        stderr: b"warn".to_vec(),
    });
    let e = restic().config(run).err().unwrap();
    assert!(matches!(e.kind, ErrorKind::Run(RunError::Utf8)));
    assert_eq!(e.stderr.as_deref(), Some("warn"));
}

#[test]
fn malformed_json_fails() {
    let e = restic().config(exited(true, 0, "{\"id\":", "oops")).err().unwrap();
    assert!(matches!(e.kind, ErrorKind::Run(RunError::Parse(Some(_)))));
    assert_eq!(e.stderr.as_deref(), Some("oops"));
    let e = restic().config(exited(true, 0, "{\"name\":\"x\"}", "")).err().unwrap();
    assert!(matches!(e.kind, ErrorKind::Run(RunError::Parse(None))));
    let e = restic().config(exited(true, 0, "{\"id\":7}", "")).err().unwrap();
    assert!(matches!(e.kind, ErrorKind::Run(RunError::Parse(None))));
}

#[test]
fn snapshots_are_read() {
    let out = "[{\"id\":\"aa\",\"time\":\"2024-01-01T00:00:00Z\",\"paths\":[\"/\"]},\
               {\"id\":\"bb\",\"time\":\"2024-02-01T00:00:00Z\"}]";
    let v = restic().snapshots(exited(true, 0, out, "")).ok().unwrap();
    assert_eq!(v.len(), 2);
    assert_eq!(v[0].id, "aa");
    assert_eq!(v[0].time, "2024-01-01T00:00:00Z");
    assert_eq!(v[1].id, "bb");
    let v = restic().snapshots(exited(true, 0, "[]", "")).ok().unwrap();
    assert!(v.is_empty());
    let e = restic().snapshots(exited(true, 0, "{\"id\":\"aa\"}", "")).err().unwrap();
    assert!(matches!(e.kind, ErrorKind::Run(RunError::Parse(None))));
}

#[test]
fn listing_yields_records_and_skips_others() {
    let mut l = Listing::new();
    let line = "{\"name\":\"b.txt\",\"type\":\"file\",\"path\":\"/a/b.txt\",\"size\":100}";
    match l.next(LsEvent::Line(line.to_string())) {
        LsStep::Record(f, n) => {
            assert_eq!(f.path, "/a/b.txt");
            assert_eq!(f.size, 100);
            assert_eq!(n, line.len());
        }
        _ => panic!("expected a record"),
    }
    let dir = "{\"name\":\"a\",\"type\":\"dir\",\"path\":\"/a\"}";
    assert!(matches!(l.next(LsEvent::Line(dir.to_string())), LsStep::Skip));
    let summary = "{\"time\":\"2024\",\"id\":\"aa\",\"struct_type\":\"snapshot\"}";
    assert!(matches!(l.next(LsEvent::Line(summary.to_string())), LsStep::Skip));
    let negative = "{\"path\":\"/x\",\"size\":-1}";
    assert!(matches!(l.next(LsEvent::Line(negative.to_string())), LsStep::Skip));
    assert!(matches!(l.next(LsEvent::Line("[1,2]".to_string())), LsStep::Skip));
    let end = LsEvent::End(ExitState::Exited { success: true, code: Some(0) });
    assert!(matches!(l.next(end), LsStep::Done));
    assert!(matches!(l.next(LsEvent::Line(line.to_string())), LsStep::Done));
}

#[test]
fn listing_fails_on_malformed_line_and_stops() {
    let mut l = Listing::new();
    match l.next(LsEvent::Line("{not json".to_string())) {
        LsStep::Fail(kind) => {
            assert!(matches!(kind, ErrorKind::Run(RunError::Parse(Some(_)))));
            let e = with_stderr(kind, Ok("boom".to_string()));
            assert_eq!(e.stderr.as_deref(), Some("boom"));
        }
        _ => panic!("expected a failure"),
    }
    let line = "{\"path\":\"/a\",\"size\":1}";
    assert!(matches!(l.next(LsEvent::Line(line.to_string())), LsStep::Done));
}

#[test]
fn listing_fails_on_exit_code_and_read_error() {
    let mut l = Listing::new();
    let end = LsEvent::End(ExitState::Exited { success: false, code: Some(3) });
    match l.next(end) {
        LsStep::Fail(kind) => {
            assert!(matches!(kind, ErrorKind::Run(RunError::Exit(Some(3)))));
            let e = with_stderr(kind, Err("closed".to_string()));
            assert!(matches!(e.kind, ErrorKind::Run(RunError::Io(ref m)) if m == "closed"));
            assert!(e.stderr.is_none());
        }
        _ => panic!("expected a failure"),
    }
    let mut l = Listing::new();
    assert!(matches!(
        l.next(LsEvent::ReadFailed("eof".to_string())),
        LsStep::Fail(ErrorKind::Run(RunError::Io(ref m))) if m == "eof"
    ));
    let mut l = Listing::new();
    assert!(matches!(
        l.next(LsEvent::End(ExitState::WaitFailed("gone".to_string()))),
        LsStep::Fail(ErrorKind::Run(RunError::Io(ref m))) if m == "gone"
    ));
}
