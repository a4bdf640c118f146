use vstd::prelude::*;
use vstd::utf8::{decode_utf8, valid_utf8};

use crate::json::{
    json_parses, json_str_member, json_str_members, json_u64_member, lossy_of, lossy_text, str_member,
    str_members, u64_member, utf8_text,
};
use crate::types::Snapshot;

verus! {

/// The repository's configuration, as `cat config` prints it.
#[derive(Debug)]
pub struct Config {
    pub id: String,
}

/// The backup tool could not be started.
#[derive(Debug)]
pub struct LaunchError {
    pub message: String,
}

/// What went wrong after the backup tool was started.
#[derive(Debug)]
pub enum RunError {
    /// Reading from or waiting for the process failed.
    Io(String),
    /// The output was not UTF-8.
    Utf8,
    /// The output was not JSON of the expected shape: serde_json's error
    /// where it was not JSON at all, none where a member was missing.
    Parse(Option<serde_json::Error>),
    /// The process exited unsuccessfully, with this code where it had one.
    Exit(Option<i32>),
}

/// Whether the backup tool failed to start or failed while it ran.
#[derive(Debug)]
pub enum ErrorKind {
    Launch(LaunchError),
    Run(RunError),
}

/// A failure of the backup tool, with what it wrote to standard error where
/// that could be read.
#[derive(Debug)]
pub struct ResticError {
    pub kind: ErrorKind,
    pub stderr: Option<String>,
}

impl ResticError {
    /// The text that reports this failure: the standard error dump where
    /// there is one.
    pub fn message(&self) -> (r: String)
        ensures
            match self.stderr {
                Some(e) => r@ == "restic error, stderr dump:\n"@ + e@,
                None => r@ == "restic error"@,
            },
    {
        match &self.stderr {
            Some(e) => {
                let mut m = "restic error, stderr dump:\n".to_owned();
                m.append(e.as_str());
                m
            },
            None => "restic error".to_owned(),
        }
    }
}

impl From<LaunchError> for ResticError {
    fn from(value: LaunchError) -> (r: Self) {
        ResticError { kind: ErrorKind::Launch(value), stderr: None }
    }
}

impl vstd::std_specs::convert::FromSpecImpl<LaunchError> for ResticError {
    open spec fn obeys_from_spec() -> bool {
        true
    }

    open spec fn from_spec(v: LaunchError) -> Self {
        ResticError { kind: ErrorKind::Launch(v), stderr: None }
    }
}

/// How to invoke the backup tool: which repository, and which command yields
/// its password.
pub struct Restic {
    repo: Option<String>,
    password_command: Option<String>,
}

/// The arguments that precede every subcommand.
pub open spec fn global_args(repo: Option<Seq<char>>, password_command: Option<Seq<char>>) -> Seq<Seq<char>> {
    (match repo {
        Some(r) => seq!["--repo"@, r],
        None => Seq::empty(),
    }) + (match password_command {
        Some(c) => seq!["--password-command"@, c],
        None => Seq::empty(),
    }) + seq!["--json"@]
}

/// A copy of a list of strings.
fn copy_strings(v: &Vec<String>) -> (r: Vec<String>)
    ensures
        r.deep_view() == v.deep_view(),
{
    let mut r: Vec<String> = Vec::new();
    let mut i: usize = 0;
    while i < v.len()
        invariant
            i <= v.len(),
            r.deep_view() == v.deep_view().subrange(0, i as int),
        decreases v.len() - i,
    {
        let ghost before = r.deep_view();
        r.push(v[i].clone());
        assert(r.deep_view() =~= before.push(v.deep_view()[i as int]));
        assert(r.deep_view() =~= v.deep_view().subrange(0, i + 1));
        i += 1;
    }
    assert(r.deep_view() =~= v.deep_view());
    r
}

/// Appends a string to a list of strings.
fn push_string(v: &mut Vec<String>, s: String)
    ensures
        final(v).deep_view() == old(v).deep_view().push(s@),
{
    v.push(s);
    assert(final(v).deep_view() =~= old(v).deep_view().push(s@));
}

/// What a finished run of the backup tool left.
pub struct Output {
    /// Whether the process exited successfully.
    pub success: bool,
    /// Its exit code, where it had one.
    pub code: Option<i32>,
    pub stdout: Vec<u8>,
    pub stderr: Vec<u8>,
}

/// How a run in greedy mode ended: it could not start, waiting for it
/// failed, or it exited and left its output.
pub enum Completion {
    Launch(LaunchError),
    Wait(String),
    Exited(Output),
}

/// `e` is a failure of kind `kind` that carries `stderr`.
pub open spec fn fails_with(e: ResticError, kind: ErrorKind, stderr: Option<Seq<char>>) -> bool {
    e.kind == kind && e.stderr.deep_view() == stderr
}

/// The text that a greedy run yields before its JSON is read: the run's
/// standard output where it exited successfully with UTF-8 output.
pub open spec fn greedy_text_of(run: Completion) -> Option<Seq<char>> {
    match run {
        Completion::Exited(o) => if o.success && valid_utf8(o.stdout@) {
            Some(decode_utf8(o.stdout@))
        } else {
            None
        },
        _ => None,
    }
}

/// A greedy run failed before its JSON was read, with error `e`.
pub open spec fn greedy_failure(run: Completion, e: ResticError) -> bool {
    match run {
        Completion::Launch(l) => fails_with(e, ErrorKind::Launch(l), None),
        Completion::Wait(m) => fails_with(e, ErrorKind::Run(RunError::Io(m)), None),
        Completion::Exited(o) => if !o.success {
            fails_with(e, ErrorKind::Run(RunError::Exit(o.code)), Some(lossy_of(o.stderr@)))
        } else {
            fails_with(e, ErrorKind::Run(RunError::Utf8), Some(lossy_of(o.stderr@)))
        },
    }
}

/// The JSON of a greedy run's text could not be read as expected: `e` is a
/// parse failure that carries the run's standard error.
pub open spec fn greedy_parse_failure(run: Completion, e: ResticError) -> bool {
    &&& e.kind matches ErrorKind::Run(RunError::Parse(_))
    &&& run matches Completion::Exited(o) && e.stderr.deep_view() == Some(lossy_of(o.stderr@))
}

/// The first step of a greedy run: the output text, with the standard error
/// text kept for a later failure.
fn greedy_text(run: Completion) -> (r: Result<(String, String), ResticError>)
    ensures
        match r {
            Ok((t, err)) => greedy_text_of(run) == Some(t@) && (run matches Completion::Exited(o)
                && err@ == lossy_of(o.stderr@)),
            Err(e) => greedy_text_of(run) is None && greedy_failure(run, e),
        },
{
    match run {
        Completion::Launch(l) => Err(ResticError { kind: ErrorKind::Launch(l), stderr: None }),
        Completion::Wait(m) => Err(ResticError { kind: ErrorKind::Run(RunError::Io(m)), stderr: None }),
        Completion::Exited(o) => {
            let err = lossy_text(&o.stderr);
            if !o.success {
                return Err(
                    ResticError { kind: ErrorKind::Run(RunError::Exit(o.code)), stderr: Some(err) },
                );
            }
            match utf8_text(&o.stdout) {
                None => Err(ResticError { kind: ErrorKind::Run(RunError::Utf8), stderr: Some(err) }),
                Some(t) => Ok((t, err)),
            }
        },
    }
}

/// One file of a snapshot's listing.
#[derive(Debug)]
pub struct File {
    pub path: String,
    pub size: u64,
}

/// How the backup tool's process ended, once its standard output ran out.
#[derive(Debug)]
pub enum ExitState {
    WaitFailed(String),
    Exited { success: bool, code: Option<i32> },
}

/// What the reader of a streamed listing saw next.
#[derive(Debug)]
pub enum LsEvent {
    /// One line of standard output.
    Line(String),
    /// Reading the next line failed.
    ReadFailed(String),
    /// Standard output ran out, and the process ended so.
    End(ExitState),
}

/// What to do with an event of a streamed listing.
#[derive(Debug)]
pub enum LsStep {
    /// A file record, with the length in bytes of the line that held it.
    Record(File, usize),
    /// A line that holds no file record; go on with the next.
    Skip,
    /// The listing failed: read what is left of standard error and report
    /// it with this kind (see `with_stderr`). No record follows.
    Fail(ErrorKind),
    /// The listing is complete.
    Done,
}

/// The streamed listing of one snapshot: one live process, read once.
pub struct Listing {
    finished: bool,
}

/// The failure that a listing reports once it has read what is left of
/// standard error: `kind` with that text, or an I/O failure where it could
/// not be read.
pub fn with_stderr(kind: ErrorKind, read: Result<String, String>) -> (r: ResticError)
    ensures
        match read {
            Ok(text) => fails_with(r, kind, Some(text@)),
            Err(m) => fails_with(r, ErrorKind::Run(RunError::Io(m)), None),
        },
{
    match read {
        Ok(text) => ResticError { kind, stderr: Some(text) },
        Err(m) => ResticError { kind: ErrorKind::Run(RunError::Io(m)), stderr: None },
    }
}

impl Listing {
    /// Whether the listing has ended, complete or failed.
    pub closed spec fn is_finished(&self) -> bool {
        self.finished
    }

    pub fn new() -> (r: Listing)
        ensures
            !r.is_finished(),
    {
        Listing { finished: false }
    }

    /// Decides what an event of the listing means. A line that is not JSON
    /// fails the listing; a JSON line with a string `path` and an unsigned
    /// integer `size` is a record; any other line is skipped. When output runs
    /// out, the listing is done if the process exited successfully, and fails
    /// otherwise. After the end, every event gives `Done`.
    pub fn next(&mut self, event: LsEvent) -> (r: LsStep)
        ensures
            old(self).is_finished() ==> r is Done && final(self).is_finished(),
            !old(self).is_finished() ==> match event {
                LsEvent::Line(l) => if !json_parses(l@) {
                    (r matches LsStep::Fail(k) && k matches ErrorKind::Run(RunError::Parse(Some(_))))
                } else {
                    match (json_str_member(l@, "path"@), json_u64_member(l@, "size"@)) {
                        (Some(p), Some(n)) => r matches LsStep::Record(f, len) && f.path@ == p && f.size == n
                            && len == vstd::utf8::encode_utf8(l@).len() as usize,
                        _ => r is Skip,
                    }
                },
                LsEvent::ReadFailed(m) => r == LsStep::Fail(ErrorKind::Run(RunError::Io(m))),
                LsEvent::End(ExitState::WaitFailed(m)) => r == LsStep::Fail(ErrorKind::Run(RunError::Io(m))),
                LsEvent::End(ExitState::Exited { success, code }) => if success {
                    r is Done
                } else {
                    r == LsStep::Fail(ErrorKind::Run(RunError::Exit(code)))
                },
            },
            final(self).is_finished() == (old(self).is_finished() || r is Fail || r is Done),
    {
        if self.finished {
            return LsStep::Done;
        }
        let step = match event {
            LsEvent::Line(l) => {
                match str_member(l.as_str(), "path") {
                    Err(e) => LsStep::Fail(ErrorKind::Run(RunError::Parse(Some(e)))),
                    Ok(path) => match u64_member(l.as_str(), "size") {
                        Err(e) => LsStep::Fail(ErrorKind::Run(RunError::Parse(Some(e)))),
                        Ok(size) => match (path, size) {
                            (Some(path), Some(size)) => {
                                let len = l.as_str().len();
                                LsStep::Record(File { path, size }, len)
                            },
                            _ => LsStep::Skip,
                        },
                    },
                }
            },
            LsEvent::ReadFailed(m) => LsStep::Fail(ErrorKind::Run(RunError::Io(m))),
            LsEvent::End(ExitState::WaitFailed(m)) => LsStep::Fail(ErrorKind::Run(RunError::Io(m))),
            LsEvent::End(ExitState::Exited { success, code }) => if success {
                LsStep::Done
            } else {
                LsStep::Fail(ErrorKind::Run(RunError::Exit(code)))
            },
        };
        match step {
            LsStep::Fail(_) | LsStep::Done => {
                self.finished = true;
            },
            _ => {},
        }
        step
    }
}

impl Restic {
    pub closed spec fn repo(&self) -> Option<Seq<char>> {
        self.repo.deep_view()
    }

    pub closed spec fn password_command(&self) -> Option<Seq<char>> {
        self.password_command.deep_view()
    }

    pub fn new(repo: Option<String>, password_command: Option<String>) -> (r: Self)
        ensures
            r.repo() == repo.deep_view(),
            r.password_command() == password_command.deep_view(),
    {
        Restic { repo, password_command }
    }

    /// The arguments of the backup tool for subcommand `sub`: the repository,
    /// the password command, machine-readable output, then `sub`.
    pub fn command_args(&self, sub: &Vec<String>) -> (r: Vec<String>)
        ensures
            r.deep_view() == global_args(self.repo(), self.password_command()) + sub.deep_view(),
    {
        let mut r: Vec<String> = Vec::new();
        let ghost g0 = r.deep_view();
        match &self.repo {
            Some(repo) => {
                push_string(&mut r, "--repo".to_owned());
                push_string(&mut r, repo.clone());
            },
            None => {},
        }
        let ghost g1 = r.deep_view();
        match &self.password_command {
            Some(c) => {
                push_string(&mut r, "--password-command".to_owned());
                push_string(&mut r, c.clone());
            },
            None => {},
        }
        let ghost g2 = r.deep_view();
        push_string(&mut r, "--json".to_owned());
        let ghost g3 = r.deep_view();
        let mut tail = copy_strings(sub);
        r.append(&mut tail);
        proof {
            assert(g1 =~= g0 + match self.repo() {
                Some(x) => seq!["--repo"@, x],
                None => Seq::<Seq<char>>::empty(),
            });
            assert(g2 =~= g1 + match self.password_command() {
                Some(x) => seq!["--password-command"@, x],
                None => Seq::<Seq<char>>::empty(),
            });
            assert(g3 =~= g2 + seq!["--json"@]);
            assert(r.deep_view() =~= g3 + sub.deep_view());
            assert(g3 =~= global_args(self.repo(), self.password_command()));
        }
        r
    }

    /// The arguments of `cat config`.
    pub fn config_args(&self) -> (r: Vec<String>)
        ensures
            r.deep_view() == global_args(self.repo(), self.password_command()) + seq!["cat"@, "config"@],
    {
        let mut sub: Vec<String> = Vec::new();
        push_string(&mut sub, "cat".to_owned());
        push_string(&mut sub, "config".to_owned());
        assert(sub.deep_view() =~= seq!["cat"@, "config"@]);
        self.command_args(&sub)
    }

    /// The arguments of `snapshots`.
    pub fn snapshots_args(&self) -> (r: Vec<String>)
        ensures
            r.deep_view() == global_args(self.repo(), self.password_command()) + seq!["snapshots"@],
    {
        let mut sub: Vec<String> = Vec::new();
        push_string(&mut sub, "snapshots".to_owned());
        assert(sub.deep_view() =~= seq!["snapshots"@]);
        self.command_args(&sub)
    }

    /// The arguments of `ls` for one snapshot.
    pub fn ls_args(&self, snapshot: &str) -> (r: Vec<String>)
        ensures
            r.deep_view() == global_args(self.repo(), self.password_command()) + seq!["ls"@, snapshot@],
    {
        let mut sub: Vec<String> = Vec::new();
        push_string(&mut sub, "ls".to_owned());
        push_string(&mut sub, snapshot.to_owned());
        assert(sub.deep_view() =~= seq!["ls"@, snapshot@]);
        self.command_args(&sub)
    }

    /// The repository's configuration from a finished run of `cat config`:
    /// its `id`, where the run succeeded and printed an object with a string
    /// `id`; otherwise the failure, with the run's standard error where it
    /// exited.
    pub fn config(&self, run: Completion) -> (r: Result<Config, ResticError>)
        ensures
            match greedy_text_of(run) {
                None => r matches Err(e) && greedy_failure(run, e),
                Some(t) => match json_str_member(t, "id"@) {
                    Some(id) if json_parses(t) => r matches Ok(c) && c.id@ == id,
                    _ => r matches Err(e) && greedy_parse_failure(run, e),
                },
            },
    {
        let (text, err) = match greedy_text(run) {
            Ok(te) => te,
            Err(e) => return Err(e),
        };
        match str_member(text.as_str(), "id") {
            Ok(Some(id)) => Ok(Config { id }),
            Ok(None) => Err(ResticError { kind: ErrorKind::Run(RunError::Parse(None)), stderr: Some(err) }),
            Err(e) => Err(ResticError { kind: ErrorKind::Run(RunError::Parse(Some(e))), stderr: Some(err) }),
        }
    }

    /// The snapshot catalog from a finished run of `snapshots`: one snapshot
    /// for each element of the printed array, with its string `id` and `time`;
    /// otherwise the failure, with the run's standard error where it exited.
    pub fn snapshots(&self, run: Completion) -> (r: Result<Vec<Snapshot>, ResticError>)
        ensures
            match greedy_text_of(run) {
                None => r matches Err(e) && greedy_failure(run, e),
                Some(t) => match (json_str_members(t, "id"@), json_str_members(t, "time"@)) {
                    (Some(ids), Some(times)) if json_parses(t) && ids.len() == times.len() => r matches Ok(v)
                        && v@.len() == ids.len() && forall|i: int|
                        0 <= i < ids.len() ==> (#[trigger] v@[i]).id@ == ids[i] && v@[i].time@ == times[i],
                    _ => r matches Err(e) && greedy_parse_failure(run, e),
                },
            },
    {
        let (text, err) = match greedy_text(run) {
            Ok(te) => te,
            Err(e) => return Err(e),
        };
        let ids = match str_members(text.as_str(), "id") {
            Ok(Some(ids)) => ids,
            Ok(None) => return Err(ResticError { kind: ErrorKind::Run(RunError::Parse(None)), stderr: Some(err) }),
            Err(e) => return Err(ResticError { kind: ErrorKind::Run(RunError::Parse(Some(e))), stderr: Some(err) }),
        };
        let times = match str_members(text.as_str(), "time") {
            Ok(Some(times)) => times,
            Ok(None) => return Err(ResticError { kind: ErrorKind::Run(RunError::Parse(None)), stderr: Some(err) }),
            Err(e) => return Err(ResticError { kind: ErrorKind::Run(RunError::Parse(Some(e))), stderr: Some(err) }),
        };
        if ids.len() != times.len() {
            return Err(ResticError { kind: ErrorKind::Run(RunError::Parse(None)), stderr: Some(err) });
        }
        let mut v: Vec<Snapshot> = Vec::new();
        let mut i: usize = 0;
        while i < ids.len()
            invariant
                i <= ids.len() == times.len(),
                v@.len() == i,
                forall|j: int| 0 <= j < i ==> (#[trigger] v@[j]).id@ == ids.deep_view()[j] && v@[j].time@ == times.deep_view()[j],
            decreases ids.len() - i,
        {
            v.push(Snapshot { id: ids[i].clone(), time: times[i].clone() });
            i += 1;
        }
        Ok(v)
    }
}

} // verus!
