//! Run-state decisions for the external orchestration tool: what a start,
//! stop or reconciliation does to the persisted state, how probe output is
//! interpreted, and how the captured log is served.
//!
//! All process and file work happens outside: callers run the probes,
//! spawn and kill, and read the files, then hand the observed values in.

use vstd::prelude::*;

use crate::strutil::{lines_view, split_lines, trim_spaces, trim_view, views_of};

verus! {

/// Whether the orchestration tool was found, and where.
#[derive(Debug)]
pub struct TiltInstallation {
    pub installed: bool,
    pub path: Option<String>,
    pub version: Option<String>,
}

/// The persisted run state of the tool for one workspace and environment.
#[derive(Debug)]
pub struct TiltState {
    pub status: String,
    pub pid: Option<u32>,
}

#[derive(Debug)]
pub struct State {
    pub tilt: TiltState,
}

/// The status a reconciliation derived.
#[derive(Debug)]
pub struct TitleStatus {
    pub status: String,
}

/// Captured log lines.
#[derive(Debug)]
pub struct TiltLog {
    pub logs: Vec<String>,
}

/// What a short-lived probe command produced: whether it could be launched
/// at all, whether it exited successfully, its captured output, and the
/// launcher's error text when it could not run.
#[derive(Debug)]
pub struct ProbeOutcome {
    pub launched: bool,
    pub success: bool,
    pub stdout: String,
    pub stderr: String,
    pub error: String,
}

/// Why a lifecycle operation failed.
#[derive(Debug)]
pub enum LifecycleError {
    /// The executable could not be found or run.
    NotFound(String),
    /// A probe ran but did not produce what was required.
    Failed(String),
}

impl LifecycleError {
    pub open spec fn message_view(&self) -> Seq<char> {
        match self {
            LifecycleError::NotFound(m) => m@,
            LifecycleError::Failed(m) => m@,
        }
    }

    /// The human-readable description of the failure.
    pub fn message(&self) -> (r: String)
        ensures
            r@ == self.message_view(),
    {
        match self {
            LifecycleError::NotFound(m) => m.clone(),
            LifecycleError::Failed(m) => m.clone(),
        }
    }
}

// ---------------------------------------------------------------------------
// Paths of the persisted state and the log
// ---------------------------------------------------------------------------

/// The persisted run-state document of one workspace and environment.
pub fn runtime_path(workspace: &str, env: &str) -> (r: String)
    ensures
        r@ == workspace@ + "/.tooling/"@ + env@ + "_runtime.json"@,
{
    let mut out = String::new();
    out.append(workspace);
    out.append("/.tooling/");
    out.append(env);
    out.append("_runtime.json");
    proof {
        assert(out@ =~= workspace@ + "/.tooling/"@ + env@ + "_runtime.json"@);
    }
    out
}

/// The captured process log of one workspace and environment.
pub fn log_path(workspace: &str, env: &str) -> (r: String)
    ensures
        r@ == workspace@ + "/.tooling/"@ + env@ + "_tilt.log"@,
{
    let mut out = String::new();
    out.append(workspace);
    out.append("/.tooling/");
    out.append(env);
    out.append("_tilt.log");
    proof {
        assert(out@ =~= workspace@ + "/.tooling/"@ + env@ + "_tilt.log"@);
    }
    out
}

// ---------------------------------------------------------------------------
// Interpreting probe output
// ---------------------------------------------------------------------------

/// The version a probe demonstrated: the trimmed standard output, or the
/// trimmed standard error where that is empty; nothing on failure or when
/// both are empty.
pub open spec fn version_from_output(o: ProbeOutcome) -> Option<Seq<char>> {
    if !o.launched || !o.success {
        None
    } else {
        let so = trim_view(o.stdout@);
        let se = trim_view(o.stderr@);
        let v = if so.len() > 0 {
            so
        } else {
            se
        };
        if v.len() == 0 {
            None
        } else {
            Some(v)
        }
    }
}

/// Decides whether a version probe validated the executable: success with
/// non-empty output yields the version, a probe that could not run is a
/// not-found failure, anything else a validation failure.
pub fn validate_executable_output(o: &ProbeOutcome) -> (r: Result<String, LifecycleError>)
    ensures
        match r {
            Result::Ok(v) => version_from_output(*o) == Some(v@),
            Result::Err(e) => version_from_output(*o) is None && match e {
                LifecycleError::NotFound(m) => !o.launched && m@
                    == "Executable not found or not accessible: "@ + o.error@,
                LifecycleError::Failed(m) => o.launched && m@
                    == "Failed to get version from executable"@,
            },
        },
{
    if !o.launched {
        let mut m = String::new();
        m.append("Executable not found or not accessible: ");
        m.append(o.error.as_str());
        return Err(LifecycleError::NotFound(m));
    }
    if !o.success {
        let mut m = String::new();
        m.append("Failed to get version from executable");
        return Err(LifecycleError::Failed(m));
    }
    let so = trim_spaces(o.stdout.as_str());
    let version = if so.unicode_len() > 0 {
        so
    } else {
        trim_spaces(o.stderr.as_str())
    };
    if version.unicode_len() == 0 {
        let mut m = String::new();
        m.append("Failed to get version from executable");
        return Err(LifecycleError::Failed(m));
    }
    Ok(version)
}

/// The tool path a lookup probe demonstrated: the first line of the
/// trimmed output, or nothing when the probe failed or printed nothing.
pub open spec fn path_from_which(o: ProbeOutcome) -> Option<Seq<char>> {
    if !o.launched || !o.success {
        None
    } else {
        let t = trim_view(o.stdout@);
        let ls = lines_view(t);
        if ls.len() == 0 || ls[0].len() == 0 {
            None
        } else {
            Some(ls[0])
        }
    }
}

/// Reads the tool path out of a lookup probe's output.
pub fn tilt_path_from_which(o: &ProbeOutcome) -> (r: Option<String>)
    ensures
        match r {
            Some(p) => path_from_which(*o) == Some(p@),
            None => path_from_which(*o) is None,
        },
{
    if !o.launched {
        return None;
    }
    if !o.success {
        return None;
    }
    let t = trim_spaces(o.stdout.as_str());
    let ls = split_lines(t.as_str());
    if ls.len() == 0 {
        return None;
    }
    let first = ls[0].clone();
    proof {
        assert(views_of(ls@)[0] == ls@[0]@);
    }
    if first.as_str().unicode_len() == 0 {
        return None;
    }
    Some(first)
}

/// Assembles the installation report: not installed without a path from
/// the lookup, else installed there, with whatever version the follow-up
/// probe demonstrated.
pub fn installation_from_probes(which: &ProbeOutcome, version: Option<&ProbeOutcome>) -> (r:
    TiltInstallation)
    ensures
        match path_from_which(*which) {
            Some(p) => {
                &&& r.installed
                &&& match r.path {
                    Some(rp) => rp@ == p,
                    None => false,
                }
                &&& match version {
                    Some(vo) => crate::project::opt_view(r.version) == version_from_output(*vo),
                    None => r.version is None,
                }
            },
            None => !r.installed && r.path is None && r.version is None,
        },
{
    let path = match tilt_path_from_which(which) {
        Some(p) => p,
        None => {
            return TiltInstallation { installed: false, path: None, version: None };
        },
    };
    let ver = match version {
        Some(vo) => match validate_executable_output(vo) {
            Ok(v) => Some(v),
            Err(_) => None,
        },
        None => None,
    };
    TiltInstallation { installed: true, path: Some(path), version: ver }
}

// ---------------------------------------------------------------------------
// Start, stop, reconcile
// ---------------------------------------------------------------------------

/// Starting is a no-op exactly when the persisted status already reads
/// `running`; only reconciliation ever writes that value.
pub fn start_is_noop(state: &State) -> (r: bool)
    ensures
        r == (state.tilt.status@ == "running"@),
{
    crate::strutil::str_eq(state.tilt.status.as_str(), "running")
}

/// The state persisted immediately after spawning: `starting` with the
/// child's process id. Only reconciliation later advances it to `running`.
pub fn state_after_spawn(pid: u32) -> (r: State)
    ensures
        r.tilt.status@ == "starting"@,
        r.tilt.pid == Some(pid),
{
    let mut status = String::new();
    status.append("starting");
    State { tilt: TiltState { status, pid: Some(pid) } }
}

/// What a stop must do: kill the persisted process id, if there is one.
/// Without one, stopping is a no-op that succeeds.
pub fn plan_stop(state: &State) -> (r: Option<u32>)
    ensures
        r == state.tilt.pid,
{
    match state.tilt.pid {
        Some(p) => Some(p),
        None => None,
    }
}

/// The state persisted after a stop, whatever the kill reported.
pub fn stopped_state() -> (r: State)
    ensures
        r.tilt.status@ == "stopped"@,
        r.tilt.pid is None,
{
    let mut status = String::new();
    status.append("stopped");
    State { tilt: TiltState { status, pid: None } }
}

/// Reconciles the persisted state against an observed liveness probe: the
/// derived status is `running` exactly when the process is alive, and the
/// persisted record is rewritten only when it disagrees, keeping its
/// process id. This is the only path that can set `running`.
pub fn reconcile_state(state: &State, alive: bool) -> (r: (TitleStatus, Option<State>))
    ensures
        r.0.status@ == (if alive {
            "running"@
        } else {
            "stopped"@
        }),
        state.tilt.status@ == r.0.status@ ==> r.1 is None,
        state.tilt.status@ != r.0.status@ ==> match r.1 {
            Some(ns) => ns.tilt.status@ == r.0.status@ && ns.tilt.pid == state.tilt.pid,
            None => false,
        },
{
    let mut derived = String::new();
    if alive {
        derived.append("running");
    } else {
        derived.append("stopped");
    }
    let same = crate::strutil::str_eq(state.tilt.status.as_str(), derived.as_str());
    if same {
        (TitleStatus { status: derived }, None)
    } else {
        let mut status2 = String::new();
        status2.append(derived.as_str());
        let pid = match state.tilt.pid {
            Some(p) => Some(p),
            None => None,
        };
        (TitleStatus { status: derived }, Some(State { tilt: TiltState { status: status2, pid } }))
    }
}

// ---------------------------------------------------------------------------
// Serving the captured log
// ---------------------------------------------------------------------------

/// Serves the captured log: a missing file is an empty result, no limit
/// returns the whole content as one entry, and a limit returns the last
/// that many lines in their original order — all of them where the file
/// has fewer.
pub fn get_tilt_logs(content: Option<&String>, lines: Option<usize>) -> (r: TiltLog)
    ensures
        match content {
            None => views_of(r.logs@) == Seq::<Seq<char>>::empty(),
            Some(c) => match lines {
                None => views_of(r.logs@) == seq![c@],
                Some(n) => {
                    let ls = lines_view(c@);
                    views_of(r.logs@) == ls.skip(
                        if n <= ls.len() {
                            ls.len() - n
                        } else {
                            0
                        },
                    )
                },
            },
        },
{
    let c = match content {
        None => {
            let r = TiltLog { logs: Vec::new() };
            proof {
                assert(views_of(r.logs@) =~= Seq::<Seq<char>>::empty());
            }
            return r;
        },
        Some(c) => c,
    };
    match lines {
        None => {
            let mut logs: Vec<String> = Vec::new();
            logs.push(c.clone());
            let r = TiltLog { logs };
            proof {
                assert(views_of(r.logs@) =~= seq![c@]);
            }
            r
        },
        Some(n) => {
            let all = split_lines(c.as_str());
            let ghost ls = lines_view(c@);
            let start = if n <= all.len() {
                all.len() - n
            } else {
                0
            };
            let mut logs: Vec<String> = Vec::new();
            let mut i: usize = start;
            proof {
                assert(views_of(logs@) =~= ls.subrange(start as int, start as int));
            }
            while i < all.len()
                invariant
                    views_of(all@) == ls,
                    start <= i <= all@.len(),
                    views_of(logs@) == ls.subrange(start as int, i as int),
                decreases all@.len() - i,
            {
                let ghost prev = views_of(logs@);
                logs.push(all[i].clone());
                proof {
                    assert(views_of(logs@) =~= prev.push(ls[i as int]));
                    assert(ls.subrange(start as int, i + 1) =~= ls.subrange(
                        start as int,
                        i as int,
                    ).push(ls[i as int]));
                }
                i = i + 1;
            }
            let r = TiltLog { logs };
            proof {
                assert(ls.subrange(start as int, ls.len() as int) =~= ls.skip(start as int));
            }
            r
        },
    }
}

} // verus!
