use tilt_orchestrator::lifecycle::{
    get_tilt_logs, installation_from_probes, log_path, plan_stop, reconcile_state, runtime_path,
    start_is_noop, state_after_spawn, stopped_state, validate_executable_output, LifecycleError,
    ProbeOutcome, State, TiltState,
};
use tilt_orchestrator::paths::{env_dir, env_file, project_file, project_root};
use tilt_orchestrator::statefile::{parse_state_json, read_state, render_state_json};

fn probe(launched: bool, success: bool, stdout: &str, stderr: &str) -> ProbeOutcome {
    ProbeOutcome {
        launched,
        success,
        stdout: stdout.to_string(),
        stderr: stderr.to_string(),
        error: String::new(),
    }
}

fn state(status: &str, pid: Option<u32>) -> State {
    State { tilt: TiltState { status: status.to_string(), pid } }
}

#[test]
fn test_log_path_format() {
    let workspace = "/ws/test-project";
    let env_name = "dev";

    let log_path = log_path(workspace, env_name);

    let expected = format!("{}/.tooling/dev_tilt.log", workspace);
    assert_eq!(log_path, expected);
}

#[test]
fn test_log_path_different_environments() {
    let workspace = "/ws/test-project";

    let dev_log = log_path(workspace, "dev");
    let prod_log = log_path(workspace, "prod");

    assert!(dev_log.contains("dev_tilt.log"));
    assert!(prod_log.contains("prod_tilt.log"));
    assert_ne!(dev_log, prod_log);
}

#[test]
fn runtime_path_format() {
    assert_eq!(runtime_path("/ws", "dev"), "/ws/.tooling/dev_runtime.json");
}

#[test]
fn test_get_tilt_logs_with_limit() {
    let mut content = String::new();
    for i in 1..=10 {
        content.push_str(&format!("line {}\n", i));
    }

    let result = get_tilt_logs(Some(&content), Some(5));

    assert_eq!(result.logs.len(), 5);
    assert_eq!(result.logs[0], "line 6");
    assert_eq!(result.logs[4], "line 10");
}

#[test]
fn test_get_tilt_logs_nonexistent_file() {
    let result = get_tilt_logs(None, None);

    assert_eq!(result.logs.len(), 0);
}

#[test]
fn get_tilt_logs_whole_content_is_one_entry() {
    let content = "line 1\nline 2\n".to_string();
    let result = get_tilt_logs(Some(&content), None);
    assert_eq!(result.logs.len(), 1);
    assert_eq!(result.logs[0], "line 1\nline 2\n");
}

#[test]
fn get_tilt_logs_short_file_returns_all_lines() {
    let content = "one\ntwo\n".to_string();
    let result = get_tilt_logs(Some(&content), Some(10));
    assert_eq!(result.logs, vec!["one".to_string(), "two".to_string()]);
}

#[test]
fn start_on_running_state_is_a_noop() {
    assert!(start_is_noop(&state("running", Some(42))));
    assert!(!start_is_noop(&state("starting", Some(42))));
    assert!(!start_is_noop(&state("stopped", None)));
}

#[test]
fn stop_without_pid_kills_nothing() {
    assert_eq!(plan_stop(&state("stopped", None)), None);
    assert_eq!(plan_stop(&state("starting", Some(7))), Some(7));
}

#[test]
fn spawn_persists_starting_with_pid() {
    let s = state_after_spawn(4711);
    assert_eq!(s.tilt.status, "starting");
    assert_eq!(s.tilt.pid, Some(4711));
}

#[test]
fn stop_persists_stopped_without_pid() {
    let s = stopped_state();
    assert_eq!(s.tilt.status, "stopped");
    assert_eq!(s.tilt.pid, None);
}

#[test]
fn reconcile_is_the_only_path_to_running() {
    let (derived, rewrite) = reconcile_state(&state("starting", Some(7)), true);
    assert_eq!(derived.status, "running");
    let rewritten = rewrite.expect("disagreement must rewrite");
    assert_eq!(rewritten.tilt.status, "running");
    assert_eq!(rewritten.tilt.pid, Some(7));

    let (derived, rewrite) = reconcile_state(&state("running", Some(7)), true);
    assert_eq!(derived.status, "running");
    assert!(rewrite.is_none());

    let (derived, rewrite) = reconcile_state(&state("running", Some(7)), false);
    assert_eq!(derived.status, "stopped");
    assert_eq!(rewrite.unwrap().tilt.status, "stopped");
}

#[test]
fn version_probe_prefers_stdout_then_stderr() {
    let v = validate_executable_output(&probe(true, true, "  v0.33.6\n", "")).unwrap();
    assert_eq!(v, "v0.33.6");

    let v = validate_executable_output(&probe(true, true, "", "v1.2 on stderr\n")).unwrap();
    assert_eq!(v, "v1.2 on stderr");

    match validate_executable_output(&probe(true, true, "  \n", "\t")) {
        Err(LifecycleError::Failed(m)) => {
            assert_eq!(m, "Failed to get version from executable")
        }
        other => panic!("unexpected: {:?}", other),
    }

    match validate_executable_output(&probe(true, false, "irrelevant", "")) {
        Err(LifecycleError::Failed(_)) => {}
        other => panic!("unexpected: {:?}", other),
    }

    let mut failed = probe(false, false, "", "");
    failed.error = "no such file".to_string();
    match validate_executable_output(&failed) {
        Err(LifecycleError::NotFound(m)) => {
            assert_eq!(m, "Executable not found or not accessible: no such file")
        }
        other => panic!("unexpected: {:?}", other),
    }
}

#[test]
fn installation_report_from_probes() {
    let which = probe(true, true, "/usr/local/bin/tilt\n", "");
    let version = probe(true, true, "v0.33.6, built 2024-01-01\n", "");
    let inst = installation_from_probes(&which, Some(&version));
    assert!(inst.installed);
    assert_eq!(inst.path.as_deref(), Some("/usr/local/bin/tilt"));
    assert_eq!(inst.version.as_deref(), Some("v0.33.6, built 2024-01-01"));

    let missing = probe(true, false, "", "");
    let inst = installation_from_probes(&missing, None);
    assert!(!inst.installed);
    assert_eq!(inst.path, None);
    assert_eq!(inst.version, None);
}

#[test]
fn state_document_round_trips() {
    let s = state("starting", Some(1234));
    let text = render_state_json(&s);
    assert_eq!(text, "{\n  \"tilt\": {\n    \"status\": \"starting\",\n    \"pid\": 1234\n  }\n}");
    let (status, pid) = parse_state_json(&text).expect("canonical document parses");
    assert_eq!(status, "starting");
    assert_eq!(pid, Some(1234));

    let s = state("stopped", None);
    let text = render_state_json(&s);
    assert_eq!(text, "{\n  \"tilt\": {\n    \"status\": \"stopped\",\n    \"pid\": null\n  }\n}");
    let (status, pid) = parse_state_json(&text).expect("canonical document parses");
    assert_eq!(status, "stopped");
    assert_eq!(pid, None);
}

#[test]
fn unreadable_state_reads_as_stopped() {
    let garbled = "not a state document".to_string();
    let s = read_state(Some(&garbled));
    assert_eq!(s.tilt.status, "stopped");
    assert_eq!(s.tilt.pid, None);

    let s = read_state(None);
    assert_eq!(s.tilt.status, "stopped");
    assert_eq!(s.tilt.pid, None);

    let good = render_state_json(&state("running", Some(9)));
    let s = read_state(Some(&good));
    assert_eq!(s.tilt.status, "running");
    assert_eq!(s.tilt.pid, Some(9));
}

#[test]
fn oversized_pid_is_rejected() {
    let text = "{\n  \"tilt\": {\n    \"status\": \"running\",\n    \"pid\": 99999999999\n  }\n}";
    assert!(parse_state_json(text).is_none());
    let in_range = "{\n  \"tilt\": {\n    \"status\": \"running\",\n    \"pid\": 4294967295\n  }\n}";
    assert_eq!(parse_state_json(in_range).unwrap().1, Some(u32::MAX));
}

#[test]
fn project_paths_compose() {
    let root = project_root("/ws", "proj");
    assert_eq!(root, "/ws/proj");
    assert_eq!(project_file(&root), "/ws/proj/project.json");
    assert_eq!(env_dir(&root), "/ws/proj/environments");
    assert_eq!(env_file(&root, "dev"), "/ws/proj/environments/dev.json");
}
