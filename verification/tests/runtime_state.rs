use handy::id_map::IdMap;
use handy::model::{Config, HandyCommand, Project, TargetKind, TargetRef};
use handy::runtime::{
    keep_line, now, CleanupOutcome, ExitReport, LogStream, ProcessStatus, RuntimeManager, LINE_LIMIT_BYTES,
    LOG_LIMIT_BYTES,
};

fn command(id: &str, stop_command: Option<&str>) -> HandyCommand {
    HandyCommand {
        id: id.into(),
        project_id: "project".into(),
        name: id.into(),
        command: "sleep 30".into(),
        cwd: ".".into(),
        stop_command: stop_command.map(str::to_owned),
        status_command: None,
    }
}

fn project(command_ids: &[&str]) -> Project {
    Project {
        id: "project".into(),
        name: "Test project".into(),
        base_dir: "/srv/project".into(),
        command_ids: command_ids.iter().map(|s| s.to_string()).collect(),
    }
}

fn texts(runtime: &RuntimeManager) -> Vec<String> {
    runtime.log_snapshot().into_iter().map(|e| e.text).collect()
}

fn start(runtime: &mut RuntimeManager, id: &str) {
    assert!(runtime.mark_starting(&id.to_string(), now()));
    runtime.record_launch(&id.to_string(), &"/srv/project".to_string(), Ok(()));
}

#[test]
fn starts_stops_and_captures_both_log_streams() {
    let mut runtime = RuntimeManager::new();
    let server = command("server", None);
    start(&mut runtime, "server");
    assert_eq!(runtime.status_of(&"server".to_string()), Some(ProcessStatus::Running));
    runtime.push_log(&server.id, LogStream::Stdout, "stdout".into());
    runtime.push_log(&server.id, LogStream::Stderr, "stderr".into());
    let logs = runtime.log_snapshot();
    assert!(logs.iter().any(|e| e.text == "stdout" && e.stream == LogStream::Stdout));
    assert!(logs.iter().any(|e| e.text == "stderr" && e.stream == LogStream::Stderr));

    let plan = runtime.begin_stop(&server, true).unwrap();
    assert!(plan.signal_process);
    assert!(plan.cleanup.is_none());
    assert_eq!(runtime.status_of(&"server".to_string()), Some(ProcessStatus::Stopping));
    runtime.record_exit(&server.id, true, Ok(ExitReport { success: false, code: None }));
    assert_eq!(runtime.status_of(&"server".to_string()), Some(ProcessStatus::Stopped));
    assert_eq!(texts(&runtime).last().unwrap(), "Stopped");
}

#[test]
fn completed_command_runs_its_configured_cleanup() {
    let mut runtime = RuntimeManager::new();
    let database = command("database", Some("printf 'cleanup\\n'"));
    start(&mut runtime, "database");
    runtime.record_exit(&database.id, false, Ok(ExitReport { success: true, code: Some(0) }));
    assert_eq!(runtime.status_of(&"database".to_string()), Some(ProcessStatus::Completed));
    assert!(runtime.can_stop(&database));

    let plan = runtime.begin_stop(&database, false).unwrap();
    assert_eq!(plan.cleanup.as_deref(), Some("printf 'cleanup\\n'"));
    assert!(!plan.signal_process);
    assert_eq!(plan.logged.unwrap().text, "Running stop command: printf 'cleanup\\n'");
    let lines = runtime.record_cleanup(
        &database.id,
        CleanupOutcome::Finished { stdout: b"cleanup\n".to_vec(), stderr: Vec::new(), success: true },
    );
    assert_eq!(lines.len(), 1);
    assert_eq!(lines[0].text, "cleanup");
    assert_eq!(lines[0].stream, LogStream::Stdout);
    runtime.finish_cleanup(&database.id);
    assert_eq!(runtime.status_of(&"database".to_string()), Some(ProcessStatus::Stopped));
    let logged = texts(&runtime);
    assert!(logged.contains(&"cleanup".to_string()));
    assert!(logged.contains(&"Configured cleanup completed".to_string()));
}

#[test]
fn recipe_start_and_stop_preserves_shared_command_ownership() {
    let mut runtime = RuntimeManager::new();
    let first = TargetRef { kind: TargetKind::Group, id: "first".into() };
    let second = TargetRef { kind: TargetKind::Group, id: "second".into() };
    let commands = vec!["api".to_string()];

    runtime.activate(first.clone(), commands.clone());
    start(&mut runtime, "api");
    runtime.activate(second.clone(), commands.clone());

    assert!(runtime.deactivate(&first, commands.clone()).is_empty());
    assert_eq!(runtime.deactivate(&second, commands), vec!["api"]);
}

#[test]
fn shutdown_stops_every_running_command() {
    let mut runtime = RuntimeManager::new();
    let first = command("api", None);
    let second = command("worker", None);
    start(&mut runtime, "api");
    start(&mut runtime, "worker");

    let mut projects = IdMap::new();
    projects.insert("project".to_string(), project(&["api", "worker"]));
    let mut commands = IdMap::new();
    commands.insert(first.id.clone(), first);
    commands.insert(second.id.clone(), second);
    let config = Config { schema_version: 1, projects, commands, groups: IdMap::new() };

    let mut ids: Vec<String> = runtime.commands_to_stop(&config).into_iter().map(|(c, p)| {
        assert_eq!(p.id, "project");
        c.id
    }).collect();
    ids.sort();
    assert_eq!(ids, vec!["api", "worker"]);
}

#[test]
fn stopping_one_command_stops_it_even_when_a_group_needs_it() {
    let mut runtime = RuntimeManager::new();
    let group = TargetRef { kind: TargetKind::Group, id: "stack".into() };
    let single = TargetRef { kind: TargetKind::Command, id: "api".into() };
    runtime.activate(group, vec!["api".to_string(), "db".to_string()]);
    runtime.activate(single.clone(), vec!["api".to_string()]);
    assert_eq!(runtime.deactivate(&single, vec!["api".to_string()]), vec!["api"]);
}

#[test]
fn stopping_a_group_keeps_what_another_group_needs() {
    let mut runtime = RuntimeManager::new();
    let web = TargetRef { kind: TargetKind::Group, id: "web".into() };
    let jobs = TargetRef { kind: TargetKind::Project, id: "jobs".into() };
    runtime.activate(web.clone(), vec!["api".to_string(), "db".to_string()]);
    runtime.activate(jobs, vec!["worker".to_string(), "db".to_string()]);
    assert_eq!(runtime.deactivate(&web, vec!["api".to_string(), "db".to_string()]), vec!["api"]);
}

#[test]
fn starting_twice_does_not_restart() {
    let mut runtime = RuntimeManager::new();
    start(&mut runtime, "api");
    assert!(!runtime.mark_starting(&"api".to_string(), 5));
    assert_eq!(runtime.status_of(&"api".to_string()), Some(ProcessStatus::Running));
    runtime.record_exit(&"api".to_string(), false, Ok(ExitReport { success: false, code: Some(3) }));
    assert!(runtime.mark_starting(&"api".to_string(), 7));
    let entry = runtime.snapshot().into_iter().find(|e| e.command_id == "api").unwrap();
    assert_eq!(entry.status, ProcessStatus::Starting);
    assert_eq!(entry.started_at, Some(7));
    assert_eq!(entry.exit_code, None);
}

#[test]
fn status_keeps_the_start_time() {
    let mut runtime = RuntimeManager::new();
    assert!(runtime.mark_starting(&"api".to_string(), 1234));
    runtime.set_status(&"api".to_string(), ProcessStatus::Failed, Some(2));
    let entries = runtime.snapshot();
    assert_eq!(entries.len(), 1);
    assert_eq!(entries[0].status, ProcessStatus::Failed);
    assert_eq!(entries[0].exit_code, Some(2));
    assert_eq!(entries[0].started_at, Some(1234));
    runtime.set_status(&"other".to_string(), ProcessStatus::Stopped, None);
    let other = runtime.snapshot().into_iter().find(|e| e.command_id == "other").unwrap();
    assert_eq!(other.started_at, None);
}

#[test]
fn exit_messages_say_how_the_process_ended() {
    let mut runtime = RuntimeManager::new();
    let id = "job".to_string();
    start(&mut runtime, "job");
    assert_eq!(runtime.record_exit(&id, false, Ok(ExitReport { success: false, code: Some(3) })).text, "Exited with code 3");
    assert_eq!(runtime.status_of(&id), Some(ProcessStatus::Failed));
    assert_eq!(runtime.record_exit(&id, false, Ok(ExitReport { success: false, code: Some(-15) })).text, "Exited with code -15");
    assert_eq!(runtime.record_exit(&id, false, Ok(ExitReport { success: false, code: None })).text, "Exited with code unknown");
    assert_eq!(runtime.record_exit(&id, false, Ok(ExitReport { success: true, code: Some(0) })).text, "Completed");
    assert_eq!(runtime.status_of(&id), Some(ProcessStatus::Completed));
    assert_eq!(runtime.record_exit(&id, false, Err("broken pipe".into())).text, "Process error: broken pipe");
    assert_eq!(runtime.status_of(&id), Some(ProcessStatus::Failed));
}

#[test]
fn launch_messages_name_the_folder_or_the_error() {
    let mut runtime = RuntimeManager::new();
    let id = "api".to_string();
    assert!(runtime.mark_starting(&id, 1));
    let started = runtime.record_launch(&id, &"/srv/app".to_string(), Ok(()));
    assert_eq!(started.text, "Started in /srv/app");
    assert_eq!(started.stream, LogStream::System);
    let failed = runtime.record_launch(&id, &"/srv/app".to_string(), Err("No such file".into()));
    assert_eq!(failed.text, "Could not start: No such file");
    assert_eq!(runtime.status_of(&id), Some(ProcessStatus::Failed));
}

#[test]
fn cleanup_outcomes_are_logged() {
    let mut runtime = RuntimeManager::new();
    let id = "db".to_string();
    let lines = runtime.record_cleanup(
        &id,
        CleanupOutcome::Finished { stdout: b"one\r\n\ntwo".to_vec(), stderr: b"oops\n".to_vec(), success: false },
    );
    let seen: Vec<(LogStream, String)> = lines.into_iter().map(|e| (e.stream, e.text)).collect();
    assert_eq!(
        seen,
        vec![
            (LogStream::Stdout, "one".to_string()),
            (LogStream::Stdout, "two".to_string()),
            (LogStream::Stderr, "oops".to_string()),
            (LogStream::System, "Configured stop command failed".to_string()),
        ]
    );
    assert_eq!(runtime.record_cleanup(&id, CleanupOutcome::CouldNotStart)[0].text, "Could not start the configured stop command");
    assert_eq!(runtime.record_cleanup(&id, CleanupOutcome::TimedOut)[0].text, "Configured stop command timed out");
}

#[test]
fn cleanup_output_that_is_not_utf8_is_replaced() {
    let mut runtime = RuntimeManager::new();
    let lines = runtime.record_cleanup(
        &"db".to_string(),
        CleanupOutcome::Finished { stdout: vec![b'a', 0xff, b'b'], stderr: Vec::new(), success: true },
    );
    assert_eq!(lines.len(), 1);
    assert_eq!(lines[0].text, "a\u{fffd}b");
}

#[test]
fn nothing_to_stop_without_process_or_cleanup() {
    let mut runtime = RuntimeManager::new();
    let api = command("api", Some("  "));
    assert!(runtime.begin_stop(&api, false).is_none());
    assert!(runtime.log_snapshot().is_empty());
    assert_eq!(runtime.next_sequence(), 1);
}

#[test]
fn completed_command_with_blank_cleanup_cannot_be_stopped() {
    let mut runtime = RuntimeManager::new();
    let api = command("api", Some(" \n"));
    start(&mut runtime, "api");
    assert!(runtime.can_stop(&api));
    runtime.record_exit(&api.id, false, Ok(ExitReport { success: true, code: Some(0) }));
    assert!(!runtime.can_stop(&api));
    let unknown = command("unknown", Some("stop"));
    assert!(!runtime.can_stop(&unknown));
}

#[test]
fn log_lines_are_numbered_and_clearing_keeps_the_numbering() {
    let mut runtime = RuntimeManager::new();
    let id = "api".to_string();
    assert_eq!(runtime.push_log(&id, LogStream::Stdout, "a".into()).sequence, 1);
    assert_eq!(runtime.push_log(&id, LogStream::Stdout, "b".into()).sequence, 2);
    runtime.clear_logs();
    assert!(runtime.log_snapshot().is_empty());
    let entry = runtime.push_log(&id, LogStream::Stderr, "c".into());
    assert_eq!(entry.sequence, 3);
    assert_eq!(runtime.log_snapshot().len(), 1);
    assert_eq!(runtime.next_sequence(), 4);
}

#[test]
fn push_log_at_keeps_the_timestamp() {
    let mut runtime = RuntimeManager::new();
    let entry = runtime.push_log_at(&"api".to_string(), LogStream::System, "hello".into(), 99);
    assert_eq!(entry.timestamp, 99);
    assert_eq!(entry.command_id, "api");
    assert_eq!(runtime.log_snapshot()[0].timestamp, 99);
}

#[test]
fn long_lines_are_cut_at_a_character_boundary() {
    let short = "x".repeat(LINE_LIMIT_BYTES);
    assert_eq!(keep_line(short.clone()), short);
    let long = "y".repeat(LINE_LIMIT_BYTES + 10);
    let kept = keep_line(long);
    assert_eq!(kept, format!("{} … [line truncated]", "y".repeat(LINE_LIMIT_BYTES)));
    let wide = format!("a{}", "é".repeat(LINE_LIMIT_BYTES / 2));
    let kept = keep_line(wide);
    let expected = format!("a{} … [line truncated]", "é".repeat(LINE_LIMIT_BYTES / 2 - 1));
    assert_eq!(kept, expected);
}

#[test]
fn the_log_drops_its_oldest_lines_beyond_its_limit() {
    let mut runtime = RuntimeManager::new();
    let id = "api".to_string();
    let line = "z".repeat(LINE_LIMIT_BYTES);
    let fit = LOG_LIMIT_BYTES / LINE_LIMIT_BYTES;
    for _ in 0..fit {
        runtime.push_log(&id, LogStream::Stdout, line.clone());
    }
    assert_eq!(runtime.log_snapshot().len(), fit);
    assert_eq!(runtime.log_snapshot()[0].sequence, 1);
    runtime.push_log(&id, LogStream::Stdout, "tail".into());
    let logs = runtime.log_snapshot();
    assert_eq!(logs.len(), fit);
    assert_eq!(logs[0].sequence, 2);
    assert_eq!(logs.last().unwrap().text, "tail");
    let total: usize = logs.iter().map(|e| e.text.len()).sum();
    assert!(total <= LOG_LIMIT_BYTES);
}

#[test]
fn push_lines_logs_each_line_in_order() {
    let mut runtime = RuntimeManager::new();
    let out = runtime.push_lines(&"api".to_string(), LogStream::Stdout, &vec!["one".to_string(), "two".to_string()]);
    let seqs: Vec<u64> = out.iter().map(|e| e.sequence).collect();
    assert_eq!(seqs, vec![1, 2]);
    assert_eq!(texts(&runtime), vec!["one", "two"]);
}

#[test]
fn read_errors_are_logged() {
    let mut runtime = RuntimeManager::new();
    let entry = runtime.record_read_error(&"api".to_string(), "stream did not contain valid UTF-8".into());
    assert_eq!(entry.text, "Log read error: stream did not contain valid UTF-8");
    assert_eq!(entry.stream, LogStream::System);
}

#[test]
fn quitting_forgets_every_active_target() {
    let mut runtime = RuntimeManager::new();
    let web = TargetRef { kind: TargetKind::Group, id: "web".into() };
    let jobs = TargetRef { kind: TargetKind::Group, id: "jobs".into() };
    runtime.activate(web.clone(), vec!["db".to_string()]);
    runtime.activate(jobs, vec!["db".to_string()]);
    runtime.clear_active();
    assert_eq!(runtime.deactivate(&web, vec!["db".to_string()]), vec!["db"]);
}

#[test]
fn lines_logged_after_a_clear_are_the_most_recent_ones() {
    let mut runtime = RuntimeManager::new();
    let id = "api".to_string();
    runtime.push_log(&id, LogStream::Stdout, "old".into());
    runtime.clear_logs();
    let line = "w".repeat(LINE_LIMIT_BYTES);
    let fit = LOG_LIMIT_BYTES / LINE_LIMIT_BYTES;
    for _ in 0..fit + 3 {
        runtime.push_log(&id, LogStream::Stdout, line.clone());
    }
    let logs = runtime.log_snapshot();
    assert_eq!(logs.len(), fit);
    assert_eq!(logs[0].sequence, 5);
    assert_eq!(logs.last().unwrap().sequence, (fit + 4) as u64);
}
