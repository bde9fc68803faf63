use handy::editing::{delete_group, delete_project, save_group, save_project, target_is_stoppable};
use handy::id_map::IdMap;
use handy::model::{Config, Group, HandyCommand, Project, TargetKind, TargetRef};
use handy::runtime::{now, ExitReport, RuntimeManager};

fn command(id: &str, project_id: &str, shell: &str, stop: Option<&str>) -> HandyCommand {
    HandyCommand {
        id: id.into(),
        project_id: project_id.into(),
        name: id.to_uppercase(),
        command: shell.into(),
        cwd: ".".into(),
        stop_command: stop.map(str::to_owned),
        status_command: None,
    }
}

fn project(id: &str, base_dir: &str, command_ids: &[&str]) -> Project {
    Project {
        id: id.into(),
        name: id.to_uppercase(),
        base_dir: base_dir.into(),
        command_ids: command_ids.iter().map(|s| s.to_string()).collect(),
    }
}

fn target(kind: TargetKind, id: &str) -> TargetRef {
    TargetRef { kind, id: id.into() }
}

/// Project `web` with `api` and `ui`, project `jobs` with `worker`, group
/// `stack` holding `web` and `worker`, group `all` holding `stack`.
fn config() -> Config {
    let mut projects = IdMap::new();
    projects.insert("web".to_string(), project("web", "/srv/web", &["api", "ui"]));
    projects.insert("jobs".to_string(), project("jobs", "/srv/jobs", &["worker"]));
    let mut commands = IdMap::new();
    commands.insert("api".to_string(), command("api", "web", "npm start", None));
    commands.insert("ui".to_string(), command("ui", "web", "npm run ui", None));
    commands.insert("worker".to_string(), command("worker", "jobs", "run", None));
    let mut groups = IdMap::new();
    groups.insert(
        "stack".to_string(),
        Group {
            id: "stack".into(),
            name: "Stack".into(),
            targets: vec![target(TargetKind::Project, "web"), target(TargetKind::Command, "worker")],
        },
    );
    groups.insert(
        "all".to_string(),
        Group { id: "all".into(), name: "All".into(), targets: vec![target(TargetKind::Group, "stack")] },
    );
    let config = Config { schema_version: 1, projects, commands, groups };
    assert_eq!(config.validate(), Ok(()));
    config
}

fn running(ids: &[&str]) -> RuntimeManager {
    let mut runtime = RuntimeManager::new();
    for id in ids {
        let id = id.to_string();
        assert!(runtime.mark_starting(&id, now()));
        runtime.record_launch(&id, &"/srv".to_string(), Ok(()));
    }
    runtime
}

#[test]
fn saving_a_project_needs_an_existing_folder() {
    let result = save_project(&config(), &RuntimeManager::new(), project("web", "/srv/web", &[]), vec![], false);
    assert_eq!(result.unwrap_err(), "Choose an existing project folder");
}

#[test]
fn saved_commands_must_belong_to_the_project() {
    let result = save_project(
        &config(),
        &RuntimeManager::new(),
        project("web", "/srv/web", &[]),
        vec![command("api", "jobs", "npm start", None)],
        true,
    );
    assert_eq!(result.unwrap_err(), "All saved commands must belong to this project");
}

#[test]
fn saving_a_project_replaces_its_commands() {
    let next = save_project(
        &config(),
        &RuntimeManager::new(),
        project("web", "/srv/web2", &["ignored"]),
        vec![command("api", "web", "npm run dev", None), command("docs", "web", "mkdocs serve", None)],
        true,
    )
    .unwrap();
    let web = next.projects.get(&"web".to_string()).unwrap();
    assert_eq!(web.base_dir, "/srv/web2");
    assert_eq!(web.command_ids, vec!["api", "docs"]);
    assert!(!next.commands.contains_key(&"ui".to_string()));
    assert_eq!(next.commands.get(&"api".to_string()).unwrap().command, "npm run dev");
    assert!(next.commands.contains_key(&"docs".to_string()));
    assert!(next.commands.contains_key(&"worker".to_string()));
}

#[test]
fn running_commands_cannot_be_changed_or_removed() {
    let runtime = running(&["api"]);
    let changed = save_project(
        &config(),
        &runtime,
        project("web", "/srv/web", &[]),
        vec![command("api", "web", "npm run dev", None), command("ui", "web", "npm run ui", None)],
        true,
    );
    assert_eq!(changed.unwrap_err(), "Stop 'API' before changing or removing it");
    let removed = save_project(&config(), &runtime, project("web", "/srv/web", &[]), vec![command("ui", "web", "npm run ui", None)], true);
    assert_eq!(removed.unwrap_err(), "Stop 'API' before changing or removing it");
    let moved = save_project(
        &config(),
        &runtime,
        project("web", "/srv/elsewhere", &[]),
        vec![command("api", "web", "npm start", None), command("ui", "web", "npm run ui", None)],
        true,
    );
    assert_eq!(moved.unwrap_err(), "Stop 'API' before changing or removing it");
}

#[test]
fn running_commands_can_be_renamed_in_place() {
    let runtime = running(&["api"]);
    let mut api = command("api", "web", "npm start", None);
    api.name = "Backend".into();
    let next = save_project(
        &config(),
        &runtime,
        project("web", "/srv/web", &[]),
        vec![api, command("ui", "web", "npm run ui", None)],
        true,
    )
    .unwrap();
    assert_eq!(next.commands.get(&"api".to_string()).unwrap().name, "Backend");
}

#[test]
fn deleting_a_project_removes_its_commands_and_targets() {
    let next = delete_project(&config(), &RuntimeManager::new(), &"web".to_string()).unwrap();
    assert!(!next.projects.contains_key(&"web".to_string()));
    assert!(!next.commands.contains_key(&"api".to_string()));
    assert!(!next.commands.contains_key(&"ui".to_string()));
    assert!(next.commands.contains_key(&"worker".to_string()));
    let stack = next.groups.get(&"stack".to_string()).unwrap();
    assert_eq!(stack.targets, vec![target(TargetKind::Command, "worker")]);
    assert_eq!(next.validate(), Ok(()));
}

#[test]
fn deleting_a_busy_project_is_refused() {
    let result = delete_project(&config(), &running(&["ui"]), &"web".to_string());
    assert_eq!(result.unwrap_err(), "Stop this project before deleting it");
    assert!(delete_project(&config(), &running(&["ui"]), &"jobs".to_string()).is_ok());
}

#[test]
fn deleting_a_project_with_a_completed_cleanup_is_refused() {
    let mut config = config();
    config.commands.insert("ui".to_string(), command("ui", "web", "npm run ui", Some("npm run clean")));
    let mut runtime = running(&["ui"]);
    runtime.record_exit(&"ui".to_string(), false, Ok(ExitReport { success: true, code: Some(0) }));
    assert_eq!(delete_project(&config, &runtime, &"web".to_string()).unwrap_err(), "Stop this project before deleting it");
}

#[test]
fn deleting_a_missing_project_changes_nothing() {
    let next = delete_project(&config(), &RuntimeManager::new(), &"nope".to_string()).unwrap();
    assert_eq!(next.projects.len(), 2);
    assert_eq!(next.commands.len(), 3);
}

#[test]
fn a_group_is_stoppable_when_a_command_it_reaches_runs() {
    assert_eq!(target_is_stoppable(&config(), &running(&["worker"]), &target(TargetKind::Group, "all")), Ok(true));
    assert_eq!(target_is_stoppable(&config(), &RuntimeManager::new(), &target(TargetKind::Group, "all")), Ok(false));
    assert_eq!(
        target_is_stoppable(&config(), &RuntimeManager::new(), &target(TargetKind::Group, "none")),
        Err("Missing Group target 'none'".to_string())
    );
}

#[test]
fn changing_a_running_group_is_refused() {
    let group = Group { id: "stack".into(), name: "Stack".into(), targets: vec![target(TargetKind::Project, "web")] };
    assert_eq!(save_group(&config(), &running(&["worker"]), group).unwrap_err(), "Stop this group before changing its targets");
}

#[test]
fn renaming_a_running_group_is_allowed() {
    let group = Group {
        id: "stack".into(),
        name: "Renamed".into(),
        targets: vec![target(TargetKind::Project, "web"), target(TargetKind::Command, "worker")],
    };
    let next = save_group(&config(), &running(&["worker"]), group).unwrap();
    assert_eq!(next.groups.get(&"stack".to_string()).unwrap().name, "Renamed");
}

#[test]
fn saving_a_new_group_adds_it() {
    let group = Group { id: "solo".into(), name: "Solo".into(), targets: vec![target(TargetKind::Command, "api")] };
    let next = save_group(&config(), &running(&["api"]), group).unwrap();
    assert_eq!(next.groups.len(), 3);
}

#[test]
fn deleting_a_group_removes_it_from_other_groups() {
    let next = delete_group(&config(), &RuntimeManager::new(), &"stack".to_string()).unwrap();
    assert!(!next.groups.contains_key(&"stack".to_string()));
    assert!(next.groups.get(&"all".to_string()).unwrap().targets.is_empty());
    assert_eq!(next.validate(), Ok(()));
}

#[test]
fn deleting_a_running_group_is_refused() {
    assert_eq!(delete_group(&config(), &running(&["api"]), &"all".to_string()).unwrap_err(), "Stop this group before deleting it");
    assert!(delete_group(&config(), &running(&["api"]), &"missing".to_string()).is_ok());
}

#[test]
fn the_first_blocking_command_is_named() {
    let runtime = running(&["ui", "api"]);
    let changed = save_project(
        &config(),
        &runtime,
        project("web", "/srv/moved", &[]),
        vec![command("api", "web", "npm start", None), command("ui", "web", "npm run ui", None)],
        true,
    );
    assert_eq!(changed.unwrap_err(), "Stop 'API' before changing or removing it");
    let only_ui = save_project(
        &config(),
        &runtime,
        project("web", "/srv/web", &[]),
        vec![command("api", "web", "npm start", None), command("ui", "web", "npm run dev", None)],
        true,
    );
    assert_eq!(only_ui.unwrap_err(), "Stop 'UI' before changing or removing it");
}
