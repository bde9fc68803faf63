use handy::id_map::IdMap;
use handy::model::{default_cwd, schema_version, Config, Group, HandyCommand, Project, TargetKind, TargetRef};

fn project(id: &str, name: &str, base_dir: &str, command_ids: &[&str]) -> Project {
    Project {
        id: id.into(),
        name: name.into(),
        base_dir: base_dir.into(),
        command_ids: command_ids.iter().map(|s| s.to_string()).collect(),
    }
}

fn command(id: &str, project_id: &str, name: &str, shell: &str, cwd: &str) -> HandyCommand {
    HandyCommand {
        id: id.into(),
        project_id: project_id.into(),
        name: name.into(),
        command: shell.into(),
        cwd: cwd.into(),
        stop_command: None,
        status_command: None,
    }
}

fn target(kind: TargetKind, id: &str) -> TargetRef {
    TargetRef { kind, id: id.into() }
}

fn group(id: &str, name: &str, targets: Vec<TargetRef>) -> Group {
    Group { id: id.into(), name: name.into(), targets }
}

fn sample() -> Config {
    let project = project("p", "Web", "/tmp/web", &["api"]);
    let command = command("api", "p", "API", "npm start", ".");
    let mut projects = IdMap::new();
    projects.insert(project.id.clone(), project);
    let mut commands = IdMap::new();
    commands.insert(command.id.clone(), command);
    Config { schema_version: 1, projects, commands, groups: IdMap::new() }
}

fn error_of(config: &Config) -> String {
    config.validate().unwrap_err()
}

fn replace_command(config: &mut Config, command: HandyCommand) {
    config.commands.insert(command.id.clone(), command);
}

fn replace_project(config: &mut Config, project: Project) {
    config.projects.insert(project.id.clone(), project);
}

#[test]
fn resolves_nested_groups_without_duplicates() {
    let mut config = sample();
    config.groups.insert("inner".into(), group("inner", "Inner", vec![target(TargetKind::Command, "api")]));
    config.groups.insert(
        "outer".into(),
        group("outer", "Outer", vec![target(TargetKind::Group, "inner"), target(TargetKind::Project, "p")]),
    );
    assert_eq!(config.resolve(&target(TargetKind::Group, "outer")).unwrap().len(), 1);
}

#[test]
fn rejects_group_cycles() {
    let mut config = sample();
    config.groups.insert("a".into(), group("a", "A", vec![target(TargetKind::Group, "b")]));
    config.groups.insert("b".into(), group("b", "B", vec![target(TargetKind::Group, "a")]));
    assert!(config.validate().unwrap_err().contains("cycle"));
}

#[test]
fn rejects_working_directory_escape() {
    let mut config = sample();
    let mut api = config.commands.get(&"api".to_string()).unwrap().clone();
    api.cwd = "../secret".into();
    replace_command(&mut config, api);
    assert!(config.validate().unwrap_err().contains("unsafe"));
}

#[test]
fn sample_configuration_is_valid() {
    assert_eq!(sample().validate(), Ok(()));
}

#[test]
fn empty_configuration_is_valid_and_current() {
    let config = Config::empty();
    assert_eq!(config.schema_version, 1);
    assert_eq!(config.projects.len(), 0);
    assert_eq!(config.commands.len(), 0);
    assert_eq!(config.groups.len(), 0);
    assert_eq!(config.validate(), Ok(()));
}

#[test]
fn defaults_of_a_stored_file() {
    assert_eq!(schema_version(), 1);
    assert_eq!(default_cwd(), ".");
}

#[test]
fn rejects_other_schema_versions() {
    let mut config = sample();
    config.schema_version = 2;
    assert_eq!(error_of(&config), "Unsupported schema version 2");
    config.schema_version = 0;
    assert_eq!(error_of(&config), "Unsupported schema version 0");
}

#[test]
fn rejects_project_stored_under_another_id() {
    let mut config = sample();
    config.projects.insert("q".into(), project("p2", "Other", "/tmp/other", &[]));
    assert_eq!(error_of(&config), "Every project needs a stable id and a name");
}

#[test]
fn rejects_project_with_blank_name() {
    let mut config = sample();
    replace_project(&mut config, project("p", " \t", "/tmp/web", &["api"]));
    assert_eq!(error_of(&config), "Every project needs a stable id and a name");
}

#[test]
fn rejects_relative_project_folder() {
    let mut config = sample();
    replace_project(&mut config, project("p", "Web", "web", &["api"]));
    assert_eq!(error_of(&config), "Project 'Web' must use an absolute folder");
}

#[test]
fn rejects_project_listing_missing_command() {
    let mut config = sample();
    replace_project(&mut config, project("p", "Web", "/tmp/web", &["api", "gone"]));
    assert_eq!(error_of(&config), "Project 'Web' refers to a missing command");
}

#[test]
fn rejects_project_listing_foreign_command() {
    let mut config = sample();
    replace_project(&mut config, project("q", "Docs", "/tmp/docs", &["api"]));
    assert_eq!(error_of(&config), "Command 'API' belongs to another project");
}

#[test]
fn rejects_command_without_shell_command() {
    let mut config = sample();
    replace_command(&mut config, command("api", "p", "API", "   ", "."));
    assert_eq!(error_of(&config), "Every command needs a stable id, name, and shell command");
}

#[test]
fn rejects_command_without_project() {
    let mut config = sample();
    replace_command(&mut config, command("worker", "nowhere", "Worker", "run", "."));
    assert_eq!(error_of(&config), "Command 'Worker' has no project");
}

#[test]
fn rejects_absolute_working_directory() {
    let mut config = sample();
    replace_command(&mut config, command("api", "p", "API", "npm start", "/etc"));
    assert_eq!(error_of(&config), "Command 'API' has an unsafe working directory");
}

#[test]
fn accepts_working_directory_below_the_project() {
    let mut config = sample();
    replace_command(&mut config, command("api", "p", "API", "npm start", "./server/..x/a..b"));
    assert_eq!(config.validate(), Ok(()));
}

#[test]
fn rejects_group_with_blank_name() {
    let mut config = sample();
    config.groups.insert("g".into(), group("g", "", vec![]));
    assert_eq!(error_of(&config), "Every group needs a stable id and a name");
}

#[test]
fn rejects_group_with_missing_target() {
    let mut config = sample();
    config.groups.insert("g".into(), group("g", "All", vec![target(TargetKind::Project, "nope")]));
    assert_eq!(error_of(&config), "Missing Project target 'nope'");
}

#[test]
fn names_the_group_on_a_cycle() {
    let mut config = sample();
    config.groups.insert("solo".into(), group("solo", "Solo", vec![target(TargetKind::Group, "solo")]));
    assert_eq!(error_of(&config), "Group cycle includes 'Solo'");
}

#[test]
fn resolving_a_missing_target_names_it() {
    let config = sample();
    assert_eq!(config.ensure_target_exists(&target(TargetKind::Command, "web")), Err("Missing Command target 'web'".to_string()));
    assert_eq!(config.resolve(&target(TargetKind::Group, "all")), Err("Missing Group target 'all'".to_string()));
    assert_eq!(config.ensure_target_exists(&target(TargetKind::Project, "p")), Ok(()));
}

#[test]
fn resolving_a_cycle_fails() {
    let mut config = sample();
    config.groups.insert("a".into(), group("a", "A", vec![target(TargetKind::Group, "b")]));
    config.groups.insert("b".into(), group("b", "B", vec![target(TargetKind::Group, "a")]));
    assert_eq!(config.resolve(&target(TargetKind::Group, "a")), Err("Group cycle detected".to_string()));
}

#[test]
fn resolving_a_group_gathers_the_commands_of_its_targets() {
    let mut config = sample();
    replace_project(&mut config, project("p", "Web", "/tmp/web", &["api", "ui"]));
    replace_command(&mut config, command("ui", "p", "UI", "npm run ui", "."));
    replace_project(&mut config, project("q", "Jobs", "/tmp/jobs", &["worker"]));
    replace_command(&mut config, command("worker", "q", "Worker", "run", "."));
    config.groups.insert("web".into(), group("web", "Web", vec![target(TargetKind::Project, "p")]));
    config.groups.insert(
        "all".into(),
        group("all", "All", vec![target(TargetKind::Group, "web"), target(TargetKind::Command, "worker"), target(TargetKind::Command, "api")]),
    );
    assert_eq!(config.validate(), Ok(()));
    let mut ids = config.resolve(&target(TargetKind::Group, "all")).unwrap();
    ids.sort();
    assert_eq!(ids, vec!["api".to_string(), "ui".to_string(), "worker".to_string()]);
    let commands = config.commands_for(&vec!["worker".to_string(), "missing".to_string(), "api".to_string()]);
    let names: Vec<&str> = commands.iter().map(|c| c.name.as_str()).collect();
    assert_eq!(names, vec!["Worker", "API"]);
}

#[test]
fn resolving_a_command_gives_only_that_command() {
    let config = sample();
    assert_eq!(config.resolve(&target(TargetKind::Command, "api")), Ok(vec!["api".to_string()]));
}

#[test]
fn cloned_configuration_keeps_every_entry() {
    let mut config = sample();
    config.groups.insert("g".into(), group("g", "G", vec![target(TargetKind::Command, "api")]));
    let copy = config.clone();
    assert_eq!(copy.schema_version, 1);
    assert_eq!(copy.projects.get(&"p".to_string()).unwrap().base_dir, "/tmp/web");
    assert_eq!(copy.commands.get(&"api".to_string()).unwrap().command, "npm start");
    assert_eq!(copy.groups.get(&"g".to_string()).unwrap().targets, vec![target(TargetKind::Command, "api")]);
}

#[test]
fn a_project_is_checked_in_order() {
    let mut config = sample();
    replace_project(&mut config, project("p", "", "relative", &["gone"]));
    assert_eq!(error_of(&config), "Every project needs a stable id and a name");
    replace_project(&mut config, project("p", "Web", "relative", &["gone"]));
    assert_eq!(error_of(&config), "Project 'Web' must use an absolute folder");
    replace_project(&mut config, project("q", "Docs", "/tmp/docs", &[]));
    replace_command(&mut config, command("doc", "q", "Doc", "serve", "."));
    replace_project(&mut config, project("p", "Web", "/tmp/web", &["doc", "gone"]));
    assert_eq!(error_of(&config), "Command 'Doc' belongs to another project");
}

#[test]
fn a_command_is_checked_in_order() {
    let mut config = sample();
    replace_command(&mut config, command("worker", "nowhere", "Worker", "run", "../up"));
    assert_eq!(error_of(&config), "Command 'Worker' has no project");
}

#[test]
fn projects_are_checked_before_commands_and_groups() {
    let mut config = sample();
    config.groups.insert("g".into(), group("g", "", vec![]));
    replace_command(&mut config, command("api", "p", "API", "npm start", "/abs"));
    replace_project(&mut config, project("p", "Web", "web", &["api"]));
    assert_eq!(error_of(&config), "Project 'Web' must use an absolute folder");
    replace_project(&mut config, project("p", "Web", "/tmp/web", &["api"]));
    assert_eq!(error_of(&config), "Command 'API' has an unsafe working directory");
    replace_command(&mut config, command("api", "p", "API", "npm start", "."));
    assert_eq!(error_of(&config), "Every group needs a stable id and a name");
}

#[test]
fn group_targets_are_checked_in_order() {
    let mut config = sample();
    config.groups.insert(
        "g".into(),
        group("g", "G", vec![target(TargetKind::Command, "api"), target(TargetKind::Group, "x"), target(TargetKind::Project, "y")]),
    );
    assert_eq!(error_of(&config), "Missing Group target 'x'");
}

#[test]
fn the_first_stored_broken_item_is_named() {
    let mut config = sample();
    config.projects.insert("q".into(), project("q", "Docs", "docs", &[]));
    config.projects.insert("r".into(), project("r", "Blog", "blog", &[]));
    assert_eq!(error_of(&config), "Project 'Docs' must use an absolute folder");
}

#[test]
fn the_cycle_search_names_the_group_it_meets_again() {
    let mut config = sample();
    config.groups.insert("a".into(), group("a", "A", vec![target(TargetKind::Group, "b")]));
    config.groups.insert("b".into(), group("b", "B", vec![target(TargetKind::Command, "api"), target(TargetKind::Group, "c")]));
    config.groups.insert("c".into(), group("c", "C", vec![target(TargetKind::Group, "b")]));
    assert_eq!(error_of(&config), "Group cycle includes 'B'");
}
