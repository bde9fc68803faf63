use handy::detector::{compose_suggestions, detect, package_manager, script_suggestions, sorted_names, FolderFacts};

fn folder() -> FolderFacts {
    FolderFacts {
        is_dir: true,
        package_json: None,
        pnpm_lock: false,
        yarn_lock: false,
        bun_lock: false,
        bun_lockb: false,
        compose_yaml: false,
        compose_yml: false,
        docker_compose_yaml: false,
        docker_compose_yml: false,
    }
}

fn package(text: &str) -> Option<Result<Vec<u8>, String>> {
    Some(Ok(text.as_bytes().to_vec()))
}

#[test]
fn package_manager_follows_the_lock_file() {
    assert_eq!(package_manager(true, true, true, true), "pnpm");
    assert_eq!(package_manager(false, true, true, false), "yarn");
    assert_eq!(package_manager(false, false, true, false), "bun");
    assert_eq!(package_manager(false, false, false, true), "bun");
    assert_eq!(package_manager(false, false, false, false), "npm");
}

#[test]
fn scripts_are_suggested_in_order_of_name() {
    let mut facts = folder();
    facts.package_json = package(r#"{"name": "web", "scripts": {"dev": "vite", "build": "vite build", "Lint": "eslint ."}}"#);
    facts.yarn_lock = true;
    let suggestions = detect("/srv/web", facts).unwrap();
    let names: Vec<&str> = suggestions.iter().map(|s| s.name.as_str()).collect();
    assert_eq!(names, vec!["Lint", "build", "dev"]);
    assert_eq!(suggestions[1].command, "yarn run build");
    assert_eq!(suggestions[1].cwd, ".");
    assert_eq!(suggestions[1].source, "package.json");
    assert!(suggestions[1].stop_command.is_none());
    assert!(suggestions[1].status_command.is_none());
}

#[test]
fn package_without_scripts_suggests_nothing() {
    let mut facts = folder();
    facts.package_json = package(r#"{"name": "web"}"#);
    assert!(detect("/srv/web", facts).unwrap().is_empty());
    let mut facts = folder();
    facts.package_json = package(r#"{"scripts": ["not", "an", "object"]}"#);
    assert!(detect("/srv/web", facts).unwrap().is_empty());
}

#[test]
fn compose_files_are_suggested_with_a_stop_command() {
    let mut facts = folder();
    facts.package_json = package(r#"{"scripts": {"start": "node ."}}"#);
    facts.compose_yml = true;
    facts.docker_compose_yaml = true;
    let suggestions = detect("/srv/app", facts).unwrap();
    assert_eq!(suggestions.len(), 3);
    assert_eq!(suggestions[0].command, "npm run start");
    assert_eq!(suggestions[1].name, "Docker (compose.yml)");
    assert_eq!(suggestions[1].command, "docker compose -f compose.yml up");
    assert_eq!(suggestions[1].stop_command.as_deref(), Some("docker compose -f compose.yml down"));
    assert_eq!(suggestions[1].source, "Docker Compose");
    assert_eq!(suggestions[2].name, "Docker (docker-compose.yaml)");
}

#[test]
fn detection_needs_an_existing_absolute_folder() {
    assert_eq!(detect("relative/app", folder()).unwrap_err(), "Choose an existing project folder");
    let mut missing = folder();
    missing.is_dir = false;
    assert_eq!(detect("/srv/none", missing).unwrap_err(), "Choose an existing project folder");
}

#[test]
fn unreadable_package_reports_the_read_error() {
    let mut facts = folder();
    facts.package_json = Some(Err("Permission denied (os error 13)".into()));
    assert_eq!(detect("/srv/web", facts).unwrap_err(), "Permission denied (os error 13)");
}

#[test]
fn invalid_package_is_reported() {
    let mut facts = folder();
    facts.package_json = package("{ not json");
    let error = detect("/srv/web", facts).unwrap_err();
    let parser = serde_json::from_slice::<serde_json::Value>(b"{ not json").unwrap_err().to_string();
    assert_eq!(error, format!("Invalid package.json: {parser}"));
}

#[test]
fn names_are_sorted_by_character() {
    let names = vec!["b".to_string(), "ab".to_string(), "a".to_string(), "B".to_string(), "é".to_string(), "a".to_string()];
    assert_eq!(sorted_names(names), vec!["B", "a", "a", "ab", "b", "é"]);
    assert!(sorted_names(vec![]).is_empty());
}

#[test]
fn script_suggestions_use_the_manager() {
    let suggestions = script_suggestions("pnpm", vec!["test".to_string(), "dev".to_string()]);
    let commands: Vec<&str> = suggestions.iter().map(|s| s.command.as_str()).collect();
    assert_eq!(commands, vec!["pnpm run dev", "pnpm run test"]);
}

#[test]
fn compose_files_come_in_a_fixed_order() {
    let mut facts = folder();
    facts.docker_compose_yml = true;
    facts.compose_yaml = true;
    let names: Vec<String> = compose_suggestions(&facts).into_iter().map(|s| s.name).collect();
    assert_eq!(names, vec!["Docker (compose.yaml)", "Docker (docker-compose.yml)"]);
}

#[test]
fn scripts_member_that_is_not_an_object_suggests_no_scripts() {
    let mut facts = folder();
    facts.package_json = package(r#"{"scripts": "npm start"}"#);
    facts.compose_yaml = true;
    let suggestions = detect("/srv/web", facts).unwrap();
    let names: Vec<&str> = suggestions.iter().map(|s| s.name.as_str()).collect();
    assert_eq!(names, vec!["Docker (compose.yaml)"]);
}

#[test]
fn package_that_is_not_an_object_suggests_no_scripts() {
    let mut facts = folder();
    facts.package_json = package("[1, 2, 3]");
    assert!(detect("/srv/web", facts).unwrap().is_empty());
}
