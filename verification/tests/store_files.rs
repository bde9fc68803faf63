use handy::id_map::IdMap;
use handy::model::{Config, Project};
use handy::store::{ConfigStore, StoredFile};

fn store(name: &str) -> ConfigStore {
    ConfigStore::with_path(format!("/tmp/handy-store-{name}/config.v1.json"))
}

fn invalid_config() -> Config {
    let mut projects = IdMap::new();
    projects.insert(
        "p".to_string(),
        Project { id: "p".into(), name: "Web".into(), base_dir: "relative".into(), command_ids: vec![] },
    );
    Config { schema_version: 1, projects, commands: IdMap::new(), groups: IdMap::new() }
}

#[test]
fn fresh_store_has_no_recovery_warning() {
    let store = store("fresh");
    let loaded = store.load(StoredFile::Missing, StoredFile::Missing);
    assert!(loaded.warning.is_none());
    assert_eq!(loaded.config.schema_version, 1);
    assert_eq!(loaded.config.projects.len(), 0);
}

#[test]
fn valid_backup_is_recovered_without_overwriting_it() {
    let store = store("backup");
    let loaded = store.load(StoredFile::Unreadable, StoredFile::Parsed(Config::empty()));
    assert!(loaded.warning.is_some());
    let plan = store.save_plan(&loaded.config, StoredFile::Unreadable).unwrap();

    assert_eq!(plan.temporary, "/tmp/handy-store-backup/config.v1.json.tmp");
    let preserved = plan.preserve_to.unwrap();
    assert!(preserved.contains(".corrupt-"));
    assert_ne!(preserved, store.backup_path());
}

#[test]
fn unreadable_primary_and_backup_load_empty_with_warning() {
    let store = store("invalid");
    let loaded = store.load(StoredFile::Unreadable, StoredFile::Unreadable);
    assert!(loaded.warning.is_some());
    assert_eq!(loaded.config.schema_version, 1);
}

#[test]
fn valid_primary_is_loaded_without_warning() {
    let store = store("primary");
    let mut primary = Config::empty();
    primary.projects.insert(
        "p".to_string(),
        Project { id: "p".into(), name: "Web".into(), base_dir: "/srv/web".into(), command_ids: vec![] },
    );
    let loaded = store.load(StoredFile::Parsed(primary), StoredFile::Parsed(Config::empty()));
    assert!(loaded.warning.is_none());
    assert_eq!(loaded.config.projects.len(), 1);
}

#[test]
fn recovery_warnings_say_what_happened() {
    let store = store("warnings");
    let recovered = store.load(StoredFile::Parsed(invalid_config()), StoredFile::Parsed(Config::empty()));
    assert_eq!(
        recovered.warning.unwrap(),
        "Configuration was recovered from backup; the unreadable primary file will be preserved on the next save"
    );
    let lost = store.load(StoredFile::Missing, StoredFile::Parsed(invalid_config()));
    assert_eq!(
        lost.warning.unwrap(),
        "Handy could not read its configuration or backup; the files were preserved and an empty configuration was loaded"
    );
    assert_eq!(lost.config.projects.len(), 0);
}

#[test]
fn a_file_loads_only_when_it_is_valid() {
    let store = store("files");
    assert!(store.load_file(StoredFile::Missing).is_none());
    assert!(store.load_file(StoredFile::Unreadable).is_none());
    assert!(store.load_file(StoredFile::Parsed(invalid_config())).is_none());
    assert!(store.load_file(StoredFile::Parsed(Config::empty())).is_some());
}

#[test]
fn files_beside_the_configuration() {
    let store = store("paths");
    assert_eq!(store.path(), "/tmp/handy-store-paths/config.v1.json");
    assert_eq!(store.backup_path(), "/tmp/handy-store-paths/config.v1.json.bak");
    assert_eq!(store.temporary_path(), "/tmp/handy-store-paths/config.v1.json.tmp");
    assert_eq!(store.corrupt_path_at(0), "/tmp/handy-store-paths/config.v1.json.corrupt-0");
    assert_eq!(
        store.corrupt_path_at(1_700_000_000_123_456_789),
        "/tmp/handy-store-paths/config.v1.json.corrupt-1700000000123456789"
    );
    assert!(store.corrupt_path().starts_with("/tmp/handy-store-paths/config.v1.json.corrupt-"));
}

#[test]
fn saving_keeps_a_valid_file_as_the_backup() {
    let store = store("save");
    let plan = store.save_plan(&Config::empty(), StoredFile::Parsed(Config::empty())).unwrap();
    assert_eq!(plan.preserve_to.unwrap(), store.backup_path());
    let first = store.save_plan(&Config::empty(), StoredFile::Missing).unwrap();
    assert!(first.preserve_to.is_none());
}

#[test]
fn saving_an_invalid_configuration_is_refused() {
    let store = store("refused");
    assert_eq!(
        store.save_plan(&invalid_config(), StoredFile::Missing).unwrap_err(),
        "Project 'Web' must use an absolute folder"
    );
}

#[test]
fn saving_refuses_with_the_validation_error() {
    let store = store("same-error");
    let mut config = invalid_config();
    config.schema_version = 3;
    assert_eq!(store.save_plan(&config, StoredFile::Missing).unwrap_err(), config.validate().unwrap_err());
    let config = invalid_config();
    assert_eq!(store.save_plan(&config, StoredFile::Missing).unwrap_err(), config.validate().unwrap_err());
}
