//! Loading and saving the configuration file with a backup: which file is
//! believed, what the user is warned about, and where an old file is kept.
use vstd::prelude::*;
use crate::model::{config_valid, validation_error, violation_message, Config, ConfigView, CommandView, GroupView, ProjectView};
use crate::text::{decimal, push_decimal};

verus! {

/// What reading and parsing one stored file gave.
#[derive(Debug)]
pub enum StoredFile {
    /// There is no such file.
    Missing,
    /// The file exists but could not be read or parsed.
    Unreadable,
    /// The file parsed as a configuration.
    Parsed(Config),
}

/// The value of a stored file.
pub enum StoredFileView {
    Missing,
    Unreadable,
    Parsed(ConfigView),
}

impl View for StoredFile {
    type V = StoredFileView;

    open spec fn view(&self) -> StoredFileView {
        match self {
            StoredFile::Missing => StoredFileView::Missing,
            StoredFile::Unreadable => StoredFileView::Unreadable,
            StoredFile::Parsed(c) => StoredFileView::Parsed(c@),
        }
    }
}

/// A stored file holds a configuration that passes validation.
pub open spec fn loadable(f: StoredFileView) -> bool {
    f matches StoredFileView::Parsed(c) && config_valid(c)
}

/// The configuration that the application works with, and what to tell the
/// user about how it was obtained.
pub struct LoadOutcome {
    pub config: Config,
    pub warning: Option<String>,
}

pub open spec fn recovered_warning() -> Seq<char> {
    "Configuration was recovered from backup; the unreadable primary file will be preserved on the next save"@
}

pub open spec fn unreadable_warning() -> Seq<char> {
    "Handy could not read its configuration or backup; the files were preserved and an empty configuration was loaded"@
}

/// Where a save keeps the file it replaces, when the time is `t`: nowhere
/// when there is none, as the backup when it holds a valid configuration,
/// under a `corrupt` name stamped with the time otherwise.
pub open spec fn preserve_target(path: Seq<char>, primary: StoredFileView, t: nat) -> Option<Seq<char>> {
    if primary is Missing {
        None
    } else if loadable(primary) {
        Some(path + ".bak"@)
    } else {
        Some(path + ".corrupt-"@ + decimal(t))
    }
}

/// An empty configuration of the current schema.
pub open spec fn is_empty_config(c: ConfigView) -> bool {
    &&& c.schema_version == 1
    &&& c.projects == Map::<Seq<char>, ProjectView>::empty()
    &&& c.commands == Map::<Seq<char>, CommandView>::empty()
    &&& c.groups == Map::<Seq<char>, GroupView>::empty()
}

/// The name of the configuration file.
pub open spec fn file_name() -> Seq<char> {
    "config.v1.json"@
}

/// Where the configuration is stored. The backup, temporary and preserved
/// files sit beside it, with the extension `json` replaced.
pub struct ConfigStore {
    path: String,
}

/// What a save does once the configuration is valid: write it to the
/// temporary file, copy the file it replaces to `preserve_to`, if there is
/// one, and move the temporary file into place.
#[derive(Debug)]
pub struct SavePlan {
    pub temporary: String,
    pub preserve_to: Option<String>,
}

/// The time now in nanoseconds since the Unix epoch (`SystemTime::now`); a
/// clock before the epoch reads as zero.
#[verifier::external_body]
fn now_nanos() -> u128 {
    std::time::SystemTime::now().duration_since(std::time::UNIX_EPOCH).unwrap_or_default().as_nanos()
}

impl ConfigStore {
    /// The path of the configuration file.
    pub closed spec fn path_view(&self) -> Seq<char> {
        self.path@
    }

    /// A store for the configuration file at `path`, whose name is
    /// `config.v1.json`.
    pub fn with_path(path: String) -> (r: Self)
        requires
            path@.len() >= file_name().len(),
            path@.subrange(path@.len() - file_name().len(), path@.len() as int) == file_name(),
        ensures
            r.path_view() == path@,
    {
        ConfigStore { path }
    }

    /// The path of the configuration file.
    pub fn path(&self) -> (r: &String)
        ensures
            r@ == self.path_view(),
    {
        &self.path
    }

    /// `config.v1.json.bak` beside the configuration file.
    pub fn backup_path(&self) -> (r: String)
        ensures
            r@ == self.path_view() + ".bak"@,
    {
        let mut r = self.path.clone();
        r.append(".bak");
        r
    }

    /// `config.v1.json.tmp` beside the configuration file.
    pub fn temporary_path(&self) -> (r: String)
        ensures
            r@ == self.path_view() + ".tmp"@,
    {
        let mut r = self.path.clone();
        r.append(".tmp");
        r
    }

    /// `config.v1.json.corrupt-` and the time in nanoseconds, beside the
    /// configuration file.
    pub fn corrupt_path_at(&self, timestamp: u128) -> (r: String)
        ensures
            r@ == self.path_view() + ".corrupt-"@ + decimal(timestamp as nat),
    {
        let mut r = self.path.clone();
        r.append(".corrupt-");
        push_decimal(&mut r, timestamp);
        r
    }

    /// `config.v1.json.corrupt-` and the time now in nanoseconds.
    pub fn corrupt_path(&self) -> (r: String)
        ensures
            exists|t: nat| r@ == self.path_view() + ".corrupt-"@ + decimal(t),
    {
        let timestamp = now_nanos();
        self.corrupt_path_at(timestamp)
    }

    /// The configuration of a stored file, if it parsed and is valid.
    pub fn load_file(&self, file: StoredFile) -> (r: Option<Config>)
        ensures
            r is Some <==> loadable(file@),
            r matches Some(c) ==> file@ == StoredFileView::Parsed(c@),
    {
        match file {
            StoredFile::Parsed(c) => {
                if c.validate().is_ok() {
                    Some(c)
                } else {
                    None
                }
            },
            _ => None,
        }
    }

    /// Chooses the configuration to work with: the primary file when it is
    /// valid, else the backup, with a warning, else an empty configuration,
    /// with a warning when either file exists.
    pub fn load(&self, primary: StoredFile, backup: StoredFile) -> (r: LoadOutcome)
        ensures
            config_valid(r.config@),
            loadable(primary@) ==> primary@ == StoredFileView::Parsed(r.config@) && r.warning is None,
            !loadable(primary@) && loadable(backup@) ==> (backup@ == StoredFileView::Parsed(r.config@)
                && (r.warning matches Some(w) && w@ == recovered_warning())),
            !loadable(primary@) && !loadable(backup@) ==> {
                &&& is_empty_config(r.config@)
                &&& (primary@ is Missing && backup@ is Missing ==> r.warning is None)
                &&& (!(primary@ is Missing && backup@ is Missing) ==> (r.warning matches Some(w) && w@
                    == unreadable_warning()))
            },
    {
        let primary_exists = !matches!(primary, StoredFile::Missing);
        let backup_exists = !matches!(backup, StoredFile::Missing);
        if let Some(config) = self.load_file(primary) {
            return LoadOutcome { config, warning: None };
        }
        if let Some(config) = self.load_file(backup) {
            return LoadOutcome {
                config,
                warning: Some(String::from_str(
                    "Configuration was recovered from backup; the unreadable primary file will be preserved on the next save",
                )),
            };
        }
        let warning = if primary_exists || backup_exists {
            Some(String::from_str(
                "Handy could not read its configuration or backup; the files were preserved and an empty configuration was loaded",
            ))
        } else {
            None
        };
        LoadOutcome { config: Config::empty(), warning }
    }

    /// Checks the configuration and plans its save: the file it replaces is
    /// kept as the backup when it is a valid configuration, and preserved
    /// under a `corrupt` name otherwise.
    pub fn save_plan(&self, config: &Config, primary: StoredFile) -> (r: Result<SavePlan, String>)
        ensures
            r is Ok <==> config_valid(config@),
            r matches Err(m) ==> violation_message(config@, m@),
            r matches Err(m) ==> validation_error(*config) == Some(m@),
            r is Ok ==> validation_error(*config) is None,
            r matches Ok(plan) ==> {
                &&& plan.temporary@ == self.path_view() + ".tmp"@
                &&& exists|t: nat| plan.preserve_to.deep_view() == preserve_target(self.path_view(), primary@, t)
            },
    {
        match config.validate() {
            Ok(()) => {},
            Err(m) => {
                return Err(m);
            },
        }
        let temporary = self.temporary_path();
        let ghost before = primary@;
        let preserve_to = match primary {
            StoredFile::Missing => None,
            file => {
                if self.load_file(file).is_some() {
                    Some(self.backup_path())
                } else {
                    Some(self.corrupt_path())
                }
            },
        };
        proof {
            if before is Missing || loadable(before) {
                assert(preserve_to.deep_view() == preserve_target(self.path_view(), before, 0));
            } else {
                let t = choose|t: nat| preserve_to.deep_view() == Some(self.path_view() + ".corrupt-"@ + decimal(t));
                assert(preserve_to.deep_view() == preserve_target(self.path_view(), before, t));
            }
        }
        Ok(SavePlan { temporary, preserve_to })
    }
}

/// After the configuration was recovered from the backup, the next save
/// keeps the unreadable primary file under another name than the backup's,
/// so the backup that was recovered is not overwritten.
pub proof fn lemma_recovery_keeps_backup(path: Seq<char>, primary: StoredFileView, backup: StoredFileView, t: nat)
    requires
        !(primary is Missing),
        !loadable(primary),
        loadable(backup),
    ensures
        preserve_target(path, primary, t) != Some(path + ".bak"@),
{
    lemma_corrupt_path_is_not_backup(path, t);
}

/// A file preserved under a `corrupt` name never takes the backup's place.
pub proof fn lemma_corrupt_path_is_not_backup(path: Seq<char>, t: nat)
    ensures
        path + ".corrupt-"@ + decimal(t) != path + ".bak"@,
{
    reveal_strlit(".corrupt-");
    reveal_strlit(".bak");
    let a = path + ".corrupt-"@ + decimal(t);
    let b = path + ".bak"@;
    assert(a[path.len() + 1int] == 'c');
    assert(b[path.len() + 1int] == 'b');
}

} // verus!
