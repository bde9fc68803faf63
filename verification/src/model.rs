//! The configuration: projects, the shell commands that belong to them, and
//! groups of targets, with the rules that make a configuration valid.
use vstd::prelude::*;
use vstd::std_specs::cmp::PartialEqSpecImpl;
use crate::id_map::IdMap;
use crate::text::{
    decimal, is_absolute, is_absolute_path, is_blank, is_blank_str, is_safe_relative_path,
    push_decimal, safe_relative_path, contains_text,
};
use crate::graph::{
    children, cycle_found, cycle_found_among, lemma_no_cycle_found, cycle_reachable, edge, finished, group_node, groups_closed, lemma_cycle_split,
    lemma_distinct_within, lemma_leaf_reaches, lemma_reaches_self, lemma_reaches_split,
    lemma_stack_cycle, on_cycle, reaches, stack_path, contributes, resolved_ids, resolved_from,
    reachable_targets_exist, lemma_reaches_prepend, lemma_cycle_reachable_prepend,
};

verus! {

/// What a target names.
#[derive(Clone, Copy, Debug, PartialEq, Eq, Structural, Hash)]
pub enum TargetKind {
    Project,
    Command,
    Group,
}

/// A reference to a project, a command or a group by its id.
#[derive(Debug, Hash)]
pub struct TargetRef {
    pub kind: TargetKind,
    pub id: String,
}

/// The value of a target reference.
pub struct TargetView {
    pub kind: TargetKind,
    pub id: Seq<char>,
}

impl View for TargetRef {
    type V = TargetView;

    open spec fn view(&self) -> TargetView {
        TargetView { kind: self.kind, id: self.id@ }
    }
}

impl Clone for TargetRef {
    fn clone(&self) -> (r: Self)
        ensures
            r@ == self@,
    {
        TargetRef { kind: self.kind, id: self.id.clone() }
    }
}

impl PartialEq for TargetRef {
    fn eq(&self, other: &Self) -> (r: bool) {
        self.kind == other.kind && self.id == other.id
    }
}

impl PartialEqSpecImpl for TargetRef {
    open spec fn obeys_eq_spec() -> bool {
        true
    }

    open spec fn eq_spec(&self, other: &TargetRef) -> bool {
        self@ == other@
    }
}

impl Eq for TargetRef {}

/// A project: a folder and the commands that run in it.
#[derive(Debug)]
pub struct Project {
    pub id: String,
    pub name: String,
    pub base_dir: String,
    pub command_ids: Vec<String>,
}

/// The value of a project.
pub struct ProjectView {
    pub id: Seq<char>,
    pub name: Seq<char>,
    pub base_dir: Seq<char>,
    pub command_ids: Seq<Seq<char>>,
}

impl View for Project {
    type V = ProjectView;

    open spec fn view(&self) -> ProjectView {
        ProjectView {
            id: self.id@,
            name: self.name@,
            base_dir: self.base_dir@,
            command_ids: self.command_ids.deep_view(),
        }
    }
}

impl Clone for Project {
    fn clone(&self) -> (r: Self)
        ensures
            r@ == self@,
    {
        let command_ids = self.command_ids.clone();
        assert(command_ids.deep_view() =~= self.command_ids.deep_view());
        Project {
            id: self.id.clone(),
            name: self.name.clone(),
            base_dir: self.base_dir.clone(),
            command_ids,
        }
    }
}

/// A shell command of a project, with an optional command that stops it and
/// one that reports its status.
#[derive(Debug)]
pub struct HandyCommand {
    pub id: String,
    pub project_id: String,
    pub name: String,
    pub command: String,
    pub cwd: String,
    pub stop_command: Option<String>,
    pub status_command: Option<String>,
}

/// The value of a command.
pub struct CommandView {
    pub id: Seq<char>,
    pub project_id: Seq<char>,
    pub name: Seq<char>,
    pub command: Seq<char>,
    pub cwd: Seq<char>,
    pub stop_command: Option<Seq<char>>,
    pub status_command: Option<Seq<char>>,
}

impl View for HandyCommand {
    type V = CommandView;

    open spec fn view(&self) -> CommandView {
        CommandView {
            id: self.id@,
            project_id: self.project_id@,
            name: self.name@,
            command: self.command@,
            cwd: self.cwd@,
            stop_command: self.stop_command.deep_view(),
            status_command: self.status_command.deep_view(),
        }
    }
}

fn clone_text_option(o: &Option<String>) -> (r: Option<String>)
    ensures
        r.deep_view() == o.deep_view(),
{
    match o {
        Some(s) => Some(s.clone()),
        None => None,
    }
}

impl Clone for HandyCommand {
    fn clone(&self) -> (r: Self)
        ensures
            r@ == self@,
    {
        HandyCommand {
            id: self.id.clone(),
            project_id: self.project_id.clone(),
            name: self.name.clone(),
            command: self.command.clone(),
            cwd: self.cwd.clone(),
            stop_command: clone_text_option(&self.stop_command),
            status_command: clone_text_option(&self.status_command),
        }
    }
}

/// A named, reusable list of targets; a group may hold other groups.
#[derive(Debug)]
pub struct Group {
    pub id: String,
    pub name: String,
    pub targets: Vec<TargetRef>,
}

/// The value of a group.
pub struct GroupView {
    pub id: Seq<char>,
    pub name: Seq<char>,
    pub targets: Seq<TargetView>,
}

/// The values of a list of targets.
pub open spec fn targets_view(targets: Seq<TargetRef>) -> Seq<TargetView> {
    targets.map_values(|t: TargetRef| t@)
}

impl View for Group {
    type V = GroupView;

    open spec fn view(&self) -> GroupView {
        GroupView { id: self.id@, name: self.name@, targets: targets_view(self.targets@) }
    }
}

/// A copy of a list of targets.
pub fn clone_targets(targets: &Vec<TargetRef>) -> (r: Vec<TargetRef>)
    ensures
        targets_view(r@) == targets_view(targets@),
{
    let mut r: Vec<TargetRef> = Vec::new();
    let n = targets.len();
    let mut i: usize = 0;
    while i < n
        invariant
            n == targets@.len(),
            i <= n,
            r@.len() == i,
            forall|j: int| 0 <= j < i ==> (#[trigger] r@[j])@ == targets@[j]@,
        decreases n - i,
    {
        r.push(targets[i].clone());
        i = i + 1;
    }
    assert(targets_view(r@) =~= targets_view(targets@));
    r
}

impl Clone for Group {
    fn clone(&self) -> (r: Self)
        ensures
            r@ == self@,
    {
        Group { id: self.id.clone(), name: self.name.clone(), targets: clone_targets(&self.targets) }
    }
}

/// The whole configuration, keyed by id.
#[derive(Debug)]
pub struct Config {
    pub schema_version: u32,
    pub projects: IdMap<Project>,
    pub commands: IdMap<HandyCommand>,
    pub groups: IdMap<Group>,
}

/// The value of a configuration.
pub struct ConfigView {
    pub schema_version: u32,
    pub projects: Map<Seq<char>, ProjectView>,
    pub commands: Map<Seq<char>, CommandView>,
    pub groups: Map<Seq<char>, GroupView>,
}

impl View for Config {
    type V = ConfigView;

    open spec fn view(&self) -> ConfigView {
        ConfigView {
            schema_version: self.schema_version,
            projects: self.projects@,
            commands: self.commands@,
            groups: self.groups@,
        }
    }
}

impl Clone for Config {
    fn clone(&self) -> (r: Self)
        ensures
            r@ == self@,
    {
        let projects = self.projects.clone();
        let commands = self.commands.clone();
        let groups = self.groups.clone();
        proof {
            assert forall|i: int| 0 <= i < projects.value_seq().len() implies (
            #[trigger] projects.value_seq()[i])@ == self.projects.value_seq()[i]@ by {
                assert(cloned::<Project>(self.projects.value_seq()[i], projects.value_seq()[i]));
            }
            IdMap::lemma_same_view(&projects, &self.projects);
            assert forall|i: int| 0 <= i < commands.value_seq().len() implies (
            #[trigger] commands.value_seq()[i])@ == self.commands.value_seq()[i]@ by {
                assert(cloned::<HandyCommand>(
                    self.commands.value_seq()[i],
                    commands.value_seq()[i],
                ));
            }
            IdMap::lemma_same_view(&commands, &self.commands);
            assert forall|i: int| 0 <= i < groups.value_seq().len() implies (
            #[trigger] groups.value_seq()[i])@ == self.groups.value_seq()[i]@ by {
                assert(cloned::<Group>(self.groups.value_seq()[i], groups.value_seq()[i]));
            }
            IdMap::lemma_same_view(&groups, &self.groups);
        }
        Config { schema_version: self.schema_version, projects, commands, groups }
    }
}

/// The name of a kind of target, as its `Debug` form writes it.
pub open spec fn kind_name(kind: TargetKind) -> Seq<char> {
    match kind {
        TargetKind::Project => "Project"@,
        TargetKind::Command => "Command"@,
        TargetKind::Group => "Group"@,
    }
}

/// Whether the configuration holds what the target names.
pub open spec fn target_exists(c: ConfigView, t: TargetView) -> bool {
    match t.kind {
        TargetKind::Project => c.projects.contains_key(t.id),
        TargetKind::Command => c.commands.contains_key(t.id),
        TargetKind::Group => c.groups.contains_key(t.id),
    }
}

/// A project is stored under its own id, which is not empty, and has a name.
pub open spec fn project_identity_ok(key: Seq<char>, p: ProjectView) -> bool {
    key == p.id && key.len() > 0 && !is_blank(p.name)
}

/// Each command that a project lists exists and belongs to that project.
pub open spec fn project_commands_ok(c: ConfigView, p: ProjectView) -> bool {
    forall|i: int|
        0 <= i < p.command_ids.len() ==> {
            &&& c.commands.contains_key(#[trigger] p.command_ids[i])
            &&& c.commands[p.command_ids[i]].project_id == p.id
        }
}

/// The rules for one project.
pub open spec fn project_ok(c: ConfigView, key: Seq<char>, p: ProjectView) -> bool {
    &&& project_identity_ok(key, p)
    &&& is_absolute_path(p.base_dir)
    &&& project_commands_ok(c, p)
}

/// A command is stored under its own id, which is not empty, and has a name
/// and a shell command.
pub open spec fn command_identity_ok(key: Seq<char>, cmd: CommandView) -> bool {
    key == cmd.id && key.len() > 0 && !is_blank(cmd.name) && !is_blank(cmd.command)
}

/// The rules for one command.
pub open spec fn command_ok(c: ConfigView, key: Seq<char>, cmd: CommandView) -> bool {
    &&& command_identity_ok(key, cmd)
    &&& c.projects.contains_key(cmd.project_id)
    &&& is_safe_relative_path(cmd.cwd)
}

/// A group is stored under its own id, which is not empty, and has a name.
pub open spec fn group_identity_ok(key: Seq<char>, g: GroupView) -> bool {
    key == g.id && key.len() > 0 && !is_blank(g.name)
}

/// Every target of the group exists.
pub open spec fn group_targets_exist(c: ConfigView, g: GroupView) -> bool {
    forall|i: int| 0 <= i < g.targets.len() ==> target_exists(c, #[trigger] g.targets[i])
}

/// The rules for one group.
pub open spec fn group_ok(c: ConfigView, key: Seq<char>, g: GroupView) -> bool {
    group_identity_ok(key, g) && group_targets_exist(c, g)
}

/// No group contains itself, directly or through other groups.
pub open spec fn groups_acyclic(c: ConfigView) -> bool {
    forall|k: Seq<char>| c.groups.contains_key(k) ==> !on_cycle(c, #[trigger] group_node(k))
}

/// Every project follows the rules.
pub open spec fn projects_ok(c: ConfigView) -> bool {
    forall|k: Seq<char>| #[trigger] c.projects.contains_key(k) ==> project_ok(c, k, c.projects[k])
}

/// Every command follows the rules.
pub open spec fn commands_ok(c: ConfigView) -> bool {
    forall|k: Seq<char>| #[trigger] c.commands.contains_key(k) ==> command_ok(c, k, c.commands[k])
}

/// Every group follows the rules.
pub open spec fn groups_ok(c: ConfigView) -> bool {
    forall|k: Seq<char>| #[trigger] c.groups.contains_key(k) ==> group_ok(c, k, c.groups[k])
}

/// A configuration that the application accepts.
pub open spec fn config_valid(c: ConfigView) -> bool {
    &&& c.schema_version == 1
    &&& projects_ok(c)
    &&& commands_ok(c)
    &&& groups_ok(c)
    &&& groups_acyclic(c)
}

pub open spec fn schema_message(version: u32) -> Seq<char> {
    "Unsupported schema version "@ + decimal(version as nat)
}

pub open spec fn project_identity_message() -> Seq<char> {
    "Every project needs a stable id and a name"@
}

pub open spec fn relative_folder_message(name: Seq<char>) -> Seq<char> {
    "Project '"@ + name + "' must use an absolute folder"@
}

pub open spec fn missing_command_message(name: Seq<char>) -> Seq<char> {
    "Project '"@ + name + "' refers to a missing command"@
}

pub open spec fn foreign_command_message(name: Seq<char>) -> Seq<char> {
    "Command '"@ + name + "' belongs to another project"@
}

pub open spec fn command_identity_message() -> Seq<char> {
    "Every command needs a stable id, name, and shell command"@
}

pub open spec fn orphan_command_message(name: Seq<char>) -> Seq<char> {
    "Command '"@ + name + "' has no project"@
}

pub open spec fn unsafe_folder_message(name: Seq<char>) -> Seq<char> {
    "Command '"@ + name + "' has an unsafe working directory"@
}

pub open spec fn group_identity_message() -> Seq<char> {
    "Every group needs a stable id and a name"@
}

pub open spec fn missing_target_message(t: TargetView) -> Seq<char> {
    "Missing "@ + kind_name(t.kind) + " target '"@ + t.id + "'"@
}

pub open spec fn group_cycle_message(name: Seq<char>) -> Seq<char> {
    "Group cycle includes '"@ + name + "'"@
}

/// The `j`th command that the project lists exists and belongs to it.
pub open spec fn listed_command_ok(c: ConfigView, p: ProjectView, j: int) -> bool {
    c.commands.contains_key(p.command_ids[j]) && c.commands[p.command_ids[j]].project_id == p.id
}

/// The first `i` commands that the project lists exist and belong to it.
pub open spec fn listed_commands_ok_before(c: ConfigView, p: ProjectView, i: int) -> bool {
    forall|j: int| 0 <= j < i ==> #[trigger] listed_command_ok(c, p, j)
}

/// The `i`th command that the project lists is missing or belongs to
/// another project, and `m` says which.
pub open spec fn listed_command_message(c: ConfigView, p: ProjectView, i: int, m: Seq<char>) -> bool {
    if !c.commands.contains_key(p.command_ids[i]) {
        m == missing_command_message(p.name)
    } else {
        c.commands[p.command_ids[i]].project_id != p.id && m == foreign_command_message(
            c.commands[p.command_ids[i]].name,
        )
    }
}

/// The first command that the project lists and that is missing or
/// belongs to another project exists, and `m` says which.
pub open spec fn first_listed_message(c: ConfigView, p: ProjectView, m: Seq<char>) -> bool {
    exists|i: int|
        0 <= i < p.command_ids.len() && listed_commands_ok_before(c, p, i) && #[trigger] listed_command_message(
            c,
            p,
            i,
            m,
        )
}

/// The checks of a project, in order: its identity, its folder, then its
/// listed commands one by one; `m` is the message of the first that fails.
pub open spec fn project_message(c: ConfigView, k: Seq<char>, p: ProjectView, m: Seq<char>) -> bool {
    if !project_identity_ok(k, p) {
        m == project_identity_message()
    } else if !is_absolute_path(p.base_dir) {
        m == relative_folder_message(p.name)
    } else {
        first_listed_message(c, p, m)
    }
}

/// The checks of a command, in order: its identity, its project, then its
/// working directory; `m` is the message of the first that fails.
pub open spec fn command_message(c: ConfigView, k: Seq<char>, cmd: CommandView, m: Seq<char>) -> bool {
    if !command_identity_ok(k, cmd) {
        m == command_identity_message()
    } else if !c.projects.contains_key(cmd.project_id) {
        m == orphan_command_message(cmd.name)
    } else {
        !is_safe_relative_path(cmd.cwd) && m == unsafe_folder_message(cmd.name)
    }
}

/// The checks of a group, in order: its identity, then its targets one by
/// one; `m` is the message of the first that fails.
pub open spec fn group_message(c: ConfigView, k: Seq<char>, g: GroupView, m: Seq<char>) -> bool {
    if !group_identity_ok(k, g) {
        m == group_identity_message()
    } else {
        exists|i: int|
            0 <= i < g.targets.len() && (forall|j: int| 0 <= j < i ==> target_exists(c, #[trigger] g.targets[j]))
                && !target_exists(c, #[trigger] g.targets[i]) && m == missing_target_message(g.targets[i])
    }
}

/// From the group `k`, a search reaches the group `g`, which contains
/// itself, and `m` names it.
pub open spec fn cycle_message(c: ConfigView, k: Seq<char>, g: Seq<char>, m: Seq<char>) -> bool {
    &&& reaches(c, group_node(k), group_node(g))
    &&& c.groups.contains_key(g)
    &&& on_cycle(c, group_node(g))
    &&& m == group_cycle_message(c.groups[g].name)
}

/// `m` is the message of the first check that the configuration fails:
/// the schema version, then the projects, the commands, the groups and
/// last the cycles; within one of these, the first failing check of some
/// failing item (which item, when several fail, is left open).
pub open spec fn violation_message(c: ConfigView, m: Seq<char>) -> bool {
    if c.schema_version != 1 {
        m == schema_message(c.schema_version)
    } else if !projects_ok(c) {
        exists|k: Seq<char>|
            #[trigger] c.projects.contains_key(k) && !project_ok(c, k, c.projects[k]) && project_message(
                c,
                k,
                c.projects[k],
                m,
            )
    } else if !commands_ok(c) {
        exists|k: Seq<char>|
            #[trigger] c.commands.contains_key(k) && !command_ok(c, k, c.commands[k]) && command_message(
                c,
                k,
                c.commands[k],
                m,
            )
    } else if !groups_ok(c) {
        exists|k: Seq<char>|
            #[trigger] c.groups.contains_key(k) && !group_ok(c, k, c.groups[k]) && group_message(
                c,
                k,
                c.groups[k],
                m,
            )
    } else {
        exists|k: Seq<char>, g: Seq<char>| #[trigger] c.groups.contains_key(k) && #[trigger] cycle_message(c, k, g, m)
    }
}

/// The message of the first command that the project lists, from the
/// `i`th on, that is missing or belongs to another project.
pub open spec fn listed_error(c: ConfigView, p: ProjectView, i: int) -> Option<Seq<char>>
    decreases p.command_ids.len() - i,
{
    if i < 0 || i >= p.command_ids.len() {
        None
    } else if !c.commands.contains_key(p.command_ids[i]) {
        Some(missing_command_message(p.name))
    } else if c.commands[p.command_ids[i]].project_id != p.id {
        Some(foreign_command_message(c.commands[p.command_ids[i]].name))
    } else {
        listed_error(c, p, i + 1)
    }
}

/// The message of the first check that the project stored under `k` fails.
pub open spec fn project_error(c: ConfigView, k: Seq<char>, p: ProjectView) -> Option<Seq<char>> {
    if !project_identity_ok(k, p) {
        Some(project_identity_message())
    } else if !is_absolute_path(p.base_dir) {
        Some(relative_folder_message(p.name))
    } else {
        listed_error(c, p, 0)
    }
}

/// The message of the first check that the command stored under `k` fails.
pub open spec fn command_error(c: ConfigView, k: Seq<char>, cmd: CommandView) -> Option<Seq<char>> {
    if !command_identity_ok(k, cmd) {
        Some(command_identity_message())
    } else if !c.projects.contains_key(cmd.project_id) {
        Some(orphan_command_message(cmd.name))
    } else if !is_safe_relative_path(cmd.cwd) {
        Some(unsafe_folder_message(cmd.name))
    } else {
        None
    }
}

/// The message of the first target of the group, from the `i`th on, that
/// does not exist.
pub open spec fn target_error(c: ConfigView, g: GroupView, i: int) -> Option<Seq<char>>
    decreases g.targets.len() - i,
{
    if i < 0 || i >= g.targets.len() {
        None
    } else if !target_exists(c, g.targets[i]) {
        Some(missing_target_message(g.targets[i]))
    } else {
        target_error(c, g, i + 1)
    }
}

/// The message of the first check that the group stored under `k` fails.
pub open spec fn group_error(c: ConfigView, k: Seq<char>, g: GroupView) -> Option<Seq<char>> {
    if !group_identity_ok(k, g) {
        Some(group_identity_message())
    } else {
        target_error(c, g, 0)
    }
}

/// The first message of a project, from the `i`th on, in the order of
/// `keys` and `ps`.
pub open spec fn first_project_error(c: ConfigView, keys: Seq<Seq<char>>, ps: Seq<Project>, i: int) -> Option<
    Seq<char>,
>
    decreases keys.len() - i,
{
    if i < 0 || i >= keys.len() {
        None
    } else {
        match project_error(c, keys[i], ps[i]@) {
            Some(m) => Some(m),
            None => first_project_error(c, keys, ps, i + 1),
        }
    }
}

/// The first message of a command, from the `i`th on, in the order of
/// `keys` and `cmds`.
pub open spec fn first_command_error(c: ConfigView, keys: Seq<Seq<char>>, cmds: Seq<HandyCommand>, i: int) -> Option<
    Seq<char>,
>
    decreases keys.len() - i,
{
    if i < 0 || i >= keys.len() {
        None
    } else {
        match command_error(c, keys[i], cmds[i]@) {
            Some(m) => Some(m),
            None => first_command_error(c, keys, cmds, i + 1),
        }
    }
}

/// The first message of a group, from the `i`th on, in the order of
/// `keys` and `gs`.
pub open spec fn first_group_error(c: ConfigView, keys: Seq<Seq<char>>, gs: Seq<Group>, i: int) -> Option<
    Seq<char>,
>
    decreases keys.len() - i,
{
    if i < 0 || i >= keys.len() {
        None
    } else {
        match group_error(c, keys[i], gs[i]@) {
            Some(m) => Some(m),
            None => first_group_error(c, keys, gs, i + 1),
        }
    }
}

/// The first cycle that a search from the groups, from the `i`th of `keys`
/// on, meets, named.
pub open spec fn first_cycle_error(c: ConfigView, keys: Seq<Seq<char>>, i: int) -> Option<Seq<char>>
    decreases keys.len() - i,
{
    if i < 0 || i >= keys.len() {
        None
    } else {
        match cycle_found(c, Seq::empty(), keys[i]) {
            Some(g) => Some(group_cycle_message(c.groups[g].name)),
            None => first_cycle_error(c, keys, i + 1),
        }
    }
}

/// What validating the configuration says: nothing when it is valid, else
/// the message of the first check that fails, taking the schema version,
/// then the projects, the commands and the groups in the order in which
/// they are stored, and last the search for cycles from each group.
pub open spec fn validation_error(cfg: Config) -> Option<Seq<char>> {
    let c = cfg@;
    if c.schema_version != 1 {
        Some(schema_message(c.schema_version))
    } else if first_project_error(c, cfg.projects.key_seq(), cfg.projects.value_seq(), 0) is Some {
        first_project_error(c, cfg.projects.key_seq(), cfg.projects.value_seq(), 0)
    } else if first_command_error(c, cfg.commands.key_seq(), cfg.commands.value_seq(), 0) is Some {
        first_command_error(c, cfg.commands.key_seq(), cfg.commands.value_seq(), 0)
    } else if first_group_error(c, cfg.groups.key_seq(), cfg.groups.value_seq(), 0) is Some {
        first_group_error(c, cfg.groups.key_seq(), cfg.groups.value_seq(), 0)
    } else {
        first_cycle_error(c, cfg.groups.key_seq(), 0)
    }
}

/// `prefix`, then `name`, then `suffix`.
pub fn quoted(prefix: &str, name: &String, suffix: &str) -> (r: String)
    ensures
        r@ == prefix@ + name@ + suffix@,
{
    let mut r = String::from_str(prefix);
    r.append(name.as_str());
    r.append(suffix);
    r
}

/// The name of a kind of target.
pub fn kind_str(kind: TargetKind) -> (r: &'static str)
    ensures
        r@ == kind_name(kind),
{
    match kind {
        TargetKind::Project => "Project",
        TargetKind::Command => "Command",
        TargetKind::Group => "Group",
    }
}

/// The schema version of the configuration file, which a file without one
/// is taken to have.
pub fn schema_version() -> (r: u32)
    ensures
        r == 1,
{
    1
}

/// The working directory of a command that names none: its project folder.
pub fn default_cwd() -> (r: String)
    ensures
        r@ == "."@,
{
    String::from_str(".")
}

impl Config {
    /// An empty configuration of the current schema.
    pub fn empty() -> (r: Self)
        ensures
            r@.schema_version == 1,
            r@.projects == Map::<Seq<char>, ProjectView>::empty(),
            r@.commands == Map::<Seq<char>, CommandView>::empty(),
            r@.groups == Map::<Seq<char>, GroupView>::empty(),
    {
        Config {
            schema_version: schema_version(),
            projects: IdMap::new(),
            commands: IdMap::new(),
            groups: IdMap::new(),
        }
    }

    /// Fails, saying what is missing, unless the configuration holds what the
    /// target names.
    pub fn ensure_target_exists(&self, target: &TargetRef) -> (r: Result<(), String>)
        ensures
            r is Ok <==> target_exists(self@, target@),
            r matches Err(m) ==> m@ == missing_target_message(target@),
    {
        let exists = match target.kind {
            TargetKind::Project => self.projects.contains_key(&target.id),
            TargetKind::Command => self.commands.contains_key(&target.id),
            TargetKind::Group => self.groups.contains_key(&target.id),
        };
        if exists {
            Ok(())
        } else {
            let mut m = String::from_str("Missing ");
            m.append(kind_str(target.kind));
            m.append(" target '");
            m.append(target.id.as_str());
            m.append("'");
            assert(m@ =~= missing_target_message(target@));
            Err(m)
        }
    }
}

impl Config {
    /// Depth-first search from the group `id` for a group that contains
    /// itself. `visiting` holds the groups on the way to `id`; `visited`
    /// those already searched and found to reach no cycle.
    fn check_group_cycle(&self, id: &String, visiting: &mut Vec<String>, visited: &mut Vec<String>)
        -> (r: Result<(), String>)
        requires
            groups_closed(self@),
            self@.groups.contains_key(id@),
            stack_path(self@, old(visiting).deep_view(), group_node(id@)),
            finished(self@, old(visited).deep_view()),
            forall|x: Seq<char>|
                old(visited).deep_view().contains(x) ==> !old(visiting).deep_view().contains(x),
        ensures
            r is Ok ==> {
                &&& final(visiting).deep_view() == old(visiting).deep_view()
                &&& final(visited).deep_view().contains(id@)
                &&& forall|x: Seq<char>|
                    old(visited).deep_view().contains(x) ==> final(visited).deep_view().contains(x)
                &&& finished(self@, final(visited).deep_view())
                &&& forall|x: Seq<char>|
                    final(visited).deep_view().contains(x) ==> !old(visiting).deep_view().contains(x)
                &&& forall|x: Seq<char>|
                    #[trigger] final(visited).deep_view().contains(x) ==> old(visited).deep_view().contains(x)
                        || reaches(self@, group_node(id@), group_node(x))
            },
            r matches Err(m) ==> exists|g: Seq<char>|
                #[trigger] reaches(self@, group_node(id@), group_node(g)) && self@.groups.contains_key(g)
                    && on_cycle(self@, group_node(g)) && m@ == group_cycle_message(self@.groups[g].name),
            r is Err <==> cycle_reachable(self@, group_node(id@)),
            match cycle_found(self@, old(visiting).deep_view(), id@) {
                None => r is Ok,
                Some(g) => r matches Err(m) && m@ == group_cycle_message(self@.groups[g].name),
            },
        decreases self@.groups.dom().len() - old(visiting)@.len(),
    {
        let ghost c = self@;
        let ghost stack = visiting.deep_view();
        let ghost done0 = visited.deep_view();
        if contains_text(visited, id) {
            proof {
                let a = choose|a: int| 0 <= a < done0.len() && done0[a] == id@;
                assert(!cycle_reachable(c, group_node(done0[a])));
                lemma_no_cycle_found(c, stack, id@);
            }
            return Ok(());
        }
        let group = self.groups.get(id).unwrap();
        if contains_text(visiting, id) {
            proof {
                lemma_stack_cycle(c, stack, id@);
                lemma_reaches_self(c, group_node(id@));
            }
            return Err(quoted("Group cycle includes '", &group.name, "'"));
        }
        // The entries of the map are those of its view.
        self.groups.len();
        proof {
            lemma_distinct_within(stack.push(id@), c.groups.dom());
        }
        visiting.push(id.clone());
        assert(visiting.deep_view() =~= stack.push(id@));
        assert(cycle_found(c, stack, id@) == cycle_found_among(c, stack.push(id@), c.groups[id@].targets, 0));
        let n = group.targets.len();
        let mut i: usize = 0;
        while i < n
            invariant
                n == c.groups[id@].targets.len(),
                cycle_found(c, stack, id@) == cycle_found_among(c, stack.push(id@), c.groups[id@].targets, i as int),
                group@ == c.groups[id@],
                c == self@,
                groups_closed(c),
                c.groups.contains_key(id@),
                stack.push(id@).no_duplicates(),
                forall|j: int| 0 <= j < stack.len() + 1 ==> c.groups.contains_key(#[trigger] stack.push(id@)[j]),
                forall|j: int|
                    0 <= j < stack.len() ==> #[trigger] edge(c, group_node(stack.push(id@)[j]), group_node(stack.push(id@)[j + 1])),
                stack.len() + 1 <= c.groups.dom().len(),
                i <= n,
                visiting.deep_view() == stack.push(id@),
                visiting@.len() == stack.len() + 1,
                old(visiting)@.len() == stack.len(),
                old(visiting).deep_view() == stack,
                forall|x: Seq<char>| done0.contains(x) ==> visited.deep_view().contains(x),
                finished(c, visited.deep_view()),
                forall|x: Seq<char>|
                    visited.deep_view().contains(x) ==> !stack.push(id@).contains(x),
                forall|j: int|
                    0 <= j < i && (#[trigger] c.groups[id@].targets[j]).kind == TargetKind::Group
                        ==> visited.deep_view().contains(c.groups[id@].targets[j].id),
                forall|x: Seq<char>|
                    #[trigger] visited.deep_view().contains(x) ==> done0.contains(x) || reaches(c, group_node(id@), group_node(x)),
            decreases n - i,
        {
            let child = &group.targets[i];
            if child.kind == TargetKind::Group {
                proof {
                    assert(c.groups[id@].targets[i as int] == child@);
                    assert(c.groups[id@].targets.contains(child@));
                    assert(c.groups.contains_key(c.groups[id@].targets[i as int].id));
                    assert(edge(c, group_node(id@), child@));
                    assert(stack.push(id@).last() == id@);
                    assert(stack_path(c, stack.push(id@), group_node(child.id@)));
                }
                let ghost seen = visited.deep_view();
                match self.check_group_cycle(&child.id, visiting, visited) {
                    Ok(()) => {
                        assert forall|x: Seq<char>| #[trigger] visited.deep_view().contains(x) implies done0.contains(x)
                            || reaches(c, group_node(id@), group_node(x)) by {
                            if !seen.contains(x) {
                                lemma_reaches_prepend(c, group_node(id@), group_node(child.id@), group_node(x));
                            }
                        }
                        assert(cycle_found_among(c, stack.push(id@), c.groups[id@].targets, i as int)
                            == cycle_found_among(c, stack.push(id@), c.groups[id@].targets, i + 1));
                    },
                    Err(m) => {
                        proof {
                            let g = choose|g: Seq<char>| #[trigger] reaches(c, group_node(child.id@), group_node(g))
                                && c.groups.contains_key(g) && on_cycle(c, group_node(g)) && m@
                                == group_cycle_message(c.groups[g].name);
                            lemma_reaches_prepend(c, group_node(id@), group_node(child.id@), group_node(g));
                            assert(cycle_found_among(c, stack.push(id@), c.groups[id@].targets, i as int)
                                == cycle_found(c, stack.push(id@), child.id@));
                        }
                        return Err(m);
                    },
                }
            } else {
                assert(cycle_found_among(c, stack.push(id@), c.groups[id@].targets, i as int)
                    == cycle_found_among(c, stack.push(id@), c.groups[id@].targets, i + 1));
            }
            i = i + 1;
        }
        assert(cycle_found_among(c, stack.push(id@), c.groups[id@].targets, n as int) is None);
        let ghost done1 = visited.deep_view();
        let ghost before = visiting@;
        visiting.pop();
        assert(visiting@ =~= before.drop_last());
        assert forall|j: int| 0 <= j < stack.len() implies visiting.deep_view()[j] == stack[j] by {
            assert(visiting@[j] == before[j]);
            assert(stack.push(id@)[j] == stack[j]);
        }
        assert(visiting.deep_view() =~= stack);
        visited.push(id.clone());
        let ghost done2 = visited.deep_view();
        assert(done2 =~= done1.push(id@));
        proof {
            let g = group_node(id@);
            let kids = children(c, g);
            // Every group that `id` reaches is now finished.
            assert forall|u: TargetView|
                #[trigger] reaches(c, g, u) && u.kind == TargetKind::Group implies done2.contains(u.id) by {
                if u != g {
                    lemma_reaches_split(c, g, u);
                    let j = choose|j: int| 0 <= j < kids.len() && #[trigger] reaches(c, kids[j], u);
                    if kids[j].kind == TargetKind::Group {
                        assert(done1.contains(kids[j].id));
                        let a = choose|a: int| 0 <= a < done1.len() && done1[a] == kids[j].id;
                        assert(group_node(done1[a]) == kids[j]);
                        assert(done1.contains(u.id));
                    } else {
                        lemma_leaf_reaches(c, kids[j], u);
                    }
                    let b = choose|b: int| 0 <= b < done1.len() && done1[b] == u.id;
                    assert(done2[b] == u.id);
                } else {
                    assert(done2[done1.len() as int] == id@);
                }
            }
            // `id` reaches no cycle.
            assert(!cycle_reachable(c, g)) by {
                if cycle_reachable(c, g) {
                    let u = choose|u: TargetView| #[trigger] reaches(c, g, u) && on_cycle(c, u);
                    if u == g {
                        lemma_cycle_split(c, g);
                        let j = choose|j: int| 0 <= j < kids.len() && #[trigger] reaches(c, kids[j], g);
                        if kids[j].kind == TargetKind::Group {
                            let a = choose|a: int| 0 <= a < done1.len() && done1[a] == kids[j].id;
                            assert(group_node(done1[a]) == kids[j]);
                            assert(done1.contains(id@));
                            assert(stack.push(id@)[stack.len() as int] == id@);
                        } else {
                            lemma_leaf_reaches(c, kids[j], g);
                        }
                    } else {
                        lemma_reaches_split(c, g, u);
                        let j = choose|j: int| 0 <= j < kids.len() && #[trigger] reaches(c, kids[j], u);
                        if kids[j].kind == TargetKind::Group {
                            let a = choose|a: int| 0 <= a < done1.len() && done1[a] == kids[j].id;
                            assert(group_node(done1[a]) == kids[j]);
                            assert(cycle_reachable(c, kids[j]));
                        } else {
                            lemma_leaf_reaches(c, kids[j], u);
                            lemma_cycle_split(c, u);
                        }
                    }
                }
            }
            assert forall|k: int| 0 <= k < done2.len() implies {
                &&& c.groups.contains_key(#[trigger] done2[k])
                &&& !cycle_reachable(c, group_node(done2[k]))
                &&& forall|u: TargetView|
                    #[trigger] reaches(c, group_node(done2[k]), u) && u.kind == TargetKind::Group
                        ==> done2.contains(u.id)
            } by {
                if k < done1.len() {
                    assert(done2[k] == done1[k]);
                    assert forall|u: TargetView|
                        #[trigger] reaches(c, group_node(done2[k]), u) && u.kind == TargetKind::Group
                            implies done2.contains(u.id) by {
                        assert(done1.contains(u.id));
                        let b = choose|b: int| 0 <= b < done1.len() && done1[b] == u.id;
                        assert(done2[b] == u.id);
                    }
                }
            }
            assert forall|x: Seq<char>| done0.contains(x) implies done2.contains(x) by {
                assert(done1.contains(x));
                let b = choose|b: int| 0 <= b < done1.len() && done1[b] == x;
                assert(done2[b] == x);
            }
            assert forall|x: Seq<char>| done2.contains(x) implies !stack.contains(x) by {
                let b = choose|b: int| 0 <= b < done2.len() && done2[b] == x;
                if b < done1.len() {
                    assert(done1.contains(x));
                    if stack.contains(x) {
                        let a = choose|a: int| 0 <= a < stack.len() && stack[a] == x;
                        assert(stack.push(id@)[a] == x);
                    }
                }
            }
            assert(done2[done1.len() as int] == id@);
            lemma_reaches_self(c, group_node(id@));
            assert forall|x: Seq<char>| #[trigger] done2.contains(x) implies done0.contains(x) || reaches(
                c,
                group_node(id@),
                group_node(x),
            ) by {
                let b = choose|b: int| 0 <= b < done2.len() && done2[b] == x;
                if b < done1.len() {
                    assert(done1.contains(x));
                }
            }
        }
        Ok(())
    }
}

impl Config {
    /// The checks of one project's command list.
    fn check_project_commands(&self, project: &Project) -> (r: Result<(), String>)
        ensures
            r is Ok <==> project_commands_ok(self@, project@),
            r matches Err(m) ==> first_listed_message(self@, project@, m@),
            r matches Err(m) ==> listed_error(self@, project@, 0) == Some(m@),
            r is Ok ==> listed_error(self@, project@, 0) is None,
    {
        let n = project.command_ids.len();
        let mut i: usize = 0;
        while i < n
            invariant
                n == project@.command_ids.len(),
                i <= n,
                listed_commands_ok_before(self@, project@, i as int),
                listed_error(self@, project@, 0) == listed_error(self@, project@, i as int),
            decreases n - i,
        {
            let command_id = &project.command_ids[i];
            assert(project@.command_ids[i as int] == command_id@);
            match self.commands.get(command_id) {
                None => {
                    let m = quoted("Project '", &project.name, "' refers to a missing command");
                    assert(listed_command_message(self@, project@, i as int, m@));
                        assert(first_listed_message(self@, project@, m@));
                    return Err(m);
                },
                Some(command) => {
                    if !(command.project_id == project.id) {
                        let m = quoted("Command '", &command.name, "' belongs to another project");
                        assert(listed_command_message(self@, project@, i as int, m@));
                        assert(first_listed_message(self@, project@, m@));
                        return Err(m);
                    }
                },
            }
            assert(listed_command_ok(self@, project@, i as int));
            assert(listed_error(self@, project@, i as int) == listed_error(self@, project@, i + 1));
            i = i + 1;
        }
        assert forall|j: int| 0 <= j < n implies {
            &&& self@.commands.contains_key(#[trigger] project@.command_ids[j])
            &&& self@.commands[project@.command_ids[j]].project_id == project@.id
        } by {
            assert(listed_command_ok(self@, project@, j));
        }
        Ok(())
    }

    /// The checks of every project.
    fn check_projects(&self) -> (r: Result<(), String>)
        ensures
            r is Ok <==> forall|k: Seq<char>|
                #[trigger] self@.projects.contains_key(k) ==> project_ok(self@, k, self@.projects[k]),
            r matches Err(m) ==> exists|k: Seq<char>|
                #[trigger] self@.projects.contains_key(k) && !project_ok(self@, k, self@.projects[k])
                    && project_message(self@, k, self@.projects[k], m@),
            r matches Err(m) ==> first_project_error(self@, self.projects.key_seq(), self.projects.value_seq(), 0) == Some(m@),
            r is Ok ==> first_project_error(self@, self.projects.key_seq(), self.projects.value_seq(), 0) is None,
    {
        let n = self.projects.len();
        let mut i: usize = 0;
        while i < n
            invariant
                n == self.projects.key_seq().len(),
                self.projects.ordered_as(self@.projects),
                i <= n,
                first_project_error(self@, self.projects.key_seq(), self.projects.value_seq(), 0) == first_project_error(self@, self.projects.key_seq(), self.projects.value_seq(), i as int),
                forall|j: int|
                    0 <= j < i ==> project_ok(
                        self@,
                        #[trigger] self.projects.key_seq()[j],
                        self.projects.value_seq()[j]@,
                    ),
            decreases n - i,
        {
            let id = self.projects.key_at(i);
            let project = self.projects.value_at(i);
            let ghost k = self.projects.key_seq()[i as int];
            assert(self@.projects.contains_key(k));
            assert(self@.projects[k] == project@);
            if !(*id == project.id) || id.as_str().is_empty() || is_blank_str(project.name.as_str()) {
                return Err(String::from_str("Every project needs a stable id and a name"));
            }
            if !is_absolute(project.base_dir.as_str()) {
                return Err(quoted("Project '", &project.name, "' must use an absolute folder"));
            }
            match self.check_project_commands(project) {
                Ok(()) => {},
                Err(m) => {
                    return Err(m);
                },
            }
            i = i + 1;
        }
        assert forall|k: Seq<char>| #[trigger] self@.projects.contains_key(k) implies project_ok(
            self@,
            k,
            self@.projects[k],
        ) by {
            let j = choose|j: int| 0 <= j < n && self.projects.key_seq()[j] == k;
            assert(project_ok(self@, self.projects.key_seq()[j], self.projects.value_seq()[j]@));
        }
        Ok(())
    }

    /// The checks of every command.
    fn check_commands(&self) -> (r: Result<(), String>)
        ensures
            r is Ok <==> forall|k: Seq<char>|
                #[trigger] self@.commands.contains_key(k) ==> command_ok(self@, k, self@.commands[k]),
            r matches Err(m) ==> exists|k: Seq<char>|
                #[trigger] self@.commands.contains_key(k) && !command_ok(self@, k, self@.commands[k])
                    && command_message(self@, k, self@.commands[k], m@),
            r matches Err(m) ==> first_command_error(self@, self.commands.key_seq(), self.commands.value_seq(), 0) == Some(m@),
            r is Ok ==> first_command_error(self@, self.commands.key_seq(), self.commands.value_seq(), 0) is None,
    {
        let n = self.commands.len();
        let mut i: usize = 0;
        while i < n
            invariant
                n == self.commands.key_seq().len(),
                self.commands.ordered_as(self@.commands),
                i <= n,
                first_command_error(self@, self.commands.key_seq(), self.commands.value_seq(), 0) == first_command_error(self@, self.commands.key_seq(), self.commands.value_seq(), i as int),
                forall|j: int|
                    0 <= j < i ==> command_ok(
                        self@,
                        #[trigger] self.commands.key_seq()[j],
                        self.commands.value_seq()[j]@,
                    ),
            decreases n - i,
        {
            let id = self.commands.key_at(i);
            let command = self.commands.value_at(i);
            let ghost k = self.commands.key_seq()[i as int];
            assert(self@.commands.contains_key(k));
            assert(self@.commands[k] == command@);
            if !(*id == command.id) || id.as_str().is_empty() || is_blank_str(command.name.as_str())
                || is_blank_str(command.command.as_str()) {
                return Err(String::from_str("Every command needs a stable id, name, and shell command"));
            }
            if !self.projects.contains_key(&command.project_id) {
                return Err(quoted("Command '", &command.name, "' has no project"));
            }
            if !safe_relative_path(command.cwd.as_str()) {
                return Err(quoted("Command '", &command.name, "' has an unsafe working directory"));
            }
            i = i + 1;
        }
        assert forall|k: Seq<char>| #[trigger] self@.commands.contains_key(k) implies command_ok(
            self@,
            k,
            self@.commands[k],
        ) by {
            let j = choose|j: int| 0 <= j < n && self.commands.key_seq()[j] == k;
            assert(command_ok(self@, self.commands.key_seq()[j], self.commands.value_seq()[j]@));
        }
        Ok(())
    }

    /// The checks of every group's name and targets.
    fn check_groups(&self) -> (r: Result<(), String>)
        ensures
            r is Ok <==> forall|k: Seq<char>|
                #[trigger] self@.groups.contains_key(k) ==> group_ok(self@, k, self@.groups[k]),
            r matches Err(m) ==> exists|k: Seq<char>|
                #[trigger] self@.groups.contains_key(k) && !group_ok(self@, k, self@.groups[k])
                    && group_message(self@, k, self@.groups[k], m@),
            r matches Err(m) ==> first_group_error(self@, self.groups.key_seq(), self.groups.value_seq(), 0) == Some(m@),
            r is Ok ==> first_group_error(self@, self.groups.key_seq(), self.groups.value_seq(), 0) is None,
    {
        let n = self.groups.len();
        let mut i: usize = 0;
        while i < n
            invariant
                n == self.groups.key_seq().len(),
                self.groups.ordered_as(self@.groups),
                i <= n,
                first_group_error(self@, self.groups.key_seq(), self.groups.value_seq(), 0) == first_group_error(self@, self.groups.key_seq(), self.groups.value_seq(), i as int),
                forall|j: int|
                    0 <= j < i ==> group_ok(
                        self@,
                        #[trigger] self.groups.key_seq()[j],
                        self.groups.value_seq()[j]@,
                    ),
            decreases n - i,
        {
            let id = self.groups.key_at(i);
            let group = self.groups.value_at(i);
            let ghost k = self.groups.key_seq()[i as int];
            assert(self@.groups.contains_key(k));
            assert(self@.groups[k] == group@);
            if !(*id == group.id) || id.as_str().is_empty() || is_blank_str(group.name.as_str()) {
                return Err(String::from_str("Every group needs a stable id and a name"));
            }
            let m = group.targets.len();
            let mut t: usize = 0;
            while t < m
                invariant
                    m == group@.targets.len(),
                    group_identity_ok(k, group@),
                    self@.groups.contains_key(k),
                    self@.groups[k] == group@,
                    i < n,
                    n == self.groups.key_seq().len(),
                    k == self.groups.key_seq()[i as int],
                    self.groups.value_seq()[i as int]@ == group@,
                    first_group_error(self@, self.groups.key_seq(), self.groups.value_seq(), 0) == first_group_error(self@, self.groups.key_seq(), self.groups.value_seq(), i as int),
                    target_error(self@, group@, 0) == target_error(self@, group@, t as int),
                    t <= m,
                    forall|j: int| 0 <= j < t ==> target_exists(self@, #[trigger] group@.targets[j]),
                decreases m - t,
            {
                assert(group@.targets[t as int] == group.targets[t as int]@);
                match self.ensure_target_exists(&group.targets[t]) {
                    Ok(()) => {},
                    Err(e) => {
                        assert(!group_ok(self@, k, self@.groups[k]));
                        assert(!target_exists(self@, group@.targets[t as int]));
                        assert(group_message(self@, k, self@.groups[k], e@));
                        assert(target_error(self@, group@, t as int) == Some(e@));
                        return Err(e);
                    },
                }
                assert(target_error(self@, group@, t as int) == target_error(self@, group@, t + 1));
                t = t + 1;
            }
            assert(target_error(self@, group@, m as int) is None);
            i = i + 1;
        }
        assert forall|k: Seq<char>| #[trigger] self@.groups.contains_key(k) implies group_ok(
            self@,
            k,
            self@.groups[k],
        ) by {
            let j = choose|j: int| 0 <= j < n && self.groups.key_seq()[j] == k;
            assert(group_ok(self@, self.groups.key_seq()[j], self.groups.value_seq()[j]@));
        }
        Ok(())
    }

    /// Searches every group for a cycle.
    fn check_cycles(&self) -> (r: Result<(), String>)
        requires
            groups_closed(self@),
        ensures
            r is Ok <==> groups_acyclic(self@),
            r matches Err(m) ==> exists|k: Seq<char>, g: Seq<char>|
                #[trigger] self@.groups.contains_key(k) && #[trigger] cycle_message(self@, k, g, m@),
            r matches Err(m) ==> first_cycle_error(self@, self.groups.key_seq(), 0) == Some(m@),
            r is Ok ==> first_cycle_error(self@, self.groups.key_seq(), 0) is None,
    {
        let n = self.groups.len();
        let mut i: usize = 0;
        while i < n
            invariant
                n == self.groups.key_seq().len(),
                self.groups.ordered_as(self@.groups),
                groups_closed(self@),
                i <= n,
                first_cycle_error(self@, self.groups.key_seq(), 0) == first_cycle_error(self@, self.groups.key_seq(), i as int),
                forall|j: int|
                    0 <= j < i ==> !on_cycle(self@, group_node(#[trigger] self.groups.key_seq()[j])),
            decreases n - i,
        {
            let id = self.groups.key_at(i);
            let ghost k = self.groups.key_seq()[i as int];
            assert(self@.groups.contains_key(k));
            let mut visiting: Vec<String> = Vec::new();
            let mut visited: Vec<String> = Vec::new();
            assert(visiting.deep_view() =~= Seq::<Seq<char>>::empty());
            assert(visited.deep_view() =~= Seq::<Seq<char>>::empty());
            match self.check_group_cycle(id, &mut visiting, &mut visited) {
                Ok(()) => {
                    proof {
                        let done = visited.deep_view();
                        let a = choose|a: int| 0 <= a < done.len() && done[a] == id@;
                        assert(!cycle_reachable(self@, group_node(done[a])));
                        lemma_reaches_self(self@, group_node(id@));
                    }
                },
                Err(m) => {
                    proof {
                        let g = choose|g: Seq<char>| #[trigger] reaches(self@, group_node(id@), group_node(g))
                            && self@.groups.contains_key(g) && on_cycle(self@, group_node(g)) && m@
                            == group_cycle_message(self@.groups[g].name);
                        assert(cycle_message(self@, k, g, m@));
                    }
                    return Err(m);
                },
            }
            i = i + 1;
        }
        assert forall|k: Seq<char>| self@.groups.contains_key(k) implies !on_cycle(
            self@,
            #[trigger] group_node(k),
        ) by {
            let j = choose|j: int| 0 <= j < n && self.groups.key_seq()[j] == k;
            assert(!on_cycle(self@, group_node(self.groups.key_seq()[j])));
        }
        Ok(())
    }

    /// Checks every rule of a valid configuration, and names one that is broken.
    pub fn validate(&self) -> (r: Result<(), String>)
        ensures
            r is Ok <==> config_valid(self@),
            r matches Err(m) ==> violation_message(self@, m@),
            match validation_error(*self) {
                None => r is Ok,
                Some(m) => r matches Err(e) && e@ == m,
            },
    {
        if self.schema_version != 1 {
            let mut m = String::from_str("Unsupported schema version ");
            push_decimal(&mut m, self.schema_version as u128);
            return Err(m);
        }
        match self.check_projects() {
            Ok(()) => {},
            Err(m) => {
                return Err(m);
            },
        }
        match self.check_commands() {
            Ok(()) => {},
            Err(m) => {
                return Err(m);
            },
        }
        match self.check_groups() {
            Ok(()) => {},
            Err(m) => {
                return Err(m);
            },
        }
        match self.check_cycles() {
            Ok(()) => {},
            Err(m) => {
                return Err(m);
            },
        }
        Ok(())
    }
}

/// Adds `id` to a list without repeats, unless it is there already.
pub fn insert_unique(list: &mut Vec<String>, id: String)
    requires
        old(list).deep_view().no_duplicates(),
    ensures
        final(list).deep_view().no_duplicates(),
        final(list).deep_view().to_set() == old(list).deep_view().to_set().insert(id@),
{
    let ghost before = list.deep_view();
    if contains_text(list, &id) {
        assert(before.to_set() =~= before.to_set().insert(id@));
    } else {
        let ghost idv = id@;
        list.push(id);
        assert(list.deep_view() =~= before.push(idv));
        assert forall|x: Seq<char>| #[trigger] list.deep_view().contains(x) == before.to_set().insert(idv).contains(x) by {
            if before.contains(x) {
                let j = choose|j: int| 0 <= j < before.len() && before[j] == x;
                assert(list.deep_view()[j] == x);
            }
            if x == idv {
                assert(list.deep_view()[before.len() as int] == x);
            }
        }
        assert(list.deep_view().to_set() =~= before.to_set().insert(idv));
    }
}

pub open spec fn resolve_cycle_message() -> Seq<char> {
    "Group cycle detected"@
}

impl Config {
    /// Collects into `commands` the ids that `target` stands for, walking the
    /// groups depth first. `visiting` holds first `held` ids of which the
    /// target reaches no group, then the groups on the way to the target.
    fn resolve_into(
        &self,
        target: &TargetRef,
        commands: &mut Vec<String>,
        visiting: &mut Vec<String>,
        Ghost(held): Ghost<int>,
    ) -> (r: Result<(), String>)
        requires
            reachable_targets_exist(self@, target@),
            0 <= held <= old(visiting)@.len(),
            old(visiting).deep_view().no_duplicates(),
            stack_path(self@, old(visiting).deep_view().skip(held), target@),
            forall|j: int|
                0 <= j < held ==> !reaches(self@, target@, group_node(#[trigger] old(visiting).deep_view()[j])),
            old(commands).deep_view().no_duplicates(),
        ensures
            r is Ok ==> {
                &&& final(visiting).deep_view() == old(visiting).deep_view()
                &&& final(commands).deep_view().no_duplicates()
                &&& final(commands).deep_view().to_set() == old(commands).deep_view().to_set().union(
                    resolved_ids(self@, target@),
                )
                &&& !cycle_reachable(self@, target@)
                &&& forall|u: TargetView|
                    #[trigger] reaches(self@, target@, u) && u.kind == TargetKind::Group
                        ==> !old(visiting).deep_view().contains(u.id)
            },
            r matches Err(m) ==> cycle_reachable(self@, target@) && m@ == resolve_cycle_message(),
        decreases self@.groups.dom().len() - (old(visiting)@.len() - held),
            if target.kind == TargetKind::Group { 1int } else { 0int },
    {
        let ghost c = self@;
        let ghost t = target@;
        let ghost stack = visiting.deep_view();
        let ghost path = stack.skip(held);
        let ghost before = commands.deep_view().to_set();
        proof {
            lemma_reaches_self(c, t);
        }
        match target.kind {
            TargetKind::Command => {
                insert_unique(commands, target.id.clone());
                proof {
                    assert forall|u: TargetView| #[trigger] reaches(c, t, u) implies u == t by {
                        lemma_leaf_reaches(c, t, u);
                    }
                    assert(resolved_ids(c, t) =~= Set::empty().insert(t.id)) by {
                        assert(contributes(c, t, t.id));
                    }
                    assert(!cycle_reachable(c, t)) by {
                        if cycle_reachable(c, t) {
                            let u = choose|u: TargetView| #[trigger] reaches(c, t, u) && on_cycle(c, u);
                            lemma_cycle_split(c, u);
                        }
                    }
                    assert(commands.deep_view().to_set() =~= before.union(resolved_ids(c, t)));
                }
                Ok(())
            },
            TargetKind::Project => {
                let project = self.projects.get(&target.id).unwrap();
                let n = project.command_ids.len();
                let mut i: usize = 0;
                while i < n
                    invariant
                        n == project@.command_ids.len(),
                        i <= n,
                        commands.deep_view().no_duplicates(),
                        commands.deep_view().to_set() == before.union(
                            project@.command_ids.subrange(0, i as int).to_set(),
                        ),
                    decreases n - i,
                {
                    let ghost prev = commands.deep_view().to_set();
                    assert(project@.command_ids[i as int] == project.command_ids[i as int]@);
                    insert_unique(commands, project.command_ids[i].clone());
                    proof {
                        let ids = project@.command_ids;
                        let a = ids.subrange(0, i as int);
                        let b = ids.subrange(0, i + 1);
                        assert forall|x: Seq<char>| #[trigger] b.contains(x) == a.to_set().insert(ids[i as int]).contains(x) by {
                            if a.contains(x) {
                                let j = choose|j: int| 0 <= j < a.len() && a[j] == x;
                                assert(b[j] == x);
                            }
                            if b.contains(x) {
                                let j = choose|j: int| 0 <= j < b.len() && b[j] == x;
                                if j < i {
                                    assert(a[j] == x);
                                }
                            }
                            if x == ids[i as int] {
                                assert(b[i as int] == x);
                            }
                        }
                        assert(b.to_set() =~= a.to_set().insert(ids[i as int]));
                    }
                    assert(commands.deep_view().to_set() =~= before.union(
                        project@.command_ids.subrange(0, i + 1).to_set(),
                    ));
                    i = i + 1;
                }
                proof {
                    assert(project@.command_ids.subrange(0, n as int) =~= project@.command_ids);
                    assert forall|u: TargetView| #[trigger] reaches(c, t, u) implies u == t by {
                        lemma_leaf_reaches(c, t, u);
                    }
                    assert(resolved_ids(c, t) =~= project@.command_ids.to_set()) by {
                        assert forall|x: Seq<char>| project@.command_ids.to_set().contains(x) implies
                            resolved_ids(c, t).contains(x) by {
                            assert(contributes(c, t, x));
                        }
                    }
                    assert(!cycle_reachable(c, t)) by {
                        if cycle_reachable(c, t) {
                            let u = choose|u: TargetView| #[trigger] reaches(c, t, u) && on_cycle(c, u);
                            lemma_cycle_split(c, u);
                        }
                    }
                    assert(commands.deep_view().to_set() =~= before.union(resolved_ids(c, t)));
                }
                Ok(())
            },
            TargetKind::Group => {
                if contains_text(visiting, &target.id) {
                    proof {
                        assert(group_node(t.id) == t);
                        let a = choose|a: int| 0 <= a < stack.len() && stack[a] == t.id;
                        if a < held {
                            assert(!reaches(c, t, group_node(stack[a])));
                        }
                        assert(path[a - held] == t.id);
                        lemma_stack_cycle(c, path, t.id);
                    }
                    return Err(String::from_str("Group cycle detected"));
                }
                let group = self.groups.get(&target.id).unwrap();
                // The entries of the map are those of its view.
        self.groups.len();
                proof {
                    assert forall|a: int, b: int| 0 <= a < b < path.push(t.id).len() implies path.push(t.id)[a]
                        != path.push(t.id)[b] by {
                        assert(stack[a + held] == path[a]);
                        if b < path.len() {
                            assert(stack[b + held] == path[b]);
                        }
                    }
                    lemma_distinct_within(path.push(t.id), c.groups.dom());
                }
                visiting.push(target.id.clone());
                assert(visiting.deep_view() =~= stack.push(t.id));
                let ghost kids = c.groups[t.id].targets;
                let n = group.targets.len();
                let mut i: usize = 0;
                while i < n
                    invariant
                        n == kids.len(),
                        kids == c.groups[t.id].targets,
                        group@ == c.groups[t.id],
                        c == self@,
                        t == target@,
                        t.kind == TargetKind::Group,
                        c.groups.contains_key(t.id),
                        reachable_targets_exist(c, t),
                        stack.push(t.id).no_duplicates(),
                        path.push(t.id).no_duplicates(),
                        0 <= held <= stack.len(),
                        path == stack.skip(held),
                        forall|j: int| 0 <= j < held ==> !reaches(c, t, group_node(#[trigger] stack[j])),
                        forall|j: int| 0 <= j < path.len() + 1 ==> c.groups.contains_key(#[trigger] path.push(t.id)[j]),
                        forall|j: int|
                            0 <= j < path.len() ==> #[trigger] edge(c, group_node(path.push(t.id)[j]), group_node(path.push(t.id)[j + 1])),
                        path.len() + 1 <= c.groups.dom().len(),
                        old(visiting)@.len() == stack.len(),
                        i <= n,
                        visiting.deep_view() == stack.push(t.id),
                        visiting@.len() == stack.len() + 1,
                        commands.deep_view().no_duplicates(),
                        commands.deep_view().to_set() == before.union(resolved_from(c, kids, i as int)),
                        forall|j: int| 0 <= j < i ==> !cycle_reachable(c, #[trigger] kids[j]),
                        forall|j: int, u: TargetView|
                            0 <= j < i && #[trigger] reaches(c, kids[j], u) && u.kind == TargetKind::Group
                                ==> !stack.push(t.id).contains(u.id),
                    decreases n - i,
                {
                    let child = &group.targets[i];
                    let ghost prev = commands.deep_view().to_set();
                    proof {
                        assert(kids[i as int] == child@);
                        assert(kids.contains(child@));
                        assert(edge(c, t, child@));
                        assert(group_node(t.id) == t);
                        assert forall|u: TargetView| #[trigger] reaches(c, child@, u) && u.kind != TargetKind::Command
                            implies target_exists(c, u) by {
                            lemma_reaches_prepend(c, t, child@, u);
                        }
                        assert(stack.push(t.id).skip(held) =~= path.push(t.id));
                        assert(path.push(t.id).last() == t.id);
                        assert forall|j: int| 0 <= j < held implies !reaches(
                            c,
                            child@,
                            group_node(#[trigger] stack.push(t.id)[j]),
                        ) by {
                            assert(stack.push(t.id)[j] == stack[j]);
                            if reaches(c, child@, group_node(stack[j])) {
                                lemma_reaches_prepend(c, t, child@, group_node(stack[j]));
                            }
                        }
                    }
                    match self.resolve_into(child, commands, visiting, Ghost(held)) {
                        Ok(()) => {},
                        Err(m) => {
                            proof {
                                assert(cycle_reachable(c, child@));
                                assert(edge(c, t, child@));
                                lemma_cycle_reachable_prepend(c, t, child@);
                                assert(cycle_reachable(c, t));
                            }
                            return Err(m);
                        },
                    }
                    proof {
                        assert(resolved_from(c, kids, i + 1) =~= resolved_from(c, kids, i as int).union(resolved_ids(c, kids[i as int]))) by {
                            assert forall|x: Seq<char>| resolved_from(c, kids, i + 1).contains(x) implies
                                resolved_from(c, kids, i as int).union(resolved_ids(c, kids[i as int])).contains(x) by {
                                let j = choose|j: int| 0 <= j < i + 1 && #[trigger] resolved_ids(c, kids[j]).contains(x);
                                if j < i {
                                    assert(resolved_from(c, kids, i as int).contains(x));
                                }
                            }
                            assert forall|x: Seq<char>| resolved_from(c, kids, i as int).union(resolved_ids(c, kids[i as int])).contains(x)
                                implies resolved_from(c, kids, i + 1).contains(x) by {
                                if resolved_ids(c, kids[i as int]).contains(x) {
                                    assert(0 <= i < i + 1);
                                } else {
                                    let j = choose|j: int| 0 <= j < i && #[trigger] resolved_ids(c, kids[j]).contains(x);
                                }
                            }
                        }
                        assert(commands.deep_view().to_set() =~= before.union(resolved_from(c, kids, i + 1)));
                    }
                    i = i + 1;
                }
                let ghost seen = visiting@;
                visiting.pop();
                assert(visiting@ =~= seen.drop_last());
                assert forall|j: int| 0 <= j < stack.len() implies visiting.deep_view()[j] == stack[j] by {
                    assert(visiting@[j] == seen[j]);
                    assert(stack.push(t.id)[j] == stack[j]);
                }
                assert(visiting.deep_view() =~= stack);
                proof {
                    // The ids of the group are those of its targets.
                    assert(resolved_ids(c, t) =~= resolved_from(c, kids, n as int)) by {
                        assert forall|x: Seq<char>| resolved_ids(c, t).contains(x) implies
                            resolved_from(c, kids, n as int).contains(x) by {
                            let u = choose|u: TargetView| #[trigger] reaches(c, t, u) && contributes(c, u, x);
                            assert(u != t);
                            lemma_reaches_split(c, t, u);
                            let j = choose|j: int| 0 <= j < kids.len() && #[trigger] reaches(c, children(c, t)[j], u);
                            assert(resolved_ids(c, kids[j]).contains(x));
                        }
                        assert forall|x: Seq<char>| resolved_from(c, kids, n as int).contains(x) implies
                            resolved_ids(c, t).contains(x) by {
                            let j = choose|j: int| 0 <= j < n && #[trigger] resolved_ids(c, kids[j]).contains(x);
                            let u = choose|u: TargetView| #[trigger] reaches(c, kids[j], u) && contributes(c, u, x);
                            assert(kids.contains(kids[j]));
                            lemma_reaches_prepend(c, t, kids[j], u);
                        }
                    }
                    // What the group reaches is off the stack.
                    assert forall|u: TargetView| #[trigger] reaches(c, t, u) && u.kind == TargetKind::Group
                        implies !stack.contains(u.id) by {
                        if u != t {
                            lemma_reaches_split(c, t, u);
                            let j = choose|j: int| 0 <= j < kids.len() && #[trigger] reaches(c, children(c, t)[j], u);
                            assert(!stack.push(t.id).contains(u.id));
                            if stack.contains(u.id) {
                                let a = choose|a: int| 0 <= a < stack.len() && stack[a] == u.id;
                                assert(stack.push(t.id)[a] == u.id);
                            }
                        }
                    }
                    // The group reaches no cycle.
                    assert(!cycle_reachable(c, t)) by {
                        if cycle_reachable(c, t) {
                            let u = choose|u: TargetView| #[trigger] reaches(c, t, u) && on_cycle(c, u);
                            if u == t {
                                lemma_cycle_split(c, t);
                                let j = choose|j: int| 0 <= j < kids.len() && #[trigger] reaches(c, children(c, t)[j], t);
                                assert(stack.push(t.id)[stack.len() as int] == t.id);
                            } else {
                                lemma_reaches_split(c, t, u);
                                let j = choose|j: int| 0 <= j < kids.len() && #[trigger] reaches(c, children(c, t)[j], u);
                                assert(cycle_reachable(c, kids[j]));
                            }
                        }
                    }
                }
                Ok(())
            },
        }
    }

    /// The ids of the commands that the target stands for, each once; fails
    /// when the target is missing or reaches a group that contains itself.
    pub fn resolve(&self, target: &TargetRef) -> (r: Result<Vec<String>, String>)
        requires
            target_exists(self@, target@) ==> reachable_targets_exist(self@, target@),
        ensures
            !target_exists(self@, target@) ==> (r matches Err(m) && m@ == missing_target_message(target@)),
            target_exists(self@, target@) ==> (r is Ok <==> !cycle_reachable(self@, target@)),
            target_exists(self@, target@) ==> (r matches Err(m) ==> m@ == resolve_cycle_message()),
            r matches Ok(ids) ==> ids.deep_view().no_duplicates() && ids.deep_view().to_set()
                == resolved_ids(self@, target@),
    {
        match self.ensure_target_exists(target) {
            Ok(()) => {},
            Err(m) => {
                return Err(m);
            },
        }
        let mut commands: Vec<String> = Vec::new();
        let mut visiting: Vec<String> = Vec::new();
        assert(commands.deep_view() =~= Seq::<Seq<char>>::empty());
        assert(visiting.deep_view() =~= Seq::<Seq<char>>::empty());
        assert(visiting.deep_view().skip(0) =~= Seq::<Seq<char>>::empty());
        match self.resolve_into(target, &mut commands, &mut visiting, Ghost(0)) {
            Ok(()) => {
                assert(commands.deep_view().to_set() =~= resolved_ids(self@, target@));
                Ok(commands)
            },
            Err(m) => Err(m),
        }
    }
}

/// The stored commands among `ids`, in the order of `ids`; ids without a
/// command are skipped.
pub open spec fn present_commands(c: ConfigView, ids: Seq<Seq<char>>) -> Seq<CommandView>
    decreases ids.len(),
{
    if ids.len() == 0 {
        Seq::empty()
    } else if c.commands.contains_key(ids.last()) {
        present_commands(c, ids.drop_last()).push(c.commands[ids.last()])
    } else {
        present_commands(c, ids.drop_last())
    }
}

impl Config {
    /// The stored commands among `ids`, in order.
    pub fn commands_for(&self, ids: &Vec<String>) -> (r: Vec<HandyCommand>)
        ensures
            r@.map_values(|cmd: HandyCommand| cmd@) == present_commands(self@, ids.deep_view()),
    {
        let n = ids.len();
        let mut r: Vec<HandyCommand> = Vec::new();
        let mut i: usize = 0;
        while i < n
            invariant
                n == ids@.len(),
                i <= n,
                r@.map_values(|cmd: HandyCommand| cmd@) == present_commands(self@, ids.deep_view().take(i as int)),
            decreases n - i,
        {
            let ghost before = r@.map_values(|cmd: HandyCommand| cmd@);
            assert(ids.deep_view().take(i + 1).drop_last() =~= ids.deep_view().take(i as int));
            assert(ids.deep_view().take(i + 1).last() == ids@[i as int]@);
            match self.commands.get(&ids[i]) {
                Some(command) => {
                    r.push(command.clone());
                    assert(r@.map_values(|cmd: HandyCommand| cmd@) =~= before.push(command@));
                },
                None => {},
            }
            i = i + 1;
        }
        assert(ids.deep_view().take(n as int) =~= ids.deep_view());
        r
    }
}

} // verus!

verus! {

/// Whether a text holds only white space (spelled out character by character).
pub open spec fn only_white_space(s: Seq<char>) -> bool {
    forall|i: int| 0 <= i < s.len() ==> crate::text::is_white(#[trigger] s[i])
}

/// A working directory that stays below its folder: it does not start at
/// the root, and no component between separators is `..`.
pub open spec fn stays_below(s: Seq<char>) -> bool {
    &&& !(s.len() > 0 && s[0] == '/')
    &&& forall|i: int|
        0 <= i && i + 2 <= s.len() && #[trigger] s[i] == '.' && s[i + 1] == '.' ==> !((i == 0 || s[i - 1] == '/')
            && (i + 2 == s.len() || s[i + 2] == '/'))
}

/// A valid configuration is one of schema version 1 in which every project
/// is stored under its own non-empty id, has a name that is not blank and a
/// folder that starts at the root, and lists only stored commands of its
/// own; every command is stored under its own non-empty id, has a name and
/// a shell command that are not blank, belongs to a stored project and has
/// a working directory that stays below the project folder; every group is
/// stored under its own non-empty id, has a name that is not blank, and
/// names only stored projects, commands and groups; and no group contains
/// itself through its targets.
pub proof fn lemma_valid_config_means(c: ConfigView)
    ensures
        config_valid(c) <==> {
            &&& c.schema_version == 1
            &&& forall|k: Seq<char>|
                #[trigger] c.projects.contains_key(k) ==> {
                    let p = c.projects[k];
                    &&& k == p.id
                    &&& k.len() > 0
                    &&& !only_white_space(p.name)
                    &&& p.base_dir.len() > 0 && p.base_dir[0] == '/'
                    &&& forall|i: int|
                        0 <= i < p.command_ids.len() ==> c.commands.contains_key(#[trigger] p.command_ids[i])
                            && c.commands[p.command_ids[i]].project_id == p.id
                }
            &&& forall|k: Seq<char>|
                #[trigger] c.commands.contains_key(k) ==> {
                    let cmd = c.commands[k];
                    &&& k == cmd.id
                    &&& k.len() > 0
                    &&& !only_white_space(cmd.name)
                    &&& !only_white_space(cmd.command)
                    &&& c.projects.contains_key(cmd.project_id)
                    &&& stays_below(cmd.cwd)
                }
            &&& forall|k: Seq<char>|
                #[trigger] c.groups.contains_key(k) ==> {
                    let g = c.groups[k];
                    &&& k == g.id
                    &&& k.len() > 0
                    &&& !only_white_space(g.name)
                    &&& forall|i: int|
                        0 <= i < g.targets.len() ==> match (#[trigger] g.targets[i]).kind {
                            TargetKind::Project => c.projects.contains_key(g.targets[i].id),
                            TargetKind::Command => c.commands.contains_key(g.targets[i].id),
                            TargetKind::Group => c.groups.contains_key(g.targets[i].id),
                        }
                }
            &&& forall|k: Seq<char>|
                #[trigger] c.groups.contains_key(k) ==> !on_cycle(c, TargetView { kind: TargetKind::Group, id: k })
        },
{
    assert forall|s: Seq<char>| #[trigger] stays_below(s) == is_safe_relative_path(s) by {
        if stays_below(s) {
            assert forall|i: int| !crate::text::parent_component_at(s, i) by {
                if 0 <= i && i + 2 <= s.len() && s[i] == '.' {
                }
            }
        }
        if is_safe_relative_path(s) {
            assert forall|i: int|
                0 <= i && i + 2 <= s.len() && #[trigger] s[i] == '.' && s[i + 1] == '.' implies !((i == 0 || s[i
                    - 1] == '/') && (i + 2 == s.len() || s[i + 2] == '/')) by {
                assert(!crate::text::parent_component_at(s, i));
            }
        }
    }
    assert forall|s: Seq<char>| #[trigger] only_white_space(s) == is_blank(s) by {}
    assert forall|k: Seq<char>| #[trigger] c.projects.contains_key(k) implies (project_ok(c, k, c.projects[k]) <==> {
        let p = c.projects[k];
        &&& k == p.id
        &&& k.len() > 0
        &&& !only_white_space(p.name)
        &&& p.base_dir.len() > 0 && p.base_dir[0] == '/'
        &&& forall|i: int|
            0 <= i < p.command_ids.len() ==> c.commands.contains_key(#[trigger] p.command_ids[i])
                && c.commands[p.command_ids[i]].project_id == p.id
    }) by {
        assert(only_white_space(c.projects[k].name) == is_blank(c.projects[k].name));
    }
    assert forall|k: Seq<char>| #[trigger] c.commands.contains_key(k) implies (command_ok(c, k, c.commands[k]) <==> {
        let cmd = c.commands[k];
        &&& k == cmd.id
        &&& k.len() > 0
        &&& !only_white_space(cmd.name)
        &&& !only_white_space(cmd.command)
        &&& c.projects.contains_key(cmd.project_id)
        &&& stays_below(cmd.cwd)
    }) by {
        let cmd = c.commands[k];
        assert(only_white_space(cmd.name) == is_blank(cmd.name));
        assert(only_white_space(cmd.command) == is_blank(cmd.command));
        assert(stays_below(cmd.cwd) == is_safe_relative_path(cmd.cwd));
    }
    assert forall|k: Seq<char>| #[trigger] c.groups.contains_key(k) implies (group_ok(c, k, c.groups[k]) <==> {
        let g = c.groups[k];
        &&& k == g.id
        &&& k.len() > 0
        &&& !only_white_space(g.name)
        &&& forall|i: int|
            0 <= i < g.targets.len() ==> match (#[trigger] g.targets[i]).kind {
                TargetKind::Project => c.projects.contains_key(g.targets[i].id),
                TargetKind::Command => c.commands.contains_key(g.targets[i].id),
                TargetKind::Group => c.groups.contains_key(g.targets[i].id),
            }
    }) by {
        assert(only_white_space(c.groups[k].name) == is_blank(c.groups[k].name));
    }
    assert forall|k: Seq<char>| #[trigger] c.groups.contains_key(k) implies (!on_cycle(c, group_node(k)) <==> !on_cycle(
        c,
        TargetView { kind: TargetKind::Group, id: k },
    )) by {
        assert(group_node(k) == TargetView { kind: TargetKind::Group, id: k });
    }
}

} // verus!
