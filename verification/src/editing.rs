//! Changes to the configuration that the user asks for: saving and deleting
//! projects and groups, refused while they would change what is running.
use vstd::prelude::*;
use crate::graph::{reachable_targets_exist, resolved_ids};
use crate::id_map::IdMap;
use crate::model::{
    clone_targets, quoted, resolve_cycle_message, target_exists, targets_view, CommandView, Config,
    ConfigView, Group, GroupView, HandyCommand, Project, ProjectView, TargetKind, TargetRef,
    TargetView,
};
use crate::graph::group_node;
use crate::runtime::{stoppable, RuntimeManager, RuntimeView};
use crate::text::contains_text;

verus! {

/// The values of a list of commands.
pub open spec fn commands_view(cmds: Seq<HandyCommand>) -> Seq<CommandView> {
    cmds.map_values(|c: HandyCommand| c@)
}

/// The ids of a list of commands.
pub open spec fn ids_of(cmds: Seq<CommandView>) -> Seq<Seq<char>> {
    cmds.map_values(|c: CommandView| c.id)
}

/// The map with each command of the list put under its id, in order, so that
/// a later command with the same id wins.
pub open spec fn with_commands(m: Map<Seq<char>, CommandView>, cmds: Seq<CommandView>) -> Map<
    Seq<char>,
    CommandView,
>
    decreases cmds.len(),
{
    if cmds.len() == 0 {
        m
    } else {
        with_commands(m, cmds.drop_last()).insert(cmds.last().id, cmds.last())
    }
}

/// The first command of the list with the id, if any.
pub open spec fn first_with_id(cmds: Seq<CommandView>, id: Seq<char>) -> Option<CommandView>
    decreases cmds.len(),
{
    if cmds.len() == 0 {
        None
    } else if cmds[0].id == id {
        Some(cmds[0])
    } else {
        first_with_id(cmds.drop_first(), id)
    }
}

/// Two commands run the same way: the same shell command, folder, stop and
/// status commands.
pub open spec fn same_execution(a: CommandView, b: CommandView) -> bool {
    &&& a.command == b.command
    &&& a.cwd == b.cwd
    &&& a.stop_command == b.stop_command
    &&& a.status_command == b.status_command
}

/// Saving the list would remove the command `id` or change how it runs.
pub open spec fn execution_changed(old: CommandView, cmds: Seq<CommandView>, id: Seq<char>) -> bool {
    match first_with_id(cmds, id) {
        None => true,
        Some(n) => !same_execution(old, n),
    }
}

/// The commands that a project lists now, if it exists.
pub open spec fn listed_ids(c: ConfigView, project_id: Seq<char>) -> Seq<Seq<char>> {
    if c.projects.contains_key(project_id) {
        c.projects[project_id].command_ids
    } else {
        Seq::empty()
    }
}

/// The command `id` of the saved project may not be changed as asked while it
/// can be stopped.
pub open spec fn blocks_save(
    c: ConfigView,
    rt: RuntimeView,
    p: ProjectView,
    cmds: Seq<CommandView>,
    id: Seq<char>,
) -> bool {
    &&& c.commands.contains_key(id)
    &&& stoppable(rt, c.commands[id])
    &&& (c.projects[p.id].base_dir != p.base_dir || execution_changed(c.commands[id], cmds, id))
}

/// Some command of the stored project blocks the save.
pub open spec fn save_blocked(c: ConfigView, rt: RuntimeView, p: ProjectView, cmds: Seq<CommandView>) -> bool {
    c.projects.contains_key(p.id) && exists|j: int|
        0 <= j < c.projects[p.id].command_ids.len() && blocks_save(
            c,
            rt,
            p,
            cmds,
            #[trigger] c.projects[p.id].command_ids[j],
        )
}

/// Every command of the list belongs to the project.
pub open spec fn all_belong(p: ProjectView, cmds: Seq<CommandView>) -> bool {
    forall|i: int| 0 <= i < cmds.len() ==> (#[trigger] cmds[i]).project_id == p.id
}

/// The configuration after saving the project with the commands: the project
/// lists exactly these commands, its former commands are dropped, and the
/// new ones are stored.
pub open spec fn saved_project_config(c: ConfigView, p: ProjectView, cmds: Seq<CommandView>) -> ConfigView {
    ConfigView {
        schema_version: c.schema_version,
        projects: c.projects.insert(p.id, ProjectView { command_ids: ids_of(cmds), ..p }),
        commands: with_commands(c.commands.remove_keys(listed_ids(c, p.id).to_set()), cmds),
        groups: c.groups,
    }
}

pub open spec fn missing_folder_message() -> Seq<char> {
    "Choose an existing project folder"@
}

pub open spec fn foreign_commands_message() -> Seq<char> {
    "All saved commands must belong to this project"@
}

pub open spec fn stop_before_change_message(name: Seq<char>) -> Seq<char> {
    "Stop '"@ + name + "' before changing or removing it"@
}

/// Whether two optional texts are equal.
fn same_text_option(a: &Option<String>, b: &Option<String>) -> (r: bool)
    ensures
        r == (a.deep_view() == b.deep_view()),
{
    match (a, b) {
        (Some(x), Some(y)) => *x == *y,
        (None, None) => true,
        _ => false,
    }
}

/// The position of the first command of the list with the id.
fn find_command(cmds: &Vec<HandyCommand>, id: &String) -> (r: Option<usize>)
    ensures
        match r {
            Some(k) => k < cmds@.len() && first_with_id(commands_view(cmds@), id@) == Some(
                cmds@[k as int]@,
            ),
            None => first_with_id(commands_view(cmds@), id@) is None,
        },
{
    let n = cmds.len();
    let mut k: usize = 0;
    assert(commands_view(cmds@).skip(0) =~= commands_view(cmds@));
    while k < n
        invariant
            n == cmds@.len(),
            k <= n,
            first_with_id(commands_view(cmds@), id@) == first_with_id(
                commands_view(cmds@).skip(k as int),
                id@,
            ),
        decreases n - k,
    {
        let ghost rest = commands_view(cmds@).skip(k as int);
        assert(rest[0] == cmds@[k as int]@);
        if cmds[k].id == *id {
            return Some(k);
        }
        assert(rest.drop_first() =~= commands_view(cmds@).skip(k + 1));
        k = k + 1;
    }
    assert(commands_view(cmds@).skip(n as int).len() == 0);
    None
}

/// Drops the commands with the given ids.
fn remove_commands(map: &mut IdMap<HandyCommand>, ids: &Vec<String>)
    ensures
        final(map)@ == old(map)@.remove_keys(ids.deep_view().to_set()),
{
    let n = ids.len();
    let mut i: usize = 0;
    while i < n
        invariant
            n == ids@.len(),
            i <= n,
            map@ == old(map)@.remove_keys(ids.deep_view().take(i as int).to_set()),
        decreases n - i,
    {
        let ghost before = map@;
        map.remove(&ids[i]);
        assert(ids.deep_view().take(i + 1).to_set() =~= ids.deep_view().take(i as int).to_set().insert(
            ids.deep_view()[i as int],
        )) by {
            assert forall|x: Seq<char>| ids.deep_view().take(i + 1).to_set().contains(x) implies ids.deep_view().take(i as int).to_set().insert(ids.deep_view()[i as int]).contains(x) by {
                let a = choose|a: int| 0 <= a < i + 1 && #[trigger] ids.deep_view().take(i + 1)[a] == x;
                if a < i {
                    assert(ids.deep_view().take(i as int)[a] == x);
                }
            }
            assert forall|x: Seq<char>| ids.deep_view().take(i as int).to_set().insert(ids.deep_view()[i as int]).contains(x) implies ids.deep_view().take(i + 1).to_set().contains(x) by {
                if x == ids.deep_view()[i as int] {
                    assert(ids.deep_view().take(i + 1)[i as int] == x);
                } else {
                    let a = choose|a: int| 0 <= a < i && #[trigger] ids.deep_view().take(i as int)[a] == x;
                    assert(ids.deep_view().take(i + 1)[a] == x);
                }
            }
        }
        assert(map@ =~= old(map)@.remove_keys(ids.deep_view().take(i + 1).to_set()));
        i = i + 1;
    }
    assert(ids.deep_view().take(n as int) =~= ids.deep_view());
}

/// Stores each command of the list under its id, in order.
fn insert_commands(map: &mut IdMap<HandyCommand>, cmds: &Vec<HandyCommand>)
    ensures
        final(map)@ == with_commands(old(map)@, commands_view(cmds@)),
{
    let n = cmds.len();
    let mut i: usize = 0;
    while i < n
        invariant
            n == cmds@.len(),
            i <= n,
            map@ == with_commands(old(map)@, commands_view(cmds@).take(i as int)),
        decreases n - i,
    {
        let command = cmds[i].clone();
        let key = cmds[i].id.clone();
        map.insert(key, command);
        assert(commands_view(cmds@).take(i + 1).drop_last() =~= commands_view(cmds@).take(i as int));
        i = i + 1;
    }
    assert(commands_view(cmds@).take(n as int) =~= commands_view(cmds@));
}

/// Saves a project with its commands in place of what was stored under its
/// id. Refused when the folder does not exist, when a command belongs to
/// another project, and while a stored command of the project that would be
/// removed, or would run differently or in another folder, can be stopped.
pub fn save_project(
    config: &Config,
    runtime: &RuntimeManager,
    project: Project,
    commands: Vec<HandyCommand>,
    folder_exists: bool,
) -> (r: Result<Config, String>)
    ensures
        r is Ok <==> folder_exists && all_belong(project@, commands_view(commands@)) && !save_blocked(
            config@,
            runtime@,
            project@,
            commands_view(commands@),
        ),
        !folder_exists ==> (r matches Err(m) && m@ == missing_folder_message()),
        folder_exists && !all_belong(project@, commands_view(commands@)) ==> (r matches Err(m) && m@
            == foreign_commands_message()),
        folder_exists && all_belong(project@, commands_view(commands@)) && save_blocked(
            config@,
            runtime@,
            project@,
            commands_view(commands@),
        ) ==> (r matches Err(m) && exists|j: int|
            0 <= j < config@.projects[project@.id].command_ids.len() && #[trigger] blocks_save(
                config@,
                runtime@,
                project@,
                commands_view(commands@),
                config@.projects[project@.id].command_ids[j],
            ) && (forall|a: int|
                0 <= a < j ==> !blocks_save(
                    config@,
                    runtime@,
                    project@,
                    commands_view(commands@),
                    #[trigger] config@.projects[project@.id].command_ids[a],
                )) && m@ == stop_before_change_message(
                config@.commands[config@.projects[project@.id].command_ids[j]].name,
            )),
        r matches Ok(next) ==> next@ == saved_project_config(config@, project@, commands_view(commands@)),
{
    let ghost c = config@;
    let ghost p = project@;
    let ghost cmds = commands_view(commands@);
    if !folder_exists {
        return Err(String::from_str("Choose an existing project folder"));
    }
    let n = commands.len();
    let mut i: usize = 0;
    while i < n
        invariant
            n == commands@.len(),
            cmds == commands_view(commands@),
            p == project@,
            folder_exists,
            i <= n,
            forall|j: int| 0 <= j < i ==> (#[trigger] cmds[j]).project_id == p.id,
        decreases n - i,
    {
        assert(cmds[i as int] == commands@[i as int]@);
        if !(commands[i].project_id == project.id) {
            assert(!all_belong(p, cmds));
            return Err(String::from_str("All saved commands must belong to this project"));
        }
        i = i + 1;
    }
    match config.projects.get(&project.id) {
        Some(existing) => {
            let base_dir_changed = !(existing.base_dir == project.base_dir);
            let m = existing.command_ids.len();
            let mut j: usize = 0;
            while j < m
                invariant
                    m == existing.command_ids@.len(),
                    c == config@,
                    p == project@,
                    cmds == commands_view(commands@),
                    c.projects.contains_key(p.id),
                    folder_exists,
                    all_belong(p, cmds),
                    existing@ == c.projects[p.id],
                    base_dir_changed == (c.projects[p.id].base_dir != p.base_dir),
                    j <= m,
                    forall|a: int| 0 <= a < j ==> !blocks_save(c, runtime@, p, cmds, #[trigger] c.projects[p.id].command_ids[a]),
                decreases m - j,
            {
                let id = &existing.command_ids[j];
                assert(c.projects[p.id].command_ids[j as int] == id@);
                match config.commands.get(id) {
                    None => {},
                    Some(old) => {
                        let changed = match find_command(&commands, id) {
                            None => true,
                            Some(k) => !(old.command == commands[k].command && old.cwd
                                == commands[k].cwd && same_text_option(
                                &old.stop_command,
                                &commands[k].stop_command,
                            ) && same_text_option(&old.status_command, &commands[k].status_command)),
                        };
                        if runtime.can_stop(old) && (base_dir_changed || changed) {
                            assert(blocks_save(c, runtime@, p, cmds, c.projects[p.id].command_ids[j as int]));
                            return Err(quoted("Stop '", &old.name, "' before changing or removing it"));
                        }
                    },
                }
                j = j + 1;
            }
        },
        None => {},
    }
    let mut next = config.clone();
    let old_commands = match next.projects.get(&project.id) {
        Some(existing) => {
            let v = existing.command_ids.clone();
            assert(v.deep_view() =~= existing.command_ids.deep_view());
            v
        },
        None => Vec::new(),
    };
    assert(old_commands.deep_view() =~= listed_ids(c, p.id));
    let mut project = project;
    let mut command_ids: Vec<String> = Vec::new();
    let mut k: usize = 0;
    while k < n
        invariant
            n == commands@.len(),
            cmds == commands_view(commands@),
            k <= n,
            command_ids.deep_view() == ids_of(cmds).take(k as int),
        decreases n - k,
    {
        let ghost before = command_ids.deep_view();
        command_ids.push(commands[k].id.clone());
        assert(ids_of(cmds)[k as int] == commands@[k as int].id@);
        assert(command_ids.deep_view() =~= before.push(ids_of(cmds)[k as int]));
        assert(command_ids.deep_view() =~= ids_of(cmds).take(k + 1));
        k = k + 1;
    }
    assert(ids_of(cmds).take(n as int) =~= ids_of(cmds));
    project.command_ids = command_ids;
    remove_commands(&mut next.commands, &old_commands);
    insert_commands(&mut next.commands, &commands);
    let key = project.id.clone();
    next.projects.insert(key, project);
    assert(next@.projects =~= saved_project_config(c, p, cmds).projects);
    Ok(next)
}

/// Some command among `ids` exists and can be stopped.
pub open spec fn any_stoppable(c: ConfigView, rt: RuntimeView, ids: Set<Seq<char>>) -> bool {
    exists|id: Seq<char>|
        #[trigger] ids.contains(id) && c.commands.contains_key(id) && stoppable(rt, c.commands[id])
}

/// Whether stopping the target would stop anything: some command that it
/// stands for can be stopped. Fails as resolving the target does.
pub fn target_is_stoppable(config: &Config, runtime: &RuntimeManager, target: &TargetRef) -> (r: Result<
    bool,
    String,
>)
    requires
        target_exists(config@, target@) ==> reachable_targets_exist(config@, target@),
    ensures
        !target_exists(config@, target@) ==> (r matches Err(m) && m@
            == crate::model::missing_target_message(target@)),
        target_exists(config@, target@) ==> (r is Ok <==> !crate::graph::cycle_reachable(
            config@,
            target@,
        )),
        target_exists(config@, target@) ==> (r matches Err(m) ==> m@ == resolve_cycle_message()),
        r matches Ok(b) ==> b == any_stoppable(config@, runtime@, resolved_ids(config@, target@)),
{
    let ids = match config.resolve(target) {
        Ok(ids) => ids,
        Err(m) => {
            return Err(m);
        },
    };
    let n = ids.len();
    let mut i: usize = 0;
    while i < n
        invariant
            n == ids@.len(),
            target_exists(config@, target@),
            !crate::graph::cycle_reachable(config@, target@),
            ids.deep_view().to_set() == resolved_ids(config@, target@),
            i <= n,
            forall|j: int|
                0 <= j < i ==> !(config@.commands.contains_key(#[trigger] ids.deep_view()[j])
                    && stoppable(runtime@, config@.commands[ids.deep_view()[j]])),
        decreases n - i,
    {
        match config.commands.get(&ids[i]) {
            Some(command) => {
                if runtime.can_stop(command) {
                    assert(ids.deep_view().to_set().contains(ids.deep_view()[i as int]));
                    return Ok(true);
                }
            },
            None => {},
        }
        i = i + 1;
    }
    assert forall|id: Seq<char>| #[trigger] ids.deep_view().to_set().contains(id) implies !(
    config@.commands.contains_key(id) && stoppable(runtime@, config@.commands[id])) by {
        let j = choose|j: int| 0 <= j < n && ids.deep_view()[j] == id;
        assert(!(config@.commands.contains_key(ids.deep_view()[j]) && stoppable(
            runtime@,
            config@.commands[ids.deep_view()[j]],
        )));
    }
    Ok(false)
}

/// The target is removed along with what it names: a target of `kind` with
/// `id`, or a command among `removed`.
pub open spec fn dropped(t: TargetView, kind: TargetKind, id: Seq<char>, removed: Seq<Seq<char>>) -> bool {
    ||| t.kind == kind && t.id == id
    ||| t.kind == TargetKind::Command && removed.contains(t.id)
}

/// The targets of the list that are not dropped, in order.
pub open spec fn retained(
    ts: Seq<TargetView>,
    kind: TargetKind,
    id: Seq<char>,
    removed: Seq<Seq<char>>,
) -> Seq<TargetView>
    decreases ts.len(),
{
    if ts.len() == 0 {
        ts
    } else if dropped(ts.last(), kind, id, removed) {
        retained(ts.drop_last(), kind, id, removed)
    } else {
        retained(ts.drop_last(), kind, id, removed).push(ts.last())
    }
}

/// The group with the dropped targets taken out.
pub open spec fn pruned_group(g: GroupView, kind: TargetKind, id: Seq<char>, removed: Seq<Seq<char>>) -> GroupView {
    GroupView { targets: retained(g.targets, kind, id, removed), ..g }
}

fn retain_targets(targets: &Vec<TargetRef>, kind: TargetKind, id: &String, removed: &Vec<String>) -> (r: Vec<TargetRef>)
    ensures
        targets_view(r@) == retained(targets_view(targets@), kind, id@, removed.deep_view()),
{
    let n = targets.len();
    let mut r: Vec<TargetRef> = Vec::new();
    let mut i: usize = 0;
    while i < n
        invariant
            n == targets@.len(),
            i <= n,
            targets_view(r@) == retained(targets_view(targets@).take(i as int), kind, id@, removed.deep_view()),
        decreases n - i,
    {
        let t = &targets[i];
        let ghost ts = targets_view(targets@);
        assert(ts.take(i + 1).drop_last() =~= ts.take(i as int));
        assert(ts.take(i + 1).last() == t@);
        let drop = (t.kind == kind && t.id == *id) || (t.kind == TargetKind::Command && contains_text(removed, &t.id));
        if !drop {
            let ghost before = r@;
            r.push(t.clone());
            assert(targets_view(r@) =~= targets_view(before).push(t@));
        }
        i = i + 1;
    }
    assert(targets_view(targets@).take(n as int) =~= targets_view(targets@));
    r
}

/// Takes the dropped targets out of every group.
fn prune_groups(groups: &mut IdMap<Group>, kind: TargetKind, id: &String, removed: &Vec<String>)
    ensures
        final(groups)@.dom() == old(groups)@.dom(),
        forall|k: Seq<char>| #[trigger] final(groups)@.contains_key(k) ==> final(groups)@[k] == pruned_group(
            old(groups)@[k],
            kind,
            id@,
            removed.deep_view(),
        ),
{
    let n = groups.len();
    let ghost keys = groups.key_seq();
    let ghost start = groups@;
    let mut i: usize = 0;
    while i < n
        invariant
            n == keys.len(),
            groups.key_seq() == keys,
            groups.ordered_as(groups@),
            start.dom() == groups@.dom(),
            i <= n,
            forall|j: int| 0 <= j < i ==> groups@[#[trigger] keys[j]] == pruned_group(start[keys[j]], kind, id@, removed.deep_view()),
            forall|j: int| i <= j < n ==> groups@[#[trigger] keys[j]] == start[keys[j]],
        decreases n - i,
    {
        let key = groups.key_at(i).clone();
        let g = groups.value_at(i);
        let pruned = Group { id: g.id.clone(), name: g.name.clone(), targets: retain_targets(&g.targets, kind, id, removed) };
        let ghost before = groups@;
        assert(before.contains_key(keys[i as int]));
        groups.insert(key, pruned);
        groups.len();
        assert(groups@.dom() =~= before.dom());
        assert forall|j: int| 0 <= j < n && j != i implies groups@[#[trigger] keys[j]] == before[keys[j]] by {
            assert(keys[j] != keys[i as int]);
        }
        i = i + 1;
    }
    assert forall|k: Seq<char>| #[trigger] groups@.contains_key(k) implies groups@[k] == pruned_group(start[k], kind, id@, removed.deep_view()) by {
        let j = choose|j: int| 0 <= j < n && keys[j] == k;
    }
}

/// The project has a stored command that can be stopped.
pub open spec fn project_busy(c: ConfigView, rt: RuntimeView, id: Seq<char>) -> bool {
    c.projects.contains_key(id) && exists|j: int|
        0 <= j < c.projects[id].command_ids.len() && c.commands.contains_key(
            #[trigger] c.projects[id].command_ids[j],
        ) && stoppable(rt, c.commands[c.projects[id].command_ids[j]])
}

/// The configuration after deleting the project: its commands go with it,
/// and so do the targets that named the project or those commands.
pub open spec fn deleted_project_config(c: ConfigView, id: Seq<char>, g: Map<Seq<char>, GroupView>) -> bool {
    let removed = listed_ids(c, id);
    &&& g.dom() == c.groups.dom()
    &&& forall|k: Seq<char>| #[trigger] g.contains_key(k) ==> g[k] == pruned_group(c.groups[k], TargetKind::Project, id, removed)
}

pub open spec fn busy_project_message() -> Seq<char> {
    "Stop this project before deleting it"@
}

/// Deletes a project with its commands, and takes the targets that named
/// them out of every group. Refused while one of its commands can be stopped.
pub fn delete_project(config: &Config, runtime: &RuntimeManager, id: &String) -> (r: Result<Config, String>)
    ensures
        r is Ok <==> !project_busy(config@, runtime@, id@),
        r matches Err(m) ==> m@ == busy_project_message(),
        r matches Ok(next) ==> {
            &&& next@.schema_version == config@.schema_version
            &&& next@.projects == config@.projects.remove(id@)
            &&& next@.commands == config@.commands.remove_keys(listed_ids(config@, id@).to_set())
            &&& deleted_project_config(config@, id@, next@.groups)
        },
{
    let ghost c = config@;
    match config.projects.get(id) {
        Some(project) => {
            let n = project.command_ids.len();
            let mut j: usize = 0;
            while j < n
                invariant
                    n == c.projects[id@].command_ids.len(),
                    c == config@,
                    c.projects.contains_key(id@),
                    project@ == c.projects[id@],
                    j <= n,
                    forall|a: int| 0 <= a < j ==> !(c.commands.contains_key(#[trigger] c.projects[id@].command_ids[a])
                        && stoppable(runtime@, c.commands[c.projects[id@].command_ids[a]])),
                decreases n - j,
            {
                assert(c.projects[id@].command_ids[j as int] == project.command_ids[j as int]@);
                match config.commands.get(&project.command_ids[j]) {
                    Some(command) => {
                        if runtime.can_stop(command) {
                            assert(project_busy(c, runtime@, id@));
                            return Err(String::from_str("Stop this project before deleting it"));
                        }
                    },
                    None => {},
                }
                j = j + 1;
            }
        },
        None => {},
    }
    let mut next = config.clone();
    let removed = match next.projects.remove(id) {
        Some(project) => project.command_ids,
        None => Vec::new(),
    };
    assert(removed.deep_view() =~= listed_ids(c, id@));
    remove_commands(&mut next.commands, &removed);
    prune_groups(&mut next.groups, TargetKind::Project, id, &removed);
    Ok(next)
}

/// The lists hold the same targets in the same order.
fn same_targets(a: &Vec<TargetRef>, b: &Vec<TargetRef>) -> (r: bool)
    ensures
        r == (targets_view(a@) == targets_view(b@)),
{
    if a.len() != b.len() {
        assert(targets_view(a@).len() != targets_view(b@).len());
        return false;
    }
    let n = a.len();
    let mut i: usize = 0;
    while i < n
        invariant
            n == a@.len(),
            n == b@.len(),
            i <= n,
            forall|j: int| 0 <= j < i ==> (#[trigger] a@[j])@ == b@[j]@,
        decreases n - i,
    {
        if !(a[i].kind == b[i].kind && a[i].id == b[i].id) {
            assert(targets_view(a@)[i as int] != targets_view(b@)[i as int]);
            return false;
        }
        i = i + 1;
    }
    assert(targets_view(a@) =~= targets_view(b@));
    true
}

pub open spec fn busy_group_change_message() -> Seq<char> {
    "Stop this group before changing its targets"@
}

pub open spec fn busy_group_delete_message() -> Seq<char> {
    "Stop this group before deleting it"@
}

/// Saving would change the targets of a stored group.
pub open spec fn group_targets_change(c: ConfigView, g: GroupView) -> bool {
    c.groups.contains_key(g.id) && c.groups[g.id].targets != g.targets
}

/// Saves a group in place of what was stored under its id. Refused while
/// its targets would change and a command that it stands for can be stopped.
pub fn save_group(config: &Config, runtime: &RuntimeManager, group: Group) -> (r: Result<Config, String>)
    requires
        target_exists(config@, group_node(group@.id)) ==> reachable_targets_exist(config@, group_node(group@.id)),
    ensures
        ({
            let c = config@;
            let t = group_node(group@.id);
            &&& (!group_targets_change(c, group@) ==> r is Ok)
            &&& (group_targets_change(c, group@) ==> {
                &&& crate::graph::cycle_reachable(c, t) ==> (r matches Err(m) && m@ == resolve_cycle_message())
                &&& !crate::graph::cycle_reachable(c, t) ==> (r is Ok <==> !any_stoppable(c, runtime@, resolved_ids(c, t)))
                &&& !crate::graph::cycle_reachable(c, t) ==> (r matches Err(m) ==> m@ == busy_group_change_message())
            })
            &&& (r matches Ok(next) ==> next@ == ConfigView { groups: c.groups.insert(group@.id, group@), ..c })
        }),
{
    let changed = match config.groups.get(&group.id) {
        Some(existing) => !same_targets(&existing.targets, &group.targets),
        None => false,
    };
    if changed {
        let target = TargetRef { kind: TargetKind::Group, id: group.id.clone() };
        match target_is_stoppable(config, runtime, &target) {
            Ok(true) => {
                return Err(String::from_str("Stop this group before changing its targets"));
            },
            Ok(false) => {},
            Err(m) => {
                return Err(m);
            },
        }
    }
    let mut next = config.clone();
    let key = group.id.clone();
    next.groups.insert(key, group);
    Ok(next)
}

/// Deletes a group and takes the targets that named it out of every other
/// group. Refused while a command that it stands for can be stopped.
pub fn delete_group(config: &Config, runtime: &RuntimeManager, id: &String) -> (r: Result<Config, String>)
    requires
        target_exists(config@, group_node(id@)) ==> reachable_targets_exist(config@, group_node(id@)),
    ensures
        ({
            let c = config@;
            let t = group_node(id@);
            &&& (!c.groups.contains_key(id@) ==> r is Ok)
            &&& (c.groups.contains_key(id@) ==> {
                &&& crate::graph::cycle_reachable(c, t) ==> (r matches Err(m) && m@ == resolve_cycle_message())
                &&& !crate::graph::cycle_reachable(c, t) ==> (r is Ok <==> !any_stoppable(c, runtime@, resolved_ids(c, t)))
                &&& !crate::graph::cycle_reachable(c, t) ==> (r matches Err(m) ==> m@ == busy_group_delete_message())
            })
            &&& (r matches Ok(next) ==> {
                &&& next@.schema_version == c.schema_version
                &&& next@.projects == c.projects
                &&& next@.commands == c.commands
                &&& next@.groups.dom() == c.groups.remove(id@).dom()
                &&& forall|k: Seq<char>| #[trigger] next@.groups.contains_key(k) ==> next@.groups[k]
                    == pruned_group(c.groups[k], TargetKind::Group, id@, Seq::empty())
            })
        }),
{
    if config.groups.contains_key(id) {
        let target = TargetRef { kind: TargetKind::Group, id: id.clone() };
        match target_is_stoppable(config, runtime, &target) {
            Ok(true) => {
                return Err(String::from_str("Stop this group before deleting it"));
            },
            Ok(false) => {},
            Err(m) => {
                return Err(m);
            },
        }
    }
    let mut next = config.clone();
    next.groups.remove(id);
    let none: Vec<String> = Vec::new();
    assert(none.deep_view() =~= Seq::<Seq<char>>::empty());
    prune_groups(&mut next.groups, TargetKind::Group, id, &none);
    Ok(next)
}

} // verus!

verus! {

/// The first command of the list with the id is the one at the first
/// position that has it, and there is none when no position has it.
proof fn lemma_first_with_id(cmds: Seq<CommandView>, id: Seq<char>, i: int)
    requires
        0 <= i <= cmds.len(),
        forall|a: int| 0 <= a < i ==> (#[trigger] cmds[a]).id != id,
        i < cmds.len() ==> cmds[i].id == id,
    ensures
        first_with_id(cmds, id) == if i < cmds.len() {
            Some(cmds[i])
        } else {
            None
        },
    decreases cmds.len(),
{
    if cmds.len() > 0 && i > 0 {
        assert forall|a: int| 0 <= a < i - 1 implies (#[trigger] cmds.drop_first()[a]).id != id by {
            assert(cmds.drop_first()[a] == cmds[a + 1]);
        }
        lemma_first_with_id(cmds.drop_first(), id, i - 1);
    }
}

/// The first position of the list whose command has the id, or the length
/// of the list when none has.
proof fn first_position(cmds: Seq<CommandView>, id: Seq<char>) -> (i: int)
    ensures
        0 <= i <= cmds.len(),
        forall|a: int| 0 <= a < i ==> (#[trigger] cmds[a]).id != id,
        i < cmds.len() ==> cmds[i].id == id,
        i == cmds.len() ==> forall|a: int| 0 <= a < cmds.len() ==> (#[trigger] cmds[a]).id != id,
    decreases cmds.len(),
{
    if cmds.len() == 0 {
        0
    } else if cmds[0].id == id {
        0
    } else {
        let k = first_position(cmds.drop_first(), id);
        assert forall|a: int| 0 <= a < k + 1 implies (#[trigger] cmds[a]).id != id by {
            if a > 0 {
                assert(cmds[a] == cmds.drop_first()[a - 1]);
            }
        }
        if k == cmds.len() - 1 {
            assert forall|a: int| 0 <= a < cmds.len() implies (#[trigger] cmds[a]).id != id by {
                if a > 0 {
                    assert(cmds[a] == cmds.drop_first()[a - 1]);
                }
            }
        } else {
            assert(cmds[k + 1] == cmds.drop_first()[k]);
        }
        k + 1
    }
}

/// Saving would change how the command `id`, stored as `old`, runs or where:
/// the folder moves, no saved command has its id, or the first one that has
/// it runs another shell command, in another working directory, or with
/// another stop or status command.
pub open spec fn run_changed(c: ConfigView, p: ProjectView, cmds: Seq<CommandView>, id: Seq<char>, old: CommandView) -> bool {
    ||| c.projects[p.id].base_dir != p.base_dir
    ||| forall|i: int| 0 <= i < cmds.len() ==> (#[trigger] cmds[i]).id != id
    ||| exists|i: int|
        0 <= i < cmds.len() && (#[trigger] cmds[i]).id == id && (forall|a: int| 0 <= a < i ==> (#[trigger] cmds[a]).id != id)
            && {
            ||| cmds[i].command != old.command
            ||| cmds[i].cwd != old.cwd
            ||| cmds[i].stop_command != old.stop_command
            ||| cmds[i].status_command != old.status_command
        }
}

proof fn lemma_blocks_save_means(c: ConfigView, rt: RuntimeView, p: ProjectView, cmds: Seq<CommandView>, id: Seq<char>)
    requires
        c.projects.contains_key(p.id),
    ensures
        blocks_save(c, rt, p, cmds, id) <==> c.commands.contains_key(id) && stoppable(rt, c.commands[id])
            && run_changed(c, p, cmds, id, c.commands[id]),
{
    let i = first_position(cmds, id);
    lemma_first_with_id(cmds, id, i);
    if i < cmds.len() {
        assert forall|x: int|
            0 <= x < cmds.len() && (#[trigger] cmds[x]).id == id && (forall|a: int| 0 <= a < x ==> (#[trigger] cmds[a]).id != id)
                implies x == i by {
            if x < i {
                assert(cmds[x].id != id);
            } else if i < x {
                assert(cmds[i].id != id);
            }
        }
    }
}

/// Saving a project is refused exactly when some command that the stored
/// project lists is stored, can be stopped, and the save would move the
/// project's folder, drop the command, or give the first saved command with
/// its id another shell command, working directory, stop command or status
/// command (`run_changed`).
pub proof fn lemma_save_blocked_means(c: ConfigView, rt: RuntimeView, p: ProjectView, cmds: Seq<CommandView>)
    requires
        c.projects.contains_key(p.id),
    ensures
        save_blocked(c, rt, p, cmds) <==> exists|j: int|
            0 <= j < c.projects[p.id].command_ids.len() && c.commands.contains_key(
                #[trigger] c.projects[p.id].command_ids[j],
            ) && stoppable(rt, c.commands[c.projects[p.id].command_ids[j]]) && run_changed(
                c,
                p,
                cmds,
                c.projects[p.id].command_ids[j],
                c.commands[c.projects[p.id].command_ids[j]],
            ),
{
    let ids = c.projects[p.id].command_ids;
    assert forall|j: int| 0 <= j < ids.len() implies (blocks_save(c, rt, p, cmds, #[trigger] ids[j])
        <==> c.commands.contains_key(ids[j]) && stoppable(rt, c.commands[ids[j]]) && run_changed(
        c,
        p,
        cmds,
        ids[j],
        c.commands[ids[j]],
    )) by {
        lemma_blocks_save_means(c, rt, p, cmds, ids[j]);
    }
}

/// The targets that pruning keeps are those of the list that name neither
/// the deleted target nor one of the removed commands.
proof fn lemma_retained_contains(ts: Seq<TargetView>, kind: TargetKind, id: Seq<char>, removed: Seq<Seq<char>>, t: TargetView)
    ensures
        retained(ts, kind, id, removed).contains(t) <==> ts.contains(t) && !(t.kind == kind && t.id == id) && !(
        t.kind == TargetKind::Command && removed.contains(t.id)),
    decreases ts.len(),
{
    if ts.len() > 0 {
        let rest = ts.drop_last();
        lemma_retained_contains(rest, kind, id, removed, t);
        assert(ts =~= rest.push(ts.last()));
        if ts.contains(t) && t != ts.last() {
            let a = choose|a: int| 0 <= a < ts.len() && ts[a] == t;
            assert(rest[a] == t);
        }
        if rest.contains(t) {
            let a = choose|a: int| 0 <= a < rest.len() && rest[a] == t;
            assert(ts[a] == t);
        }
        let r = retained(rest, kind, id, removed);
        if !dropped(ts.last(), kind, id, removed) {
            if r.push(ts.last()).contains(t) && t != ts.last() {
                let a = choose|a: int| 0 <= a < r.push(ts.last()).len() && r.push(ts.last())[a] == t;
                assert(r[a] == t);
            }
            if r.contains(t) {
                let a = choose|a: int| 0 <= a < r.len() && r[a] == t;
                assert(r.push(ts.last())[a] == t);
            }
            assert(r.push(ts.last())[r.len() as int] == ts.last());
        }
    }
}

/// After a project is deleted, every group is still there, and a group
/// holds exactly its former targets other than the project itself and the
/// commands that the project listed.
pub proof fn lemma_deleted_project_targets(c: ConfigView, id: Seq<char>, g: Map<Seq<char>, GroupView>)
    requires
        deleted_project_config(c, id, g),
    ensures
        g.dom() == c.groups.dom(),
        forall|k: Seq<char>, t: TargetView|
            #[trigger] g.contains_key(k) ==> (#[trigger] g[k].targets.contains(t) <==> c.groups[k].targets.contains(t)
                && !(t.kind == TargetKind::Project && t.id == id) && !(t.kind == TargetKind::Command
                && c.projects.contains_key(id) && c.projects[id].command_ids.contains(t.id))),
{
    assert forall|k: Seq<char>, t: TargetView|
        #[trigger] g.contains_key(k) implies (#[trigger] g[k].targets.contains(t) <==> c.groups[k].targets.contains(t)
            && !(t.kind == TargetKind::Project && t.id == id) && !(t.kind == TargetKind::Command
            && c.projects.contains_key(id) && c.projects[id].command_ids.contains(t.id))) by {
        lemma_retained_contains(c.groups[k].targets, TargetKind::Project, id, listed_ids(c, id), t);
    }
}

/// A group whose stored targets differ from the saved ones, in length or
/// at any position, counts as changed; one whose targets are the same does
/// not.
pub proof fn lemma_group_targets_change_means(c: ConfigView, g: GroupView)
    requires
        c.groups.contains_key(g.id),
    ensures
        group_targets_change(c, g) <==> (c.groups[g.id].targets.len() != g.targets.len() || exists|i: int|
            0 <= i < g.targets.len() && #[trigger] c.groups[g.id].targets[i] != g.targets[i]),
{
    let a = c.groups[g.id].targets;
    if a.len() == g.targets.len() && !(exists|i: int| 0 <= i < g.targets.len() && #[trigger] a[i] != g.targets[i]) {
        assert(a =~= g.targets);
    }
}

/// Storing a list of commands under their ids keeps the stored keys and
/// adds those of the list.
proof fn lemma_with_commands_keys(m: Map<Seq<char>, CommandView>, cmds: Seq<CommandView>, k: Seq<char>)
    ensures
        with_commands(m, cmds).contains_key(k) <==> m.contains_key(k) || exists|i: int|
            0 <= i < cmds.len() && (#[trigger] cmds[i]).id == k,
    decreases cmds.len(),
{
    if cmds.len() > 0 {
        let rest = cmds.drop_last();
        lemma_with_commands_keys(m, rest, k);
        if exists|i: int| 0 <= i < rest.len() && (#[trigger] rest[i]).id == k {
            let i = choose|i: int| 0 <= i < rest.len() && (#[trigger] rest[i]).id == k;
            assert(cmds[i] == rest[i]);
        }
        if exists|i: int| 0 <= i < cmds.len() && (#[trigger] cmds[i]).id == k {
            let i = choose|i: int| 0 <= i < cmds.len() && (#[trigger] cmds[i]).id == k;
            if i < rest.len() {
                assert(rest[i] == cmds[i]);
            }
        }
    }
}

/// The last command of the list with a key is the one stored under it.
proof fn lemma_with_commands_last(m: Map<Seq<char>, CommandView>, cmds: Seq<CommandView>, i: int)
    requires
        0 <= i < cmds.len(),
        forall|a: int| i < a < cmds.len() ==> (#[trigger] cmds[a]).id != cmds[i].id,
    ensures
        with_commands(m, cmds)[cmds[i].id] == cmds[i],
    decreases cmds.len(),
{
    let rest = cmds.drop_last();
    if i < rest.len() {
        assert(rest[i] == cmds[i]);
        assert forall|a: int| i < a < rest.len() implies (#[trigger] rest[a]).id != rest[i].id by {
            assert(rest[a] == cmds[a]);
        }
        assert(cmds[cmds.len() - 1].id != cmds[i].id);
        lemma_with_commands_last(m, rest, i);
    }
}

/// A key that no command of the list has keeps its command.
proof fn lemma_with_commands_other(m: Map<Seq<char>, CommandView>, cmds: Seq<CommandView>, k: Seq<char>)
    requires
        forall|i: int| 0 <= i < cmds.len() ==> (#[trigger] cmds[i]).id != k,
    ensures
        with_commands(m, cmds)[k] == m[k],
    decreases cmds.len(),
{
    if cmds.len() > 0 {
        let rest = cmds.drop_last();
        assert forall|i: int| 0 <= i < rest.len() implies (#[trigger] rest[i]).id != k by {
            assert(rest[i] == cmds[i]);
        }
        assert(cmds[cmds.len() - 1].id != k);
        lemma_with_commands_other(m, rest, k);
    }
}

/// What saving a project stores: the project with the ids of the saved
/// commands, in order, as its list; the saved commands under their ids, the
/// last one winning; the commands that the project listed before dropped
/// unless saved again; everything else as it was.
pub proof fn lemma_saved_project_means(c: ConfigView, p: ProjectView, cmds: Seq<CommandView>)
    ensures
        ({
            let n = saved_project_config(c, p, cmds);
            let was_listed = |k: Seq<char>| c.projects.contains_key(p.id) && c.projects[p.id].command_ids.contains(k);
            &&& n.schema_version == c.schema_version
            &&& n.groups == c.groups
            &&& n.projects.dom() == c.projects.dom().insert(p.id)
            &&& n.projects[p.id].id == p.id
            &&& n.projects[p.id].name == p.name
            &&& n.projects[p.id].base_dir == p.base_dir
            &&& n.projects[p.id].command_ids.len() == cmds.len()
            &&& forall|i: int| 0 <= i < cmds.len() ==> n.projects[p.id].command_ids[i] == (#[trigger] cmds[i]).id
            &&& forall|k: Seq<char>| k != p.id && #[trigger] c.projects.contains_key(k) ==> n.projects[k] == c.projects[k]
            &&& forall|k: Seq<char>|
                #[trigger] n.commands.contains_key(k) <==> (exists|i: int| 0 <= i < cmds.len() && (#[trigger] cmds[i]).id == k)
                    || (c.commands.contains_key(k) && !was_listed(k))
            &&& forall|i: int|
                0 <= i < cmds.len() && (forall|a: int| i < a < cmds.len() ==> (#[trigger] cmds[a]).id != cmds[i].id)
                    ==> n.commands[#[trigger] cmds[i].id] == cmds[i]
            &&& forall|k: Seq<char>|
                c.commands.contains_key(k) && !was_listed(k) && (forall|i: int| 0 <= i < cmds.len() ==> (#[trigger] cmds[i]).id != k)
                    ==> #[trigger] n.commands[k] == c.commands[k]
        }),
{
    let base = c.commands.remove_keys(listed_ids(c, p.id).to_set());
    let n = saved_project_config(c, p, cmds);
    assert forall|k: Seq<char>| #[trigger] base.contains_key(k) <==> c.commands.contains_key(k) && !(c.projects.contains_key(p.id)
        && c.projects[p.id].command_ids.contains(k)) by {}
    assert forall|k: Seq<char>| #[trigger] n.commands.contains_key(k) <==> (exists|i: int| 0 <= i < cmds.len() && (#[trigger] cmds[i]).id == k)
        || (c.commands.contains_key(k) && !(c.projects.contains_key(p.id) && c.projects[p.id].command_ids.contains(k))) by {
        lemma_with_commands_keys(base, cmds, k);
    }
    assert forall|i: int|
        0 <= i < cmds.len() && (forall|a: int| i < a < cmds.len() ==> (#[trigger] cmds[a]).id != cmds[i].id)
            implies n.commands[#[trigger] cmds[i].id] == cmds[i] by {
        lemma_with_commands_last(base, cmds, i);
    }
    assert forall|k: Seq<char>|
        c.commands.contains_key(k) && !(c.projects.contains_key(p.id) && c.projects[p.id].command_ids.contains(k)) && (forall|i: int|
            0 <= i < cmds.len() ==> (#[trigger] cmds[i]).id != k) implies #[trigger] n.commands[k] == c.commands[k] by {
        lemma_with_commands_other(base, cmds, k);
    }
}

/// After a group is deleted, a group holds exactly its former targets other
/// than the deleted group.
pub proof fn lemma_deleted_group_targets(g: GroupView, id: Seq<char>, t: TargetView)
    ensures
        pruned_group(g, TargetKind::Group, id, Seq::empty()).targets.contains(t) <==> g.targets.contains(t) && !(t.kind
            == TargetKind::Group && t.id == id),
        pruned_group(g, TargetKind::Group, id, Seq::empty()).id == g.id,
        pruned_group(g, TargetKind::Group, id, Seq::empty()).name == g.name,
{
    lemma_retained_contains(g.targets, TargetKind::Group, id, Seq::empty(), t);
}

} // verus!
