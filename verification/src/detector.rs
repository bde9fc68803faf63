//! Suggestions of commands for a project folder: the scripts of its
//! `package.json`, run with the package manager whose lock file is present,
//! and its Docker Compose files.
use vstd::prelude::*;
use vstd::relations::sorted_by;
use crate::text::{is_absolute, is_absolute_path, lemma_text_order_total, text_le, text_le_of, text_order};

verus! {

/// The name of what parsing a byte string as JSON with
/// `serde_json::from_slice` into a `serde_json::Value` gives: `None` when it
/// parses, else the message of the error (its `Display`).
pub uninterp spec fn json_error_at(bytes: Seq<u8>) -> Option<Seq<char>>;

/// The name of the keys of the object that the member `key` of the JSON
/// document `bytes` holds: `None` when the bytes do not parse, the document
/// has no such member, or the member is not an object.
pub uninterp spec fn json_object_keys_at(bytes: Seq<u8>, key: Seq<char>) -> Option<Seq<Seq<char>>>;

/// `serde_json::from_slice` into a `serde_json::Value`, keeping only the
/// message of the error. serde_json refuses some JSON, such as documents
/// nested more than 128 levels deep; the contract claims no more than that
/// the outcome is a function of the bytes.
#[verifier::external_body]
fn json_error(bytes: &[u8]) -> (r: Option<String>)
    ensures
        r.deep_view() == json_error_at(bytes@),
{
    match serde_json::from_slice::<serde_json::Value>(bytes) {
        Ok(_) => None,
        Err(error) => Some(error.to_string()),
    }
}

/// `serde_json::from_slice` into a `serde_json::Value`, then `Value::get`
/// with `key`, `Value::as_object` and the keys of that `Map`. Claimed: the
/// outcome is a function of the bytes and the key, and the keys of a `Map`
/// (a `BTreeMap` of serde_json) occur once each.
#[verifier::external_body]
fn object_keys_at(bytes: &[u8], key: &str) -> (r: Option<Vec<String>>)
    ensures
        r.deep_view() == json_object_keys_at(bytes@, key@),
        r matches Some(v) ==> v.deep_view().no_duplicates(),
{
    let value: serde_json::Value = serde_json::from_slice(bytes).ok()?;
    let object = value.get(key)?.as_object()?;
    Some(object.keys().cloned().collect())
}

/// The script names that a `package.json` with these bytes holds, as a
/// multiset: the keys of its `scripts` object, none without one.
pub open spec fn script_names(bytes: Seq<u8>) -> vstd::multiset::Multiset<Seq<char>> {
    match json_object_keys_at(bytes, "scripts"@) {
        Some(keys) => keys.to_multiset(),
        None => vstd::multiset::Multiset::empty(),
    }
}

/// A command that the folder suggests.
#[derive(Debug)]
pub struct CommandSuggestion {
    pub name: String,
    pub command: String,
    pub cwd: String,
    pub source: String,
    pub stop_command: Option<String>,
    pub status_command: Option<String>,
}

/// The value of a suggestion.
pub struct SuggestionView {
    pub name: Seq<char>,
    pub command: Seq<char>,
    pub cwd: Seq<char>,
    pub source: Seq<char>,
    pub stop_command: Option<Seq<char>>,
    pub status_command: Option<Seq<char>>,
}

impl View for CommandSuggestion {
    type V = SuggestionView;

    open spec fn view(&self) -> SuggestionView {
        SuggestionView {
            name: self.name@,
            command: self.command@,
            cwd: self.cwd@,
            source: self.source@,
            stop_command: self.stop_command.deep_view(),
            status_command: self.status_command.deep_view(),
        }
    }
}

/// The values of a list of suggestions.
pub open spec fn suggestions_view(s: Seq<CommandSuggestion>) -> Seq<SuggestionView> {
    s.map_values(|x: CommandSuggestion| x@)
}

/// What the folder holds, as far as the suggestions depend on it.
pub struct FolderFacts {
    /// The folder exists.
    pub is_dir: bool,
    /// The bytes of `package.json`, or why it could not be read; `None` when
    /// there is no such file.
    pub package_json: Option<Result<Vec<u8>, String>>,
    pub pnpm_lock: bool,
    pub yarn_lock: bool,
    pub bun_lock: bool,
    pub bun_lockb: bool,
    pub compose_yaml: bool,
    pub compose_yml: bool,
    pub docker_compose_yaml: bool,
    pub docker_compose_yml: bool,
}

/// The package manager whose lock file is present, `npm` when none is.
pub open spec fn manager_name(pnpm_lock: bool, yarn_lock: bool, bun_lock: bool, bun_lockb: bool) -> Seq<char> {
    if pnpm_lock {
        "pnpm"@
    } else if yarn_lock {
        "yarn"@
    } else if bun_lock || bun_lockb {
        "bun"@
    } else {
        "npm"@
    }
}

/// The package manager whose lock file is present: pnpm, yarn, bun (either
/// lock file), else npm.
pub fn package_manager(pnpm_lock: bool, yarn_lock: bool, bun_lock: bool, bun_lockb: bool) -> (r: &'static str)
    ensures
        r@ == manager_name(pnpm_lock, yarn_lock, bun_lock, bun_lockb),
{
    if pnpm_lock {
        "pnpm"
    } else if yarn_lock {
        "yarn"
    } else if bun_lock || bun_lockb {
        "bun"
    } else {
        "npm"
    }
}

/// The suggestion to run a `package.json` script with the package manager.
pub open spec fn script_suggestion(manager: Seq<char>, name: Seq<char>) -> SuggestionView {
    SuggestionView {
        name,
        command: manager + " run "@ + name,
        cwd: "."@,
        source: "package.json"@,
        stop_command: None,
        status_command: None,
    }
}

/// The suggestion to bring a Docker Compose file up, and down to stop it.
pub open spec fn compose_suggestion(file: Seq<char>) -> SuggestionView {
    SuggestionView {
        name: "Docker ("@ + file + ")"@,
        command: "docker compose -f "@ + file + " up"@,
        cwd: "."@,
        source: "Docker Compose"@,
        stop_command: Some("docker compose -f "@ + file + " down"@),
        status_command: None,
    }
}

/// The Compose files the folder holds, in the order they are looked for.
pub open spec fn compose_files(f: FolderFacts) -> Seq<Seq<char>> {
    (if f.compose_yaml { seq!["compose.yaml"@] } else { Seq::empty() })
        + (if f.compose_yml { seq!["compose.yml"@] } else { Seq::empty() })
        + (if f.docker_compose_yaml { seq!["docker-compose.yaml"@] } else { Seq::empty() })
        + (if f.docker_compose_yml { seq!["docker-compose.yml"@] } else { Seq::empty() })
}

/// The names, in order.
pub fn sorted_names(names: Vec<String>) -> (r: Vec<String>)
    ensures
        sorted_by(r.deep_view(), text_order()),
        r.deep_view().to_multiset() == names.deep_view().to_multiset(),
{
    broadcast use vstd::seq_lib::group_to_multiset_ensures;

    proof {
        lemma_text_order_total();
    }
    let n = names.len();
    let mut r: Vec<String> = Vec::new();
    let mut i: usize = 0;
    while i < n
        invariant
            n == names@.len(),
            i <= n,
            vstd::relations::total_ordering(text_order()),
            sorted_by(r.deep_view(), text_order()),
            r.deep_view().to_multiset() == names.deep_view().take(i as int).to_multiset(),
        decreases n - i,
    {
        let name = names[i].clone();
        let m = r.len();
        let mut p: usize = 0;
        loop
            invariant
                m == r@.len(),
                p <= m,
                forall|j: int| 0 <= j < p ==> text_le(r.deep_view()[j], name@),
            ensures
                p <= m,
                forall|j: int| 0 <= j < p ==> text_le(r.deep_view()[j], name@),
                p < m ==> !text_le(r.deep_view()[p as int], name@),
            decreases m - p,
        {
            if p == m {
                break;
            }
            if !text_le_of(r[p].as_str(), name.as_str()) {
                break;
            }
            p = p + 1;
        }
        let ghost before = r.deep_view();
        let ghost x = name@;
        assert(x == names.deep_view()[i as int]);
        r.insert(p, name);
        proof {
            let after = r.deep_view();
            assert(after =~= before.insert(p as int, x));
            assert(after.remove(p as int) =~= before);
            after.to_multiset_ensures();
            before.to_multiset_ensures();
            assert(after.remove(p as int).to_multiset() =~= after.to_multiset().remove(after[p as int]));
            assert(after[p as int] == x);
            assert(after.contains(x));
            assert(after.to_multiset().count(x) > 0);
            assert forall|v: Seq<char>| #[trigger] after.to_multiset().count(v) == before.to_multiset().insert(x).count(v) by {
                if v == x {
                    assert(after.to_multiset().remove(x).count(x) == after.to_multiset().count(x) - 1);
                } else {
                    assert(after.to_multiset().remove(x).count(v) == after.to_multiset().count(v));
                }
            }
            assert(after.to_multiset() =~= before.to_multiset().insert(x));
            assert(names.deep_view().take(i + 1) =~= names.deep_view().take(i as int).push(x));
            names.deep_view().take(i as int).to_multiset_ensures();
            assert forall|a: int, b: int| 0 <= a < b < after.len() implies #[trigger] text_order()(after[a], after[b]) by {
                if b < p {
                    assert(text_order()(before[a], before[b]));
                } else if b == p {
                    assert(text_le(before[a], x));
                } else if a == p {
                    lemma_text_le_total_use(before[p as int], x);
                    if b - 1 > p {
                        assert(text_order()(before[p as int], before[b - 1]));
                        crate::text::lemma_text_le_transitive(x, before[p as int], before[b - 1]);
                    }
                } else if a < p {
                    assert(text_order()(before[a], before[b - 1]));
                } else {
                    assert(text_order()(before[a - 1], before[b - 1]));
                }
            }
        }
        i = i + 1;
    }
    assert(names.deep_view().take(n as int) =~= names.deep_view());
    r
}

proof fn lemma_text_le_total_use(a: Seq<char>, b: Seq<char>)
    requires
        !text_le(a, b),
    ensures
        text_le(b, a),
{
    crate::text::lemma_text_le_total(a, b);
}

/// The suggestions for the scripts of a `package.json`, by name in order,
/// each run with the package manager.
pub fn script_suggestions(manager: &str, names: Vec<String>) -> (r: Vec<CommandSuggestion>)
    ensures
        r@.len() == names@.len(),
        sorted_by(suggestions_view(r@).map_values(|s: SuggestionView| s.name), text_order()),
        suggestions_view(r@).map_values(|s: SuggestionView| s.name).to_multiset() == names.deep_view().to_multiset(),
        forall|i: int| 0 <= i < r@.len() ==> (#[trigger] r@[i])@ == script_suggestion(manager@, r@[i]@.name),
{
    broadcast use vstd::seq_lib::group_to_multiset_ensures;

    let sorted = sorted_names(names);
    let n = sorted.len();
    let mut r: Vec<CommandSuggestion> = Vec::new();
    let mut i: usize = 0;
    while i < n
        invariant
            n == sorted@.len(),
            i <= n,
            r@.len() == i,
            forall|j: int| 0 <= j < i ==> (#[trigger] r@[j])@ == script_suggestion(manager@, sorted.deep_view()[j]),
        decreases n - i,
    {
        let name = &sorted[i];
        let mut command = String::from_str(manager);
        command.append(" run ");
        command.append(name.as_str());
        r.push(CommandSuggestion {
            name: name.clone(),
            command,
            cwd: String::from_str("."),
            source: String::from_str("package.json"),
            stop_command: None,
            status_command: None,
        });
        i = i + 1;
    }
    assert(suggestions_view(r@).map_values(|s: SuggestionView| s.name) =~= sorted.deep_view());
    assert(sorted.deep_view().to_multiset().len() == names.deep_view().to_multiset().len());
    r
}

fn compose_suggestion_for(file: &str) -> (r: CommandSuggestion)
    ensures
        r@ == compose_suggestion(file@),
{
    let mut name = String::from_str("Docker (");
    name.append(file);
    name.append(")");
    let mut command = String::from_str("docker compose -f ");
    command.append(file);
    command.append(" up");
    let mut stop = String::from_str("docker compose -f ");
    stop.append(file);
    stop.append(" down");
    CommandSuggestion {
        name,
        command,
        cwd: String::from_str("."),
        source: String::from_str("Docker Compose"),
        stop_command: Some(stop),
        status_command: None,
    }
}

/// The suggestions for the Docker Compose files of the folder.
pub fn compose_suggestions(facts: &FolderFacts) -> (r: Vec<CommandSuggestion>)
    ensures
        suggestions_view(r@) == compose_files(*facts).map_values(|f: Seq<char>| compose_suggestion(f)),
{
    let mut r: Vec<CommandSuggestion> = Vec::new();
    let ghost mut files: Seq<Seq<char>> = Seq::empty();
    if facts.compose_yaml {
        r.push(compose_suggestion_for("compose.yaml"));
        proof { files = files.push("compose.yaml"@); }
    }
    assert(files =~= (if facts.compose_yaml { seq!["compose.yaml"@] } else { Seq::<Seq<char>>::empty() }));
    if facts.compose_yml {
        r.push(compose_suggestion_for("compose.yml"));
        proof { files = files.push("compose.yml"@); }
    }
    if facts.docker_compose_yaml {
        r.push(compose_suggestion_for("docker-compose.yaml"));
        proof { files = files.push("docker-compose.yaml"@); }
    }
    if facts.docker_compose_yml {
        r.push(compose_suggestion_for("docker-compose.yml"));
        proof { files = files.push("docker-compose.yml"@); }
    }
    assert(files =~= compose_files(*facts));
    assert(suggestions_view(r@) =~= files.map_values(|f: Seq<char>| compose_suggestion(f)));
    r
}

/// The first `k` suggestions run `package.json` scripts with the package
/// manager, in order of name; the rest are those of the Compose files.
pub open spec fn detected(facts: FolderFacts, v: Seq<SuggestionView>, k: int) -> bool {
    &&& 0 <= k <= v.len()
    &&& v.skip(k) == compose_files(facts).map_values(|f: Seq<char>| compose_suggestion(f))
    &&& (facts.package_json is None ==> k == 0)
    &&& sorted_by(v.take(k).map_values(|x: SuggestionView| x.name), text_order())
    &&& forall|i: int| 0 <= i < k ==> (#[trigger] v[i]) == script_suggestion(
        manager_name(facts.pnpm_lock, facts.yarn_lock, facts.bun_lock, facts.bun_lockb),
        v[i].name,
    )
}

pub open spec fn folder_message() -> Seq<char> {
    "Choose an existing project folder"@
}

pub open spec fn invalid_package_prefix() -> Seq<char> {
    "Invalid package.json: "@
}

/// The suggestions for a project folder: its `package.json` scripts, in
/// order of name, then its Compose files. Fails when the folder is not an
/// absolute path to an existing folder, when `package.json` cannot be read,
/// and when it is not JSON.
pub fn detect(base_dir: &str, facts: FolderFacts) -> (r: Result<Vec<CommandSuggestion>, String>)
    ensures
        !(is_absolute_path(base_dir@) && facts.is_dir) ==> (r matches Err(m) && m@ == folder_message()),
        is_absolute_path(base_dir@) && facts.is_dir ==> match facts.package_json {
            Some(Err(e)) => r matches Err(m) && m@ == e@,
            Some(Ok(bytes)) => match json_error_at(bytes@) {
                None => r matches Ok(s) && exists|k: int|
                    #[trigger] detected(facts, suggestions_view(s@), k) && suggestions_view(s@).take(k).map_values(
                        |x: SuggestionView| x.name,
                    ).to_multiset() == script_names(bytes@),
                Some(e) => r matches Err(m) && m@ == invalid_package_prefix() + e,
            },
            None => r matches Ok(s) && exists|k: int| #[trigger] detected(facts, suggestions_view(s@), k),
        },
{
    broadcast use vstd::seq_lib::group_to_multiset_ensures;

    if !(is_absolute(base_dir) && facts.is_dir) {
        return Err(String::from_str("Choose an existing project folder"));
    }
    let mut suggestions: Vec<CommandSuggestion> = Vec::new();
    let manager = package_manager(facts.pnpm_lock, facts.yarn_lock, facts.bun_lock, facts.bun_lockb);
    let ghost mut expected = vstd::multiset::Multiset::<Seq<char>>::empty();
    match &facts.package_json {
        Some(Err(e)) => {
            return Err(e.clone());
        },
        Some(Ok(bytes)) => {
            match json_error(bytes.as_slice()) {
                Some(e) => {
                    let mut m = String::from_str("Invalid package.json: ");
                    m.append(e.as_str());
                    return Err(m);
                },
                None => {},
            }
            match object_keys_at(bytes.as_slice(), "scripts") {
                Some(names) => {
                    suggestions = script_suggestions(manager, names);
                    proof {
                        expected = script_names(bytes@);
                    }
                    assert(suggestions_view(suggestions@).map_values(|x: SuggestionView| x.name).to_multiset()
                        == expected);
                },
                None => {
                    assert(suggestions_view(suggestions@).map_values(|x: SuggestionView| x.name)
                        =~= Seq::<Seq<char>>::empty());
                    assert(script_names(bytes@) =~= vstd::multiset::Multiset::empty());
                    proof {
                        expected = script_names(bytes@);
                    }
                },
            }
        },
        None => {
            assert(suggestions_view(suggestions@).map_values(|x: SuggestionView| x.name)
                =~= Seq::<Seq<char>>::empty());
        },
    }
    assert(suggestions_view(suggestions@).map_values(|x: SuggestionView| x.name).to_multiset() == expected);
    assert(facts.package_json matches Some(Ok(b)) ==> expected == script_names(b@));
    let ghost k = suggestions@.len() as int;
    let ghost scripts = suggestions_view(suggestions@);
    let mut compose = compose_suggestions(&facts);
    suggestions.append(&mut compose);
    proof {
        let v = suggestions_view(suggestions@);
        assert(v.take(k) =~= scripts);
        assert(v.skip(k) =~= compose_files(facts).map_values(|f: Seq<char>| compose_suggestion(f)));
        assert(scripts.map_values(|x: SuggestionView| x.name) =~= v.take(k).map_values(|x: SuggestionView| x.name));
        assert forall|i: int| 0 <= i < k implies (#[trigger] v[i]) == script_suggestion(
            manager_name(facts.pnpm_lock, facts.yarn_lock, facts.bun_lock, facts.bun_lockb),
            v[i].name,
        ) by {
            assert(v[i] == scripts[i]);
        }
        assert(detected(facts, v, k));
    }
    let r: Result<Vec<CommandSuggestion>, String> = Ok(suggestions);
    assert(detected(facts, suggestions_view(r->Ok_0@), k));
    assert(suggestions_view(r->Ok_0@).take(k).map_values(|x: SuggestionView| x.name) =~= scripts.map_values(
        |x: SuggestionView| x.name,
    ));
    r
}

} // verus!
