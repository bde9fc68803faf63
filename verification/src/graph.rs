//! Paths through groups: which targets a target reaches, and cycles.
use vstd::prelude::*;
use crate::model::{config_valid, group_ok, project_ok, target_exists, ConfigView, TargetKind, TargetView};

verus! {

/// The target that names the group `id`.
pub open spec fn group_node(id: Seq<char>) -> TargetView {
    TargetView { kind: TargetKind::Group, id }
}

/// `u` is one of the targets of the group `t`.
pub open spec fn edge(c: ConfigView, t: TargetView, u: TargetView) -> bool {
    &&& t.kind == TargetKind::Group
    &&& c.groups.contains_key(t.id)
    &&& c.groups[t.id].targets.contains(u)
}

/// Each target of `p` is a target of the group before it.
pub open spec fn is_path(c: ConfigView, p: Seq<TargetView>) -> bool {
    &&& p.len() > 0
    &&& forall|i: int| 0 <= i < p.len() - 1 ==> #[trigger] edge(c, p[i], p[i + 1])
}

/// `u` is `t`, or a target of `t`, or a target of such a target, and so on.
pub open spec fn reaches(c: ConfigView, t: TargetView, u: TargetView) -> bool {
    exists|p: Seq<TargetView>| #[trigger] is_path(c, p) && p[0] == t && p.last() == u
}

/// `t` is reached from itself through at least one group.
pub open spec fn on_cycle(c: ConfigView, t: TargetView) -> bool {
    exists|p: Seq<TargetView>| #[trigger] is_path(c, p) && p.len() >= 2 && p[0] == t && p.last() == t
}

} // verus!

verus! {

/// Some target reached from `t` lies on a cycle.
pub open spec fn cycle_reachable(c: ConfigView, t: TargetView) -> bool {
    exists|u: TargetView| #[trigger] reaches(c, t, u) && on_cycle(c, u)
}

/// The targets of the group `t`.
pub open spec fn children(c: ConfigView, t: TargetView) -> Seq<TargetView> {
    c.groups[t.id].targets
}

/// Every target reaches itself.
pub proof fn lemma_reaches_self(c: ConfigView, t: TargetView)
    ensures
        reaches(c, t, t),
{
    let p = seq![t];
    assert(is_path(c, p));
}

/// A path of two or more targets starts with a step to the rest of it.
pub proof fn lemma_path_tail(c: ConfigView, p: Seq<TargetView>)
    requires
        is_path(c, p),
        p.len() >= 2,
    ensures
        edge(c, p[0], p[1]),
        is_path(c, p.drop_first()),
        p.drop_first()[0] == p[1],
        p.drop_first().last() == p.last(),
{
    assert(edge(c, p[0int], p[0int + 1]));
    let q = p.drop_first();
    assert forall|i: int| 0 <= i < q.len() - 1 implies #[trigger] edge(c, q[i], q[i + 1]) by {
        assert(edge(c, p[i + 1], p[i + 1 + 1]));
    }
}

/// A target that is not a group reaches only itself.
pub proof fn lemma_leaf_reaches(c: ConfigView, t: TargetView, u: TargetView)
    requires
        t.kind != TargetKind::Group,
        reaches(c, t, u),
    ensures
        u == t,
{
    let p = choose|p: Seq<TargetView>| #[trigger] is_path(c, p) && p[0] == t && p.last() == u;
    if p.len() >= 2 {
        lemma_path_tail(c, p);
    }
}

/// What a group reaches is the group itself or what one of its targets reaches.
pub proof fn lemma_reaches_split(c: ConfigView, t: TargetView, u: TargetView)
    requires
        reaches(c, t, u),
        u != t,
    ensures
        t.kind == TargetKind::Group,
        c.groups.contains_key(t.id),
        exists|j: int|
            0 <= j < children(c, t).len() && #[trigger] reaches(c, children(c, t)[j], u),
{
    let p = choose|p: Seq<TargetView>| #[trigger] is_path(c, p) && p[0] == t && p.last() == u;
    assert(p.len() >= 2);
    lemma_path_tail(c, p);
    let j = choose|j: int| 0 <= j < children(c, t).len() && children(c, t)[j] == p[1];
    assert(reaches(c, children(c, t)[j], u));
}

/// A group reaches what its targets reach.
pub proof fn lemma_reaches_prepend(c: ConfigView, t: TargetView, v: TargetView, u: TargetView)
    requires
        edge(c, t, v),
        reaches(c, v, u),
    ensures
        reaches(c, t, u),
{
    let p = choose|p: Seq<TargetView>| #[trigger] is_path(c, p) && p[0] == v && p.last() == u;
    let q = seq![t] + p;
    assert forall|i: int| 0 <= i < q.len() - 1 implies #[trigger] edge(c, q[i], q[i + 1]) by {
        if i > 0 {
            assert(edge(c, p[i - 1], p[i - 1 + 1]));
            assert(q[i] == p[i - 1]);
            assert(q[i + 1] == p[i]);
        }
    }
    assert(is_path(c, q));
    assert(q.last() == u);
}

/// A group on a cycle is reached from one of its own targets.
pub proof fn lemma_cycle_split(c: ConfigView, t: TargetView)
    requires
        on_cycle(c, t),
    ensures
        t.kind == TargetKind::Group,
        c.groups.contains_key(t.id),
        exists|j: int|
            0 <= j < children(c, t).len() && #[trigger] reaches(c, children(c, t)[j], t),
{
    let p = choose|p: Seq<TargetView>|
        #[trigger] is_path(c, p) && p.len() >= 2 && p[0] == t && p.last() == t;
    lemma_path_tail(c, p);
    let j = choose|j: int| 0 <= j < children(c, t).len() && children(c, t)[j] == p[1];
    assert(reaches(c, children(c, t)[j], t));
}

/// What a target reaches stays reachable from a group that holds the target.
pub proof fn lemma_cycle_reachable_prepend(c: ConfigView, t: TargetView, v: TargetView)
    requires
        edge(c, t, v),
        cycle_reachable(c, v),
    ensures
        cycle_reachable(c, t),
{
    let u = choose|u: TargetView| #[trigger] reaches(c, v, u) && on_cycle(c, u);
    lemma_reaches_prepend(c, t, v, u);
}

/// A sequence without repeats, drawn from a finite set, is no longer than the set.
pub proof fn lemma_distinct_within(s: Seq<Seq<char>>, d: Set<Seq<char>>)
    requires
        s.no_duplicates(),
        d.finite(),
        forall|i: int| 0 <= i < s.len() ==> d.contains(#[trigger] s[i]),
    ensures
        s.len() <= d.len(),
{
    s.unique_seq_to_set();
    assert(s.to_set().subset_of(d));
    vstd::set_lib::lemma_len_subset(s.to_set(), d);
}

/// The groups of `stack`, each a target of the one before, end in a group
/// that holds `t`.
pub open spec fn stack_path(c: ConfigView, stack: Seq<Seq<char>>, t: TargetView) -> bool {
    &&& stack.no_duplicates()
    &&& forall|i: int| 0 <= i < stack.len() ==> c.groups.contains_key(#[trigger] stack[i])
    &&& forall|i: int|
        0 <= i < stack.len() - 1 ==> #[trigger] edge(c, group_node(stack[i]), group_node(stack[i + 1]))
    &&& stack.len() > 0 ==> edge(c, group_node(stack.last()), t)
}

/// A group that is already on the stack closes a cycle.
pub proof fn lemma_stack_cycle(c: ConfigView, stack: Seq<Seq<char>>, id: Seq<char>)
    requires
        stack_path(c, stack, group_node(id)),
        stack.contains(id),
    ensures
        on_cycle(c, group_node(id)),
{
    let k = choose|k: int| 0 <= k < stack.len() && stack[k] == id;
    let tail = stack.subrange(k, stack.len() as int);
    let p = tail.map_values(|g: Seq<char>| group_node(g)).push(group_node(id));
    assert forall|i: int| 0 <= i < p.len() - 1 implies #[trigger] edge(c, p[i], p[i + 1]) by {
        if i < tail.len() - 1 {
            assert(edge(c, group_node(stack[k + i]), group_node(stack[k + i + 1])));
        } else {
            assert(p[i] == group_node(stack.last()));
        }
    }
    assert(is_path(c, p));
}

} // verus!

verus! {

/// Every group that a group names as a target exists.
pub open spec fn groups_closed(c: ConfigView) -> bool {
    forall|k: Seq<char>, i: int|
        #[trigger] c.groups.contains_key(k) && 0 <= i < c.groups[k].targets.len()
            && (#[trigger] c.groups[k].targets[i]).kind == TargetKind::Group ==> c.groups.contains_key(
            c.groups[k].targets[i].id,
        )
}

/// The groups of `done` exist, reach no cycle, and every group that one of
/// them reaches is in `done` too.
pub open spec fn finished(c: ConfigView, done: Seq<Seq<char>>) -> bool {
    forall|i: int|
        0 <= i < done.len() ==> {
            &&& c.groups.contains_key(#[trigger] done[i])
            &&& !cycle_reachable(c, group_node(done[i]))
            &&& forall|u: TargetView|
                #[trigger] reaches(c, group_node(done[i]), u) && u.kind == TargetKind::Group
                    ==> done.contains(u.id)
        }
}

} // verus!

verus! {

/// The command ids that the target `u` adds when it is started: a command
/// adds its own id, a project the ids that it lists.
pub open spec fn contributes(c: ConfigView, u: TargetView, id: Seq<char>) -> bool {
    ||| u.kind == TargetKind::Command && u.id == id
    ||| u.kind == TargetKind::Project && c.projects.contains_key(u.id)
        && c.projects[u.id].command_ids.contains(id)
}

/// The ids of the commands that a target stands for: those added by every
/// target that it reaches.
pub open spec fn resolved_ids(c: ConfigView, t: TargetView) -> Set<Seq<char>> {
    Set::new(|id: Seq<char>| exists|u: TargetView| #[trigger] reaches(c, t, u) && contributes(c, u, id))
}

/// The ids resolved from the first `n` targets of `kids`.
pub open spec fn resolved_from(c: ConfigView, kids: Seq<TargetView>, n: int) -> Set<Seq<char>> {
    Set::new(|id: Seq<char>| exists|j: int| 0 <= j < n && #[trigger] resolved_ids(c, kids[j]).contains(id))
}

/// Every project and group that the target reaches exists.
pub open spec fn reachable_targets_exist(c: ConfigView, t: TargetView) -> bool {
    forall|u: TargetView|
        #[trigger] reaches(c, t, u) && u.kind != TargetKind::Command ==> target_exists(c, u)
}

} // verus!

verus! {

/// In a valid configuration every target that exists can be started: all it
/// reaches exists, no group it reaches contains itself, and the commands it
/// stands for are stored.
pub proof fn lemma_valid_targets_resolve(c: ConfigView, t: TargetView)
    requires
        config_valid(c),
        target_exists(c, t),
    ensures
        reachable_targets_exist(c, t),
        !cycle_reachable(c, t),
        resolved_ids(c, t).subset_of(c.commands.dom()),
{
    assert forall|u: TargetView| #[trigger] reaches(c, t, u) implies target_exists(c, u) by {
        lemma_reached_exists(c, t, u);
    }
    if cycle_reachable(c, t) {
        let u = choose|u: TargetView| #[trigger] reaches(c, t, u) && on_cycle(c, u);
        lemma_cycle_split(c, u);
        assert(group_node(u.id) == u);
        assert(!on_cycle(c, group_node(u.id)));
    }
    assert forall|id: Seq<char>| #[trigger] resolved_ids(c, t).contains(id) implies c.commands.contains_key(id) by {
        let u = choose|u: TargetView| #[trigger] reaches(c, t, u) && contributes(c, u, id);
        lemma_reached_exists(c, t, u);
        if u.kind == TargetKind::Project {
            let p = c.projects[u.id];
            assert(project_ok(c, u.id, p));
            let i = choose|i: int| 0 <= i < p.command_ids.len() && p.command_ids[i] == id;
            assert(c.commands.contains_key(p.command_ids[i]));
        }
    }
}

/// In a valid configuration, what an existing target reaches exists.
proof fn lemma_reached_exists(c: ConfigView, t: TargetView, u: TargetView)
    requires
        config_valid(c),
        target_exists(c, t),
        reaches(c, t, u),
    ensures
        target_exists(c, u),
{
    let p = choose|p: Seq<TargetView>| #[trigger] is_path(c, p) && p[0] == t && p.last() == u;
    lemma_path_exists(c, p, p.len() - 1);
}

/// In a valid configuration, every step of a path from an existing target exists.
proof fn lemma_path_exists(c: ConfigView, p: Seq<TargetView>, i: int)
    requires
        config_valid(c),
        is_path(c, p),
        target_exists(c, p[0]),
        0 <= i < p.len(),
    ensures
        target_exists(c, p[i]),
    decreases i,
{
    if i > 0 {
        lemma_path_exists(c, p, i - 1);
        assert(edge(c, p[i - 1], p[i - 1 + 1]));
        let g = c.groups[p[i - 1].id];
        assert(group_ok(c, p[i - 1].id, g));
        let j = choose|j: int| 0 <= j < g.targets.len() && g.targets[j] == p[i];
        assert(target_exists(c, g.targets[j]));
    }
}

/// A group stands for exactly the commands of its targets taken together.
pub proof fn lemma_group_resolves_to_targets(c: ConfigView, t: TargetView)
    requires
        t.kind == TargetKind::Group,
        c.groups.contains_key(t.id),
    ensures
        resolved_ids(c, t) == resolved_from(c, children(c, t), children(c, t).len() as int),
{
    let kids = children(c, t);
    assert forall|id: Seq<char>| resolved_ids(c, t).contains(id) implies #[trigger] resolved_from(
        c,
        kids,
        kids.len() as int,
    ).contains(id) by {
        let u = choose|u: TargetView| #[trigger] reaches(c, t, u) && contributes(c, u, id);
        assert(u != t);
        lemma_reaches_split(c, t, u);
        let j = choose|j: int| 0 <= j < kids.len() && #[trigger] reaches(c, kids[j], u);
        assert(resolved_ids(c, kids[j]).contains(id));
    }
    assert forall|id: Seq<char>| #[trigger] resolved_from(c, kids, kids.len() as int).contains(id)
        implies resolved_ids(c, t).contains(id) by {
        let j = choose|j: int| 0 <= j < kids.len() && #[trigger] resolved_ids(c, kids[j]).contains(id);
        let u = choose|u: TargetView| #[trigger] reaches(c, kids[j], u) && contributes(c, u, id);
        assert(edge(c, t, kids[j]));
        lemma_reaches_prepend(c, t, kids[j], u);
    }
    assert(resolved_ids(c, t) =~= resolved_from(c, kids, kids.len() as int));
}

} // verus!

verus! {

/// What the search for a cycle from the group `id` meets, `stack` holding
/// the groups on the way to it: `id` itself when it is on the way already,
/// else the first such group that the search of its targets meets, the
/// targets of each group taken in order.
pub open spec fn cycle_found(c: ConfigView, stack: Seq<Seq<char>>, id: Seq<char>) -> Option<Seq<char>>
    decreases c.groups.dom().len() - stack.len(), 0int, 0int,
{
    if stack.contains(id) {
        Some(id)
    } else if !c.groups.contains_key(id) || stack.len() >= c.groups.dom().len() {
        None
    } else {
        cycle_found_among(c, stack.push(id), c.groups[id].targets, 0)
    }
}

/// What the search meets from the targets of `kids` from the `i`th on, the
/// first that meets a group being the one whose result counts.
pub open spec fn cycle_found_among(c: ConfigView, stack: Seq<Seq<char>>, kids: Seq<TargetView>, i: int) -> Option<
    Seq<char>,
>
    decreases c.groups.dom().len() - stack.len(), 1int, kids.len() - i,
{
    if i < 0 || i >= kids.len() {
        None
    } else if kids[i].kind == TargetKind::Group {
        match cycle_found(c, stack, kids[i].id) {
            Some(g) => Some(g),
            None => cycle_found_among(c, stack, kids, i + 1),
        }
    } else {
        cycle_found_among(c, stack, kids, i + 1)
    }
}

/// A search from a group that reaches no cycle meets nothing.
pub proof fn lemma_no_cycle_found(c: ConfigView, stack: Seq<Seq<char>>, id: Seq<char>)
    requires
        stack_path(c, stack, group_node(id)),
        !cycle_reachable(c, group_node(id)),
    ensures
        cycle_found(c, stack, id) is None,
    decreases c.groups.dom().len() - stack.len(), 0int, 0int,
{
    if stack.contains(id) {
        lemma_stack_cycle(c, stack, id);
        lemma_reaches_self(c, group_node(id));
    } else if !c.groups.contains_key(id) || stack.len() >= c.groups.dom().len() {
    } else {
        let s = stack.push(id);
        assert forall|a: int, b: int| 0 <= a < b < s.len() implies s[a] != s[b] by {
            if b < stack.len() {
                assert(stack[a] != stack[b]);
            } else {
                assert(stack.contains(stack[a]));
            }
        }
        lemma_no_cycle_found_among(c, s, id, 0);
    }
}

/// The same, from the targets of the group `id` at the top of `stack`.
proof fn lemma_no_cycle_found_among(c: ConfigView, stack: Seq<Seq<char>>, id: Seq<char>, i: int)
    requires
        stack.len() > 0,
        stack.last() == id,
        c.groups.contains_key(id),
        stack.no_duplicates(),
        forall|j: int| 0 <= j < stack.len() ==> c.groups.contains_key(#[trigger] stack[j]),
        forall|j: int|
            0 <= j < stack.len() - 1 ==> #[trigger] edge(c, group_node(stack[j]), group_node(stack[j + 1])),
        !cycle_reachable(c, group_node(id)),
    ensures
        cycle_found_among(c, stack, c.groups[id].targets, i) is None,
    decreases c.groups.dom().len() - stack.len(), 1int, c.groups[id].targets.len() - i,
{
    let kids = c.groups[id].targets;
    if i < 0 || i >= kids.len() {
    } else {
        if kids[i].kind == TargetKind::Group {
            let kid = kids[i];
            assert(kids.contains(kid));
            assert(group_node(id) == TargetView { kind: TargetKind::Group, id });
            assert(edge(c, group_node(id), kid));
            assert(group_node(kid.id) == kid);
            assert(stack_path(c, stack, group_node(kid.id)));
            if cycle_reachable(c, kid) {
                lemma_cycle_reachable_prepend(c, group_node(id), kid);
            }
            lemma_no_cycle_found(c, stack, kid.id);
        }
        lemma_no_cycle_found_among(c, stack, id, i + 1);
    }
}

} // verus!
