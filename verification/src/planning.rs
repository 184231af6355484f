//! Dependency resolution and argument binding, without processes or the filesystem.
use vstd::prelude::*;
use crate::keymap::{as_map, has_key, key_set, lemma_as_map_take, lemma_key_set_finite, lookup, sorted_keys, KeyMap};
use crate::model::{
    cache_view, command_views, copy_cache, copy_commands, copy_compose, copy_strings, copy_tools,
    same_tools, value_accepted, CacheView, Compose, Manifest, Parameter, Plan, PlannedTask, Task,
};
use crate::text::{
    contains_pattern, contains_text, first_where, join2, join3, lemma_first_where,
    lemma_names_push, names, occurs_in, owned, starts_with, views,
};

verus! {

/// What a planned task holds, read through the views of its fields.
pub struct PlannedView {
    pub id: Seq<char>,
    pub command: Seq<Seq<char>>,
    pub working_directory: Seq<char>,
    pub environment: Map<Seq<char>, String>,
    pub destructive: bool,
    pub depends_on: Seq<String>,
    pub cleanup: Seq<Seq<String>>,
    pub timeout_seconds: Option<u64>,
    pub exclusive: Seq<Seq<char>>,
    pub requires: Seq<String>,
    pub consumers: Seq<String>,
    pub pass_environment: Seq<String>,
    pub compose: Option<Compose>,
    pub cache: Option<CacheView>,
}

pub open spec fn planned_view(p: PlannedTask) -> PlannedView {
    PlannedView {
        id: p.id@,
        command: views(p.command@),
        working_directory: p.working_directory@,
        environment: as_map(p.environment@),
        destructive: p.destructive,
        depends_on: p.depends_on@,
        cleanup: command_views(p.cleanup@),
        timeout_seconds: p.timeout_seconds,
        exclusive: views(p.exclusive@),
        requires: p.requires@,
        consumers: p.consumers@,
        pass_environment: p.pass_environment@,
        compose: p.compose,
        cache: cache_view(p.cache),
    }
}

pub open spec fn plan_views(v: Seq<PlannedTask>) -> Seq<PlannedView> {
    v.map_values(|p: PlannedTask| planned_view(p))
}

/// The ids of the declared tasks.
pub open spec fn task_ids(m: Manifest) -> Set<Seq<char>> {
    key_set(m.tasks@)
}

/// How many declared tasks are not on the current dependency path.
pub open spec fn remaining(m: Manifest, active: Set<Seq<char>>) -> nat {
    task_ids(m).difference(active).len()
}

pub proof fn lemma_remaining_decreases(m: Manifest, active: Set<Seq<char>>, id: Seq<char>)
    requires
        task_ids(m).contains(id),
        !active.contains(id),
    ensures
        remaining(m, active.insert(id)) < remaining(m, active),
{
    lemma_key_set_finite(m.tasks@);
    let d = task_ids(m).difference(active);
    assert(task_ids(m).difference(active.insert(id)) =~= d.remove(id));
    vstd::set_lib::lemma_set_subset_finite(task_ids(m), d);
    assert(d.contains(id));
}

/// The task may run in `profile`: it lists no profiles, or lists this one.
pub open spec fn profile_allows(task: Task, profile: Seq<char>) -> bool {
    task.profiles@.len() == 0 || exists|i: int|
        0 <= i < task.profiles@.len() && (#[trigger] task.profiles@[i])@ == profile
}

/// The supplied parameter at `i` is not declared by the task.
pub open spec fn unknown_at(task: Task, supplied: Seq<(String, String)>, i: int) -> bool {
    !has_key(task.parameters@, supplied[i].0@)
}

pub open spec fn has_unknown(task: Task, supplied: Seq<(String, String)>) -> bool {
    exists|i: int| 0 <= i < supplied.len() && #[trigger] unknown_at(task, supplied, i)
}

pub open spec fn first_unknown(task: Task, supplied: Seq<(String, String)>) -> int {
    first_where(supplied.len() as int, |i: int| unknown_at(task, supplied, i))
}

/// The value a parameter takes: the supplied one, else its default.
pub open spec fn value_for(supplied: Seq<(String, String)>, name: Seq<char>, def: Parameter) -> Option<String> {
    match lookup(supplied, name) {
        Some(v) => Some(v),
        None => def.default,
    }
}

/// The task's parameter at `j` has no value, or one its type refuses.
pub open spec fn bad_at(task: Task, supplied: Seq<(String, String)>, j: int) -> bool {
    let def = task.parameters@[j].1;
    match value_for(supplied, task.parameters@[j].0@, def) {
        None => true,
        Some(v) => !value_accepted(def.kind, v@, def.values@),
    }
}

pub open spec fn has_bad(task: Task, supplied: Seq<(String, String)>) -> bool {
    exists|j: int| 0 <= j < task.parameters@.len() && #[trigger] bad_at(task, supplied, j)
}

pub open spec fn first_bad(task: Task, supplied: Seq<(String, String)>) -> int {
    first_where(task.parameters@.len() as int, |j: int| bad_at(task, supplied, j))
}

/// The diagnostic for the parameter at `j`.
pub open spec fn bad_message(id: Seq<char>, task: Task, supplied: Seq<(String, String)>, j: int) -> Seq<char> {
    let name = task.parameters@[j].0@;
    if value_for(supplied, name, task.parameters@[j].1).is_none() {
        id + ": missing parameter "@ + name
    } else {
        id + ": invalid parameter "@ + name
    }
}

/// The parameter values of a task invocation, by name.
pub open spec fn bound(task: Task, supplied: Seq<(String, String)>) -> Map<Seq<char>, String> {
    Map::new(
        |k: Seq<char>| has_key(task.parameters@, k),
        |k: Seq<char>| value_for(supplied, k, lookup(task.parameters@, k)->0)->0,
    )
}

/// The name inside an argument of the form `{param:NAME}`.
pub open spec fn reference_name(a: Seq<char>) -> Option<Seq<char>> {
    let p = "{param:"@;
    if p.len() < a.len() && a.take(p.len() as int) == p && a.last() == '}' {
        Some(a.subrange(p.len() as int, a.len() - 1))
    } else {
        None
    }
}

/// One argument with its parameter reference replaced.
pub open spec fn argument_value(id: Seq<char>, a: Seq<char>, values: Map<Seq<char>, String>) -> Result<Seq<char>, Seq<char>> {
    match reference_name(a) {
        Some(name) => if values.dom().contains(name) {
            Ok(values[name]@)
        } else {
            Err(id + ": unknown parameter reference "@ + name)
        },
        None => if occurs_in(a, "{param:"@) {
            Err(id + ": parameter references must occupy an entire argument"@)
        } else {
            Ok(a)
        },
    }
}

/// A command with every argument bound; the first bad argument decides the error.
pub open spec fn substituted(id: Seq<char>, args: Seq<Seq<char>>, values: Map<Seq<char>, String>) -> Result<Seq<Seq<char>>, Seq<char>>
    decreases args.len(),
{
    if args.len() == 0 {
        Ok(Seq::empty())
    } else {
        match argument_value(id, args[0], values) {
            Err(e) => Err(e),
            Ok(v) => match substituted(id, args.drop_first(), values) {
                Err(e) => Err(e),
                Ok(rest) => Ok(seq![v] + rest),
            },
        }
    }
}

/// The literal environment of a profile, empty for an undeclared profile.
pub open spec fn profile_environment(m: Manifest, profile: Seq<char>) -> Map<Seq<char>, String> {
    match lookup(m.profiles@, profile) {
        Some(p) => as_map(p.environment@),
        None => Map::empty(),
    }
}

/// The resources a task holds while it runs; a Compose project counts as one.
pub open spec fn exclusive_for(task: Task) -> Seq<Seq<char>> {
    match task.compose {
        Some(c) => views(task.exclusive@).push("compose:"@ + c.project@),
        None => views(task.exclusive@),
    }
}

/// The planned form of a task with its bound command.
pub open spec fn planned_from(m: Manifest, id: Seq<char>, task: Task, profile: Seq<char>, command: Seq<Seq<char>>) -> PlannedView {
    PlannedView {
        id: id,
        command: command,
        working_directory: task.working_directory@,
        environment: profile_environment(m, profile).union_prefer_right(as_map(task.environment@)),
        destructive: task.destructive,
        depends_on: task.depends_on@,
        cleanup: command_views(task.cleanup@),
        timeout_seconds: task.timeout_seconds,
        exclusive: exclusive_for(task),
        requires: task.requires@,
        consumers: task.consumers@,
        pass_environment: task.pass_environment@,
        compose: task.compose,
        cache: cache_view(task.cache),
    }
}

/// Completes the planning of `id` once its dependencies are planned.
pub open spec fn after_dependencies(
    m: Manifest,
    id: Seq<char>,
    task: Task,
    profile: Seq<char>,
    supplied: Seq<(String, String)>,
    dependencies: Result<(Set<Seq<char>>, Seq<PlannedView>), Seq<char>>,
) -> Result<(Set<Seq<char>>, Seq<PlannedView>), Seq<char>> {
    match dependencies {
        Err(e) => Err(e),
        Ok((d, p)) => match substituted(id, views(task.command@), bound(task, supplied)) {
            Err(e) => Err(e),
            Ok(command) => Ok((d.insert(id), p.push(planned_from(m, id, task, profile, command)))),
        },
    }
}

/// Depth-first planning of `id`: dependencies first, in declaration order, each
/// task once. `active` holds the tasks on the current path, `done` those planned.
pub open spec fn visit_result(
    m: Manifest,
    id: Seq<char>,
    profile: Seq<char>,
    supplied: Seq<(String, String)>,
    active: Set<Seq<char>>,
    done: Set<Seq<char>>,
    plan: Seq<PlannedView>,
) -> Result<(Set<Seq<char>>, Seq<PlannedView>), Seq<char>>
    decreases remaining(m, active), 0int,
{
    if done.contains(id) {
        Ok((done, plan))
    } else if active.contains(id) {
        Err("Task dependency cycle at "@ + id)
    } else if !has_key(m.tasks@, id) {
        Err("Unknown task: "@ + id)
    } else {
        let task = lookup(m.tasks@, id)->0;
        if !profile_allows(task, profile) {
            Err(id + ": unavailable in profile "@ + profile)
        } else if has_unknown(task, supplied) {
            Err(id + ": unknown parameter "@ + supplied[first_unknown(task, supplied)].0@)
        } else if has_bad(task, supplied) {
            Err(bad_message(id, task, supplied, first_bad(task, supplied)))
        } else {
            proof {
                lemma_remaining_decreases(m, active, id);
            }
            after_dependencies(
                m,
                id,
                task,
                profile,
                supplied,
                visit_all(m, task.depends_on@, 0, profile, active.insert(id), done, plan),
            )
        }
    }
}

/// Plans the dependencies `deps[i..]` in order, with no supplied parameters.
pub open spec fn visit_all(
    m: Manifest,
    deps: Seq<String>,
    i: int,
    profile: Seq<char>,
    active: Set<Seq<char>>,
    done: Set<Seq<char>>,
    plan: Seq<PlannedView>,
) -> Result<(Set<Seq<char>>, Seq<PlannedView>), Seq<char>>
    decreases remaining(m, active), deps.len() - i,
{
    if i < 0 || i >= deps.len() {
        Ok((done, plan))
    } else {
        match visit_result(m, deps[i]@, profile, Seq::empty(), active, done, plan) {
            Err(e) => Err(e),
            Ok((d, p)) => visit_all(m, deps, i + 1, profile, active, d, p),
        }
    }
}

/// The plan for `target` in `profile` with the supplied parameters, or the first error.
pub open spec fn plan_result(m: Manifest, target: Seq<char>, profile: Seq<char>, supplied: Seq<(String, String)>) -> Result<Seq<PlannedView>, Seq<char>> {
    match visit_result(m, target, profile, supplied, Set::empty(), Set::empty(), Seq::empty()) {
        Ok((_, p)) => Ok(p),
        Err(e) => Err(e),
    }
}

/// Binds one argument.
fn bind_argument(id: &str, argument: &String, values: &KeyMap<String>) -> (r: Result<String, String>)
    ensures
        match argument_value(id@, argument@, as_map(values@)) {
            Ok(v) => r is Ok && r->Ok_0@ == v,
            Err(e) => r is Err && r->Err_0@ == e,
        },
{
    let prefix = "{param:";
    let p = prefix.unicode_len();
    let n = argument.unicode_len();
    if p < n && starts_with(argument.as_str(), prefix) && argument.as_str().get_char(n - 1) == '}' {
        let name = argument.as_str().substring_char(p, n - 1);
        match values.get(name) {
            Some(v) => Ok(v.clone()),
            None => Err(join3(id, ": unknown parameter reference ", name)),
        }
    } else if contains_pattern(argument.as_str(), prefix) {
        Err(join2(id, ": parameter references must occupy an entire argument"))
    } else {
        Ok(argument.clone())
    }
}

/// Binds every argument of a command.
fn bind_command(id: &str, command: &Vec<String>, values: &KeyMap<String>) -> (r: Result<Vec<String>, String>)
    ensures
        match substituted(id@, views(command@), as_map(values@)) {
            Ok(c) => r is Ok && views(r->Ok_0@) == c,
            Err(e) => r is Err && r->Err_0@ == e,
        },
{
    let mut out: Vec<String> = Vec::new();
    let ghost args = views(command@);
    let ghost vals = as_map(values@);
    let mut i: usize = 0;
    assert(args.skip(0) =~= args);
    while i < command.len()
        invariant
            args == views(command@),
            vals == as_map(values@),
            i <= command@.len(),
            substituted(id@, args, vals) == match substituted(id@, args.skip(i as int), vals) {
                Ok(rest) => Ok(views(out@) + rest),
                Err(e) => Err(e),
            },
        decreases command@.len() - i,
    {
        assert(args.skip(i as int)[0] == command@[i as int]@);
        assert(args.skip(i as int).drop_first() =~= args.skip(i + 1));
        match bind_argument(id, &command[i], values) {
            Ok(v) => {
                let ghost before = views(out@);
                out.push(v);
                proof {
                    assert(views(out@) =~= before.push(v@));
                    assert forall|rest: Seq<Seq<char>>| #[trigger] (before + (seq![v@] + rest)) == views(out@) + rest by {
                        assert(before + (seq![v@] + rest) =~= views(out@) + rest);
                    }
                }
            },
            Err(e) => {
                return Err(e);
            },
        }
        i = i + 1;
    }
    assert(args.skip(i as int) =~= Seq::<Seq<char>>::empty());
    assert(views(out@) + Seq::<Seq<char>>::empty() =~= views(out@));
    Ok(out)
}

/// Checks the supplied names and binds every declared parameter.
fn bind_parameters(id: &str, task: &Task, supplied: &KeyMap<String>) -> (r: Result<KeyMap<String>, String>)
    ensures
        has_unknown(*task, supplied@) ==> r is Err && r->Err_0@ == id@ + ": unknown parameter "@
            + supplied@[first_unknown(*task, supplied@)].0@,
        !has_unknown(*task, supplied@) && has_bad(*task, supplied@) ==> r is Err && r->Err_0@
            == bad_message(id@, *task, supplied@, first_bad(*task, supplied@)),
        !has_unknown(*task, supplied@) && !has_bad(*task, supplied@) ==> r is Ok && as_map(
            r->Ok_0@,
        ) == bound(*task, supplied@),
{
    let n = supplied.len();
    let mut i: usize = 0;
    while i < n
        invariant
            n == supplied@.len(),
            i <= n,
            forall|j: int| 0 <= j < i ==> !#[trigger] unknown_at(*task, supplied@, j),
        decreases n - i,
    {
        let name = supplied.key_at(i);
        if !task.parameters.contains_key(name.as_str()) {
            proof {
                assert(unknown_at(*task, supplied@, i as int));
                lemma_first_where(n as int, |j: int| unknown_at(*task, supplied@, j), i as int);
            }
            return Err(join3(id, ": unknown parameter ", name.as_str()));
        }
        i = i + 1;
    }
    task.parameters.note_sorted();
    let ghost params = task.parameters@;
    let m = task.parameters.len();
    let mut values: KeyMap<String> = KeyMap::new();
    let mut j: usize = 0;
    assert(as_map(values@) =~= Map::new(
        |k: Seq<char>| has_key(params.take(0), k),
        |k: Seq<char>| value_for(supplied@, k, lookup(params.take(0), k)->0)->0,
    ));
    while j < m
        invariant
            m == params.len(),
            params == task.parameters@,
            sorted_keys(params),
            j <= m,
            !has_unknown(*task, supplied@),
            forall|t: int| 0 <= t < j ==> !#[trigger] bad_at(*task, supplied@, t),
            as_map(values@) == Map::new(
                |k: Seq<char>| has_key(params.take(j as int), k),
                |k: Seq<char>| value_for(supplied@, k, lookup(params.take(j as int), k)->0)->0,
            ),
        decreases m - j,
    {
        let name = task.parameters.key_at(j);
        let definition = task.parameters.value_at(j);
        let value: &String = match supplied.get(name.as_str()) {
            Some(v) => v,
            None => match &definition.default {
                Some(d) => d,
                None => {
                    proof {
                        assert(bad_at(*task, supplied@, j as int));
                        lemma_first_where(m as int, |t: int| bad_at(*task, supplied@, t), j as int);
                    }
                    return Err(join3(id, ": missing parameter ", name.as_str()));
                },
            },
        };
        if !definition.kind.accepts(value.as_str(), definition.values.as_slice()) {
            proof {
                assert(bad_at(*task, supplied@, j as int));
                lemma_first_where(m as int, |t: int| bad_at(*task, supplied@, t), j as int);
            }
            return Err(join3(id, ": invalid parameter ", name.as_str()));
        }
        let ghost before = as_map(values@);
        values.insert(name.clone(), value.clone());
        proof {
            lemma_as_map_take(params, j as int);
            let next = params.take(j + 1);
            let prev = params.take(j as int);
            assert forall|k: Seq<char>| #[trigger] has_key(next, k) <==> (has_key(prev, k) || k == name@) by {
                assert(as_map(next).dom().contains(k) == has_key(next, k));
            }
            assert forall|k: Seq<char>| has_key(next, k) && k != name@ implies #[trigger] lookup(next, k) == lookup(prev, k) by {
                assert(as_map(next)[k] == as_map(prev)[k]);
            }
            assert(lookup(next, name@) == Some(params[j as int].1)) by {
                assert(as_map(next)[name@] == params[j as int].1);
            }
            assert(as_map(values@) =~= Map::new(
                |k: Seq<char>| has_key(next, k),
                |k: Seq<char>| value_for(supplied@, k, lookup(next, k)->0)->0,
            ));
        }
        j = j + 1;
    }
    proof {
        assert(params.take(m as int) =~= params);
        assert(as_map(values@) =~= bound(*task, supplied@));
    }
    Ok(values)
}

/// The resources held by a task while it runs.
fn exclusive_of(task: &Task) -> (r: Vec<String>)
    ensures
        views(r@) == exclusive_for(*task),
{
    let mut r = copy_strings(&task.exclusive);
    match &task.compose {
        Some(c) => {
            let ghost before = views(r@);
            r.push(join2("compose:", c.project.as_str()));
            assert(views(r@) =~= before.push("compose:"@ + c.project@));
        },
        None => {},
    }
    r
}

/// Plans `id` after its dependencies; see `visit_result`.
fn visit(
    manifest: &Manifest,
    id: &str,
    profile: &str,
    supplied: &KeyMap<String>,
    active: &mut Vec<String>,
    done: &mut Vec<String>,
    plan: &mut Vec<PlannedTask>,
) -> (r: Result<(), String>)
    ensures
        match visit_result(*manifest, id@, profile@, supplied@, names(old(active)@), names(old(done)@), plan_views(old(plan)@)) {
            Ok((d, p)) => r is Ok && names(final(done)@) == d && plan_views(final(plan)@) == p
                && final(active)@ == old(active)@,
            Err(e) => r is Err && r->Err_0@ == e,
        },
    decreases remaining(*manifest, names(old(active)@)), 0int,
{
    if contains_text(done.as_slice(), id) {
        return Ok(());
    }
    if contains_text(active.as_slice(), id) {
        return Err(join2("Task dependency cycle at ", id));
    }
    let task = match manifest.tasks.get(id) {
        Some(t) => t,
        None => {
            return Err(join2("Unknown task: ", id));
        },
    };
    if !(task.profiles.len() == 0 || contains_text(task.profiles.as_slice(), profile)) {
        return Err(join3(id, ": unavailable in profile ", profile));
    }
    let values = match bind_parameters(id, task, supplied) {
        Ok(v) => v,
        Err(e) => {
            return Err(e);
        },
    };
    let ghost active0 = active@;
    let ghost m = *manifest;
    active.push(owned(id));
    proof {
        assert(task_ids(m).contains(id@));
        lemma_names_push(active0, active@.last());
        assert(active@ == active0.push(active@.last()));
        lemma_remaining_decreases(m, names(active0), id@);
    }
    let ghost a = names(active@);
    let ghost deps = task.depends_on@;
    let no_parameters: KeyMap<String> = KeyMap::new();
    assert(active0 == old(active)@);
    let mut k: usize = 0;
    while k < task.depends_on.len()
        invariant
            deps == task.depends_on@,
            k <= deps.len(),
            m == *manifest,
            active@ == active0.push(active@.last()),
            active@.last()@ == id@,
            a == names(active@),
            a == names(active0).insert(id@),
            remaining(m, a) < remaining(m, names(active0)),
            no_parameters@ == Seq::<(String, String)>::empty(),
            remaining(*manifest, names(active@)) < remaining(*manifest, names(old(active)@)),
            visit_result(m, id@, profile@, supplied@, names(old(active)@), names(old(done)@), plan_views(old(plan)@))
                == after_dependencies(m, id@, *task, profile@, supplied@, visit_all(m, deps, k as int, profile@, a, names(done@), plan_views(plan@))),
        decreases deps.len() - k,
    {
        let step = visit(manifest, task.depends_on[k].as_str(), profile, &no_parameters, active, done, plan);
        match step {
            Ok(()) => {},
            Err(e) => {
                return Err(e);
            },
        }
        k = k + 1;
    }
    let command = match bind_command(id, &task.command, &values) {
        Ok(c) => c,
        Err(e) => {
            return Err(e);
        },
    };
    let mut environment = match manifest.profiles.get(profile) {
        Some(p) => p.environment.duplicate(),
        None => KeyMap::new(),
    };
    environment.extend_from(&task.environment);
    let planned = PlannedTask {
        id: owned(id),
        command: command,
        working_directory: task.working_directory.clone(),
        environment: environment,
        destructive: task.destructive,
        depends_on: copy_strings(&task.depends_on),
        cleanup: copy_commands(&task.cleanup),
        timeout_seconds: task.timeout_seconds,
        exclusive: exclusive_of(task),
        requires: copy_strings(&task.requires),
        consumers: copy_strings(&task.consumers),
        pass_environment: copy_strings(&task.pass_environment),
        compose: copy_compose(&task.compose),
        cache: copy_cache(&task.cache),
    };
    let ghost plan_before = plan@;
    plan.push(planned);
    active.pop();
    let ghost done_before = done@;
    done.push(owned(id));
    proof {
        assert(active@ =~= active0);
        lemma_names_push(done_before, done@.last());
        assert(plan_views(plan@) =~= plan_views(plan_before).push(planned_view(plan@.last())));
        assert(as_map(plan@.last().environment@) =~= profile_environment(m, profile@).union_prefer_right(as_map(task.environment@)));
    }
    Ok(())
}

/// Resolves a deterministic plan for `target` without accessing processes or the filesystem.
pub fn build(manifest: &Manifest, target: &str, profile: &str, parameters: &KeyMap<String>) -> (r: Result<Plan, String>)
    ensures
        match plan_result(*manifest, target@, profile@, parameters@) {
            Ok(p) => r is Ok && plan_views(r->Ok_0.tasks@) == p && r->Ok_0.profile@ == profile@
                && same_tools(r->Ok_0.tools@, manifest.tools@),
            Err(e) => r is Err && r->Err_0@ == e,
        },
{
    let mut active: Vec<String> = Vec::new();
    let mut done: Vec<String> = Vec::new();
    let mut tasks: Vec<PlannedTask> = Vec::new();
    assert(names(active@) =~= Set::<Seq<char>>::empty());
    assert(names(done@) =~= Set::<Seq<char>>::empty());
    assert(plan_views(tasks@) =~= Seq::<PlannedView>::empty());
    match visit(manifest, target, profile, parameters, &mut active, &mut done, &mut tasks) {
        Ok(()) => Ok(Plan { profile: owned(profile), tasks: tasks, tools: copy_tools(&manifest.tools) }),
        Err(e) => Err(e),
    }
}

/// The declared task with id `id`.
pub open spec fn task_of(m: Manifest, id: Seq<char>) -> Task {
    lookup(m.tasks@, id)->0
}

/// The ids present in a plan.
pub open spec fn planned_ids(p: Seq<PlannedView>) -> Set<Seq<char>> {
    Set::new(|x: Seq<char>| exists|k: int| 0 <= k < p.len() && (#[trigger] p[k]).id == x)
}

/// No id occurs twice in a plan.
pub open spec fn distinct_ids(p: Seq<PlannedView>) -> bool {
    forall|i: int, j: int| 0 <= i < j < p.len() ==> (#[trigger] p[i]).id != (#[trigger] p[j]).id
}

/// The entry at `k` is a declared task available in `profile`, and every one of
/// its dependencies occurs earlier in the plan.
pub open spec fn entry_ok(m: Manifest, profile: Seq<char>, p: Seq<PlannedView>, k: int) -> bool {
    &&& has_key(m.tasks@, p[k].id)
    &&& profile_allows(task_of(m, p[k].id), profile)
    &&& forall|t: int|
        0 <= t < task_of(m, p[k].id).depends_on@.len() ==> #[trigger] planned_ids(p.take(k)).contains(
            task_of(m, p[k].id).depends_on@[t]@,
        )
}

/// The invariant of depth-first planning.
pub open spec fn plan_ok(m: Manifest, profile: Seq<char>, done: Set<Seq<char>>, p: Seq<PlannedView>) -> bool {
    &&& distinct_ids(p)
    &&& done == planned_ids(p)
    &&& forall|k: int| 0 <= k < p.len() ==> #[trigger] entry_ok(m, profile, p, k)
}

/// The entry's command was bound with no supplied parameters, only defaults.
pub open spec fn default_bound(m: Manifest, v: PlannedView) -> bool {
    substituted(v.id, views(task_of(m, v.id).command@), bound(task_of(m, v.id), Seq::empty())) == Ok::<Seq<Seq<char>>, Seq<char>>(v.command)
}

proof fn lemma_entry_ok_prefix(m: Manifest, profile: Seq<char>, plan: Seq<PlannedView>, p: Seq<PlannedView>, k: int)
    requires
        plan.len() <= p.len(),
        p.take(plan.len() as int) == plan,
        0 <= k < plan.len(),
        entry_ok(m, profile, plan, k),
    ensures
        entry_ok(m, profile, p, k),
{
    assert(p.take(k) =~= plan.take(k));
    assert(p[k] == plan[k]);
}

proof fn lemma_planned_ids_push(p: Seq<PlannedView>, v: PlannedView)
    ensures
        planned_ids(p.push(v)) == planned_ids(p).insert(v.id),
{
    assert forall|x: Seq<char>| #[trigger] planned_ids(p.push(v)).contains(x) <==> planned_ids(p).insert(v.id).contains(x) by {
        if planned_ids(p).contains(x) {
            let k = choose|k: int| 0 <= k < p.len() && (#[trigger] p[k]).id == x;
            assert(p.push(v)[k] == p[k]);
        }
        if planned_ids(p.push(v)).contains(x) && x != v.id {
            let k = choose|k: int| 0 <= k < p.push(v).len() && (#[trigger] p.push(v)[k]).id == x;
            assert(p[k] == p.push(v)[k]);
        }
        if x == v.id {
            assert(p.push(v)[p.len() as int] == v);
        }
    }
    assert(planned_ids(p.push(v)) =~= planned_ids(p).insert(v.id));
}

proof fn lemma_visit_result(
    m: Manifest,
    id: Seq<char>,
    profile: Seq<char>,
    supplied: Seq<(String, String)>,
    active: Set<Seq<char>>,
    done: Set<Seq<char>>,
    plan: Seq<PlannedView>,
)
    requires
        plan_ok(m, profile, done, plan),
    ensures
        match visit_result(m, id, profile, supplied, active, done, plan) {
            Ok((d, p)) => {
                &&& plan_ok(m, profile, d, p)
                &&& plan.len() <= p.len()
                &&& p.take(plan.len() as int) == plan
                &&& d.contains(id)
                &&& forall|x: Seq<char>| #[trigger] d.contains(x) && !done.contains(x) ==> !active.contains(x)
                &&& done.contains(id) ==> p == plan
                &&& !done.contains(id) ==> {
                    &&& p.len() > plan.len()
                    &&& p.last().id == id
                    &&& substituted(id, views(task_of(m, id).command@), bound(task_of(m, id), supplied)) == Ok::<Seq<Seq<char>>, Seq<char>>(p.last().command)
                    &&& p.last() == planned_from(m, id, task_of(m, id), profile, p.last().command)
                    &&& forall|k: int| plan.len() <= k < p.len() - 1 ==> #[trigger] default_bound(m, p[k])
                }
            },
            Err(_) => true,
        },
    decreases remaining(m, active), 0int,
{
    if done.contains(id) {
    } else if active.contains(id) {
    } else if !has_key(m.tasks@, id) {
    } else {
        let task = lookup(m.tasks@, id)->0;
        if profile_allows(task, profile) && !has_unknown(task, supplied) && !has_bad(task, supplied) {
            lemma_remaining_decreases(m, active, id);
            let a = active.insert(id);
            lemma_visit_all(m, task.depends_on@, 0, profile, a, done, plan);
            match visit_all(m, task.depends_on@, 0, profile, a, done, plan) {
                Err(_) => {},
                Ok((d, p)) => {
                    match substituted(id, views(task.command@), bound(task, supplied)) {
                        Err(_) => {},
                        Ok(command) => {
                            let v = planned_from(m, id, task, profile, command);
                            let q = p.push(v);
                            assert(!d.contains(id));
                            lemma_planned_ids_push(p, v);
                            assert(!planned_ids(p).contains(id));
                            assert(distinct_ids(q)) by {
                                assert forall|i: int, j: int| 0 <= i < j < q.len() implies (#[trigger] q[i]).id != (#[trigger] q[j]).id by {
                                    if j == p.len() {
                                        assert(q[i] == p[i]);
                                        assert(planned_ids(p).contains(p[i].id));
                                    } else {
                                        assert(q[i] == p[i] && q[j] == p[j]);
                                    }
                                }
                            }
                            assert forall|k: int| 0 <= k < q.len() implies #[trigger] entry_ok(m, profile, q, k) by {
                                if k < p.len() {
                                    assert(entry_ok(m, profile, p, k));
                                    assert(q.take(p.len() as int) =~= p);
                                    lemma_entry_ok_prefix(m, profile, p, q, k);
                                } else {
                                    assert(q.take(k) =~= p);
                                    assert(q[k] == v);
                                }
                            }
                            assert(q.take(plan.len() as int) =~= plan) by {
                                assert(p.take(plan.len() as int) == plan);
                                assert forall|t: int| 0 <= t < plan.len() implies q[t] == plan[t] by {
                                    assert(q[t] == p[t]);
                                    assert(p.take(plan.len() as int)[t] == p[t]);
                                }
                            }
                            assert forall|k: int| plan.len() <= k < q.len() - 1 implies #[trigger] default_bound(m, q[k]) by {
                                assert(q[k] == p[k]);
                                assert(default_bound(m, p[k]));
                            }
                            assert forall|x: Seq<char>| #[trigger] d.insert(id).contains(x) && !done.contains(x) implies !active.contains(x) by {
                                if x != id {
                                    assert(d.contains(x));
                                }
                            }
                        },
                    }
                },
            }
        }
    }
}

proof fn lemma_visit_all(
    m: Manifest,
    deps: Seq<String>,
    i: int,
    profile: Seq<char>,
    active: Set<Seq<char>>,
    done: Set<Seq<char>>,
    plan: Seq<PlannedView>,
)
    requires
        plan_ok(m, profile, done, plan),
        0 <= i,
    ensures
        match visit_all(m, deps, i, profile, active, done, plan) {
            Ok((d, p)) => {
                &&& plan_ok(m, profile, d, p)
                &&& plan.len() <= p.len()
                &&& p.take(plan.len() as int) == plan
                &&& done.subset_of(d)
                &&& forall|t: int| i <= t < deps.len() ==> d.contains(#[trigger] deps[t]@)
                &&& forall|x: Seq<char>| #[trigger] d.contains(x) && !done.contains(x) ==> !active.contains(x)
                &&& forall|k: int| plan.len() <= k < p.len() ==> #[trigger] default_bound(m, p[k])
            },
            Err(_) => true,
        },
    decreases remaining(m, active), deps.len() - i,
{
    if i < deps.len() {
        lemma_visit_result(m, deps[i]@, profile, Seq::empty(), active, done, plan);
        match visit_result(m, deps[i]@, profile, Seq::empty(), active, done, plan) {
            Err(_) => {},
            Ok((d1, p1)) => {
                lemma_visit_all(m, deps, i + 1, profile, active, d1, p1);
                match visit_all(m, deps, i + 1, profile, active, d1, p1) {
                    Err(_) => {},
                    Ok((d2, p2)) => {
                        assert(p2.take(plan.len() as int) =~= plan) by {
                            assert forall|t: int| 0 <= t < plan.len() implies p2[t] == plan[t] by {
                                assert(p2.take(p1.len() as int)[t] == p1[t]);
                                assert(p1.take(plan.len() as int)[t] == plan[t]);
                            }
                        }
                        assert forall|k: int| plan.len() <= k < p2.len() implies #[trigger] default_bound(m, p2[k]) by {
                            if k < p1.len() {
                                assert(p2.take(p1.len() as int)[k] == p1[k]);
                                assert(p2[k] == p1[k]);
                                if k == p1.len() - 1 && !done.contains(deps[i]@) {
                                } else {
                                    assert(default_bound(m, p1[k]));
                                }
                            }
                        }
                        assert(done.subset_of(d1)) by {
                            if !done.contains(deps[i]@) {
                                assert forall|x: Seq<char>| done.contains(x) implies #[trigger] d1.contains(x) by {
                                    let k = choose|k: int| 0 <= k < plan.len() && (#[trigger] plan[k]).id == x;
                                    assert(p1.take(plan.len() as int)[k] == p1[k]);
                                    assert(planned_ids(p1).contains(x));
                                }
                            }
                        }
                        assert forall|x: Seq<char>| #[trigger] d2.contains(x) && !done.contains(x) implies !active.contains(x) by {
                            if !d1.contains(x) {
                            } else {
                                assert(d1.contains(x));
                            }
                        }
                    },
                }
            },
        }
    } else {
        assert(plan.take(plan.len() as int) =~= plan);
    }
}

/// A successful plan ends with the requested task, bound with the supplied parameters.
pub proof fn law_plan_ends_with_target(m: Manifest, target: Seq<char>, profile: Seq<char>, supplied: Seq<(String, String)>)
    ensures
        match plan_result(m, target, profile, supplied) {
            Ok(p) => p.len() > 0 && p.last().id == target
                && substituted(target, views(task_of(m, target).command@), bound(task_of(m, target), supplied))
                == Ok::<Seq<Seq<char>>, Seq<char>>(p.last().command)
                && p.last() == planned_from(m, target, task_of(m, target), profile, p.last().command),
            Err(_) => true,
        },
{
    assert(plan_ok(m, profile, Set::empty(), Seq::empty())) by {
        assert(planned_ids(Seq::<PlannedView>::empty()) =~= Set::empty());
    }
    lemma_visit_result(m, target, profile, supplied, Set::empty(), Set::empty(), Seq::empty());
}

/// Every task of a successful plan occurs once, so shared dependencies run once.
pub proof fn law_plan_tasks_unique(m: Manifest, target: Seq<char>, profile: Seq<char>, supplied: Seq<(String, String)>)
    ensures
        match plan_result(m, target, profile, supplied) {
            Ok(p) => forall|i: int, j: int| 0 <= i < j < p.len() ==> (#[trigger] p[i]).id != (#[trigger] p[j]).id,
            Err(_) => true,
        },
{
    assert(plan_ok(m, profile, Set::empty(), Seq::empty())) by {
        assert(planned_ids(Seq::<PlannedView>::empty()) =~= Set::empty());
    }
    lemma_visit_result(m, target, profile, supplied, Set::empty(), Set::empty(), Seq::empty());
}

/// Some entry of `p` before position `k` has id `d`.
pub open spec fn planned_earlier(p: Seq<PlannedView>, k: int, d: Seq<char>) -> bool {
    exists|j: int| 0 <= j < k && (#[trigger] p[j]).id == d
}

/// Every name in `deps` is the id of an entry of `p` before position `k`.
pub open spec fn planned_before(deps: Seq<String>, p: Seq<PlannedView>, k: int) -> bool {
    forall|t: int| 0 <= t < deps.len() ==> planned_earlier(p, k, (#[trigger] deps[t])@)
}

/// Every dependency of the entry at `k` is planned at an earlier position.
pub open spec fn dependencies_before(m: Manifest, p: Seq<PlannedView>, k: int) -> bool {
    planned_before(task_of(m, p[k].id).depends_on@, p, k)
}

proof fn lemma_dependencies_before(m: Manifest, profile: Seq<char>, p: Seq<PlannedView>, k: int)
    requires
        0 <= k < p.len(),
        entry_ok(m, profile, p, k),
    ensures
        dependencies_before(m, p, k),
{
    let deps = task_of(m, p[k].id).depends_on@;
    assert forall|t: int| 0 <= t < deps.len() implies planned_earlier(p, k, (#[trigger] deps[t])@) by {
        assert(planned_ids(p.take(k)).contains(task_of(m, p[k].id).depends_on@[t]@));
        let x = deps[t]@;
        let j = choose|j: int| 0 <= j < p.take(k).len() && (#[trigger] p.take(k)[j]).id == x;
        assert(p[j] == p.take(k)[j]);
        assert(0 <= j < k && p[j].id == x);
    }
}

/// In a successful plan every dependency of a task comes before it, and every
/// task is declared and available in the selected profile.
pub proof fn law_plan_dependencies_first(m: Manifest, target: Seq<char>, profile: Seq<char>, supplied: Seq<(String, String)>)
    ensures
        match plan_result(m, target, profile, supplied) {
            Ok(p) => forall|k: int|
                0 <= k < p.len() ==> has_key(m.tasks@, (#[trigger] p[k]).id) && profile_allows(
                    task_of(m, p[k].id),
                    profile,
                ) && dependencies_before(m, p, k),
            Err(_) => true,
        },
{
    assert(plan_ok(m, profile, Set::empty(), Seq::empty())) by {
        assert(planned_ids(Seq::<PlannedView>::empty()) =~= Set::empty());
    }
    lemma_visit_result(m, target, profile, supplied, Set::empty(), Set::empty(), Seq::empty());
    match plan_result(m, target, profile, supplied) {
        Ok(p) => {
            assert forall|k: int| 0 <= k < p.len() implies has_key(m.tasks@, (#[trigger] p[k]).id)
                && profile_allows(task_of(m, p[k].id), profile) && dependencies_before(m, p, k) by {
                assert(entry_ok(m, profile, p, k));
                lemma_dependencies_before(m, profile, p, k);
            }
        },
        Err(_) => {},
    }
}

/// Parameters supplied for the requested task never reach its dependencies:
/// every other task of a successful plan is bound with defaults only.
pub proof fn law_parameters_stay_with_target(m: Manifest, target: Seq<char>, profile: Seq<char>, supplied: Seq<(String, String)>)
    ensures
        match plan_result(m, target, profile, supplied) {
            Ok(p) => forall|k: int| 0 <= k < p.len() - 1 ==> #[trigger] default_bound(m, p[k]),
            Err(_) => true,
        },
{
    assert(plan_ok(m, profile, Set::empty(), Seq::empty())) by {
        assert(planned_ids(Seq::<PlannedView>::empty()) =~= Set::empty());
    }
    lemma_visit_result(m, target, profile, supplied, Set::empty(), Set::empty(), Seq::empty());
}

/// Task `a` of `m` lists `b` among its dependencies.
pub open spec fn lists_dependency(m: Manifest, a: Seq<char>, b: Seq<char>) -> bool {
    exists|t: int| 0 <= t < task_of(m, a).depends_on@.len() && (#[trigger] task_of(m, a).depends_on@[t])@ == b
}

/// `path` starts at `target`, and each task on it lists the next as a dependency.
pub open spec fn dependency_chain(m: Manifest, target: Seq<char>, path: Seq<Seq<char>>) -> bool {
    &&& path.len() > 0
    &&& path[0] == target
    &&& forall|i: int| 0 <= i < path.len() - 1 ==> lists_dependency(m, #[trigger] path[i], path[i + 1])
}

proof fn lemma_chain_planned(m: Manifest, target: Seq<char>, p: Seq<PlannedView>, path: Seq<Seq<char>>, i: int)
    requires
        dependency_chain(m, target, path),
        0 <= i < path.len(),
        planned_ids(p).contains(target),
        forall|k: int| 0 <= k < p.len() ==> dependencies_before(m, p, k),
    ensures
        planned_ids(p).contains(path[i]),
    decreases i,
{
    if i > 0 {
        lemma_chain_planned(m, target, p, path, i - 1);
        let a = path[i - 1];
        let k = choose|k: int| 0 <= k < p.len() && (#[trigger] p[k]).id == a;
        assert(dependencies_before(m, p, k));
        assert(lists_dependency(m, path[i - 1], path[i]));
        let t = choose|t: int| 0 <= t < task_of(m, a).depends_on@.len() && (#[trigger] task_of(m, a).depends_on@[t])@ == path[i];
        assert(planned_earlier(p, k, task_of(m, p[k].id).depends_on@[t]@));
        let j = choose|j: int| 0 <= j < k && (#[trigger] p[j]).id == path[i];
        assert(p[j].id == path[i]);
    }
}

/// Task `a` needs task `b`: `b` is `a` or is reached from it through declared dependencies.
pub open spec fn reaches(m: Manifest, a: Seq<char>, b: Seq<char>) -> bool {
    exists|path: Seq<Seq<char>>| #[trigger] dependency_chain(m, a, path) && path.last() == b
}

proof fn lemma_reaches_self(m: Manifest, a: Seq<char>)
    ensures
        reaches(m, a, a),
{
    let path = seq![a];
    assert(dependency_chain(m, a, path));
}

proof fn lemma_reaches_through(m: Manifest, a: Seq<char>, b: Seq<char>, x: Seq<char>)
    requires
        lists_dependency(m, a, b),
        reaches(m, b, x),
    ensures
        reaches(m, a, x),
{
    let path = choose|path: Seq<Seq<char>>| #[trigger] dependency_chain(m, b, path) && path.last() == x;
    let q = seq![a] + path;
    assert forall|i: int| 0 <= i < q.len() - 1 implies lists_dependency(m, #[trigger] q[i], q[i + 1]) by {
        if i == 0 {
            assert(q[1] == path[0]);
        } else {
            assert(q[i] == path[i - 1]);
            assert(q[i + 1] == path[i]);
            assert(lists_dependency(m, path[i - 1], path[i]));
        }
    }
    assert(dependency_chain(m, a, q));
    assert(q.last() == x);
}

proof fn lemma_visit_result_reaches(
    m: Manifest,
    id: Seq<char>,
    profile: Seq<char>,
    supplied: Seq<(String, String)>,
    active: Set<Seq<char>>,
    done: Set<Seq<char>>,
    plan: Seq<PlannedView>,
)
    requires
        plan_ok(m, profile, done, plan),
    ensures
        visit_result(m, id, profile, supplied, active, done, plan) matches Ok((d, p)) ==> forall|k: int|
            plan.len() <= k < p.len() ==> reaches(m, id, #[trigger] p[k].id),
    decreases remaining(m, active), 0int,
{
    if !done.contains(id) && !active.contains(id) && has_key(m.tasks@, id) {
        let task = lookup(m.tasks@, id)->0;
        if profile_allows(task, profile) && !has_unknown(task, supplied) && !has_bad(task, supplied) {
            lemma_remaining_decreases(m, active, id);
            let a = active.insert(id);
            lemma_visit_all(m, task.depends_on@, 0, profile, a, done, plan);
            lemma_visit_all_reaches(m, id, task.depends_on@, 0, profile, a, done, plan);
            match visit_all(m, task.depends_on@, 0, profile, a, done, plan) {
                Err(_) => {},
                Ok((d, p)) => {
                    match substituted(id, views(task.command@), bound(task, supplied)) {
                        Err(_) => {},
                        Ok(command) => {
                            let q = p.push(planned_from(m, id, task, profile, command));
                            assert forall|k: int| plan.len() <= k < q.len() implies reaches(m, id, #[trigger] q[k].id) by {
                                if k < p.len() {
                                    assert(q[k] == p[k]);
                                } else {
                                    lemma_reaches_self(m, id);
                                }
                            }
                        },
                    }
                },
            }
        }
    }
}

proof fn lemma_visit_all_reaches(
    m: Manifest,
    id: Seq<char>,
    deps: Seq<String>,
    i: int,
    profile: Seq<char>,
    active: Set<Seq<char>>,
    done: Set<Seq<char>>,
    plan: Seq<PlannedView>,
)
    requires
        plan_ok(m, profile, done, plan),
        0 <= i,
        deps == task_of(m, id).depends_on@,
    ensures
        visit_all(m, deps, i, profile, active, done, plan) matches Ok((d, p)) ==> forall|k: int|
            plan.len() <= k < p.len() ==> reaches(m, id, #[trigger] p[k].id),
    decreases remaining(m, active), deps.len() - i,
{
    if i < deps.len() {
        lemma_visit_result(m, deps[i]@, profile, Seq::empty(), active, done, plan);
        lemma_visit_result_reaches(m, deps[i]@, profile, Seq::empty(), active, done, plan);
        match visit_result(m, deps[i]@, profile, Seq::empty(), active, done, plan) {
            Err(_) => {},
            Ok((d1, p1)) => {
                lemma_visit_all(m, deps, i + 1, profile, active, d1, p1);
                lemma_visit_all_reaches(m, id, deps, i + 1, profile, active, d1, p1);
                match visit_all(m, deps, i + 1, profile, active, d1, p1) {
                    Err(_) => {},
                    Ok((d2, p2)) => {
                        assert(lists_dependency(m, id, deps[i]@));
                        assert forall|k: int| plan.len() <= k < p2.len() implies reaches(m, id, #[trigger] p2[k].id) by {
                            if k < p1.len() {
                                assert(p2.take(p1.len() as int)[k] == p1[k]);
                                assert(p2[k] == p1[k]);
                                assert(reaches(m, deps[i]@, p1[k].id));
                                lemma_reaches_through(m, id, deps[i]@, p1[k].id);
                            }
                        }
                    },
                }
            },
        }
    }
}

/// A successful plan holds exactly the tasks the requested one needs: every
/// task reached from it through declared dependencies is planned, and every
/// planned task is so reached.
pub proof fn law_plan_holds_exactly_the_needed_tasks(
    m: Manifest,
    target: Seq<char>,
    profile: Seq<char>,
    supplied: Seq<(String, String)>,
    x: Seq<char>,
)
    ensures
        plan_result(m, target, profile, supplied) matches Ok(p) ==> (planned_ids(p).contains(x) <==> reaches(m, target, x)),
{
    law_plan_ends_with_target(m, target, profile, supplied);
    law_plan_dependencies_first(m, target, profile, supplied);
    assert(plan_ok(m, profile, Set::empty(), Seq::empty())) by {
        assert(planned_ids(Seq::<PlannedView>::empty()) =~= Set::empty());
    }
    lemma_visit_result_reaches(m, target, profile, supplied, Set::empty(), Set::empty(), Seq::empty());
    match plan_result(m, target, profile, supplied) {
        Ok(p) => {
            if reaches(m, target, x) {
                let path = choose|path: Seq<Seq<char>>| #[trigger] dependency_chain(m, target, path) && path.last() == x;
                assert(p[p.len() - 1].id == target);
                assert(planned_ids(p).contains(target));
                assert forall|k: int| 0 <= k < p.len() implies dependencies_before(m, p, k) by {
                    assert(has_key(m.tasks@, p[k].id));
                }
                lemma_chain_planned(m, target, p, path, path.len() - 1);
            }
            if planned_ids(p).contains(x) {
                let k = choose|k: int| 0 <= k < p.len() && (#[trigger] p[k]).id == x;
                assert(reaches(m, target, p[k].id));
            }
        },
        Err(_) => {},
    }
}

} // verus!
