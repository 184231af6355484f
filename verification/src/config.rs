//! Structural validation of a merged manifest and of supplied environment values.
use vstd::prelude::*;
use crate::keymap::{as_map, has_key, key_set, lemma_as_map_take, lookup, sorted_keys, KeyMap};
use crate::model::{value_accepted, Manifest, Parameter, Task, Variable, Visibility};
use crate::planning::{lemma_remaining_decreases, remaining};
use crate::text::{contains_text, join2, join3, join4, lemma_names_push, names, owned, same, starts_with};

verus! {

/// The first variable declaration that breaks a rule, from entry `i` on.
pub open spec fn variables_error(vars: Seq<(String, Variable)>, i: int) -> Option<Seq<char>>
    decreases vars.len() - i,
{
    if i < 0 || i >= vars.len() {
        None
    } else {
        let name = vars[i].0@;
        let v = vars[i].1;
        if v.browser_exposed && v.visibility != Visibility::Public {
            Some(name + ": browser exposure requires public visibility"@)
        } else if v.consumers@.len() == 0 {
            Some(name + ": declare at least one consumer"@)
        } else {
            variables_error(vars, i + 1)
        }
    }
}

/// The first dependency, from position `t` on, that names no declared task.
pub open spec fn unknown_dependency(m: Manifest, id: Seq<char>, deps: Seq<String>, t: int) -> Option<Seq<char>>
    decreases deps.len() - t,
{
    if t < 0 || t >= deps.len() {
        None
    } else if !has_key(m.tasks@, deps[t]@) {
        Some(id + ": unknown dependency "@ + deps[t]@)
    } else {
        unknown_dependency(m, id, deps, t + 1)
    }
}

/// The first parameter, from entry `j` on, whose default its type refuses.
pub open spec fn bad_default(id: Seq<char>, task: Task, j: int) -> Option<Seq<char>>
    decreases task.parameters@.len() - j,
{
    if j < 0 || j >= task.parameters@.len() {
        None
    } else {
        let p = task.parameters@[j].1;
        match p.default {
            Some(d) => if !value_accepted(p.kind, d@, p.values@) {
                Some(id + ": invalid default for parameter "@ + task.parameters@[j].0@)
            } else {
                bad_default(id, task, j + 1)
            },
            None => bad_default(id, task, j + 1),
        }
    }
}

/// The variable `name` is declared secret.
pub open spec fn is_secret(m: Manifest, name: Seq<char>) -> bool {
    match lookup(m.variables@, name) {
        Some(v) => v.visibility == Visibility::Secret,
        None => false,
    }
}

/// The first literal environment entry, from entry `j` on, that names a secret.
pub open spec fn secret_literal(m: Manifest, id: Seq<char>, task: Task, j: int) -> Option<Seq<char>>
    decreases task.environment@.len() - j,
{
    if j < 0 || j >= task.environment@.len() {
        None
    } else if is_secret(m, task.environment@[j].0@) {
        Some(id + ": secret "@ + task.environment@[j].0@ + " must come from the process environment"@)
    } else {
        secret_literal(m, id, task, j + 1)
    }
}

/// The first rule a task breaks, in the order the rules are checked.
pub open spec fn task_error(m: Manifest, id: Seq<char>, task: Task) -> Option<Seq<char>> {
    if task.command@.len() == 0 && task.depends_on@.len() == 0 {
        Some(id + ": task needs a command or dependencies"@)
    } else if task.command@.len() > 0 && task.command@[0]@.len() == 0 {
        Some(id + ": command executable cannot be empty"@)
    } else if unknown_dependency(m, id, task.depends_on@, 0).is_some() {
        unknown_dependency(m, id, task.depends_on@, 0)
    } else if bad_default(id, task, 0).is_some() {
        bad_default(id, task, 0)
    } else {
        secret_literal(m, id, task, 0)
    }
}

/// The first task, from entry `i` on, that breaks a rule.
pub open spec fn tasks_error(m: Manifest, i: int) -> Option<Seq<char>>
    decreases m.tasks@.len() - i,
{
    if i < 0 || i >= m.tasks@.len() {
        None
    } else {
        match task_error(m, m.tasks@[i].0@, m.tasks@[i].1) {
            Some(e) => Some(e),
            None => tasks_error(m, i + 1),
        }
    }
}

/// Every dependency of every task names a declared task.
pub open spec fn dependencies_declared(m: Manifest) -> bool {
    forall|i: int, t: int|
        0 <= i < m.tasks@.len() && 0 <= t < m.tasks@[i].1.depends_on@.len() ==> has_key(
            m.tasks@,
            (#[trigger] m.tasks@[i].1.depends_on@[t])@,
        )
}

/// Depth-first search for a dependency cycle through `id`.
pub open spec fn cycle_result(m: Manifest, id: Seq<char>, active: Set<Seq<char>>, done: Set<Seq<char>>) -> Result<Set<Seq<char>>, Seq<char>>
    decreases remaining(m, active), 0int,
{
    if done.contains(id) {
        Ok(done)
    } else if active.contains(id) {
        Err("Task dependency cycle at "@ + id)
    } else if !has_key(m.tasks@, id) {
        Ok(done)
    } else {
        proof {
            lemma_remaining_decreases(m, active, id);
        }
        match cycle_all(m, lookup(m.tasks@, id)->0.depends_on@, 0, active.insert(id), done) {
            Ok(d) => Ok(d.insert(id)),
            Err(e) => Err(e),
        }
    }
}

/// Searches the dependencies `deps[t..]` in order.
pub open spec fn cycle_all(m: Manifest, deps: Seq<String>, t: int, active: Set<Seq<char>>, done: Set<Seq<char>>) -> Result<Set<Seq<char>>, Seq<char>>
    decreases remaining(m, active), deps.len() - t,
{
    if t < 0 || t >= deps.len() {
        Ok(done)
    } else {
        match cycle_result(m, deps[t]@, active, done) {
            Ok(d) => cycle_all(m, deps, t + 1, active, d),
            Err(e) => Err(e),
        }
    }
}

/// Searches from every task, entry `i` on, sharing what is already known acyclic.
pub open spec fn cycles_from(m: Manifest, i: int, done: Set<Seq<char>>) -> Option<Seq<char>>
    decreases m.tasks@.len() - i,
{
    if i < 0 || i >= m.tasks@.len() {
        None
    } else {
        match cycle_result(m, m.tasks@[i].0@, Set::empty(), done) {
            Ok(d) => cycles_from(m, i + 1, d),
            Err(e) => Some(e),
        }
    }
}

/// The first rule the manifest breaks: variables first, then tasks, then cycles.
pub open spec fn validation_error(m: Manifest) -> Option<Seq<char>> {
    match variables_error(m.variables@, 0) {
        Some(e) => Some(e),
        None => match tasks_error(m, 0) {
            Some(e) => Some(e),
            None => cycles_from(m, 0, Set::empty()),
        },
    }
}

#[verifier::loop_isolation(false)]
fn task_check(manifest: &Manifest, id: &String, task: &Task) -> (r: Result<(), String>)
    ensures
        match task_error(*manifest, id@, *task) {
            Some(e) => r is Err && r->Err_0@ == e,
            None => r is Ok,
        },
{
    if task.command.len() == 0 && task.depends_on.len() == 0 {
        return Err(join2(id.as_str(), ": task needs a command or dependencies"));
    }
    if task.command.len() > 0 && task.command[0].as_str().unicode_len() == 0 {
        return Err(join2(id.as_str(), ": command executable cannot be empty"));
    }
    let mut t: usize = 0;
    while t < task.depends_on.len()
        invariant
            t <= task.depends_on@.len(),
            unknown_dependency(*manifest, id@, task.depends_on@, 0) == unknown_dependency(*manifest, id@, task.depends_on@, t as int),
        decreases task.depends_on@.len() - t,
    {
        if !manifest.tasks.contains_key(task.depends_on[t].as_str()) {
            return Err(join3(id.as_str(), ": unknown dependency ", task.depends_on[t].as_str()));
        }
        t = t + 1;
    }
    let mut j: usize = 0;
    while j < task.parameters.len()
        invariant
            j <= task.parameters@.len(),
            unknown_dependency(*manifest, id@, task.depends_on@, 0).is_none(),
            bad_default(id@, *task, 0) == bad_default(id@, *task, j as int),
        decreases task.parameters@.len() - j,
    {
        let p = task.parameters.value_at(j);
        match &p.default {
            Some(d) => {
                if !p.kind.accepts(d.as_str(), p.values.as_slice()) {
                    return Err(join3(id.as_str(), ": invalid default for parameter ", task.parameters.key_at(j).as_str()));
                }
            },
            None => {},
        }
        j = j + 1;
    }
    let mut k: usize = 0;
    while k < task.environment.len()
        invariant
            k <= task.environment@.len(),
            unknown_dependency(*manifest, id@, task.depends_on@, 0).is_none(),
            bad_default(id@, *task, 0).is_none(),
            secret_literal(*manifest, id@, *task, 0) == secret_literal(*manifest, id@, *task, k as int),
        decreases task.environment@.len() - k,
    {
        let name = task.environment.key_at(k);
        let secret = match manifest.variables.get(name.as_str()) {
            Some(v) => v.visibility == Visibility::Secret,
            None => false,
        };
        if secret {
            return Err(join4(id.as_str(), ": secret ", name.as_str(), " must come from the process environment"));
        }
        k = k + 1;
    }
    Ok(())
}

fn check_cycle(manifest: &Manifest, id: &str, active: &mut Vec<String>, done: &mut Vec<String>) -> (r: Result<(), String>)
    requires
        dependencies_declared(*manifest),
    ensures
        match cycle_result(*manifest, id@, names(old(active)@), names(old(done)@)) {
            Ok(d) => r is Ok && names(final(done)@) == d && final(active)@ == old(active)@,
            Err(e) => r is Err && r->Err_0@ == e,
        },
    decreases remaining(*manifest, names(old(active)@)), 0int,
{
    if contains_text(done.as_slice(), id) {
        return Ok(());
    }
    if contains_text(active.as_slice(), id) {
        return Err(join2("Task dependency cycle at ", id));
    }
    let task = match manifest.tasks.get(id) {
        Some(t) => t,
        None => {
            return Ok(());
        },
    };
    let ghost m = *manifest;
    let ghost active0 = active@;
    active.push(owned(id));
    proof {
        lemma_names_push(active0, active@.last());
        assert(active@ == active0.push(active@.last()));
        lemma_remaining_decreases(m, names(active0), id@);
    }
    let ghost a = names(active@);
    let ghost deps = task.depends_on@;
    let mut t: usize = 0;
    while t < task.depends_on.len()
        invariant
            deps == task.depends_on@,
            t <= deps.len(),
            m == *manifest,
            dependencies_declared(m),
            active0 == old(active)@,
            active@ == active0.push(active@.last()),
            a == names(active@),
            remaining(*manifest, names(active@)) < remaining(*manifest, names(old(active)@)),
            cycle_result(m, id@, names(old(active)@), names(old(done)@)) == match cycle_all(m, deps, t as int, a, names(done@)) {
                Ok(d) => Ok(d.insert(id@)),
                Err(e) => Err(e),
            },
        decreases deps.len() - t,
    {
        match check_cycle(manifest, task.depends_on[t].as_str(), active, done) {
            Ok(()) => {},
            Err(e) => {
                return Err(e);
            },
        }
        t = t + 1;
    }
    active.pop();
    let ghost done_before = done@;
    done.push(owned(id));
    proof {
        assert(active@ =~= active0);
        lemma_names_push(done_before, done@.last());
    }
    Ok(())
}

/// Checks the structural rules of a merged manifest. Diagnostics name the
/// offending task or variable.
pub fn validate(manifest: &Manifest) -> (r: Result<(), String>)
    ensures
        match validation_error(*manifest) {
            Some(e) => r is Err && r->Err_0@ == e,
            None => r is Ok,
        },
{
    let mut i: usize = 0;
    while i < manifest.variables.len()
        invariant
            i <= manifest.variables@.len(),
            variables_error(manifest.variables@, 0) == variables_error(manifest.variables@, i as int),
        decreases manifest.variables@.len() - i,
    {
        let name = manifest.variables.key_at(i);
        let v = manifest.variables.value_at(i);
        if v.browser_exposed && v.visibility != Visibility::Public {
            return Err(join2(name.as_str(), ": browser exposure requires public visibility"));
        }
        if v.consumers.len() == 0 {
            return Err(join2(name.as_str(), ": declare at least one consumer"));
        }
        i = i + 1;
    }
    let mut j: usize = 0;
    while j < manifest.tasks.len()
        invariant
            j <= manifest.tasks@.len(),
            variables_error(manifest.variables@, 0).is_none(),
            tasks_error(*manifest, 0) == tasks_error(*manifest, j as int),
            forall|a: int, t: int|
                0 <= a < j && 0 <= t < manifest.tasks@[a].1.depends_on@.len() ==> has_key(
                    manifest.tasks@,
                    (#[trigger] manifest.tasks@[a].1.depends_on@[t])@,
                ),
        decreases manifest.tasks@.len() - j,
    {
        match task_check(manifest, manifest.tasks.key_at(j), manifest.tasks.value_at(j)) {
            Ok(()) => {},
            Err(e) => {
                return Err(e);
            },
        }
        proof {
            let task = manifest.tasks@[j as int].1;
            let id = manifest.tasks@[j as int].0@;
            assert forall|t: int| 0 <= t < task.depends_on@.len() implies has_key(manifest.tasks@, (#[trigger] task.depends_on@[t])@) by {
                lemma_unknown_dependency_none(*manifest, id, task.depends_on@, 0, t);
            }
        }
        j = j + 1;
    }
    let mut done: Vec<String> = Vec::new();
    assert(names(done@) =~= Set::<Seq<char>>::empty());
    let mut k: usize = 0;
    while k < manifest.tasks.len()
        invariant
            k <= manifest.tasks@.len(),
            variables_error(manifest.variables@, 0).is_none(),
            tasks_error(*manifest, 0).is_none(),
            dependencies_declared(*manifest),
            cycles_from(*manifest, 0, Set::empty()) == cycles_from(*manifest, k as int, names(done@)),
        decreases manifest.tasks@.len() - k,
    {
        let mut active: Vec<String> = Vec::new();
        assert(names(active@) =~= Set::<Seq<char>>::empty());
        match check_cycle(manifest, manifest.tasks.key_at(k).as_str(), &mut active, &mut done) {
            Ok(()) => {},
            Err(e) => {
                return Err(e);
            },
        }
        k = k + 1;
    }
    Ok(())
}

proof fn lemma_unknown_dependency_none(m: Manifest, id: Seq<char>, deps: Seq<String>, s: int, t: int)
    requires
        0 <= s <= t < deps.len(),
        unknown_dependency(m, id, deps, s).is_none(),
    ensures
        has_key(m.tasks@, deps[t]@),
    decreases t - s,
{
    if s < t {
        lemma_unknown_dependency_none(m, id, deps, s + 1, t);
    }
}

/// A loaded project: its canonical root directory and validated manifest.
pub struct Project {
    pub root: String,
    pub manifest: Manifest,
}

impl Project {
    /// Loads the project rooted at `root` from its merged manifest, which must be valid.
    pub fn load(root: String, manifest: Manifest) -> (r: Result<Project, String>)
        ensures
            match validation_error(manifest) {
                Some(e) => r is Err && r->Err_0@ == e,
                None => r is Ok && r->Ok_0.root == root && r->Ok_0.manifest == manifest,
            },
    {
        match validate(&manifest) {
            Ok(()) => Ok(Project { root, manifest }),
            Err(e) => Err(e),
        }
    }
}

/// Every manifest file declares schema version 1.
pub fn check_schema(version: u32, path: &str) -> (r: Result<(), String>)
    ensures
        version == 1 ==> r is Ok,
        version != 1 ==> r is Err && r->Err_0@ == "Unsupported schema version in "@ + path@,
{
    if version != 1 {
        Err(join2("Unsupported schema version in ", path))
    } else {
        Ok(())
    }
}

/// `path` names `root` or something beneath it, comparing whole components.
pub open spec fn path_within(path: Seq<char>, root: Seq<char>) -> bool {
    ||| path == root
    ||| (root.len() > 0 && root.last() == '/' && root.len() <= path.len() && path.take(root.len() as int) == root)
    ||| (root.len() + 1 <= path.len() && path.take(root.len() as int) == root && path[root.len() as int] == '/')
}

/// Whether the canonical `path` lies inside the canonical `root`.
pub fn within(path: &str, root: &str) -> (r: bool)
    ensures
        r == path_within(path@, root@),
{
    let n = path.unicode_len();
    let m = root.unicode_len();
    if same(path, root) {
        return true;
    }
    if !starts_with(path, root) {
        return false;
    }
    if m > 0 && root.get_char(m - 1) == '/' {
        return true;
    }
    m < n && path.get_char(m) == '/'
}

/// Admits a manifest file for loading: it must lie inside the project and must
/// not have been loaded before. Admitted paths are remembered in `visited`.
pub fn admit_fragment(path: &str, root: &str, visited: &mut Vec<String>) -> (r: Result<(), String>)
    ensures
        !path_within(path@, root@) ==> r is Err && r->Err_0@ == "Manifest includes must stay inside the project"@
            && final(visited)@ == old(visited)@,
        path_within(path@, root@) && names(old(visited)@).contains(path@) ==> r is Err && r->Err_0@
            == "Repeated or cyclic include: "@ + path@ && final(visited)@ == old(visited)@,
        path_within(path@, root@) && !names(old(visited)@).contains(path@) ==> r is Ok
            && names(final(visited)@) == names(old(visited)@).insert(path@),
{
    if !within(path, root) {
        return Err(owned("Manifest includes must stay inside the project"));
    }
    if contains_text(visited.as_slice(), path) {
        return Err(join2("Repeated or cyclic include: ", path));
    }
    let ghost before = visited@;
    visited.push(owned(path));
    proof {
        lemma_names_push(before, visited@.last());
    }
    Ok(())
}

/// The first key of `extra`, from entry `i` on, already present in `base`.
pub open spec fn first_duplicate<T>(base: Seq<(String, T)>, extra: Seq<(String, T)>, i: int) -> Option<Seq<char>>
    decreases extra.len() - i,
{
    if i < 0 || i >= extra.len() {
        None
    } else if has_key(base, extra[i].0@) {
        Some(extra[i].0@)
    } else {
        first_duplicate(base, extra, i + 1)
    }
}

/// Moves every entry of `extra` into `base`; a key present in both is refused.
fn merge_disjoint<T>(base: &mut KeyMap<T>, extra: KeyMap<T>) -> (r: Result<(), String>)
    ensures
        match first_duplicate(old(base)@, extra@, 0) {
            Some(k) => r is Err && r->Err_0@ == k,
            None => r is Ok && as_map(final(base)@) == as_map(old(base)@).union_prefer_right(as_map(extra@)),
        },
{
    extra.note_sorted();
    let ghost all = extra@;
    let ghost start = base@;
    let mut entries = extra.into_entries();
    let n = entries.len();
    let mut i: usize = 0;
    assert(entries@.skip(0) =~= all);
    assert(key_set(base@) =~= key_set(start).union(key_set(all.take(0))));
    assert(as_map(all.take(0)) =~= Map::<Seq<char>, T>::empty());
    assert(as_map(start) =~= as_map(start).union_prefer_right(as_map(all.take(0))));
    while i < n
        invariant
            n == all.len(),
            all == extra@,
            start == old(base)@,
            sorted_keys(all),
            i <= n,
            entries@ == all.skip(i as int),
            first_duplicate(start, all, 0) == first_duplicate(start, all, i as int),
            as_map(base@) == as_map(start).union_prefer_right(as_map(all.take(i as int))),
            key_set(base@) == key_set(start).union(key_set(all.take(i as int))),
        decreases n - i,
    {
        let (key, value) = entries.remove(0);
        assert(all[i as int] == (key, value));
        proof {
            if has_key(all.take(i as int), key@) {
                let p = crate::keymap::position(all.take(i as int), key@);
                assert(all.take(i as int)[p] == all[p]);
                assert(crate::text::key_lt(all[p].0@, all[i as int].0@));
                crate::text::lemma_lex_order_zero(all[p].0@, key@);
            }
        }
        if base.contains_key(key.as_str()) {
            assert(key_set(base@).contains(key@));
            assert(has_key(start, key@));
            return Err(key);
        }
        assert(!key_set(base@).contains(key@));
        assert(!has_key(start, key@));
        let ghost kv = key@;
        let ghost before = base@;
        base.insert(key, value);
        proof {
            assert(forall|q: Seq<char>| has_key(base@, q) <==> (q == kv || has_key(before, q)));
            lemma_as_map_take(all, i as int);
            assert(as_map(base@) =~= as_map(start).union_prefer_right(as_map(all.take(i + 1))));
            assert forall|q: Seq<char>| #[trigger] key_set(base@).contains(q) <==> key_set(start).union(key_set(all.take(i + 1))).contains(q) by {
                let next = all.take(i + 1);
                let prev = all.take(i as int);
                assert(has_key(base@, q) <==> (q == kv || has_key(before, q)));
                assert(key_set(before).contains(q) <==> key_set(start).union(key_set(prev)).contains(q));
                assert(kv == all[i as int].0@);
                if has_key(next, q) {
                    let p = crate::keymap::position(next, q);
                    if p < i {
                        assert(prev[p] == next[p]);
                        assert(has_key(prev, q));
                    } else {
                        assert(next[p] == all[p]);
                    }
                }
                if has_key(prev, q) {
                    let p = crate::keymap::position(prev, q);
                    assert(next[p] == prev[p]);
                }
                if q == kv {
                    assert(next[i as int] == all[i as int]);
                    assert(next[i as int].0@ == q);
                }
            }
            assert(key_set(base@) =~= key_set(start).union(key_set(all.take(i + 1))));
            assert(entries@ =~= all.skip(i + 1));
        }
        i = i + 1;
    }
    assert(all.take(n as int) =~= all);
    Ok(())
}

/// Merges an included manifest's tasks and variables into `manifest`.
/// Includes merge disjoint definitions: a task or variable declared twice is refused.
pub fn merge_fragment(manifest: &mut Manifest, fragment: Manifest) -> (r: Result<(), String>)
    ensures
        match first_duplicate(old(manifest).tasks@, fragment.tasks@, 0) {
            Some(k) => r is Err && r->Err_0@ == "Duplicate task: "@ + k,
            None => match first_duplicate(old(manifest).variables@, fragment.variables@, 0) {
                Some(k) => r is Err && r->Err_0@ == "Duplicate variable: "@ + k,
                None => r is Ok
                    && as_map(final(manifest).tasks@) == as_map(old(manifest).tasks@).union_prefer_right(as_map(fragment.tasks@))
                    && as_map(final(manifest).variables@) == as_map(old(manifest).variables@).union_prefer_right(
                        as_map(fragment.variables@),
                    ) && final(manifest).profiles == old(manifest).profiles
                    && final(manifest).tools == old(manifest).tools
                    && final(manifest).schema_version == old(manifest).schema_version
                    && final(manifest).includes == old(manifest).includes,
            },
        },
{
    let Manifest { schema_version: _, includes: _, tasks, variables, profiles: _, tools: _ } = fragment;
    match merge_disjoint(&mut manifest.tasks, tasks) {
        Ok(()) => {},
        Err(k) => {
            return Err(join2("Duplicate task: ", k.as_str()));
        },
    }
    match merge_disjoint(&mut manifest.variables, variables) {
        Ok(()) => {},
        Err(k) => {
            return Err(join2("Duplicate variable: ", k.as_str()));
        },
    }
    Ok(())
}

/// Validates supplied environment values against the declarations without
/// echoing any value: each diagnostic names only the variable.
pub fn validate_environment(manifest: &Manifest, profile: &str, values: &KeyMap<String>) -> (r: Result<(), String>)
    ensures
        match environment_error(*manifest, profile@, values@, 0) {
            Some(e) => r is Err && r->Err_0@ == e,
            None => r is Ok,
        },
{
    let mut i: usize = 0;
    while i < manifest.variables.len()
        invariant
            i <= manifest.variables@.len(),
            environment_error(*manifest, profile@, values@, 0) == environment_error(*manifest, profile@, values@, i as int),
        decreases manifest.variables@.len() - i,
    {
        let name = manifest.variables.key_at(i);
        let contract = manifest.variables.value_at(i);
        match values.get(name.as_str()) {
            None => {
                if contains_text(contract.required_in.as_slice(), profile) {
                    return Err(join3(name.as_str(), ": required for profile ", profile));
                }
            },
            Some(value) => {
                if !contract.kind.accepts(value.as_str(), contract.values.as_slice()) {
                    return Err(join2(name.as_str(), ": invalid value for declared type"));
                }
            },
        }
        i = i + 1;
    }
    Ok(())
}

/// The variable is required in `profile`.
pub open spec fn required_in(v: Variable, profile: Seq<char>) -> bool {
    exists|i: int| 0 <= i < v.required_in@.len() && (#[trigger] v.required_in@[i])@ == profile
}

/// The first declared variable, from entry `i` on, whose supplied value is
/// missing though required, or refused by its type.
pub open spec fn environment_error(m: Manifest, profile: Seq<char>, values: Seq<(String, String)>, i: int) -> Option<Seq<char>>
    decreases m.variables@.len() - i,
{
    if i < 0 || i >= m.variables@.len() {
        None
    } else {
        let name = m.variables@[i].0@;
        let c = m.variables@[i].1;
        match lookup(values, name) {
            None => if required_in(c, profile) {
                Some(name + ": required for profile "@ + profile)
            } else {
                environment_error(m, profile, values, i + 1)
            },
            Some(v) => if !value_accepted(c.kind, v@, c.values@) {
                Some(name + ": invalid value for declared type"@)
            } else {
                environment_error(m, profile, values, i + 1)
            },
        }
    }
}

proof fn lemma_tasks_error_none(m: Manifest, i: int, j: int)
    requires
        0 <= i <= j < m.tasks@.len(),
        tasks_error(m, i).is_none(),
    ensures
        task_error(m, m.tasks@[j].0@, m.tasks@[j].1).is_none(),
    decreases j - i,
{
    if i < j {
        lemma_tasks_error_none(m, i + 1, j);
    }
}

/// A manifest that validates names only declared tasks as dependencies, and
/// stores no declared secret as a literal task value.
pub proof fn law_valid_manifests_are_closed_and_keep_secrets_out(m: Manifest, i: int, t: int)
    requires
        validation_error(m).is_none(),
        0 <= i < m.tasks@.len(),
        0 <= t < m.tasks@[i].1.depends_on@.len(),
    ensures
        has_key(m.tasks@, m.tasks@[i].1.depends_on@[t]@),
        secret_literal(m, m.tasks@[i].0@, m.tasks@[i].1, 0).is_none(),
{
    lemma_tasks_error_none(m, 0, i);
    lemma_unknown_dependency_none(m, m.tasks@[i].0@, m.tasks@[i].1.depends_on@, 0, t);
}

/// Task `a` is declared and lists `b` among its dependencies.
pub open spec fn depends(m: Manifest, a: Seq<char>, b: Seq<char>) -> bool {
    has_key(m.tasks@, a) && exists|t: int|
        0 <= t < lookup(m.tasks@, a)->0.depends_on@.len() && (#[trigger] lookup(m.tasks@, a)->0.depends_on@[t])@ == b
}

/// `path` follows dependencies and comes back to where it started.
pub open spec fn dependency_cycle(m: Manifest, path: Seq<Seq<char>>) -> bool {
    &&& path.len() >= 2
    &&& path[0] == path.last()
    &&& forall|i: int| 0 <= i < path.len() - 1 ==> depends(m, #[trigger] path[i], path[i + 1])
}

/// Every element of `path` is in `s`.
pub open spec fn all_in(s: Set<Seq<char>>, path: Seq<Seq<char>>) -> bool {
    forall|i: int| 0 <= i < path.len() ==> s.contains(#[trigger] path[i])
}

/// The declared dependencies of the tasks in `s` are in `s` too.
pub open spec fn closed(m: Manifest, s: Set<Seq<char>>) -> bool {
    forall|a: Seq<char>, b: Seq<char>| #![trigger s.contains(a), depends(m, a, b)]
        s.contains(a) && depends(m, a, b) && has_key(m.tasks@, b) ==> s.contains(b)
}

/// No dependency cycle lies entirely in `s`.
pub open spec fn acyclic(m: Manifest, s: Set<Seq<char>>) -> bool {
    forall|path: Seq<Seq<char>>| #[trigger] dependency_cycle(m, path) ==> !all_in(s, path)
}

/// Along a cycle, once the path is in a closed set it stays there.
proof fn lemma_cycle_stays(m: Manifest, s: Set<Seq<char>>, path: Seq<Seq<char>>, j: int, k: int)
    requires
        closed(m, s),
        dependency_cycle(m, path),
        0 <= j <= k < path.len(),
        s.contains(path[j]),
    ensures
        s.contains(path[k]),
    decreases k - j,
{
    if j < k {
        assert(depends(m, path[j], path[j + 1]));
        let next = j + 1;
        if next < path.len() - 1 {
            assert(depends(m, path[next], path[next + 1]));
        } else {
            assert(depends(m, path[0], path[1]));
        }
        assert(has_key(m.tasks@, path[j + 1]));
        lemma_cycle_stays(m, s, path, j + 1, k);
    }
}

/// Adding a task whose declared dependencies are all in a closed acyclic set keeps it so.
proof fn lemma_extend_acyclic(m: Manifest, d: Set<Seq<char>>, id: Seq<char>)
    requires
        closed(m, d),
        acyclic(m, d),
        !d.contains(id),
        forall|b: Seq<char>| depends(m, id, b) && has_key(m.tasks@, b) ==> d.contains(b),
    ensures
        closed(m, d.insert(id)),
        acyclic(m, d.insert(id)),
{
    let e = d.insert(id);
    assert forall|a: Seq<char>, b: Seq<char>| #![trigger e.contains(a), depends(m, a, b)]
        e.contains(a) && depends(m, a, b) && has_key(m.tasks@, b) implies e.contains(b) by {
        if a != id {
            assert(d.contains(a));
        }
    }
    assert forall|path: Seq<Seq<char>>| #[trigger] dependency_cycle(m, path) implies !all_in(e, path) by {
        if all_in(e, path) {
            if all_in(d, path) {
                assert(!all_in(d, path));
            } else {
                let k = choose|k: int| 0 <= k < path.len() && !d.contains(#[trigger] path[k]);
                assert(path[k] == id);
                let k0 = if k == path.len() - 1 { 0 } else { k };
                assert(path[k0] == id);
                assert(depends(m, path[k0], path[k0 + 1]));
                let n = k0 + 1;
                if n < path.len() - 1 {
                    assert(depends(m, path[n], path[n + 1]));
                } else {
                    assert(depends(m, path[0], path[1]));
                }
                assert(d.contains(path[k0 + 1]));
                lemma_cycle_stays(m, d, path, k0 + 1, path.len() - 1);
                lemma_cycle_stays(m, d, path, 0, k0);
            }
        }
    }
}

proof fn lemma_cycle_result(m: Manifest, id: Seq<char>, active: Set<Seq<char>>, done: Set<Seq<char>>)
    requires
        closed(m, done),
        acyclic(m, done),
        forall|x: Seq<char>| active.contains(x) ==> !done.contains(x),
    ensures
        cycle_result(m, id, active, done) matches Ok(d) ==> {
            &&& done.subset_of(d)
            &&& closed(m, d)
            &&& acyclic(m, d)
            &&& forall|x: Seq<char>| active.contains(x) ==> !d.contains(x)
            &&& (has_key(m.tasks@, id) ==> d.contains(id))
        },
    decreases remaining(m, active), 0int,
{
    if !done.contains(id) && !active.contains(id) && has_key(m.tasks@, id) {
        lemma_remaining_decreases(m, active, id);
        let deps = lookup(m.tasks@, id)->0.depends_on@;
        lemma_cycle_all(m, deps, 0, active.insert(id), done);
        match cycle_all(m, deps, 0, active.insert(id), done) {
            Ok(d) => {
                assert forall|b: Seq<char>| depends(m, id, b) && has_key(m.tasks@, b) implies d.contains(b) by {
                    let t = choose|t: int| 0 <= t < deps.len() && (#[trigger] deps[t])@ == b;
                }
                assert(!d.contains(id));
                lemma_extend_acyclic(m, d, id);
            },
            Err(_) => {},
        }
    }
}

proof fn lemma_cycle_all(m: Manifest, deps: Seq<String>, t: int, active: Set<Seq<char>>, done: Set<Seq<char>>)
    requires
        0 <= t,
        closed(m, done),
        acyclic(m, done),
        forall|x: Seq<char>| active.contains(x) ==> !done.contains(x),
    ensures
        cycle_all(m, deps, t, active, done) matches Ok(d) ==> {
            &&& done.subset_of(d)
            &&& closed(m, d)
            &&& acyclic(m, d)
            &&& forall|x: Seq<char>| active.contains(x) ==> !d.contains(x)
            &&& forall|u: int| t <= u < deps.len() && has_key(m.tasks@, (#[trigger] deps[u])@) ==> d.contains(deps[u]@)
        },
    decreases remaining(m, active), deps.len() - t,
{
    if 0 <= t < deps.len() {
        lemma_cycle_result(m, deps[t]@, active, done);
        match cycle_result(m, deps[t]@, active, done) {
            Ok(d1) => {
                lemma_cycle_all(m, deps, t + 1, active, d1);
                match cycle_all(m, deps, t + 1, active, d1) {
                    Ok(d) => {
                        assert(d1.subset_of(d));
                        assert forall|u: int| t <= u < deps.len() && has_key(m.tasks@, (#[trigger] deps[u])@) implies d.contains(deps[u]@) by {
                            if u == t {
                                assert(d1.contains(deps[t]@));
                            }
                        }
                    },
                    Err(_) => {},
                }
            },
            Err(_) => {},
        }
    }
}

proof fn lemma_cycles_from(m: Manifest, i: int, done: Set<Seq<char>>, path: Seq<Seq<char>>)
    requires
        0 <= i,
        closed(m, done),
        acyclic(m, done),
        forall|j: int| 0 <= j < i && j < m.tasks@.len() ==> done.contains(#[trigger] m.tasks@[j].0@),
        cycles_from(m, i, done).is_none(),
    ensures
        !dependency_cycle(m, path),
    decreases m.tasks@.len() - i,
{
    if i < m.tasks@.len() {
        let id = m.tasks@[i].0@;
        lemma_cycle_result(m, id, Set::empty(), done);
        let d = cycle_result(m, id, Set::empty(), done)->Ok_0;
        assert(has_key(m.tasks@, id));
        lemma_cycles_from(m, i + 1, d, path);
    } else if dependency_cycle(m, path) {
        assert forall|k: int| 0 <= k < path.len() implies done.contains(#[trigger] path[k]) by {
            let k0 = if k == path.len() - 1 { 0 } else { k };
            assert(depends(m, path[k0], path[k0 + 1]));
            let p = choose|p: int| 0 <= p < m.tasks@.len() && (#[trigger] m.tasks@[p]).0@ == path[k0];
            assert(done.contains(m.tasks@[p].0@));
        }
        assert(all_in(done, path));
    }
}

/// Dependency cycles are errors: a manifest that validates has no task that
/// depends on itself, directly or through other tasks.
pub proof fn law_valid_manifests_have_no_dependency_cycles(m: Manifest, path: Seq<Seq<char>>)
    requires
        validation_error(m).is_none(),
    ensures
        !dependency_cycle(m, path),
{
    let empty = Set::<Seq<char>>::empty();
    assert(closed(m, empty));
    assert(acyclic(m, empty)) by {
        assert forall|p: Seq<Seq<char>>| #[trigger] dependency_cycle(m, p) implies !all_in(empty, p) by {
            assert(!empty.contains(p[0]));
        }
    }
    lemma_cycles_from(m, 0, empty, path);
}

/// The rules on one variable declaration: only public variables are exposed
/// to browsers, and at least one consumer is declared.
pub open spec fn variable_follows_rules(v: Variable) -> bool {
    &&& (v.browser_exposed ==> v.visibility == Visibility::Public)
    &&& v.consumers@.len() > 0
}

/// A parameter's default, if it has one, has the parameter's type.
pub open spec fn default_accepted(p: Parameter) -> bool {
    match p.default {
        Some(d) => value_accepted(p.kind, d@, p.values@),
        None => true,
    }
}

/// The rules on one task of `m`: it has a command or dependencies, its
/// executable is not empty, its dependencies are declared tasks, its parameter
/// defaults have their declared types, and no literal names a secret.
pub open spec fn task_follows_rules(m: Manifest, task: Task) -> bool {
    &&& !(task.command@.len() == 0 && task.depends_on@.len() == 0)
    &&& (task.command@.len() > 0 ==> task.command@[0]@.len() > 0)
    &&& forall|t: int| 0 <= t < task.depends_on@.len() ==> has_key(m.tasks@, (#[trigger] task.depends_on@[t])@)
    &&& forall|j: int| 0 <= j < task.parameters@.len() ==> default_accepted(#[trigger] task.parameters@[j].1)
    &&& forall|j: int| 0 <= j < task.environment@.len() ==> !is_secret(m, (#[trigger] task.environment@[j]).0@)
}

proof fn lemma_variables_error_exactly(vars: Seq<(String, Variable)>, i: int)
    requires
        0 <= i,
    ensures
        variables_error(vars, i).is_none() <==> forall|j: int| i <= j < vars.len() ==> variable_follows_rules(#[trigger] vars[j].1),
    decreases vars.len() - i,
{
    if i < vars.len() {
        lemma_variables_error_exactly(vars, i + 1);
    }
}

proof fn lemma_unknown_dependency_exactly(m: Manifest, id: Seq<char>, deps: Seq<String>, t: int)
    requires
        0 <= t,
    ensures
        unknown_dependency(m, id, deps, t).is_none() <==> forall|u: int| t <= u < deps.len() ==> has_key(m.tasks@, (#[trigger] deps[u])@),
    decreases deps.len() - t,
{
    if t < deps.len() {
        lemma_unknown_dependency_exactly(m, id, deps, t + 1);
    }
}

proof fn lemma_bad_default_exactly(id: Seq<char>, task: Task, j: int)
    requires
        0 <= j,
    ensures
        bad_default(id, task, j).is_none() <==> forall|k: int| j <= k < task.parameters@.len() ==> default_accepted(#[trigger] task.parameters@[k].1),
    decreases task.parameters@.len() - j,
{
    if j < task.parameters@.len() {
        lemma_bad_default_exactly(id, task, j + 1);
    }
}

proof fn lemma_secret_literal_exactly(m: Manifest, id: Seq<char>, task: Task, j: int)
    requires
        0 <= j,
    ensures
        secret_literal(m, id, task, j).is_none() <==> forall|k: int| j <= k < task.environment@.len() ==> !is_secret(m, (#[trigger] task.environment@[k]).0@),
    decreases task.environment@.len() - j,
{
    if j < task.environment@.len() {
        lemma_secret_literal_exactly(m, id, task, j + 1);
    }
}

proof fn lemma_task_error_exactly(m: Manifest, id: Seq<char>, task: Task)
    ensures
        task_error(m, id, task).is_none() <==> task_follows_rules(m, task),
{
    lemma_unknown_dependency_exactly(m, id, task.depends_on@, 0);
    lemma_bad_default_exactly(id, task, 0);
    lemma_secret_literal_exactly(m, id, task, 0);
}

proof fn lemma_tasks_error_exactly(m: Manifest, i: int)
    requires
        0 <= i,
    ensures
        tasks_error(m, i).is_none() <==> forall|j: int| i <= j < m.tasks@.len() ==> task_follows_rules(m, (#[trigger] m.tasks@[j]).1),
    decreases m.tasks@.len() - i,
{
    if i < m.tasks@.len() {
        lemma_task_error_exactly(m, m.tasks@[i].0@, m.tasks@[i].1);
        lemma_tasks_error_exactly(m, i + 1);
    }
}

/// `stack` is a path of dependencies holding exactly the tasks of `active`,
/// and its last task depends on `id`.
spec fn search_path(m: Manifest, stack: Seq<Seq<char>>, active: Set<Seq<char>>, id: Seq<char>) -> bool {
    &&& forall|x: Seq<char>| active.contains(x) <==> stack.contains(x)
    &&& forall|i: int| 0 <= i < stack.len() - 1 ==> depends(m, #[trigger] stack[i], stack[i + 1])
    &&& stack.len() > 0 ==> depends(m, stack.last(), id)
}

/// The search reports a cycle only where one exists.
proof fn lemma_cycle_result_found(
    m: Manifest,
    id: Seq<char>,
    active: Set<Seq<char>>,
    done: Set<Seq<char>>,
    stack: Seq<Seq<char>>,
)
    requires
        search_path(m, stack, active, id),
        cycle_result(m, id, active, done) is Err,
    ensures
        exists|path: Seq<Seq<char>>| #[trigger] dependency_cycle(m, path),
    decreases remaining(m, active), 0int,
{
    if done.contains(id) {
    } else if active.contains(id) {
        let k = choose|k: int| 0 <= k < stack.len() && stack[k] == id;
        let path = stack.subrange(k, stack.len() as int).push(id);
        assert forall|i: int| 0 <= i < path.len() - 1 implies depends(m, #[trigger] path[i], path[i + 1]) by {
            if i < path.len() - 2 {
                assert(depends(m, stack[k + i], stack[k + i + 1]));
            }
        }
        assert(dependency_cycle(m, path));
    } else if has_key(m.tasks@, id) {
        lemma_remaining_decreases(m, active, id);
        let deps = lookup(m.tasks@, id)->0.depends_on@;
        let next = stack.push(id);
        assert forall|i: int| 0 <= i < next.len() - 1 implies depends(m, #[trigger] next[i], next[i + 1]) by {
            if i < stack.len() - 1 {
                assert(depends(m, stack[i], stack[i + 1]));
            }
        }
        assert forall|x: Seq<char>| active.insert(id).contains(x) <==> next.contains(x) by {
            if stack.contains(x) {
                let j = choose|j: int| 0 <= j < stack.len() && stack[j] == x;
                assert(next[j] == x);
            }
            if next.contains(x) && x != id {
                let j = choose|j: int| 0 <= j < next.len() && next[j] == x;
                assert(stack[j] == x);
            }
            if x == id {
                assert(next[stack.len() as int] == id);
            }
        }
        lemma_cycle_all_found(m, id, deps, 0, active.insert(id), done, next);
    }
}

proof fn lemma_cycle_all_found(
    m: Manifest,
    id: Seq<char>,
    deps: Seq<String>,
    t: int,
    active: Set<Seq<char>>,
    done: Set<Seq<char>>,
    stack: Seq<Seq<char>>,
)
    requires
        has_key(m.tasks@, id),
        deps == lookup(m.tasks@, id)->0.depends_on@,
        stack.len() > 0,
        stack.last() == id,
        forall|x: Seq<char>| active.contains(x) <==> stack.contains(x),
        forall|i: int| 0 <= i < stack.len() - 1 ==> depends(m, #[trigger] stack[i], stack[i + 1]),
        cycle_all(m, deps, t, active, done) is Err,
    ensures
        exists|path: Seq<Seq<char>>| #[trigger] dependency_cycle(m, path),
    decreases remaining(m, active), deps.len() - t,
{
    if 0 <= t < deps.len() {
        assert(depends(m, id, deps[t]@));
        match cycle_result(m, deps[t]@, active, done) {
            Ok(d) => {
                lemma_cycle_all_found(m, id, deps, t + 1, active, d, stack);
            },
            Err(_) => {
                lemma_cycle_result_found(m, deps[t]@, active, done, stack);
            },
        }
    }
}

proof fn lemma_cycles_from_found(m: Manifest, i: int, done: Set<Seq<char>>)
    requires
        cycles_from(m, i, done).is_some(),
    ensures
        exists|path: Seq<Seq<char>>| #[trigger] dependency_cycle(m, path),
    decreases m.tasks@.len() - i,
{
    if 0 <= i < m.tasks@.len() {
        let id = m.tasks@[i].0@;
        match cycle_result(m, id, Set::empty(), done) {
            Ok(d) => {
                lemma_cycles_from_found(m, i + 1, d);
            },
            Err(_) => {
                let stack = Seq::<Seq<char>>::empty();
                assert(search_path(m, stack, Set::empty(), id));
                lemma_cycle_result_found(m, id, Set::empty(), done, stack);
            },
        }
    }
}

/// A manifest validates exactly when every variable and every task follows
/// its rules and no task depends on itself, directly or through others.
pub proof fn law_validation_accepts_exactly_the_rule_abiding_manifests(m: Manifest)
    ensures
        validation_error(m).is_none() <==> {
            &&& forall|i: int| 0 <= i < m.variables@.len() ==> variable_follows_rules(#[trigger] m.variables@[i].1)
            &&& forall|i: int| 0 <= i < m.tasks@.len() ==> task_follows_rules(m, (#[trigger] m.tasks@[i]).1)
            &&& forall|path: Seq<Seq<char>>| !#[trigger] dependency_cycle(m, path)
        },
{
    lemma_variables_error_exactly(m.variables@, 0);
    lemma_tasks_error_exactly(m, 0);
    if validation_error(m).is_none() {
        assert forall|path: Seq<Seq<char>>| !#[trigger] dependency_cycle(m, path) by {
            law_valid_manifests_have_no_dependency_cycles(m, path);
        }
    }
    if cycles_from(m, 0, Set::empty()).is_some() {
        lemma_cycles_from_found(m, 0, Set::empty());
    }
}

/// The supplied values satisfy declared variable `entry` in `profile`: a
/// missing value is allowed only when it is not required, and a supplied one
/// must have the declared type, required or not.
pub open spec fn value_satisfies(entry: (String, Variable), profile: Seq<char>, values: Seq<(String, String)>) -> bool {
    &&& lookup(values, entry.0@) is None ==> !required_in(entry.1, profile)
    &&& lookup(values, entry.0@) matches Some(v) ==> value_accepted(entry.1.kind, v@, entry.1.values@)
}

proof fn lemma_environment_error_exactly(m: Manifest, profile: Seq<char>, values: Seq<(String, String)>, i: int)
    requires
        0 <= i,
    ensures
        environment_error(m, profile, values, i).is_none() <==> forall|j: int|
            i <= j < m.variables@.len() ==> value_satisfies(#[trigger] m.variables@[j], profile, values),
    decreases m.variables@.len() - i,
{
    if i < m.variables@.len() {
        lemma_environment_error_exactly(m, profile, values, i + 1);
    }
}

/// Supplied values pass exactly when every declared variable is satisfied: a
/// value refused by its variable's type is an error whether or not the
/// variable is required in the profile, and a missing value is an error only
/// where it is required.
pub proof fn law_values_pass_exactly_when_every_variable_is_satisfied(
    m: Manifest,
    profile: Seq<char>,
    values: Seq<(String, String)>,
)
    ensures
        environment_error(m, profile, values, 0).is_none() <==> forall|j: int|
            0 <= j < m.variables@.len() ==> value_satisfies(#[trigger] m.variables@[j], profile, values),
{
    lemma_environment_error_exactly(m, profile, values, 0);
}

} // verus!
