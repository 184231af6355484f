//! Explicit environment resolution and consumer-scoped injection.
use vstd::prelude::*;
use crate::keymap::{as_map, has_key, lemma_unique_position, lookup, position, sorted_keys, KeyMap};
use crate::model::{value_accepted, Manifest, PlannedTask, Variable, Visibility};
use crate::config::required_in;
use crate::text::{chars_of, contains_text, decimal, decimal_text, find_char, join2, join3, join5, trim, trim_bounds, views};

verus! {

/// `c` may start an environment variable name: an ASCII letter or `_`.
pub open spec fn is_name_start(c: char) -> bool {
    (65 <= (c as u32) <= 90) || (97 <= (c as u32) <= 122) || (c as u32) == 95
}

/// `c` may continue an environment variable name: an ASCII letter, digit or `_`.
pub open spec fn is_name_char(c: char) -> bool {
    is_name_start(c) || (48 <= (c as u32) <= 57)
}

/// `s` matches `[A-Za-z_][A-Za-z0-9_]*`.
pub open spec fn is_valid_name(s: Seq<char>) -> bool {
    &&& s.len() > 0
    &&& is_name_start(s[0])
    &&& forall|i: int| 1 <= i < s.len() ==> is_name_char(#[trigger] s[i])
}

/// Whether `name` is a portable environment variable name.
pub fn valid_name(name: &str) -> (r: bool)
    ensures
        r == is_valid_name(name@),
{
    let n = name.unicode_len();
    if n == 0 {
        return false;
    }
    let first = name.get_char(0) as u32;
    if !((65 <= first && first <= 90) || (97 <= first && first <= 122) || first == 95) {
        return false;
    }
    let mut i: usize = 1;
    while i < n
        invariant
            n == name@.len(),
            1 <= i <= n,
            forall|j: int| 1 <= j < i ==> is_name_char(#[trigger] name@[j]),
        decreases n - i,
    {
        let c = name.get_char(i) as u32;
        if !((65 <= c && c <= 90) || (97 <= c && c <= 122) || c == 95 || (48 <= c && c <= 57)) {
            assert(!is_name_char(name@[i as int]));
            return false;
        }
        i = i + 1;
    }
    true
}

/// Operating-system facilities that subprocesses need, unless declared as variables.
pub open spec fn os_keys() -> Seq<Seq<char>> {
    seq![
        "PATH"@,
        "HOME"@,
        "TMPDIR"@,
        "TMP"@,
        "TEMP"@,
        "LANG"@,
        "LC_ALL"@,
        "SYSTEMROOT"@,
        "WINDIR"@,
    ]
}

/// The task consumes the variable: they share a consumer name.
pub open spec fn consumes(v: Variable, task: PlannedTask) -> bool {
    exists|i: int, j: int|
        0 <= i < v.consumers@.len() && 0 <= j < task.consumers@.len() && (#[trigger] v.consumers@[i])@
            == (#[trigger] task.consumers@[j])@
}

/// Copies the operating-system keys from `keys[i..]` that are not declared variables.
pub open spec fn with_os(m: Manifest, source: Seq<(String, String)>, keys: Seq<Seq<char>>, i: int, env: Map<Seq<char>, String>) -> Map<Seq<char>, String>
    decreases keys.len() - i,
{
    if i < 0 || i >= keys.len() {
        env
    } else if !has_key(m.variables@, keys[i]) && has_key(source, keys[i]) {
        with_os(m, source, keys, i + 1, env.insert(keys[i], lookup(source, keys[i])->0))
    } else {
        with_os(m, source, keys, i + 1, env)
    }
}

/// Copies the explicitly passed keys from `pass[i..]` that the source holds.
pub open spec fn with_passed(source: Seq<(String, String)>, pass: Seq<String>, i: int, env: Map<Seq<char>, String>) -> Map<Seq<char>, String>
    decreases pass.len() - i,
{
    if i < 0 || i >= pass.len() {
        env
    } else if has_key(source, pass[i]@) {
        with_passed(source, pass, i + 1, env.insert(pass[i]@, lookup(source, pass[i]@)->0))
    } else {
        with_passed(source, pass, i + 1, env)
    }
}

/// Adds the declared variables from entry `i` on that the task consumes: the
/// task's literal value, else the source value, which must have the declared
/// type; a required variable with neither is an error.
pub open spec fn with_declared(
    m: Manifest,
    task: PlannedTask,
    profile: Seq<char>,
    source: Seq<(String, String)>,
    i: int,
    env: Map<Seq<char>, String>,
) -> Result<Map<Seq<char>, String>, Seq<char>>
    decreases m.variables@.len() - i,
{
    if i < 0 || i >= m.variables@.len() {
        Ok(env)
    } else {
        let name = m.variables@[i].0@;
        let v = m.variables@[i].1;
        if !consumes(v, task) {
            with_declared(m, task, profile, source, i + 1, env)
        } else {
            let value = match lookup(task.environment@, name) {
                Some(x) => Some(x),
                None => lookup(source, name),
            };
            match value {
                Some(x) => if !value_accepted(v.kind, x@, v.values@) {
                    Err(name + ": invalid value for task "@ + task.id@)
                } else {
                    with_declared(m, task, profile, source, i + 1, env.insert(name, x))
                },
                None => if required_in(v, profile) {
                    Err(name + ": required by task "@ + task.id@ + " in profile "@ + profile)
                } else {
                    with_declared(m, task, profile, source, i + 1, env)
                },
            }
        }
    }
}

/// Adds the task's literal values from entry `i` on; a literal for a declared
/// variable the task does not consume is an error.
pub open spec fn with_literals(m: Manifest, task: PlannedTask, i: int, env: Map<Seq<char>, String>) -> Result<Map<Seq<char>, String>, Seq<char>>
    decreases task.environment@.len() - i,
{
    if i < 0 || i >= task.environment@.len() {
        Ok(env)
    } else {
        let name = task.environment@[i].0@;
        match lookup(m.variables@, name) {
            Some(v) => if !consumes(v, task) {
                Err(task.id@ + ": not a consumer of "@ + name)
            } else {
                with_literals(m, task, i + 1, env.insert(name, task.environment@[i].1))
            },
            None => with_literals(m, task, i + 1, env.insert(name, task.environment@[i].1)),
        }
    }
}

/// The environment a task runs with, or the first error.
pub open spec fn resolved(m: Manifest, task: PlannedTask, profile: Seq<char>, source: Seq<(String, String)>) -> Result<Map<Seq<char>, String>, Seq<char>> {
    let base = with_passed(source, task.pass_environment@, 0, with_os(m, source, os_keys(), 0, Map::empty()));
    match with_declared(m, task, profile, source, 0, base) {
        Err(e) => Err(e),
        Ok(env) => with_literals(m, task, 0, env),
    }
}

fn consumer_of(variable: &Variable, task: &PlannedTask) -> (r: bool)
    ensures
        r == consumes(*variable, *task),
{
    let mut i: usize = 0;
    while i < variable.consumers.len()
        invariant
            i <= variable.consumers@.len(),
            forall|a: int, b: int|
                0 <= a < i && 0 <= b < task.consumers@.len() ==> (#[trigger] variable.consumers@[a])@
                    != (#[trigger] task.consumers@[b])@,
        decreases variable.consumers@.len() - i,
    {
        if contains_text(task.consumers.as_slice(), variable.consumers[i].as_str()) {
            return true;
        }
        i = i + 1;
    }
    false
}

/// Resolves the environment of a task: operating-system facilities, explicitly
/// passed keys, the declared variables the task consumes, then its literals.
/// Application values reach a task only through these routes.
pub fn resolve(manifest: &Manifest, task: &PlannedTask, profile: &str, source: &KeyMap<String>) -> (r: Result<KeyMap<String>, String>)
    ensures
        match resolved(*manifest, *task, profile@, source@) {
            Ok(env) => r is Ok && as_map(r->Ok_0@) == env,
            Err(e) => r is Err && r->Err_0@ == e,
        },
{
    let mut environment: KeyMap<String> = KeyMap::new();
    let keys = vec!["PATH", "HOME", "TMPDIR", "TMP", "TEMP", "LANG", "LC_ALL", "SYSTEMROOT", "WINDIR"];
    let ghost ks = os_keys();
    assert(keys@.map_values(|k: &str| k@) =~= ks);
    let mut i: usize = 0;
    while i < keys.len()
        invariant
            i <= keys@.len(),
            keys@.len() == ks.len(),
            forall|t: int| 0 <= t < ks.len() ==> (#[trigger] keys@[t])@ == ks[t],
            with_os(*manifest, source@, ks, 0, Map::empty()) == with_os(*manifest, source@, ks, i as int, as_map(environment@)),
        decreases keys@.len() - i,
    {
        let key = keys[i];
        assert(key@ == ks[i as int]);
        if !manifest.variables.contains_key(key) {
            match source.get(key) {
                Some(value) => {
                    environment.insert(String::from_str(key), value.clone());
                },
                None => {},
            }
        }
        i = i + 1;
    }
    let ghost after_os = as_map(environment@);
    assert(after_os == with_os(*manifest, source@, ks, 0, Map::empty()));
    let mut j: usize = 0;
    while j < task.pass_environment.len()
        invariant
            j <= task.pass_environment@.len(),
            with_passed(source@, task.pass_environment@, 0, after_os) == with_passed(source@, task.pass_environment@, j as int, as_map(environment@)),
        decreases task.pass_environment@.len() - j,
    {
        let key = &task.pass_environment[j];
        match source.get(key.as_str()) {
            Some(value) => {
                environment.insert(key.clone(), value.clone());
            },
            None => {},
        }
        j = j + 1;
    }
    let ghost base = as_map(environment@);
    assert(base == with_passed(source@, task.pass_environment@, 0, after_os));
    let mut k: usize = 0;
    while k < manifest.variables.len()
        invariant
            k <= manifest.variables@.len(),
            base == with_passed(source@, task.pass_environment@, 0, with_os(*manifest, source@, os_keys(), 0, Map::empty())),
            with_declared(*manifest, *task, profile@, source@, 0, base) == with_declared(*manifest, *task, profile@, source@, k as int, as_map(environment@)),
        decreases manifest.variables@.len() - k,
    {
        let name = manifest.variables.key_at(k);
        let variable = manifest.variables.value_at(k);
        if consumer_of(variable, task) {
            let value = match task.environment.get(name.as_str()) {
                Some(x) => Some(x),
                None => source.get(name.as_str()),
            };
            match value {
                Some(x) => {
                    if !variable.kind.accepts(x.as_str(), variable.values.as_slice()) {
                        return Err(join3(name.as_str(), ": invalid value for task ", task.id.as_str()));
                    }
                    environment.insert(name.clone(), x.clone());
                },
                None => {
                    if contains_text(variable.required_in.as_slice(), profile) {
                        return Err(join5(name.as_str(), ": required by task ", task.id.as_str(), " in profile ", profile));
                    }
                },
            }
        }
        k = k + 1;
    }
    let ghost declared = as_map(environment@);
    assert(with_declared(*manifest, *task, profile@, source@, 0, base) == Ok::<Map<Seq<char>, String>, Seq<char>>(declared));
    let mut t: usize = 0;
    while t < task.environment.len()
        invariant
            t <= task.environment@.len(),
            resolved(*manifest, *task, profile@, source@) == with_literals(*manifest, *task, 0, declared),
            with_literals(*manifest, *task, 0, declared) == with_literals(*manifest, *task, t as int, as_map(environment@)),
        decreases task.environment@.len() - t,
    {
        let name = task.environment.key_at(t);
        match manifest.variables.get(name.as_str()) {
            Some(variable) => {
                if !consumer_of(variable, task) {
                    return Err(join3(task.id.as_str(), ": not a consumer of ", name.as_str()));
                }
            },
            None => {},
        }
        environment.insert(name.clone(), task.environment.value_at(t).clone());
        t = t + 1;
    }
    Ok(environment)
}

/// The non-empty source values of the secret variables from entry `i` on, in key order.
pub open spec fn secret_values(m: Manifest, source: Seq<(String, String)>, i: int) -> Seq<String>
    decreases m.variables@.len() - i,
{
    if i < 0 || i >= m.variables@.len() {
        Seq::empty()
    } else if m.variables@[i].1.visibility == Visibility::Secret && has_key(source, m.variables@[i].0@)
        && lookup(source, m.variables@[i].0@)->0@.len() > 0 {
        seq![lookup(source, m.variables@[i].0@)->0] + secret_values(m, source, i + 1)
    } else {
        secret_values(m, source, i + 1)
    }
}

/// The values of declared secrets present in `source`, for output redaction.
pub fn secrets(manifest: &Manifest, source: &KeyMap<String>) -> (r: Vec<String>)
    ensures
        r@ == secret_values(*manifest, source@, 0),
{
    let mut r: Vec<String> = Vec::new();
    let mut i: usize = 0;
    while i < manifest.variables.len()
        invariant
            i <= manifest.variables@.len(),
            secret_values(*manifest, source@, 0) == r@ + secret_values(*manifest, source@, i as int),
        decreases manifest.variables@.len() - i,
    {
        let ghost before = r@;
        if manifest.variables.value_at(i).visibility == Visibility::Secret {
            match source.get(manifest.variables.key_at(i).as_str()) {
                Some(value) => {
                    if value.as_str().unicode_len() > 0 {
                        r.push(value.clone());
                        assert(before + secret_values(*manifest, source@, i as int) =~= r@ + secret_values(*manifest, source@, i + 1));
                    }
                },
                None => {},
            }
        }
        i = i + 1;
    }
    assert(r@ + Seq::<String>::empty() =~= r@);
    r
}


/// The end of the line that starts at `i`: the next newline, or the end of `s`.
pub open spec fn line_end(s: Seq<char>, i: int) -> int
    decreases s.len() - i,
{
    if i < 0 || i >= s.len() {
        s.len() as int
    } else if s[i] == '\n' {
        i
    } else {
        line_end(s, i + 1)
    }
}

pub proof fn lemma_line_end(s: Seq<char>, i: int)
    requires
        0 <= i <= s.len(),
    ensures
        i <= line_end(s, i) <= s.len(),
    decreases s.len() - i,
{
    if i < s.len() && s[i] != '\n' {
        lemma_line_end(s, i + 1);
    }
}

/// What line `number` of an environment file says: nothing (blank or a
/// comment), an assignment `NAME=value` with white space trimmed and one pair
/// of matching quotes removed, or the error that rejects it.
pub open spec fn line_result(line: Seq<char>, number: nat) -> Result<Option<(Seq<char>, Seq<char>)>, Seq<char>> {
    let t = trim(line);
    if t.len() == 0 || t[0] == '#' {
        Ok(None)
    } else {
        let eq = find_char(t, '=', 0);
        if eq < 0 {
            Err("Invalid environment assignment on line "@ + decimal(number))
        } else {
            let name = trim(t.subrange(0, eq));
            let value = trim(t.subrange(eq + 1, t.len() as int));
            if !is_valid_name(name) {
                Err("Invalid environment name on line "@ + decimal(number))
            } else if value.len() > 0 && (value[0] == '"' || value[0] == '\'') {
                if value.len() < 2 || value[0] != value.last() {
                    Err("Unclosed quote on line "@ + decimal(number))
                } else {
                    Ok(Some((name, value.subrange(1, value.len() - 1))))
                }
            } else {
                Ok(Some((name, value)))
            }
        }
    }
}

/// The assignments of the lines of `s` from position `start` (line `number`)
/// on, added to `acc`; a name assigned twice is an error.
pub open spec fn assignments_from(s: Seq<char>, start: int, number: nat, acc: Map<Seq<char>, Seq<char>>) -> Result<Map<Seq<char>, Seq<char>>, Seq<char>>
    decreases s.len() + 1 - start,
{
    if start < 0 || start > s.len() {
        Ok(acc)
    } else {
        let end = line_end(s, start);
        proof {
            lemma_line_end(s, start);
        }
        match line_result(s.subrange(start, end), number) {
            Err(e) => Err(e),
            Ok(None) => assignments_from(s, end + 1, number + 1, acc),
            Ok(Some(entry)) => if acc.dom().contains(entry.0) {
                Err("Duplicate environment name "@ + entry.0)
            } else {
                assignments_from(s, end + 1, number + 1, acc.insert(entry.0, entry.1))
            },
        }
    }
}

/// The assignments of an environment file.
pub open spec fn assignments(s: Seq<char>) -> Result<Map<Seq<char>, Seq<char>>, Seq<char>> {
    assignments_from(s, 0, 1, Map::empty())
}

/// The text of each value of `m`.
pub open spec fn string_views(m: Map<Seq<char>, String>) -> Map<Seq<char>, Seq<char>> {
    Map::new(|k: Seq<char>| m.dom().contains(k), |k: Seq<char>| m[k]@)
}

/// The first index of `c` within `cs[a..e]`, or `e`.
fn find_in(cs: &Vec<char>, c: char, a: usize, e: usize) -> (r: usize)
    requires
        a <= e <= cs@.len(),
    ensures
        a <= r <= e,
        r < e ==> find_char(cs@.subrange(a as int, e as int), c, 0) == r - a,
        r == e ==> find_char(cs@.subrange(a as int, e as int), c, 0) == -1,
{
    let ghost t = cs@.subrange(a as int, e as int);
    let mut i = a;
    while i < e && cs[i] != c
        invariant
            a <= i <= e <= cs@.len(),
            t == cs@.subrange(a as int, e as int),
            find_char(t, c, 0) == find_char(t, c, i - a),
        decreases e - i,
    {
        i = i + 1;
    }
    i
}

/// Reads one line, `cs[a..e]`, numbered `number`, of the environment file `source`.
fn read_line(source: &str, cs: &Vec<char>, a: usize, e: usize, index: usize) -> (r: Result<Option<(String, String)>, String>)
    requires
        cs@ == source@,
        a <= e <= cs@.len(),
        index < usize::MAX,
    ensures
        match line_result(cs@.subrange(a as int, e as int), (index + 1) as nat) {
            Ok(None) => r == Ok::<Option<(String, String)>, String>(None),
            Ok(Some(entry)) => r matches Ok(Some(p)) && p.0@ == entry.0 && p.1@ == entry.1,
            Err(msg) => r matches Err(m) && m@ == msg,
        },
{
    let ghost line = cs@.subrange(a as int, e as int);
    let (ta, te) = trim_bounds(cs, a, e);
    let ghost t = cs@.subrange(ta as int, te as int);
    if ta == te || cs[ta] == '#' {
        return Ok(None);
    }
    let q = find_in(cs, '=', ta, te);
    if q == te {
        let n = decimal_text(index + 1);
        return Err(join2("Invalid environment assignment on line ", n.as_str()));
    }
    let (na, ne) = trim_bounds(cs, ta, q);
    let (va, ve) = trim_bounds(cs, q + 1, te);
    assert(t.subrange(0, q - ta) =~= cs@.subrange(ta as int, q as int));
    assert(t.subrange(q - ta + 1, t.len() as int) =~= cs@.subrange(q + 1, te as int));
    let name = source.substring_char(na, ne);
    if !valid_name(name) {
        let n = decimal_text(index + 1);
        return Err(join2("Invalid environment name on line ", n.as_str()));
    }
    if va < ve && (cs[va] == '"' || cs[va] == '\'') {
        if ve - va < 2 || cs[va] != cs[ve - 1] {
            let n = decimal_text(index + 1);
            return Err(join2("Unclosed quote on line ", n.as_str()));
        }
        let value = source.substring_char(va + 1, ve - 1);
        assert(cs@.subrange(va as int, ve as int).subrange(1, ve - va - 1) =~= cs@.subrange(va + 1, ve - 1));
        return Ok(Some((String::from_str(name), String::from_str(value))));
    }
    let value = source.substring_char(va, ve);
    Ok(Some((String::from_str(name), String::from_str(value))))
}

/// Parses an environment file: `NAME=value` lines, blank lines and `#` comments.
pub fn parse_assignments(source: &str) -> (r: Result<KeyMap<String>, String>)
    ensures
        match assignments(source@) {
            Ok(m) => r is Ok && string_views(as_map(r->Ok_0@)) == m,
            Err(e) => r is Err && r->Err_0@ == e,
        },
{
    let cs = chars_of(source);
    let n = cs.len();
    let mut result: KeyMap<String> = KeyMap::new();
    let mut start: usize = 0;
    let mut index: usize = 0;
    assert(string_views(as_map(result@)) =~= Map::<Seq<char>, Seq<char>>::empty());
    while start < n
        invariant
            cs@ == source@,
            n == cs@.len(),
            start <= n,
            index <= start,
            assignments(source@) == assignments_from(cs@, start as int, (index + 1) as nat, string_views(as_map(result@))),
        decreases n + 1 - start,
    {
        let end = find_in(&cs, '\n', start, n);
        proof {
            lemma_line_end_find(cs@, start as int, start as int);
        }
        let line = read_line(source, &cs, start, end, index);
        match line {
            Err(e) => {
                return Err(e);
            },
            Ok(None) => {},
            Ok(Some(entry)) => {
                let (name, value) = entry;
                if result.contains_key(name.as_str()) {
                    return Err(join2("Duplicate environment name ", name.as_str()));
                }
                let ghost before = as_map(result@);
                result.insert(name, value);
                assert(string_views(as_map(result@)) =~= string_views(before).insert(name@, value@));
            },
        }
        assert(assignments(source@) == assignments_from(cs@, end + 1, (index + 2) as nat, string_views(as_map(result@))));
        if end == n {
            return Ok(result);
        }
        start = end + 1;
        index = index + 1;
    }
    assert(trim(cs@.subrange(n as int, n as int)) =~= Seq::<char>::empty());
    assert(line_end(cs@, n as int) == n);
    assert(line_result(cs@.subrange(n as int, n as int), (index + 1) as nat) == Ok::<Option<(Seq<char>, Seq<char>)>, Seq<char>>(None));
    assert(assignments_from(cs@, n + 1, (index + 2) as nat, string_views(as_map(result@))) == Ok::<Map<Seq<char>, Seq<char>>, Seq<char>>(string_views(as_map(result@))));
    Ok(result)
}

/// The end of a line is where the first newline after its start stands.
proof fn lemma_line_end_find(s: Seq<char>, start: int, i: int)
    requires
        0 <= start <= i <= s.len(),
    ensures
        find_char(s.subrange(start, s.len() as int), '\n', i - start) < 0 ==> line_end(s, i) == s.len(),
        find_char(s.subrange(start, s.len() as int), '\n', i - start) >= 0 ==> line_end(s, i) == start + find_char(s.subrange(start, s.len() as int), '\n', i - start),
    decreases s.len() - i,
{
    if i < s.len() && s[i] != '\n' {
        lemma_line_end_find(s, start, i + 1);
    }
}

/// The source environment: the assignments of an environment file, when one
/// is given, overridden by the process environment.
pub fn load(file: Option<&str>, process: &KeyMap<String>) -> (r: Result<KeyMap<String>, String>)
    ensures
        match file {
            None => r is Ok && string_views(as_map(r->Ok_0@)) == string_views(as_map(process@)),
            Some(text) => match assignments(text@) {
                Ok(m) => r is Ok && string_views(as_map(r->Ok_0@)) == m.union_prefer_right(string_views(as_map(process@))),
                Err(e) => r is Err && r->Err_0@ == e,
            },
        },
{
    let mut result = match file {
        Some(text) => match parse_assignments(text) {
            Ok(m) => m,
            Err(e) => {
                return Err(e);
            },
        },
        None => KeyMap::new(),
    };
    let ghost before = as_map(result@);
    result.extend_from(process);
    assert(string_views(as_map(result@)) =~= string_views(before).union_prefer_right(string_views(as_map(process@))));
    Ok(result)
}

proof fn lemma_with_os_skips_declared(m: Manifest, source: Seq<(String, String)>, keys: Seq<Seq<char>>, i: int, env: Map<Seq<char>, String>, k: Seq<char>)
    requires
        has_key(m.variables@, k),
    ensures
        with_os(m, source, keys, i, env).dom().contains(k) == env.dom().contains(k),
    decreases keys.len() - i,
{
    if 0 <= i < keys.len() {
        if !has_key(m.variables@, keys[i]) && has_key(source, keys[i]) {
            lemma_with_os_skips_declared(m, source, keys, i + 1, env.insert(keys[i], lookup(source, keys[i])->0), k);
        } else {
            lemma_with_os_skips_declared(m, source, keys, i + 1, env, k);
        }
    }
}

proof fn lemma_with_passed_skips_others(source: Seq<(String, String)>, pass: Seq<String>, i: int, env: Map<Seq<char>, String>, k: Seq<char>)
    requires
        forall|j: int| 0 <= j < pass.len() ==> (#[trigger] pass[j])@ != k,
    ensures
        with_passed(source, pass, i, env).dom().contains(k) == env.dom().contains(k),
    decreases pass.len() - i,
{
    if 0 <= i < pass.len() {
        if has_key(source, pass[i]@) {
            lemma_with_passed_skips_others(source, pass, i + 1, env.insert(pass[i]@, lookup(source, pass[i]@)->0), k);
        } else {
            lemma_with_passed_skips_others(source, pass, i + 1, env, k);
        }
    }
}

proof fn lemma_with_declared_skips_unconsumed(
    m: Manifest,
    task: PlannedTask,
    profile: Seq<char>,
    source: Seq<(String, String)>,
    i: int,
    env: Map<Seq<char>, String>,
    k: Seq<char>,
)
    requires
        sorted_keys(m.variables@),
        lookup(m.variables@, k) matches Some(v) && !consumes(v, task),
        with_declared(m, task, profile, source, i, env) is Ok,
    ensures
        with_declared(m, task, profile, source, i, env)->Ok_0.dom().contains(k) == env.dom().contains(k),
    decreases m.variables@.len() - i,
{
    if 0 <= i < m.variables@.len() {
        let name = m.variables@[i].0@;
        let v = m.variables@[i].1;
        if name == k {
            lemma_unique_position(m.variables@, i);
        }
        if !consumes(v, task) {
            lemma_with_declared_skips_unconsumed(m, task, profile, source, i + 1, env, k);
        } else {
            let value = match lookup(task.environment@, name) {
                Some(x) => Some(x),
                None => lookup(source, name),
            };
            match value {
                Some(x) => {
                    lemma_with_declared_skips_unconsumed(m, task, profile, source, i + 1, env.insert(name, x), k);
                },
                None => {
                    lemma_with_declared_skips_unconsumed(m, task, profile, source, i + 1, env, k);
                },
            }
        }
    }
}

proof fn lemma_with_literals_skips_unconsumed(m: Manifest, task: PlannedTask, i: int, env: Map<Seq<char>, String>, k: Seq<char>)
    requires
        lookup(m.variables@, k) matches Some(v) && !consumes(v, task),
        with_literals(m, task, i, env) is Ok,
    ensures
        with_literals(m, task, i, env)->Ok_0.dom().contains(k) == env.dom().contains(k),
    decreases task.environment@.len() - i,
{
    if 0 <= i < task.environment@.len() {
        let name = task.environment@[i].0@;
        lemma_with_literals_skips_unconsumed(m, task, i + 1, env.insert(name, task.environment@[i].1), k);
    }
}

proof fn lemma_with_literals_keeps(m: Manifest, task: PlannedTask, i: int, env: Map<Seq<char>, String>, j: int)
    requires
        sorted_keys(task.environment@),
        with_literals(m, task, i, env) is Ok,
        0 <= j < task.environment@.len(),
        j < i ==> env.dom().contains(task.environment@[j].0@) && env[task.environment@[j].0@] == task.environment@[j].1,
        0 <= i,
    ensures
        with_literals(m, task, i, env)->Ok_0.dom().contains(task.environment@[j].0@),
        with_literals(m, task, i, env)->Ok_0[task.environment@[j].0@] == task.environment@[j].1,
    decreases task.environment@.len() - i,
{
    if i < task.environment@.len() {
        let name = task.environment@[i].0@;
        if j != i {
            lemma_unique_position(task.environment@, j);
            lemma_unique_position(task.environment@, i);
        }
        lemma_with_literals_keeps(m, task, i + 1, env.insert(name, task.environment@[i].1), j);
    }
}

/// A declared variable reaches a task only through the task's consumers or an
/// explicit pass-through: when the task consumes none of the variable's
/// consumers and does not pass the name through, its resolved environment
/// holds no entry for it.
pub proof fn law_unconsumed_variables_stay_out(
    m: Manifest,
    task: PlannedTask,
    profile: Seq<char>,
    source: Seq<(String, String)>,
    k: Seq<char>,
)
    requires
        sorted_keys(m.variables@),
        lookup(m.variables@, k) matches Some(v) && !consumes(v, task),
        forall|j: int| 0 <= j < task.pass_environment@.len() ==> (#[trigger] task.pass_environment@[j])@ != k,
        resolved(m, task, profile, source) is Ok,
    ensures
        !resolved(m, task, profile, source)->Ok_0.dom().contains(k),
{
    let empty = Map::<Seq<char>, String>::empty();
    let after_os = with_os(m, source, os_keys(), 0, empty);
    lemma_with_os_skips_declared(m, source, os_keys(), 0, empty, k);
    let base = with_passed(source, task.pass_environment@, 0, after_os);
    lemma_with_passed_skips_others(source, task.pass_environment@, 0, after_os, k);
    lemma_with_declared_skips_unconsumed(m, task, profile, source, 0, base, k);
    let declared = with_declared(m, task, profile, source, 0, base)->Ok_0;
    lemma_with_literals_skips_unconsumed(m, task, 0, declared, k);
}

/// A task's literal environment values always reach it unchanged.
pub proof fn law_literals_reach_the_task(
    m: Manifest,
    task: PlannedTask,
    profile: Seq<char>,
    source: Seq<(String, String)>,
    j: int,
)
    requires
        sorted_keys(task.environment@),
        0 <= j < task.environment@.len(),
        resolved(m, task, profile, source) is Ok,
    ensures
        resolved(m, task, profile, source)->Ok_0.dom().contains(task.environment@[j].0@),
        resolved(m, task, profile, source)->Ok_0[task.environment@[j].0@] == task.environment@[j].1,
{
    let base = with_passed(source, task.pass_environment@, 0, with_os(m, source, os_keys(), 0, Map::empty()));
    let declared = with_declared(m, task, profile, source, 0, base)->Ok_0;
    lemma_with_literals_keeps(m, task, 0, declared, j);
}

/// The ways a key may enter a task's environment: an operating-system
/// facility that is no declared variable, a key the task passes through, a
/// declared variable the task consumes, or one of the task's literals; the
/// first two only when the source holds the key.
pub open spec fn has_route(m: Manifest, task: PlannedTask, source: Seq<(String, String)>, k: Seq<char>) -> bool {
    ||| (os_keys().contains(k) && !has_key(m.variables@, k) && has_key(source, k))
    ||| (views(task.pass_environment@).contains(k) && has_key(source, k))
    ||| (lookup(m.variables@, k) matches Some(v) && consumes(v, task))
    ||| has_key(task.environment@, k)
}

proof fn lemma_os_route(m: Manifest, source: Seq<(String, String)>, keys: Seq<Seq<char>>, i: int, env: Map<Seq<char>, String>, k: Seq<char>)
    requires
        0 <= i,
        with_os(m, source, keys, i, env).dom().contains(k),
    ensures
        env.dom().contains(k) || (keys.contains(k) && !has_key(m.variables@, k) && has_key(source, k)),
    decreases keys.len() - i,
{
    if i < keys.len() {
        if !has_key(m.variables@, keys[i]) && has_key(source, keys[i]) {
            lemma_os_route(m, source, keys, i + 1, env.insert(keys[i], lookup(source, keys[i])->0), k);
        } else {
            lemma_os_route(m, source, keys, i + 1, env, k);
        }
    }
}

proof fn lemma_passed_route(source: Seq<(String, String)>, pass: Seq<String>, i: int, env: Map<Seq<char>, String>, k: Seq<char>)
    requires
        0 <= i,
        with_passed(source, pass, i, env).dom().contains(k),
    ensures
        env.dom().contains(k) || (views(pass).contains(k) && has_key(source, k)),
    decreases pass.len() - i,
{
    if i < pass.len() {
        if has_key(source, pass[i]@) {
            lemma_passed_route(source, pass, i + 1, env.insert(pass[i]@, lookup(source, pass[i]@)->0), k);
            if k == pass[i]@ {
                assert(views(pass)[i] == k);
            }
        } else {
            lemma_passed_route(source, pass, i + 1, env, k);
        }
    }
}

proof fn lemma_declared_route(
    m: Manifest,
    task: PlannedTask,
    profile: Seq<char>,
    source: Seq<(String, String)>,
    i: int,
    env: Map<Seq<char>, String>,
    k: Seq<char>,
)
    requires
        0 <= i,
        sorted_keys(m.variables@),
        with_declared(m, task, profile, source, i, env) is Ok,
        with_declared(m, task, profile, source, i, env)->Ok_0.dom().contains(k),
    ensures
        env.dom().contains(k) || (lookup(m.variables@, k) matches Some(v) && consumes(v, task)),
    decreases m.variables@.len() - i,
{
    if i < m.variables@.len() {
        let name = m.variables@[i].0@;
        let v = m.variables@[i].1;
        if !consumes(v, task) {
            lemma_declared_route(m, task, profile, source, i + 1, env, k);
        } else {
            let value = match lookup(task.environment@, name) {
                Some(x) => Some(x),
                None => lookup(source, name),
            };
            match value {
                Some(x) => {
                    lemma_declared_route(m, task, profile, source, i + 1, env.insert(name, x), k);
                    if k == name {
                        lemma_unique_position(m.variables@, i);
                    }
                },
                None => {
                    lemma_declared_route(m, task, profile, source, i + 1, env, k);
                },
            }
        }
    }
}

proof fn lemma_literal_route(m: Manifest, task: PlannedTask, i: int, env: Map<Seq<char>, String>, k: Seq<char>)
    requires
        0 <= i,
        with_literals(m, task, i, env) is Ok,
        with_literals(m, task, i, env)->Ok_0.dom().contains(k),
    ensures
        env.dom().contains(k) || has_key(task.environment@, k),
    decreases task.environment@.len() - i,
{
    if i < task.environment@.len() {
        let name = task.environment@[i].0@;
        lemma_literal_route(m, task, i + 1, env.insert(name, task.environment@[i].1), k);
        if k == name {
            assert(task.environment@[i].0@ == k);
        }
    }
}

/// Every key of a resolved environment arrived by one of the routes: the
/// operating-system facilities, the task's pass-through list, a consumed
/// declared variable or a literal. Nothing else from the source gets in.
pub proof fn law_resolved_keys_have_a_route(
    m: Manifest,
    task: PlannedTask,
    profile: Seq<char>,
    source: Seq<(String, String)>,
    k: Seq<char>,
)
    requires
        sorted_keys(m.variables@),
        resolved(m, task, profile, source) is Ok,
        resolved(m, task, profile, source)->Ok_0.dom().contains(k),
    ensures
        has_route(m, task, source, k),
{
    let empty = Map::<Seq<char>, String>::empty();
    let after_os = with_os(m, source, os_keys(), 0, empty);
    let base = with_passed(source, task.pass_environment@, 0, after_os);
    let declared = with_declared(m, task, profile, source, 0, base)->Ok_0;
    lemma_literal_route(m, task, 0, declared, k);
    if declared.dom().contains(k) {
        lemma_declared_route(m, task, profile, source, 0, base, k);
        if base.dom().contains(k) {
            lemma_passed_route(source, task.pass_environment@, 0, after_os, k);
            if after_os.dom().contains(k) {
                lemma_os_route(m, source, os_keys(), 0, empty, k);
            }
        }
    }
}

/// The value a consumed declared variable `k` takes: the task's literal,
/// else the source's.
pub open spec fn declared_value(task: PlannedTask, source: Seq<(String, String)>, k: Seq<char>) -> Option<String> {
    match lookup(task.environment@, k) {
        Some(x) => Some(x),
        None => lookup(source, k),
    }
}

proof fn lemma_declared_leaves_earlier(
    m: Manifest,
    task: PlannedTask,
    profile: Seq<char>,
    source: Seq<(String, String)>,
    i: int,
    env: Map<Seq<char>, String>,
    k: Seq<char>,
)
    requires
        sorted_keys(m.variables@),
        has_key(m.variables@, k),
        position(m.variables@, k) < i,
        with_declared(m, task, profile, source, i, env) is Ok,
    ensures
        with_declared(m, task, profile, source, i, env)->Ok_0.dom().contains(k) == env.dom().contains(k),
        env.dom().contains(k) ==> with_declared(m, task, profile, source, i, env)->Ok_0[k] == env[k],
    decreases m.variables@.len() - i,
{
    if 0 <= i < m.variables@.len() {
        let name = m.variables@[i].0@;
        let v = m.variables@[i].1;
        lemma_unique_position(m.variables@, i);
        if !consumes(v, task) {
            lemma_declared_leaves_earlier(m, task, profile, source, i + 1, env, k);
        } else {
            match declared_value(task, source, name) {
                Some(x) => {
                    lemma_declared_leaves_earlier(m, task, profile, source, i + 1, env.insert(name, x), k);
                },
                None => {
                    lemma_declared_leaves_earlier(m, task, profile, source, i + 1, env, k);
                },
            }
        }
    }
}

proof fn lemma_declared_checks(
    m: Manifest,
    task: PlannedTask,
    profile: Seq<char>,
    source: Seq<(String, String)>,
    i: int,
    env: Map<Seq<char>, String>,
    k: Seq<char>,
)
    requires
        sorted_keys(m.variables@),
        0 <= i,
        lookup(m.variables@, k) matches Some(v) && consumes(v, task),
        i <= position(m.variables@, k),
        with_declared(m, task, profile, source, i, env) is Ok,
    ensures
        declared_value(task, source, k) matches Some(x) ==> {
            &&& with_declared(m, task, profile, source, i, env)->Ok_0.dom().contains(k)
            &&& with_declared(m, task, profile, source, i, env)->Ok_0[k] == x
            &&& value_accepted(lookup(m.variables@, k)->0.kind, x@, lookup(m.variables@, k)->0.values@)
        },
        declared_value(task, source, k) is None ==> (with_declared(m, task, profile, source, i, env)->Ok_0.dom().contains(k)
            ==> env.dom().contains(k)),
    decreases m.variables@.len() - i,
{
    let p = position(m.variables@, k);
    if i < m.variables@.len() {
        let name = m.variables@[i].0@;
        let v = m.variables@[i].1;
        lemma_unique_position(m.variables@, i);
        if i == p {
            match declared_value(task, source, name) {
                Some(x) => {
                    lemma_declared_leaves_earlier(m, task, profile, source, i + 1, env.insert(name, x), k);
                },
                None => {
                    lemma_declared_leaves_earlier(m, task, profile, source, i + 1, env, k);
                },
            }
        } else {
            if !consumes(v, task) {
                lemma_declared_checks(m, task, profile, source, i + 1, env, k);
            } else {
                match declared_value(task, source, name) {
                    Some(x) => {
                        lemma_declared_checks(m, task, profile, source, i + 1, env.insert(name, x), k);
                    },
                    None => {
                        lemma_declared_checks(m, task, profile, source, i + 1, env, k);
                    },
                }
            }
        }
    }
}

proof fn lemma_literals_leave_others(m: Manifest, task: PlannedTask, i: int, env: Map<Seq<char>, String>, k: Seq<char>)
    requires
        !has_key(task.environment@, k),
        with_literals(m, task, i, env) is Ok,
    ensures
        with_literals(m, task, i, env)->Ok_0.dom().contains(k) == env.dom().contains(k),
        env.dom().contains(k) ==> with_literals(m, task, i, env)->Ok_0[k] == env[k],
    decreases task.environment@.len() - i,
{
    if 0 <= i < task.environment@.len() {
        let name = task.environment@[i].0@;
        assert(name != k);
        lemma_literals_leave_others(m, task, i + 1, env.insert(name, task.environment@[i].1), k);
    }
}

/// A declared variable that a task consumes reaches it only with a value of
/// the declared type: whatever its route, the resolved value is accepted.
pub proof fn law_consumed_values_are_accepted(
    m: Manifest,
    task: PlannedTask,
    profile: Seq<char>,
    source: Seq<(String, String)>,
    k: Seq<char>,
)
    requires
        sorted_keys(m.variables@),
        sorted_keys(task.environment@),
        lookup(m.variables@, k) matches Some(v) && consumes(v, task),
        resolved(m, task, profile, source) is Ok,
        resolved(m, task, profile, source)->Ok_0.dom().contains(k),
    ensures
        value_accepted(
            lookup(m.variables@, k)->0.kind,
            resolved(m, task, profile, source)->Ok_0[k]@,
            lookup(m.variables@, k)->0.values@,
        ),
{
    let empty = Map::<Seq<char>, String>::empty();
    let after_os = with_os(m, source, os_keys(), 0, empty);
    let base = with_passed(source, task.pass_environment@, 0, after_os);
    let declared = with_declared(m, task, profile, source, 0, base)->Ok_0;
    lemma_declared_checks(m, task, profile, source, 0, base, k);
    if has_key(task.environment@, k) {
        let j = position(task.environment@, k);
        lemma_unique_position(task.environment@, j);
        lemma_with_literals_keeps(m, task, 0, declared, j);
    } else {
        lemma_literals_leave_others(m, task, 0, declared, k);
        if declared_value(task, source, k) is None {
            lemma_with_os_skips_declared(m, source, os_keys(), 0, empty, k);
            lemma_passed_route(source, task.pass_environment@, 0, after_os, k);
        }
    }
}

proof fn lemma_with_os_delivers(
    m: Manifest,
    source: Seq<(String, String)>,
    keys: Seq<Seq<char>>,
    i: int,
    env: Map<Seq<char>, String>,
    k: Seq<char>,
    j: int,
)
    requires
        !has_key(m.variables@, k),
        has_key(source, k),
        0 <= i,
        (env.dom().contains(k) && env[k] == lookup(source, k)->0) || (i <= j < keys.len() && keys[j] == k),
    ensures
        with_os(m, source, keys, i, env).dom().contains(k),
        with_os(m, source, keys, i, env)[k] == lookup(source, k)->0,
    decreases keys.len() - i,
{
    if i < keys.len() {
        if !has_key(m.variables@, keys[i]) && has_key(source, keys[i]) {
            lemma_with_os_delivers(m, source, keys, i + 1, env.insert(keys[i], lookup(source, keys[i])->0), k, j);
        } else {
            lemma_with_os_delivers(m, source, keys, i + 1, env, k, j);
        }
    }
}

proof fn lemma_with_passed_keeps_source_value(
    source: Seq<(String, String)>,
    pass: Seq<String>,
    i: int,
    env: Map<Seq<char>, String>,
    k: Seq<char>,
)
    requires
        env.dom().contains(k),
        env[k] == lookup(source, k)->0,
    ensures
        with_passed(source, pass, i, env).dom().contains(k),
        with_passed(source, pass, i, env)[k] == lookup(source, k)->0,
    decreases pass.len() - i,
{
    if 0 <= i < pass.len() {
        if has_key(source, pass[i]@) {
            lemma_with_passed_keeps_source_value(source, pass, i + 1, env.insert(pass[i]@, lookup(source, pass[i]@)->0), k);
        } else {
            lemma_with_passed_keeps_source_value(source, pass, i + 1, env, k);
        }
    }
}

proof fn lemma_with_declared_leaves_undeclared(
    m: Manifest,
    task: PlannedTask,
    profile: Seq<char>,
    source: Seq<(String, String)>,
    i: int,
    env: Map<Seq<char>, String>,
    k: Seq<char>,
)
    requires
        !has_key(m.variables@, k),
        with_declared(m, task, profile, source, i, env) is Ok,
    ensures
        with_declared(m, task, profile, source, i, env)->Ok_0.dom().contains(k) == env.dom().contains(k),
        env.dom().contains(k) ==> with_declared(m, task, profile, source, i, env)->Ok_0[k] == env[k],
    decreases m.variables@.len() - i,
{
    if 0 <= i < m.variables@.len() {
        let name = m.variables@[i].0@;
        let v = m.variables@[i].1;
        assert(name != k);
        if !consumes(v, task) {
            lemma_with_declared_leaves_undeclared(m, task, profile, source, i + 1, env, k);
        } else {
            match declared_value(task, source, name) {
                Some(x) => {
                    lemma_with_declared_leaves_undeclared(m, task, profile, source, i + 1, env.insert(name, x), k);
                },
                None => {
                    lemma_with_declared_leaves_undeclared(m, task, profile, source, i + 1, env, k);
                },
            }
        }
    }
}

/// The operating-system facilities reach every task: each of `PATH`, `HOME`,
/// `TMPDIR`, `TMP`, `TEMP`, `LANG`, `LC_ALL`, `SYSTEMROOT` and `WINDIR` that
/// the source holds and no declared variable or task literal claims is in a
/// successful resolution, with the source's value.
pub proof fn law_system_keys_reach_every_task(
    m: Manifest,
    task: PlannedTask,
    profile: Seq<char>,
    source: Seq<(String, String)>,
    k: Seq<char>,
)
    requires
        k == "PATH"@ || k == "HOME"@ || k == "TMPDIR"@ || k == "TMP"@ || k == "TEMP"@ || k == "LANG"@ || k == "LC_ALL"@
            || k == "SYSTEMROOT"@ || k == "WINDIR"@,
        !has_key(m.variables@, k),
        has_key(source, k),
        !has_key(task.environment@, k),
        resolved(m, task, profile, source) is Ok,
    ensures
        resolved(m, task, profile, source)->Ok_0.dom().contains(k),
        resolved(m, task, profile, source)->Ok_0[k] == lookup(source, k)->0,
{
    let keys = os_keys();
    let j: int = if k == "PATH"@ {
        0
    } else if k == "HOME"@ {
        1
    } else if k == "TMPDIR"@ {
        2
    } else if k == "TMP"@ {
        3
    } else if k == "TEMP"@ {
        4
    } else if k == "LANG"@ {
        5
    } else if k == "LC_ALL"@ {
        6
    } else if k == "SYSTEMROOT"@ {
        7
    } else {
        8
    };
    assert(keys[j] == k);
    let empty = Map::<Seq<char>, String>::empty();
    lemma_with_os_delivers(m, source, keys, 0, empty, k, j);
    let after_os = with_os(m, source, keys, 0, empty);
    lemma_with_passed_keeps_source_value(source, task.pass_environment@, 0, after_os, k);
    let base = with_passed(source, task.pass_environment@, 0, after_os);
    lemma_with_declared_leaves_undeclared(m, task, profile, source, 0, base, k);
    let declared = with_declared(m, task, profile, source, 0, base)->Ok_0;
    lemma_literals_leave_others(m, task, 0, declared, k);
}

} // verus!
