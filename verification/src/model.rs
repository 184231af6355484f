//! The manifest and plan data that every other module reads.
use vstd::prelude::*;
use crate::keymap::{sorted_keys, KeyMap};
use crate::text::key_lt;
use crate::text::{all_digits, contains_text, digits_value, is_i64_text, lemma_digits_value_bounds, parses_as_i64, pow10, same};

verus! {

/// The declared shape of a parameter or environment value. Values are strings.
#[derive(Debug, Clone, Copy, PartialEq, Eq, Structural)]
pub enum ValueType {
    String,
    Boolean,
    Integer,
    Enum,
    Url,
}

/// Whether `value` is acceptable for `kind`, given the allowed `values` of an enum.
/// URL values are carried as strings: their syntax is not checked here.
pub open spec fn value_accepted(kind: ValueType, value: Seq<char>, values: Seq<String>) -> bool {
    match kind {
        ValueType::String => true,
        ValueType::Url => true,
        ValueType::Boolean => value == "true"@ || value == "false"@,
        ValueType::Integer => is_i64_text(value),
        ValueType::Enum => exists|i: int| 0 <= i < values.len() && (#[trigger] values[i])@ == value,
    }
}

impl ValueType {
    /// Whether `value` is acceptable for this type.
    pub fn accepts(self, value: &str, values: &[String]) -> (r: bool)
        ensures
            r == value_accepted(self, value@, values@),
    {
        match self {
            ValueType::String => true,
            ValueType::Url => true,
            ValueType::Boolean => same(value, "true") || same(value, "false"),
            ValueType::Integer => parses_as_i64(value),
            ValueType::Enum => contains_text(values, value),
        }
    }
}

/// Who may see an environment variable.
#[derive(Debug, Clone, Copy, PartialEq, Eq, Structural)]
pub enum Visibility {
    Public,
    Internal,
    Secret,
}

/// A typed input of a task invocation.
#[derive(Debug, Clone)]
pub struct Parameter {
    pub kind: ValueType,
    pub default: Option<String>,
    pub values: Vec<String>,
}

/// An environment contract: type, visibility, consumers and the profiles that require it.
#[derive(Debug, Clone)]
pub struct Variable {
    pub kind: ValueType,
    pub visibility: Visibility,
    pub values: Vec<String>,
    pub required_in: Vec<String>,
    pub consumers: Vec<String>,
    pub browser_exposed: bool,
}

/// A Compose-managed service whose lifecycle a task drives.
#[derive(Debug, Clone)]
pub struct Compose {
    pub file: String,
    pub service: String,
    pub project: String,
    pub build: bool,
}

/// Files whose contents decide whether a task's previous result may be reused.
#[derive(Debug, Clone)]
pub struct Cache {
    pub inputs: Vec<String>,
    pub outputs: Vec<String>,
}

/// A capability probe: the command prints a version.
#[derive(Debug, Clone)]
pub struct Tool {
    pub command: Vec<String>,
    pub version_contains: Option<String>,
}

/// Literal environment values that a profile supplies to every task.
#[derive(Debug, Clone)]
pub struct Profile {
    pub environment: KeyMap<String>,
}

/// A named operation with declared inputs and dependencies.
#[derive(Debug, Clone)]
pub struct Task {
    pub description: String,
    pub command: Vec<String>,
    pub working_directory: String,
    pub depends_on: Vec<String>,
    pub profiles: Vec<String>,
    pub parameters: KeyMap<Parameter>,
    pub environment: KeyMap<String>,
    pub destructive: bool,
    pub cleanup: Vec<Vec<String>>,
    pub timeout_seconds: Option<u64>,
    pub exclusive: Vec<String>,
    pub requires: Vec<String>,
    pub consumers: Vec<String>,
    pub pass_environment: Vec<String>,
    pub compose: Option<Compose>,
    pub cache: Option<Cache>,
}

/// The whole operations manifest, after includes are merged.
#[derive(Debug, Clone)]
pub struct Manifest {
    pub schema_version: u32,
    pub includes: Vec<String>,
    pub tasks: KeyMap<Task>,
    pub variables: KeyMap<Variable>,
    pub profiles: KeyMap<Profile>,
    pub tools: KeyMap<Tool>,
}

/// A resolved task in a plan, with its arguments bound.
#[derive(Debug, Clone)]
pub struct PlannedTask {
    pub id: String,
    pub command: Vec<String>,
    pub working_directory: String,
    pub environment: KeyMap<String>,
    pub destructive: bool,
    pub depends_on: Vec<String>,
    pub cleanup: Vec<Vec<String>>,
    pub timeout_seconds: Option<u64>,
    pub exclusive: Vec<String>,
    pub requires: Vec<String>,
    pub consumers: Vec<String>,
    pub pass_environment: Vec<String>,
    pub compose: Option<Compose>,
    pub cache: Option<Cache>,
}

/// An ordered description of resolved tasks for an invocation.
#[derive(Debug, Clone)]
pub struct Plan {
    pub profile: String,
    pub tasks: Vec<PlannedTask>,
    pub tools: KeyMap<Tool>,
}

impl Manifest {
    /// A manifest with no tasks, variables, profiles or tools.
    pub fn new() -> (m: Self)
        ensures
            m.schema_version == 0,
            m.includes@.len() == 0,
            m.tasks@.len() == 0,
            m.variables@.len() == 0,
            m.profiles@.len() == 0,
            m.tools@.len() == 0,
    {
        Manifest {
            schema_version: 0,
            includes: Vec::new(),
            tasks: KeyMap::new(),
            variables: KeyMap::new(),
            profiles: KeyMap::new(),
            tools: KeyMap::new(),
        }
    }
}

/// The argument lists of a sequence of commands.
pub open spec fn command_views(v: Seq<Vec<String>>) -> Seq<Seq<String>> {
    v.map_values(|c: Vec<String>| c@)
}

/// A copy of a list of strings.
pub fn copy_strings(v: &Vec<String>) -> (r: Vec<String>)
    ensures
        r@ == v@,
{
    let r = v.clone();
    assert(r@ =~= v@);
    r
}

/// A copy of a list of commands.
pub fn copy_commands(v: &Vec<Vec<String>>) -> (r: Vec<Vec<String>>)
    ensures
        command_views(r@) == command_views(v@),
{
    let mut r: Vec<Vec<String>> = Vec::new();
    let mut i: usize = 0;
    while i < v.len()
        invariant
            i <= v@.len(),
            r@.len() == i,
            forall|j: int| 0 <= j < i ==> (#[trigger] r@[j])@ == v@[j]@,
        decreases v@.len() - i,
    {
        r.push(copy_strings(&v[i]));
        i = i + 1;
    }
    assert(command_views(r@) =~= command_views(v@));
    r
}

impl Compose {
    /// A field-by-field copy.
    pub fn duplicate(&self) -> (r: Self)
        ensures
            r == *self,
    {
        Compose {
            file: self.file.clone(),
            service: self.service.clone(),
            project: self.project.clone(),
            build: self.build,
        }
    }
}

/// The files a cache declaration names.
pub struct CacheView {
    pub inputs: Seq<String>,
    pub outputs: Seq<String>,
}

/// The declared cache files, if any.
pub open spec fn cache_view(c: Option<Cache>) -> Option<CacheView> {
    match c {
        Some(c) => Some(CacheView { inputs: c.inputs@, outputs: c.outputs@ }),
        None => None,
    }
}

/// A copy of an optional cache declaration.
pub fn copy_cache(c: &Option<Cache>) -> (r: Option<Cache>)
    ensures
        cache_view(r) == cache_view(*c),
{
    match c {
        Some(c) => Some(Cache { inputs: copy_strings(&c.inputs), outputs: copy_strings(&c.outputs) }),
        None => None,
    }
}

/// A copy of an optional Compose service.
pub fn copy_compose(c: &Option<Compose>) -> (r: Option<Compose>)
    ensures
        r == *c,
{
    match c {
        Some(c) => Some(c.duplicate()),
        None => None,
    }
}

/// Two tool tables hold the same probes under the same names, in the same order.
pub open spec fn same_tools(a: Seq<(String, Tool)>, b: Seq<(String, Tool)>) -> bool {
    &&& a.len() == b.len()
    &&& forall|i: int|
        0 <= i < a.len() ==> (#[trigger] a[i]).0 == b[i].0 && a[i].1.command@ == b[i].1.command@
            && a[i].1.version_contains == b[i].1.version_contains
}

/// A copy of a tool table.
pub fn copy_tools(tools: &KeyMap<Tool>) -> (r: KeyMap<Tool>)
    ensures
        same_tools(r@, tools@),
{
    tools.note_sorted();
    let mut r: KeyMap<Tool> = KeyMap::new();
    let n = tools.len();
    let mut i: usize = 0;
    while i < n
        invariant
            n == tools@.len(),
            sorted_keys(tools@),
            i <= n,
            r@.len() == i,
            forall|j: int|
                0 <= j < i ==> (#[trigger] r@[j]).0 == tools@[j].0 && r@[j].1.command@
                    == tools@[j].1.command@ && r@[j].1.version_contains
                    == tools@[j].1.version_contains,
        decreases n - i,
    {
        let tool = tools.value_at(i);
        let copy = Tool { command: copy_strings(&tool.command), version_contains: tool.version_contains.clone() };
        proof {
            if i > 0 {
                assert(key_lt(tools@[i - 1].0@, tools@[i as int].0@));
            }
        }
        r.push_last(tools.key_at(i).clone(), copy);
        i = i + 1;
    }
    r
}

/// Every character of `s` from position `from` on is one of `0` to `9`.
pub open spec fn decimal_digits_from(s: Seq<char>, from: int) -> bool {
    forall|i: int| from <= i < s.len() ==> '0' <= #[trigger] s[i] <= '9'
}

proof fn lemma_literal_digits(s: Seq<char>, from: int)
    requires
        0 <= from <= s.len(),
        decimal_digits_from(s, from),
    ensures
        all_digits(s.subrange(from, s.len() as int)),
        s.subrange(from, s.len() as int).len() > 0 && s[from] != '0' ==> s.subrange(from, s.len() as int)[0] != '0',
{
    let d = s.subrange(from, s.len() as int);
    assert forall|i: int| 0 <= i < d.len() implies crate::text::is_digit(#[trigger] d[i]) by {
        assert(d[i] == s[from + i]);
        assert('0' <= s[from + i] <= '9');
        crate::text::lemma_digit_chars(d[i]);
    }
}

/// Integer values are those `str::parse::<i64>` accepts. Every string of one
/// to eighteen characters `0` to `9`, alone or after one `-` or `+`, is
/// accepted; one with twenty or more digits that does not start with `0` is
/// refused; and an accepted value is never empty and holds nothing but those
/// digits and, first, one sign.
pub proof fn law_integers_are_decimal_i64_numerals(s: Seq<char>, values: Seq<String>)
    ensures
        1 <= s.len() <= 18 && decimal_digits_from(s, 0) ==> value_accepted(ValueType::Integer, s, values),
        2 <= s.len() <= 19 && (s[0] == '-' || s[0] == '+') && decimal_digits_from(s, 1) ==> value_accepted(
            ValueType::Integer,
            s,
            values,
        ),
        s.len() >= 20 && s[0] != '0' && decimal_digits_from(s, 0) ==> !value_accepted(ValueType::Integer, s, values),
        value_accepted(ValueType::Integer, s, values) ==> s.len() > 0 && s[s.len() - 1] != '-' && s[s.len() - 1] != '+'
            && forall|i: int|
            0 <= i < s.len() ==> ('0' <= #[trigger] s[i] <= '9' || (i == 0 && (s[i] == '-' || s[i] == '+'))),
{
    let signed = s.len() > 0 && (s[0] == '-' || s[0] == '+');
    let from: int = if signed { 1 } else { 0 };
    let d = crate::text::unsigned_part(s);
    assert(d =~= s.subrange(from, s.len() as int));
    if 0 <= from <= s.len() && decimal_digits_from(s, from) {
        lemma_literal_digits(s, from);
        lemma_digits_value_bounds(d);
        assert(pow10(19) == 10000000000000000000nat && pow10(18) == 1000000000000000000nat) by {
            reveal_with_fuel(pow10, 20);
        }
        if d.len() <= 18 {
            assert(pow10(d.len()) <= pow10(18)) by {
                lemma_pow10_grows(d.len(), 18);
            }
        }
        if d.len() >= 20 && d[0] != '0' {
            assert(pow10(19) <= pow10((d.len() - 1) as nat)) by {
                lemma_pow10_grows(19, (d.len() - 1) as nat);
            }
        }
    }
    if value_accepted(ValueType::Integer, s, values) {
        assert forall|i: int| 0 <= i < s.len() implies ('0' <= #[trigger] s[i] <= '9' || (i == 0 && (s[i] == '-'
            || s[i] == '+'))) by {
            if !(i == 0 && signed) {
                assert(s[i] == d[i - from]);
                assert(crate::text::is_digit(d[i - from]));
                crate::text::lemma_digit_chars(s[i]);
            }
        }
        assert(s[s.len() - 1] == d[d.len() - 1]);
        assert(crate::text::is_digit(d[d.len() - 1]));
        crate::text::lemma_digit_chars(d[d.len() - 1]);
    }
}

proof fn lemma_pow10_grows(a: nat, b: nat)
    requires
        a <= b,
    ensures
        pow10(a) <= pow10(b),
    decreases b,
{
    if a < b {
        lemma_pow10_grows(a, (b - 1) as nat);
    }
}

} // verus!
