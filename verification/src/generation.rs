//! Deterministic environment contracts: the checks on declarations, the
//! example environment file, the Markdown documentation and the content of
//! the two JSON schemas, which the caller only serialises.
use vstd::prelude::*;
use crate::config::required_in;
use crate::environment::{is_valid_name, valid_name};
use crate::keymap::{as_map, has_key, KeyMap};
use crate::model::{Manifest, ValueType, Variable, Visibility};
use crate::text::{chars_of, contains_text, join2, join3, join4, key_lt, names, views};

verus! {

/// What character `c` becomes inside a Markdown table cell.
pub open spec fn cell_piece(c: char) -> Seq<char> {
    if c == '&' {
        "&amp;"@
    } else if c == '<' {
        "&lt;"@
    } else if c == '>' {
        "&gt;"@
    } else if c == '|' {
        "&#124;"@
    } else if c == '\r' || c == '\n' {
        " "@
    } else {
        seq![c]
    }
}

/// `s` made safe for one Markdown table cell.
pub open spec fn cell_text(s: Seq<char>) -> Seq<char>
    decreases s.len(),
{
    if s.len() == 0 {
        Seq::empty()
    } else {
        cell_text(s.drop_last()) + cell_piece(s.last())
    }
}

/// `value` made safe for one Markdown table cell: markup characters become
/// entities and line breaks become spaces.
pub fn markdown_cell(value: &str) -> (r: String)
    ensures
        r@ == cell_text(value@),
{
    let cs = chars_of(value);
    let mut r = String::from_str("");
    proof {
        reveal_strlit("");
    }
    let mut i: usize = 0;
    while i < cs.len()
        invariant
            cs@ == value@,
            i <= cs@.len(),
            r@ == cell_text(cs@.take(i as int)),
        decreases cs@.len() - i,
    {
        let c = cs[i];
        proof {
            assert(cs@.take(i + 1).drop_last() =~= cs@.take(i as int));
            assert(value@.subrange(i as int, i + 1) =~= seq![c]);
        }
        let before = r;
        r = if c == '&' {
            join2(before.as_str(), "&amp;")
        } else if c == '<' {
            join2(before.as_str(), "&lt;")
        } else if c == '>' {
            join2(before.as_str(), "&gt;")
        } else if c == '|' {
            join2(before.as_str(), "&#124;")
        } else if c == '\r' || c == '\n' {
            join2(before.as_str(), " ")
        } else {
            join2(before.as_str(), value.substring_char(i, i + 1))
        };
        i = i + 1;
    }
    proof {
        assert(cs@.take(cs@.len() as int) =~= cs@);
    }
    r
}

/// `v` in ascending order, each text once: `r` is strictly ascending and holds
/// exactly the texts of `v`.
pub open spec fn sorted_names_of(r: Seq<String>, v: Seq<String>) -> bool {
    &&& forall|i: int, j: int| 0 <= i < j < r.len() ==> key_lt(#[trigger] r[i]@, #[trigger] r[j]@)
    &&& names(r) == names(v)
}

/// The texts of `v` sorted, without repetitions.
pub fn sorted_names(v: &Vec<String>) -> (r: Vec<String>)
    ensures
        sorted_names_of(r@, v@),
{
    let mut found: KeyMap<bool> = KeyMap::new();
    let mut i: usize = 0;
    while i < v.len()
        invariant
            i <= v@.len(),
            forall|k: Seq<char>| #[trigger] has_key(found@, k) <==> names(v@.take(i as int)).contains(k),
        decreases v@.len() - i,
    {
        found.insert(v[i].clone(), true);
        proof {
            assert forall|k: Seq<char>| #[trigger] has_key(found@, k) <==> names(v@.take(i + 1)).contains(k) by {
                if names(v@.take(i + 1)).contains(k) {
                    let j = choose|j: int| 0 <= j < i + 1 && (#[trigger] v@.take(i + 1)[j])@ == k;
                    if j < i {
                        assert(v@.take(i as int)[j] == v@.take(i + 1)[j]);
                    }
                }
                if has_key(found@, k) && k != v@[i as int]@ {
                    assert(names(v@.take(i as int)).contains(k));
                    let j = choose|j: int| 0 <= j < i && (#[trigger] v@.take(i as int)[j])@ == k;
                    assert(v@.take(i + 1)[j] == v@.take(i as int)[j]);
                }
                if k == v@[i as int]@ {
                    assert(v@.take(i + 1)[i as int] == v@[i as int]);
                }
            }
        }
        i = i + 1;
    }
    assert(v@.take(v@.len() as int) =~= v@);
    found.note_sorted();
    let entries = found.into_entries();
    let mut r: Vec<String> = Vec::new();
    let mut t: usize = 0;
    while t < entries.len()
        invariant
            t <= entries@.len(),
            r@.len() == t,
            forall|u: int| 0 <= u < t ==> (#[trigger] r@[u]) == entries@[u].0,
        decreases entries@.len() - t,
    {
        r.push(entries[t].0.clone());
        t = t + 1;
    }
    proof {
        assert forall|k: Seq<char>| #[trigger] names(r@).contains(k) <==> names(v@).contains(k) by {
            if has_key(entries@, k) {
                let p = choose|p: int| 0 <= p < entries@.len() && (#[trigger] entries@[p]).0@ == k;
                assert(r@[p]@ == k);
            }
            if names(r@).contains(k) {
                let i = choose|i: int| 0 <= i < r@.len() && (#[trigger] r@[i])@ == k;
                assert(entries@[i].0@ == k);
            }
        }
        assert(names(r@) =~= names(v@));
    }
    r
}

/// The texts of `v` separated by `, `.
pub open spec fn comma_list(v: Seq<String>) -> Seq<char>
    decreases v.len(),
{
    if v.len() == 0 {
        Seq::empty()
    } else if v.len() == 1 {
        v[0]@
    } else {
        comma_list(v.drop_last()) + ", "@ + v.last()@
    }
}

fn join_commas(v: &Vec<String>) -> (r: String)
    ensures
        r@ == comma_list(v@),
{
    let mut r = String::from_str("");
    proof {
        reveal_strlit("");
    }
    let mut i: usize = 0;
    while i < v.len()
        invariant
            i <= v@.len(),
            r@ == comma_list(v@.take(i as int)),
        decreases v@.len() - i,
    {
        proof {
            assert(v@.take(i + 1).drop_last() =~= v@.take(i as int));
        }
        if i == 0 {
            r = v[i].clone();
        } else {
            r = join3(r.as_str(), ", ", v[i].as_str());
        }
        i = i + 1;
    }
    proof {
        assert(v@.take(v@.len() as int) =~= v@);
    }
    r
}

/// The contract name of a value type.
pub open spec fn kind_name(kind: ValueType) -> Seq<char> {
    match kind {
        ValueType::String => "string"@,
        ValueType::Url => "url"@,
        ValueType::Boolean => "boolean"@,
        ValueType::Integer => "integer"@,
        ValueType::Enum => "enum"@,
    }
}

fn kind_text(kind: ValueType) -> (r: String)
    ensures
        r@ == kind_name(kind),
{
    match kind {
        ValueType::String => String::from_str("string"),
        ValueType::Url => String::from_str("url"),
        ValueType::Boolean => String::from_str("boolean"),
        ValueType::Integer => String::from_str("integer"),
        ValueType::Enum => String::from_str("enum"),
    }
}

/// The contract name of a visibility.
pub open spec fn visibility_name(v: Visibility) -> Seq<char> {
    match v {
        Visibility::Public => "public"@,
        Visibility::Internal => "internal"@,
        Visibility::Secret => "secret"@,
    }
}

fn visibility_text(v: Visibility) -> (r: String)
    ensures
        r@ == visibility_name(v),
{
    match v {
        Visibility::Public => String::from_str("public"),
        Visibility::Internal => String::from_str("internal"),
        Visibility::Secret => String::from_str("secret"),
    }
}

/// `yes` or `no`.
pub open spec fn yes_no(b: bool) -> Seq<char> {
    if b {
        "yes"@
    } else {
        "no"@
    }
}

/// The first line of the example environment file.
pub open spec fn example_header() -> Seq<char> {
    "# Set values in your environment. No defaults are supplied here.\n"@
}

/// The opening of the environment documentation, up to its table header.
pub open spec fn documentation_header() -> Seq<char> {
    "# Environment contract\n\nAll environment values are strings. Required status applies to the selected profile.\n\n| Variable | Type | Visibility | Required | Browser | Consumers |\n| --- | --- | --- | --- | --- | --- |\n"@
}

/// The example lines of a variable: a comment that describes it and an assignment left empty.
pub open spec fn example_lines(name: Seq<char>, v: Variable, required: bool) -> Seq<char> {
    "\n# "@ + name + ": "@ + kind_name(v.kind) + "; "@ + visibility_name(v.visibility) + "; required: "@ + yes_no(required)
        + "\n# "@ + name + "=\n"@
}

/// The documentation row of a variable, given its consumers sorted and joined.
pub open spec fn documentation_row(name: Seq<char>, v: Variable, required: bool, consumers: Seq<char>) -> Seq<char> {
    "| "@ + name + " | "@ + kind_name(v.kind) + " | "@ + visibility_name(v.visibility) + " | "@ + yes_no(required) + " | "@
        + yes_no(v.browser_exposed) + " | "@ + cell_text(consumers) + " |\n"@
}

/// Why the declaration of `name` cannot be published, if it cannot.
pub open spec fn declaration_error(name: Seq<char>, v: Variable) -> Option<Seq<char>> {
    if !is_valid_name(name) {
        Some("Environment variable names must match [A-Za-z_][A-Za-z0-9_]*"@)
    } else if v.browser_exposed && v.visibility != Visibility::Public {
        Some(name + ": browser exposure requires public visibility"@)
    } else if v.kind == ValueType::Enum && v.values@.len() == 0 {
        Some(name + ": enum requires declared values"@)
    } else {
        None
    }
}

/// The first declaration error among the first `n` variables.
pub open spec fn first_declaration_error(vars: Seq<(String, Variable)>, n: int) -> Option<Seq<char>>
    decreases n,
{
    if n <= 0 {
        None
    } else {
        match first_declaration_error(vars, n - 1) {
            Some(e) => Some(e),
            None => declaration_error(vars[n - 1].0@, vars[n - 1].1),
        }
    }
}

/// The texts for the first `n` variables depend on the first `n` descriptions only.
proof fn lemma_texts_prefix(vars: Seq<(String, Variable)>, a: Seq<VariableContract>, b: Seq<VariableContract>, n: int)
    requires
        n <= a.len(),
        n <= b.len(),
        forall|j: int| 0 <= j < n ==> a[j] == b[j],
    ensures
        example_text(vars, a, n) == example_text(vars, b, n),
        documentation_text(vars, a, n) == documentation_text(vars, b, n),
    decreases n,
{
    if n > 0 {
        lemma_texts_prefix(vars, a, b, n - 1);
    }
}

/// Once a declaration error is found, it stays the first.
proof fn lemma_first_error_stays(vars: Seq<(String, Variable)>, m: int, n: int)
    requires
        0 <= m <= n,
        first_declaration_error(vars, m).is_some(),
    ensures
        first_declaration_error(vars, n) == first_declaration_error(vars, m),
    decreases n - m,
{
    if m < n {
        lemma_first_error_stays(vars, m, n - 1);
    }
}

/// The published facts of one declared variable.
#[derive(Debug)]
pub struct VariableContract {
    pub name: String,
    pub kind: ValueType,
    /// For an enum, its values sorted and without repetitions; otherwise empty.
    pub values: Vec<String>,
    pub required: bool,
    pub browser_exposed: bool,
    /// Its consumers, sorted and without repetitions.
    pub consumers: Vec<String>,
}

/// The environment contract for one profile.
#[derive(Debug)]
pub struct Contract {
    pub variables: Vec<VariableContract>,
    /// The example environment file, which supplies no values.
    pub example: String,
    /// The Markdown documentation.
    pub documentation: String,
}

/// `c` describes declared variable `entry` for `profile`.
pub open spec fn describes(c: VariableContract, entry: (String, Variable), profile: Seq<char>) -> bool {
    &&& c.name@ == entry.0@
    &&& c.kind == entry.1.kind
    &&& (if entry.1.kind == ValueType::Enum {
        sorted_names_of(c.values@, entry.1.values@)
    } else {
        c.values@.len() == 0
    })
    &&& c.required == required_in(entry.1, profile)
    &&& c.browser_exposed == entry.1.browser_exposed
    &&& sorted_names_of(c.consumers@, entry.1.consumers@)
}

/// The example file for the first `n` variables described by `cs`.
pub open spec fn example_text(vars: Seq<(String, Variable)>, cs: Seq<VariableContract>, n: int) -> Seq<char>
    decreases n,
{
    if n <= 0 {
        example_header()
    } else {
        example_text(vars, cs, n - 1) + example_lines(vars[n - 1].0@, vars[n - 1].1, cs[n - 1].required)
    }
}

/// The documentation for the first `n` variables described by `cs`.
pub open spec fn documentation_text(vars: Seq<(String, Variable)>, cs: Seq<VariableContract>, n: int) -> Seq<char>
    decreases n,
{
    if n <= 0 {
        documentation_header()
    } else {
        documentation_text(vars, cs, n - 1) + documentation_row(
            vars[n - 1].0@,
            vars[n - 1].1,
            cs[n - 1].required,
            comma_list(cs[n - 1].consumers@),
        )
    }
}

/// The contract of every declared variable, in name order, for `profile`. It
/// reads declarations only: no environment value enters it.
pub fn contract(manifest: &Manifest, profile: &str) -> (r: Result<Contract, String>)
    ensures
        match first_declaration_error(manifest.variables@, manifest.variables@.len() as int) {
            Some(e) => r matches Err(m) && m@ == e,
            None => r matches Ok(c) && c.variables@.len() == manifest.variables@.len() && (forall|i: int|
                0 <= i < c.variables@.len() ==> describes(#[trigger] c.variables@[i], manifest.variables@[i], profile@))
                && c.example@ == example_text(manifest.variables@, c.variables@, c.variables@.len() as int)
                && c.documentation@ == documentation_text(manifest.variables@, c.variables@, c.variables@.len() as int),
        },
{
    let n = manifest.variables.len();
    let mut variables: Vec<VariableContract> = Vec::new();
    let mut example = String::from_str("# Set values in your environment. No defaults are supplied here.\n");
    let mut documentation = String::from_str(
        "# Environment contract\n\nAll environment values are strings. Required status applies to the selected profile.\n\n| Variable | Type | Visibility | Required | Browser | Consumers |\n| --- | --- | --- | --- | --- | --- |\n",
    );
    let mut i: usize = 0;
    while i < n
        invariant
            n == manifest.variables@.len(),
            i <= n,
            first_declaration_error(manifest.variables@, i as int).is_none(),
            variables@.len() == i,
            forall|j: int| 0 <= j < i ==> describes(#[trigger] variables@[j], manifest.variables@[j], profile@),
            example@ == example_text(manifest.variables@, variables@, i as int),
            documentation@ == documentation_text(manifest.variables@, variables@, i as int),
        decreases n - i,
    {
        let name = manifest.variables.key_at(i);
        let variable = manifest.variables.value_at(i);
        proof {
            if declaration_error(name@, *variable).is_some() {
                lemma_first_error_stays(manifest.variables@, i + 1, n as int);
            }
        }
        if !valid_name(name.as_str()) {
            return Err(String::from_str("Environment variable names must match [A-Za-z_][A-Za-z0-9_]*"));
        }
        if variable.browser_exposed && variable.visibility != Visibility::Public {
            return Err(join2(name.as_str(), ": browser exposure requires public visibility"));
        }
        let values = if variable.kind == ValueType::Enum {
            if variable.values.len() == 0 {
                return Err(join2(name.as_str(), ": enum requires declared values"));
            }
            sorted_names(&variable.values)
        } else {
            Vec::new()
        };
        let required = contains_text(variable.required_in.as_slice(), profile);
        let kind = kind_text(variable.kind);
        let visibility = visibility_text(variable.visibility);
        let required_label = if required { String::from_str("yes") } else { String::from_str("no") };
        let browser_label = if variable.browser_exposed { String::from_str("yes") } else { String::from_str("no") };
        let line1 = join3("\n# ", name.as_str(), ": ");
        let line1 = join3(line1.as_str(), kind.as_str(), "; ");
        let line1 = join3(line1.as_str(), visibility.as_str(), "; required: ");
        let line1 = join2(line1.as_str(), required_label.as_str());
        let lines = join3(line1.as_str(), "\n# ", name.as_str());
        let lines = join2(lines.as_str(), "=\n");
        assert(lines@ =~= example_lines(name@, *variable, required));
        example = join2(example.as_str(), lines.as_str());
        let consumers = sorted_names(&variable.consumers);
        let joined = join_commas(&consumers);
        let cell = markdown_cell(joined.as_str());
        let row = join3("| ", name.as_str(), " | ");
        let row = join3(row.as_str(), kind.as_str(), " | ");
        let row = join3(row.as_str(), visibility.as_str(), " | ");
        let row = join3(row.as_str(), required_label.as_str(), " | ");
        let row = join3(row.as_str(), browser_label.as_str(), " | ");
        let row = join3(row.as_str(), cell.as_str(), " |\n");
        assert(row@ =~= documentation_row(name@, *variable, required, comma_list(consumers@)));
        documentation = join2(documentation.as_str(), row.as_str());
        let ghost before = variables@;
        variables.push(
            VariableContract {
                name: name.clone(),
                kind: variable.kind,
                values,
                required,
                browser_exposed: variable.browser_exposed,
                consumers,
            },
        );
        proof {
            assert forall|j: int| 0 <= j < i implies variables@[j] == before[j] by {}
            assert(example_text(manifest.variables@, variables@, i as int) == example_text(manifest.variables@, before, i as int)) by {
                lemma_texts_prefix(manifest.variables@, before, variables@, i as int);
            }
            assert(documentation_text(manifest.variables@, variables@, i as int) == documentation_text(manifest.variables@, before, i as int)) by {
                lemma_texts_prefix(manifest.variables@, before, variables@, i as int);
            }
        }
        i = i + 1;
    }
    Ok(Contract { variables, example, documentation })
}

proof fn lemma_no_error_before(vars: Seq<(String, Variable)>, n: int, i: int)
    requires
        0 <= i < n,
        first_declaration_error(vars, n).is_none(),
    ensures
        declaration_error(vars[i].0@, vars[i].1).is_none(),
    decreases n,
{
    if i < n - 1 {
        lemma_no_error_before(vars, n - 1, i);
    }
}

/// Only public variables may be exposed to browsers: in declarations that
/// yield a contract, every browser-exposed variable is public.
pub proof fn law_only_public_variables_reach_browsers(vars: Seq<(String, Variable)>, i: int)
    requires
        first_declaration_error(vars, vars.len() as int).is_none(),
        0 <= i < vars.len(),
        vars[i].1.browser_exposed,
    ensures
        vars[i].1.visibility == Visibility::Public,
{
    lemma_no_error_before(vars, vars.len() as int, i);
}

/// The JSON Schema constraints of one variable; every value is a string.
#[derive(Debug)]
pub struct PropertySchema {
    pub name: String,
    /// The JSON type of the value: always `string`.
    pub value_type: String,
    /// The only values allowed, for booleans and enums.
    pub allowed: Option<Vec<String>>,
    /// The pattern a value must match, for integers.
    pub pattern: Option<String>,
    /// The format a value must have, for URLs.
    pub format: Option<String>,
}

/// The pattern of a decimal integer without leading zeros or trailing text.
pub open spec fn integer_pattern() -> Seq<char> {
    "^(0|-?[1-9][0-9]*)(?![\\s\\S])"@
}

/// `s` is the schema of the variable that `c` describes.
pub open spec fn schema_of(s: PropertySchema, c: VariableContract) -> bool {
    &&& s.name@ == c.name@
    &&& s.value_type@ == "string"@
    &&& match c.kind {
        ValueType::Boolean => s.allowed matches Some(v) && views(v@) == seq!["true"@, "false"@],
        ValueType::Enum => s.allowed matches Some(v) && views(v@) == views(c.values@),
        _ => s.allowed.is_none(),
    }
    &&& match c.kind {
        ValueType::Integer => s.pattern matches Some(p) && p@ == integer_pattern(),
        _ => s.pattern.is_none(),
    }
    &&& match c.kind {
        ValueType::Url => s.format matches Some(f) && f@ == "uri"@,
        _ => s.format.is_none(),
    }
}

/// The schema of one published variable.
pub fn property_schema(c: &VariableContract) -> (r: PropertySchema)
    ensures
        schema_of(r, *c),
{
    let allowed = match c.kind {
        ValueType::Boolean => {
            let v = vec![String::from_str("true"), String::from_str("false")];
            assert(views(v@) =~= seq!["true"@, "false"@]);
            Some(v)
        },
        ValueType::Enum => {
            let v = c.values.clone();
            assert(views(v@) =~= views(c.values@));
            Some(v)
        },
        _ => None,
    };
    let pattern = match c.kind {
        ValueType::Integer => Some(String::from_str("^(0|-?[1-9][0-9]*)(?![\\s\\S])")),
        _ => None,
    };
    let format = match c.kind {
        ValueType::Url => Some(String::from_str("uri")),
        _ => None,
    };
    PropertySchema { name: c.name.clone(), value_type: String::from_str("string"), allowed, pattern, format }
}

/// The names of the variables in `cs` that `keep` selects, in order.
pub open spec fn selected_names(cs: Seq<VariableContract>, browser: bool, required: bool) -> Seq<Seq<char>>
    decreases cs.len(),
{
    if cs.len() == 0 {
        Seq::empty()
    } else {
        let rest = selected_names(cs.drop_last(), browser, required);
        let c = cs.last();
        if (!browser || c.browser_exposed) && (!required || c.required) {
            rest.push(c.name@)
        } else {
            rest
        }
    }
}

/// The names of the published variables that are browser-exposed (when
/// `browser`) and required (when `required`), in name order.
pub fn names_where(variables: &Vec<VariableContract>, browser: bool, required: bool) -> (r: Vec<String>)
    ensures
        views(r@) == selected_names(variables@, browser, required),
{
    let mut r: Vec<String> = Vec::new();
    let mut i: usize = 0;
    while i < variables.len()
        invariant
            i <= variables@.len(),
            views(r@) == selected_names(variables@.take(i as int), browser, required),
        decreases variables@.len() - i,
    {
        let c = &variables[i];
        proof {
            assert(variables@.take(i + 1).drop_last() =~= variables@.take(i as int));
        }
        if (!browser || c.browser_exposed) && (!required || c.required) {
            let ghost before = r@;
            r.push(c.name.clone());
            assert(views(r@) =~= views(before).push(c.name@));
        }
        i = i + 1;
    }
    assert(variables@.take(variables@.len() as int) =~= variables@);
    r
}

/// The contracts in `cs` that a schema lists: all of them, or only the
/// browser-exposed ones when `browser`, in order.
pub open spec fn listed(cs: Seq<VariableContract>, browser: bool) -> Seq<VariableContract>
    decreases cs.len(),
{
    if cs.len() == 0 {
        Seq::empty()
    } else {
        let rest = listed(cs.drop_last(), browser);
        if !browser || cs.last().browser_exposed {
            rest.push(cs.last())
        } else {
            rest
        }
    }
}

/// The JSON Schema dialect the generated schemas declare.
pub open spec fn schema_dialect() -> Seq<char> {
    "https://json-schema.org/draft/2020-12/schema"@
}

/// A JSON Schema for an environment: an object whose listed properties are
/// strings with the given constraints.
#[derive(Debug)]
pub struct SchemaDocument {
    /// The value of `$schema`.
    pub dialect: String,
    /// The JSON type of the environment: always `object`.
    pub value_type: String,
    pub properties: Vec<PropertySchema>,
    pub required: Vec<String>,
    /// Whether properties that are not listed are refused.
    pub closed: bool,
}

/// `d` is the schema of the published variables `cs`: of all of them, or, when
/// `browser`, of the browser-exposed ones only, refusing any other property.
pub open spec fn document_of(d: SchemaDocument, cs: Seq<VariableContract>, browser: bool) -> bool {
    &&& d.dialect@ == schema_dialect()
    &&& d.value_type@ == "object"@
    &&& d.properties@.len() == listed(cs, browser).len()
    &&& forall|i: int| 0 <= i < d.properties@.len() ==> schema_of(#[trigger] d.properties@[i], listed(cs, browser)[i])
    &&& views(d.required@) == selected_names(cs, browser, true)
    &&& d.closed == browser
}

/// The environment schema (`browser` false) or the public runtime schema
/// (`browser` true) of the published variables.
pub fn schema_document(variables: &Vec<VariableContract>, browser: bool) -> (r: SchemaDocument)
    ensures
        document_of(r, variables@, browser),
{
    let mut properties: Vec<PropertySchema> = Vec::new();
    let mut i: usize = 0;
    while i < variables.len()
        invariant
            i <= variables@.len(),
            properties@.len() == listed(variables@.take(i as int), browser).len(),
            forall|j: int| 0 <= j < properties@.len() ==> schema_of(
                #[trigger] properties@[j],
                listed(variables@.take(i as int), browser)[j],
            ),
        decreases variables@.len() - i,
    {
        let c = &variables[i];
        proof {
            assert(variables@.take(i + 1).drop_last() =~= variables@.take(i as int));
            assert(variables@.take(i + 1).last() == *c);
        }
        if !browser || c.browser_exposed {
            properties.push(property_schema(c));
        }
        i = i + 1;
    }
    assert(variables@.take(variables@.len() as int) =~= variables@);
    let required = names_where(variables, browser, true);
    SchemaDocument {
        dialect: String::from_str("https://json-schema.org/draft/2020-12/schema"),
        value_type: String::from_str("object"),
        properties,
        required,
        closed: browser,
    }
}

/// The generated files: the two JSON schemas as given, and the example file
/// and documentation of `c`, each under its file name.
pub open spec fn artifact_files(c: Contract, environment_schema: String, runtime_schema: String) -> Map<Seq<char>, String> {
    map![
        "environment.schema.json"@ => environment_schema,
        "public-runtime.schema.json"@ => runtime_schema,
        ".env.example"@ => c.example,
        "environment.md"@ => c.documentation,
    ]
}

/// The set of generated files for a contract and its two rendered schemas:
/// exactly four, by file name.
pub fn artifacts(c: Contract, environment_schema: String, runtime_schema: String) -> (r: KeyMap<String>)
    ensures
        as_map(r@) == artifact_files(c, environment_schema, runtime_schema),
        r@.len() == 4,
{
    let ghost expected = artifact_files(c, environment_schema, runtime_schema);
    proof {
        reveal_strlit("environment.schema.json");
        reveal_strlit("public-runtime.schema.json");
        reveal_strlit(".env.example");
        reveal_strlit("environment.md");
    }
    assert("environment.schema.json"@.len() == 23);
    assert("public-runtime.schema.json"@.len() == 26);
    assert(".env.example"@.len() == 12);
    assert("environment.md"@.len() == 14);
    let mut files: KeyMap<String> = KeyMap::new();
    files.insert(String::from_str("environment.schema.json"), environment_schema);
    assert(files@.len() == 1);
    files.insert(String::from_str("public-runtime.schema.json"), runtime_schema);
    assert(files@.len() == 2);
    files.insert(String::from_str(".env.example"), c.example);
    assert(files@.len() == 3);
    files.insert(String::from_str("environment.md"), c.documentation);
    assert(as_map(files@) =~= expected);
    files
}

/// The message for a generated file that could not be read.
pub open spec fn unreadable_message(name: Seq<char>, error: Seq<char>) -> Seq<char> {
    "Generated artifact missing or unreadable: "@ + name + ": "@ + error
}

/// The message for a generated file whose bytes differ from what is generated.
pub open spec fn drift_message(name: Seq<char>) -> Seq<char> {
    "Generated artifact drift: "@ + name
}

fn same_bytes(a: &[u8], b: &[u8]) -> (r: bool)
    ensures
        r == (a@ == b@),
{
    if a.len() != b.len() {
        return false;
    }
    let mut i: usize = 0;
    while i < a.len()
        invariant
            a@.len() == b@.len(),
            i <= a@.len(),
            forall|j: int| 0 <= j < i ==> a@[j] == b@[j],
        decreases a@.len() - i,
    {
        if a[i] != b[i] {
            return false;
        }
        i = i + 1;
    }
    assert(a@ =~= b@);
    true
}

/// Checks one generated file byte for byte: `actual` is what reading the file
/// `name` gave, `expected` what is generated for it.
pub fn drift_check(name: &str, expected: &str, actual: &Result<Vec<u8>, String>) -> (r: Result<(), String>)
    ensures
        match actual {
            Err(e) => r matches Err(m) && m@ == unreadable_message(name@, e@),
            Ok(a) => if a@ == vstd::utf8::encode_utf8(expected@) {
                r is Ok
            } else {
                r matches Err(m) && m@ == drift_message(name@)
            },
        },
{
    match actual {
        Err(e) => Err(join4("Generated artifact missing or unreadable: ", name, ": ", e.as_str())),
        Ok(a) => {
            if same_bytes(a.as_slice(), expected.as_bytes()) {
                Ok(())
            } else {
                Err(join2("Generated artifact drift: ", name))
            }
        },
    }
}

} // verus!
