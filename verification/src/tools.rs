//! Bounded capability probes: which tools to probe, with what environment, and
//! what their output means. Running the probe commands is left to the caller.
use vstd::prelude::*;
use crate::keymap::{as_map, has_key, lookup, KeyMap};
use crate::model::Tool;
use crate::text::{chars_of, contains_pattern, join2, join4, occurs_in, trim, trim_bounds};

verus! {

/// The keys of the source environment that a probe receives.
pub open spec fn probe_keys() -> Seq<Seq<char>> {
    seq!["PATH"@, "HOME"@, "TMPDIR"@, "LANG"@, "LC_ALL"@]
}

/// The probe keys from `i` on that `source` holds, added to `env`.
pub open spec fn probe_env_from(source: Seq<(String, String)>, keys: Seq<Seq<char>>, i: int, env: Map<Seq<char>, String>) -> Map<Seq<char>, String>
    decreases keys.len() - i,
{
    if i < 0 || i >= keys.len() {
        env
    } else if has_key(source, keys[i]) {
        probe_env_from(source, keys, i + 1, env.insert(keys[i], lookup(source, keys[i])->0))
    } else {
        probe_env_from(source, keys, i + 1, env)
    }
}

/// The environment of a probe: only the operating-system keys it needs.
pub fn probe_environment(source: &KeyMap<String>) -> (r: KeyMap<String>)
    ensures
        as_map(r@) == probe_env_from(source@, probe_keys(), 0, Map::empty()),
{
    let keys = vec!["PATH", "HOME", "TMPDIR", "LANG", "LC_ALL"];
    let ghost ks = probe_keys();
    assert(keys@.map_values(|k: &str| k@) =~= ks);
    let mut env: KeyMap<String> = KeyMap::new();
    let mut i: usize = 0;
    while i < keys.len()
        invariant
            i <= keys@.len(),
            keys@.len() == ks.len(),
            forall|t: int| 0 <= t < ks.len() ==> (#[trigger] keys@[t])@ == ks[t],
            probe_env_from(source@, ks, 0, Map::empty()) == probe_env_from(source@, ks, i as int, as_map(env@)),
        decreases keys@.len() - i,
    {
        let key = keys[i];
        assert(key@ == ks[i as int]);
        match source.get(key) {
            Some(value) => {
                env.insert(String::from_str(key), value.clone());
            },
            None => {},
        }
        i = i + 1;
    }
    env
}

/// What one probe of tool `name` gives: its trimmed output as the version, or
/// the error that rejects it.
pub open spec fn probe_outcome(name: Seq<char>, tool: Tool, captured: Result<(i32, String), String>) -> Result<Seq<char>, Seq<char>> {
    match captured {
        Err(_) => Err(name + ": unable to execute version probe"@),
        Ok((code, output)) => if code != 0 {
            Err(name + ": version probe failed ("@ + crate::text::signed_decimal(code as int) + ")"@)
        } else if tool.version_contains matches Some(required) && !occurs_in(output@, required@) {
            Err(name + ": installed version does not match version_contains"@)
        } else {
            Ok(trim(output@))
        },
    }
}

/// The probes of a run: the versions found so far, by tool name.
#[derive(Debug)]
pub struct Probe {
    pub versions: KeyMap<String>,
}

impl Probe {
    /// No tool probed yet.
    pub fn new() -> (r: Self)
        ensures
            r.versions@.len() == 0,
    {
        Probe { versions: KeyMap::new() }
    }

    /// The tool to probe for `name`: none when it was probed already, an error
    /// when no tool of that name is declared.
    pub fn tool_for<'a>(&self, tools: &'a KeyMap<Tool>, name: &str) -> (r: Result<Option<&'a Tool>, String>)
        ensures
            has_key(self.versions@, name@) ==> r matches Ok(None),
            !has_key(self.versions@, name@) ==> match lookup(tools@, name@) {
                Some(t) => r matches Ok(Some(x)) && *x == t,
                None => r matches Err(e) && e@ == "Unknown capability "@ + name@,
            },
    {
        if self.versions.contains_key(name) {
            return Ok(None);
        }
        match tools.get(name) {
            Some(t) => Ok(Some(t)),
            None => Err(join2("Unknown capability ", name)),
        }
    }

    /// Takes the captured output of probing `tool` for `name`.
    pub fn observe(&mut self, name: &str, tool: &Tool, captured: Result<(i32, String), String>) -> (r: Result<(), String>)
        ensures
            match probe_outcome(name@, *tool, captured) {
                Ok(v) => r is Ok && (lookup(final(self).versions@, name@) matches Some(x) && x@ == v)
                    && (forall|k: Seq<char>| k != name@ ==> #[trigger] lookup(final(self).versions@, k) == lookup(old(self).versions@, k))
                    && as_map(final(self).versions@).dom() == as_map(old(self).versions@).dom().insert(name@),
                Err(e) => r matches Err(m) && m@ == e && final(self).versions == old(self).versions,
            },
    {
        match captured {
            Err(_) => Err(join2(name, ": unable to execute version probe")),
            Ok((code, output)) => {
                if code != 0 {
                    let c = crate::text::signed_decimal_text(code);
                    return Err(join4(name, ": version probe failed (", c.as_str(), ")"));
                }
                match &tool.version_contains {
                    Some(required) => {
                        if !contains_pattern(output.as_str(), required.as_str()) {
                            return Err(join2(name, ": installed version does not match version_contains"));
                        }
                    },
                    None => {},
                }
                let cs = chars_of(output.as_str());
                let (a, b) = trim_bounds(&cs, 0, cs.len());
                assert(cs@.subrange(0, cs@.len() as int) =~= cs@);
                let version = String::from_str(output.as_str().substring_char(a, b));
                let ghost before = as_map(self.versions@);
                self.versions.insert(String::from_str(name), version);
                assert(as_map(self.versions@).dom() =~= before.dom().insert(name@));
                Ok(())
            },
        }
    }
}

} // verus!
