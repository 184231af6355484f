//! Task parameters as given on the command line: `name=value` pairs.
use vstd::prelude::*;
use crate::keymap::{as_map, has_key, KeyMap};
use crate::text::{find_char, join2};

verus! {

/// What `name=value` says: split at the first `=`, the name not empty.
pub open spec fn parameter_result(input: Seq<char>) -> Result<(Seq<char>, Seq<char>), Seq<char>> {
    let eq = find_char(input, '=', 0);
    if eq < 0 {
        Err("Use --param name=value"@)
    } else if eq == 0 {
        Err("Parameter name cannot be empty"@)
    } else {
        Ok((input.subrange(0, eq), input.subrange(eq + 1, input.len() as int)))
    }
}

/// Splits a `name=value` argument at its first `=`.
pub fn parameter(input: &str) -> (r: Result<(String, String), String>)
    ensures
        match parameter_result(input@) {
            Ok(p) => r matches Ok(q) && q.0@ == p.0 && q.1@ == p.1,
            Err(e) => r matches Err(m) && m@ == e,
        },
{
    let n = input.unicode_len();
    let mut i: usize = 0;
    while i < n && input.get_char(i) != '='
        invariant
            n == input@.len(),
            i <= n,
            find_char(input@, '=', 0) == find_char(input@, '=', i as int),
        decreases n - i,
    {
        i = i + 1;
    }
    if i == n {
        return Err(String::from_str("Use --param name=value"));
    }
    if i == 0 {
        return Err(String::from_str("Parameter name cannot be empty"));
    }
    let name = String::from_str(input.substring_char(0, i));
    let value = String::from_str(input.substring_char(i + 1, n));
    Ok((name, value))
}

/// The first name, from position `i` on, that an earlier pair already gave.
pub open spec fn repeated_from(pairs: Seq<(String, String)>, i: int) -> Option<Seq<char>>
    decreases pairs.len() - i,
{
    if i < 0 || i >= pairs.len() {
        None
    } else if exists|j: int| 0 <= j < i && (#[trigger] pairs[j]).0@ == pairs[i].0@ {
        Some(pairs[i].0@)
    } else {
        repeated_from(pairs, i + 1)
    }
}

/// Collects the parameters by name; giving a name twice is an error.
pub fn parameter_map(pairs: Vec<(String, String)>) -> (r: Result<KeyMap<String>, String>)
    ensures
        match repeated_from(pairs@, 0) {
            Some(k) => r matches Err(m) && m@ == "Repeated parameter: "@ + k,
            None => r matches Ok(map) && (forall|k: Seq<char>| #[trigger] has_key(map@, k) <==> exists|j: int|
                0 <= j < pairs@.len() && (#[trigger] pairs@[j]).0@ == k) && forall|j: int|
                0 <= j < pairs@.len() ==> as_map(map@)[(#[trigger] pairs@[j]).0@] == pairs@[j].1,
        },
{
    let ghost all = pairs@;
    let mut map: KeyMap<String> = KeyMap::new();
    let mut i: usize = 0;
    let n = pairs.len();
    while i < n
        invariant
            n == all.len(),
            pairs@ == all,
            i <= n,
            repeated_from(all, 0) == repeated_from(all, i as int),
            forall|k: Seq<char>| #[trigger] has_key(map@, k) <==> exists|j: int| 0 <= j < i && (#[trigger] all[j]).0@ == k,
            forall|j: int| 0 <= j < i ==> as_map(map@)[(#[trigger] all[j]).0@] == all[j].1,
        decreases n - i,
    {
        let key = pairs[i].0.clone();
        let value = pairs[i].1.clone();
        if map.contains_key(key.as_str()) {
            proof {
                let j = choose|j: int| 0 <= j < i && (#[trigger] all[j]).0@ == key@;
            }
            return Err(join2("Repeated parameter: ", key.as_str()));
        }
        proof {
            assert(!exists|j: int| 0 <= j < i && (#[trigger] all[j]).0@ == all[i as int].0@);
        }
        let ghost before = map@;
        map.insert(key, value);
        proof {
            assert forall|k: Seq<char>| #[trigger] has_key(map@, k) <==> exists|j: int| 0 <= j < i + 1 && (#[trigger] all[j]).0@ == k by {
                if k == all[i as int].0@ {
                    assert(all[i as int].0@ == k);
                }
                if has_key(map@, k) && k != all[i as int].0@ {
                    assert(has_key(before, k));
                }
            }
            assert forall|j: int| 0 <= j < i + 1 implies as_map(map@)[(#[trigger] all[j]).0@] == all[j].1 by {
                if j < i {
                    assert(all[j].0@ != all[i as int].0@);
                }
            }
        }
        i = i + 1;
    }
    Ok(map)
}

} // verus!
