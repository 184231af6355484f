//! Compact JSON text of strings, string lists and string maps, as the cache
//! writes it into fingerprint headers and receipts. Strings are quoted by
//! `serde_json`; the layout around them is written here.
use vstd::prelude::*;
use crate::keymap::KeyMap;

verus! {

/// The JSON text of the string `s`: quoted, with `serde_json`'s escapes.
pub uninterp spec fn json_quoted(s: Seq<char>) -> Seq<char>;

/// Calls `serde_json::to_string` on a string slice. Claimed: the result is
/// the JSON text of `s`, which depends on `s` alone. The serializer writes a
/// string into a `Vec<u8>`, whose writes do not fail, so the call succeeds;
/// the empty fallback is never taken.
#[verifier::external_body]
fn json_string(s: &str) -> (r: String)
    ensures
        r@ == json_quoted(s@),
{
    serde_json::to_string(s).unwrap_or_default()
}

/// `items` separated by commas.
pub open spec fn comma_joined(items: Seq<Seq<char>>) -> Seq<char>
    decreases items.len(),
{
    if items.len() == 0 {
        Seq::empty()
    } else if items.len() == 1 {
        items[0]
    } else {
        comma_joined(items.drop_last()) + ","@ + items.last()
    }
}

/// A JSON array of the JSON texts `items`.
pub open spec fn json_array(items: Seq<Seq<char>>) -> Seq<char> {
    "["@ + comma_joined(items) + "]"@
}

/// The JSON texts of a list of strings.
pub open spec fn quoted_strings(v: Seq<String>) -> Seq<Seq<char>> {
    v.map_values(|s: String| json_quoted(s@))
}

/// A list of strings as a JSON array.
pub open spec fn json_strings(v: Seq<String>) -> Seq<char> {
    json_array(quoted_strings(v))
}

/// The `"key":"value"` members of a string map.
pub open spec fn json_members(e: Seq<(String, String)>) -> Seq<Seq<char>> {
    e.map_values(|p: (String, String)| json_quoted(p.0@) + ":"@ + json_quoted(p.1@))
}

/// A string map, in its key order, as a JSON object.
pub open spec fn json_map(e: Seq<(String, String)>) -> Seq<char> {
    "{"@ + comma_joined(json_members(e)) + "}"@
}

/// A list of commands as a JSON array of arrays.
pub open spec fn json_commands(v: Seq<Vec<String>>) -> Seq<char> {
    json_array(v.map_values(|c: Vec<String>| json_strings(c@)))
}

/// `true` or `false`.
pub open spec fn json_bool(b: bool) -> Seq<char> {
    if b {
        "true"@
    } else {
        "false"@
    }
}

proof fn lemma_comma_joined_push(items: Seq<Seq<char>>, x: Seq<char>)
    ensures
        comma_joined(items.push(x)) == if items.len() == 0 {
            x
        } else {
            comma_joined(items) + ","@ + x
        },
{
    assert(items.push(x).drop_last() =~= items);
}

/// Appends the JSON text of `s`.
pub fn push_json_string(out: &mut String, s: &str)
    ensures
        final(out)@ == old(out)@ + json_quoted(s@),
{
    let q = json_string(s);
    out.append(q.as_str());
}

/// Appends `true` or `false`.
pub fn push_json_bool(out: &mut String, b: bool)
    ensures
        final(out)@ == old(out)@ + json_bool(b),
{
    if b {
        out.append("true");
    } else {
        out.append("false");
    }
}

/// Appends a list of strings as a JSON array.
pub fn push_json_strings(out: &mut String, v: &Vec<String>)
    ensures
        final(out)@ == old(out)@ + json_strings(v@),
{
    let ghost items = quoted_strings(v@);
    out.append("[");
    let ghost start = out@;
    let mut i: usize = 0;
    while i < v.len()
        invariant
            i <= v@.len(),
            items == quoted_strings(v@),
            out@ == start + comma_joined(items.take(i as int)),
        decreases v@.len() - i,
    {
        proof {
            lemma_comma_joined_push(items.take(i as int), items[i as int]);
            assert(items.take(i + 1) =~= items.take(i as int).push(items[i as int]));
        }
        let ghost before = out@;
        if i > 0 {
            out.append(",");
        }
        push_json_string(out, v[i].as_str());
        proof {
            if i > 0 {
                assert(out@ =~= start + (comma_joined(items.take(i as int)) + ","@ + items[i as int]));
            } else {
                assert(out@ =~= start + items[i as int]);
            }
        }
        i = i + 1;
    }
    out.append("]");
    assert(items.take(v@.len() as int) =~= items);
    assert(out@ =~= old(out)@ + ("["@ + comma_joined(items) + "]"@));
}

/// Appends a string map, in its key order, as a JSON object.
pub fn push_json_map(out: &mut String, m: &KeyMap<String>)
    ensures
        final(out)@ == old(out)@ + json_map(m@),
{
    let ghost items = json_members(m@);
    out.append("{");
    let ghost start = out@;
    let mut i: usize = 0;
    while i < m.len()
        invariant
            i <= m@.len(),
            items == json_members(m@),
            out@ == start + comma_joined(items.take(i as int)),
        decreases m@.len() - i,
    {
        proof {
            lemma_comma_joined_push(items.take(i as int), items[i as int]);
            assert(items.take(i + 1) =~= items.take(i as int).push(items[i as int]));
        }
        if i > 0 {
            out.append(",");
        }
        let ghost mark = out@;
        push_json_string(out, m.key_at(i).as_str());
        out.append(":");
        push_json_string(out, m.value_at(i).as_str());
        proof {
            assert(out@ =~= mark + items[i as int]);
            if i > 0 {
                assert(out@ =~= start + (comma_joined(items.take(i as int)) + ","@ + items[i as int]));
            } else {
                assert(out@ =~= start + items[i as int]);
            }
        }
        i = i + 1;
    }
    out.append("}");
    assert(items.take(m@.len() as int) =~= items);
    assert(out@ =~= old(out)@ + ("{"@ + comma_joined(items) + "}"@));
}

/// Appends a list of commands as a JSON array of arrays.
pub fn push_json_commands(out: &mut String, v: &Vec<Vec<String>>)
    ensures
        final(out)@ == old(out)@ + json_commands(v@),
{
    let ghost items = v@.map_values(|c: Vec<String>| json_strings(c@));
    out.append("[");
    let ghost start = out@;
    let mut i: usize = 0;
    while i < v.len()
        invariant
            i <= v@.len(),
            items == v@.map_values(|c: Vec<String>| json_strings(c@)),
            out@ == start + comma_joined(items.take(i as int)),
        decreases v@.len() - i,
    {
        proof {
            lemma_comma_joined_push(items.take(i as int), items[i as int]);
            assert(items.take(i + 1) =~= items.take(i as int).push(items[i as int]));
        }
        if i > 0 {
            out.append(",");
        }
        push_json_strings(out, &v[i]);
        proof {
            if i > 0 {
                assert(out@ =~= start + (comma_joined(items.take(i as int)) + ","@ + items[i as int]));
            } else {
                assert(out@ =~= start + items[i as int]);
            }
        }
        i = i + 1;
    }
    out.append("]");
    assert(items.take(v@.len() as int) =~= items);
    assert(out@ =~= old(out)@ + ("["@ + comma_joined(items) + "]"@));
}

} // verus!
