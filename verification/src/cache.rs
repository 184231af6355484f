//! Content hashes, fingerprint headers, receipts and the rule for trusting a
//! receipt. Reading files and writing receipts to disk is left to the caller.
use vstd::prelude::*;
use sha2::{Digest, Sha256};
use crate::json::{
    comma_joined, json_array, json_bool, json_commands, json_map, json_quoted, json_strings, push_json_bool,
    push_json_commands, push_json_map, push_json_string, push_json_strings,
};
use crate::model::{Cache, Compose, PlannedTask};
use crate::text::{decimal, decimal_u64_text, join2, names, same};
use crate::keymap::{as_map, has_key, KeyMap};

verus! {

/// The SHA-256 digest of `bytes`.
pub uninterp spec fn sha256(bytes: Seq<u8>) -> Seq<u8>;

/// Calls `Sha256::digest` of the `sha2` crate. Claimed: the result is the
/// 32-byte digest of `bytes`, and so depends on `bytes` alone.
#[verifier::external_body]
fn digest(bytes: &[u8]) -> (r: Vec<u8>)
    ensures
        r@ == sha256(bytes@),
        r@.len() == 32,
{
    Sha256::digest(bytes).to_vec()
}

/// The lowercase hexadecimal digit for `d` (below 16).
pub open spec fn hex_digit(d: int) -> char {
    "0123456789abcdef"@[d]
}

/// Each byte of `bytes` as two lowercase hexadecimal digits, high digit first.
pub open spec fn hex_text(bytes: Seq<u8>) -> Seq<char>
    decreases bytes.len(),
{
    if bytes.len() == 0 {
        Seq::empty()
    } else {
        hex_text(bytes.drop_last()) + seq![hex_digit((bytes.last() / 16) as int), hex_digit((bytes.last() % 16) as int)]
    }
}

/// Calls `hex::encode` of the `hex` crate. Claimed, as its documentation and
/// source state: each byte becomes two lowercase hexadecimal digits, in order.
#[verifier::external_body]
fn hex_encode(bytes: &[u8]) -> (r: String)
    ensures
        r@ == hex_text(bytes@),
{
    hex::encode(bytes)
}

/// The hexadecimal SHA-256 digest of `bytes`.
pub fn hash(bytes: &[u8]) -> (r: String)
    ensures
        r@ == hex_text(sha256(bytes@)),
{
    let d = digest(bytes);
    hex_encode(d.as_slice())
}

/// The file name of the receipt of task `id`: the hash of the identifier, as JSON.
pub fn receipt_name(id: &str) -> (r: String)
    ensures
        r@ == hex_text(sha256(vstd::utf8::encode_utf8(id@))) + ".json"@,
{
    let h = hash(id.as_bytes());
    join2(h.as_str(), ".json")
}

/// A receipt is trusted when it records the current fingerprint and the
/// outputs, hashed now, are those it recorded.
pub open spec fn receipt_holds(saved: Option<(String, String)>, fingerprint: Seq<char>, outputs: Result<String, String>) -> bool {
    saved matches Some(s) && s.0@ == fingerprint && (outputs matches Ok(o) && o@ == s.1@)
}

/// Whether a saved receipt (if one could be read) lets the task be skipped.
pub fn receipt_matches(saved: &Option<(String, String)>, fingerprint: &str, outputs: &Result<String, String>) -> (r: bool)
    ensures
        r == receipt_holds(*saved, fingerprint@, *outputs),
{
    match saved {
        None => false,
        Some(s) => {
            if !same(s.0.as_str(), fingerprint) {
                return false;
            }
            match outputs {
                Ok(o) => same(o.as_str(), s.1.as_str()),
                Err(_) => false,
            }
        },
    }
}

/// The lock names of a task: its exclusive resources, and its cache when it
/// has one, each once and in ascending order.
pub fn lock_names(task: &PlannedTask) -> (r: Vec<String>)
    ensures
        forall|i: int, j: int| 0 <= i < j < r@.len() ==> crate::text::key_lt(#[trigger] r@[i]@, #[trigger] r@[j]@),
        forall|k: Seq<char>| #[trigger] names(r@).contains(k) <==> (names(task.exclusive@).contains(k) || (task.cache.is_some() && k
            == "cache:"@ + task.id@)),
{
    let mut found: KeyMap<bool> = KeyMap::new();
    let mut i: usize = 0;
    while i < task.exclusive.len()
        invariant
            i <= task.exclusive@.len(),
            forall|k: Seq<char>| #[trigger] as_map(found@).dom().contains(k) <==> exists|j: int|
                0 <= j < i && (#[trigger] task.exclusive@[j])@ == k,
        decreases task.exclusive@.len() - i,
    {
        let ghost before = as_map(found@);
        found.insert(task.exclusive[i].clone(), true);
        proof {
            assert forall|k: Seq<char>| #[trigger] as_map(found@).dom().contains(k) <==> exists|j: int|
                0 <= j < i + 1 && (#[trigger] task.exclusive@[j])@ == k by {
                if k == task.exclusive@[i as int]@ {
                    assert(as_map(found@).dom().contains(k));
                }
                if exists|j: int| 0 <= j < i + 1 && (#[trigger] task.exclusive@[j])@ == k {
                    let j = choose|j: int| 0 <= j < i + 1 && (#[trigger] task.exclusive@[j])@ == k;
                    if j < i {
                        assert(before.dom().contains(k));
                    }
                }
            }
        }
        i = i + 1;
    }
    let ghost exclusive_names = as_map(found@);
    if task.cache.is_some() {
        found.insert(join2("cache:", task.id.as_str()), true);
    }
    proof {
        assert forall|k: Seq<char>| #[trigger] has_key(found@, k) <==> (names(task.exclusive@).contains(k) || (task.cache.is_some() && k
            == "cache:"@ + task.id@)) by {
            assert(has_key(found@, k) == as_map(found@).dom().contains(k));
            if task.cache.is_some() {
                assert(as_map(found@) == exclusive_names.insert("cache:"@ + task.id@, true));
            }
        }
    }
    found.note_sorted();
    let entries = found.into_entries();
    let mut r: Vec<String> = Vec::new();
    let mut t: usize = 0;
    while t < entries.len()
        invariant
            t <= entries@.len(),
            r@.len() == t,
            forall|u: int| 0 <= u < t ==> (#[trigger] r@[u]) == entries@[u].0,
        decreases entries@.len() - t,
    {
        r.push(entries[t].0.clone());
        t = t + 1;
    }
    proof {
        assert forall|k: Seq<char>| #[trigger] names(r@).contains(k) <==> has_key(entries@, k) by {
            if has_key(entries@, k) {
                let p = choose|p: int| 0 <= p < entries@.len() && (#[trigger] entries@[p]).0@ == k;
                assert(r@[p]@ == k);
            }
            if exists|i: int| 0 <= i < r@.len() && (#[trigger] r@[i])@ == k {
                let i = choose|i: int| 0 <= i < r@.len() && (#[trigger] r@[i])@ == k;
                assert(entries@[i].0@ == k);
            }
        }
    }
    r
}

/// The eight little-endian bytes of `n`.
pub open spec fn le_bytes(n: u64) -> Seq<u8> {
    Seq::new(8, |i: int| ((n as nat / pow256(i)) % 256) as u8)
}

/// 256 to the power `i`.
pub open spec fn pow256(i: int) -> nat
    decreases i,
{
    if i <= 0 {
        1
    } else {
        256 * pow256(i - 1)
    }
}

fn push_le_bytes(out: &mut Vec<u8>, n: u64)
    ensures
        final(out)@ == old(out)@ + le_bytes(n),
{
    let mut rest = n;
    let mut i: usize = 0;
    let ghost start = out@;
    assert(pow256(0) == 1);
    assert(n as nat / 1 == n as nat);
    while i < 8
        invariant
            i <= 8,
            out@.len() == start.len() + i,
            out@.take(start.len() as int) == start,
            rest as nat == n as nat / pow256(i as int),
            forall|j: int| 0 <= j < i ==> #[trigger] out@[start.len() + j] == ((n as nat / pow256(j)) % 256) as u8,
        decreases 8 - i,
    {
        let ghost before = out@;
        out.push((rest % 256) as u8);
        proof {
            assert(out@.take(start.len() as int) =~= before.take(start.len() as int));
            assert(pow256(i + 1) == pow256(i as int) * 256);
            lemma_pow256_positive(i as int);
            vstd::arithmetic::div_mod::lemma_div_denominator(n as int, pow256(i as int) as int, 256);
        }
        rest = rest / 256;
        i = i + 1;
    }
    assert forall|j: int| 0 <= j < out@.len() implies out@[j] == (start + le_bytes(n))[j] by {
        if j < start.len() {
            assert(out@.take(start.len() as int)[j] == start[j]);
        } else {
            assert(out@[start.len() + (j - start.len())] == ((n as nat / pow256(j - start.len())) % 256) as u8);
        }
    }
    assert(out@ =~= start + le_bytes(n));
}

proof fn lemma_pow256_positive(i: int)
    ensures
        pow256(i) > 0,
    decreases i,
{
    if i > 0 {
        lemma_pow256_positive(i - 1);
    }
}

/// The bytes of `s`, appended to `out`.
fn push_bytes(out: &mut Vec<u8>, bytes: &[u8])
    ensures
        final(out)@ == old(out)@ + bytes@,
{
    let mut i: usize = 0;
    let ghost start = out@;
    while i < bytes.len()
        invariant
            i <= bytes@.len(),
            out@ == start + bytes@.take(i as int),
        decreases bytes@.len() - i,
    {
        out.push(bytes[i]);
        assert(bytes@.take(i + 1) =~= bytes@.take(i as int).push(bytes[i as int]));
        i = i + 1;
    }
    assert(bytes@.take(bytes@.len() as int) =~= bytes@);
}

/// What the fingerprint of a cache path takes in for one path: the length and
/// bytes of its name, then `file` with the length and bytes of its contents,
/// or `dir` (its entries follow as paths of their own).
pub open spec fn path_record(name: Seq<u8>, contents: Option<Seq<u8>>) -> Seq<u8> {
    le_bytes(name.len() as u64) + name + match contents {
        Some(c) => seq![102u8, 105u8, 108u8, 101u8] + le_bytes(c.len() as u64) + c,
        None => seq![100u8, 105u8, 114u8],
    }
}

/// The fingerprint record of one cache path: a file with its contents, or a directory.
pub fn path_record_bytes(name: &[u8], contents: Option<&[u8]>) -> (r: Vec<u8>)
    requires
        name@.len() <= u64::MAX,
        contents matches Some(c) ==> c@.len() <= u64::MAX,
    ensures
        r@ == path_record(name@, match contents {
            Some(c) => Some(c@),
            None => None,
        }),
{
    let mut out: Vec<u8> = Vec::new();
    push_le_bytes(&mut out, name.len() as u64);
    push_bytes(&mut out, name);
    match contents {
        Some(c) => {
            out.push(102);
            out.push(105);
            out.push(108);
            out.push(101);
            push_le_bytes(&mut out, c.len() as u64);
            push_bytes(&mut out, c);
        },
        None => {
            out.push(100);
            out.push(105);
            out.push(114);
        },
    }
    assert(out@ =~= path_record(name@, match contents {
        Some(c) => Some(c@),
        None => None,
    }));
    out
}

/// The records one after the other.
pub open spec fn flatten(records: Seq<Vec<u8>>) -> Seq<u8>
    decreases records.len(),
{
    if records.len() == 0 {
        Seq::empty()
    } else {
        flatten(records.drop_last()) + records.last()@
    }
}

/// `head` followed by every record.
fn joined(head: &[u8], records: &Vec<Vec<u8>>) -> (r: Vec<u8>)
    ensures
        r@ == head@ + flatten(records@),
{
    let mut out: Vec<u8> = Vec::new();
    push_bytes(&mut out, head);
    let mut i: usize = 0;
    while i < records.len()
        invariant
            i <= records@.len(),
            out@ == head@ + flatten(records@.take(i as int)),
        decreases records@.len() - i,
    {
        push_bytes(&mut out, records[i].as_slice());
        proof {
            assert(records@.take(i + 1).drop_last() =~= records@.take(i as int));
            assert(out@ =~= head@ + flatten(records@.take(i + 1)));
        }
        i = i + 1;
    }
    assert(records@.take(records@.len() as int) =~= records@);
    out
}

/// The fingerprint of a cached task: the hexadecimal SHA-256 digest of the
/// task's header (its definition, profile, environment, tool versions and
/// dependency fingerprints, as bytes) followed by the records of its inputs.
pub fn fingerprint_digest(header: &[u8], records: &Vec<Vec<u8>>) -> (r: String)
    ensures
        r@ == hex_text(sha256(header@ + flatten(records@))),
{
    let all = joined(header, records);
    hash(all.as_slice())
}

/// The digest of a task's outputs: the hexadecimal SHA-256 digest of their records.
pub fn outputs_digest(records: &Vec<Vec<u8>>) -> (r: String)
    ensures
        r@ == hex_text(sha256(flatten(records@))),
{
    let empty: Vec<u8> = Vec::new();
    let all = joined(empty.as_slice(), records);
    assert(empty@ + flatten(records@) =~= flatten(records@));
    hash(all.as_slice())
}

/// A timeout in seconds as JSON: a number, or `null`.
pub open spec fn json_timeout(t: Option<u64>) -> Seq<char> {
    match t {
        Some(n) => decimal(n as nat),
        None => "null"@,
    }
}

/// A Compose declaration as JSON, or `null`.
pub open spec fn json_compose(c: Option<Compose>) -> Seq<char> {
    match c {
        Some(c) => "{\"file\":"@ + json_quoted(c.file@) + ",\"service\":"@ + json_quoted(c.service@) + ",\"project\":"@
            + json_quoted(c.project@) + ",\"build\":"@ + json_bool(c.build) + "}"@,
        None => "null"@,
    }
}

/// A cache declaration as JSON, or `null`.
pub open spec fn json_cache(c: Option<Cache>) -> Seq<char> {
    match c {
        Some(c) => "{\"inputs\":"@ + json_strings(c.inputs@) + ",\"outputs\":"@ + json_strings(c.outputs@) + "}"@,
        None => "null"@,
    }
}

/// The first half of a planned task as a JSON object's members.
pub open spec fn json_task_head(t: PlannedTask) -> Seq<char> {
    "{\"id\":"@ + json_quoted(t.id@) + ",\"command\":"@ + json_strings(t.command@) + ",\"working_directory\":"@
        + json_quoted(t.working_directory@) + ",\"environment\":"@ + json_map(t.environment@) + ",\"destructive\":"@
        + json_bool(t.destructive) + ",\"depends_on\":"@ + json_strings(t.depends_on@) + ",\"cleanup\":"@
        + json_commands(t.cleanup@)
}

/// The second half of a planned task as a JSON object's members.
pub open spec fn json_task_tail(t: PlannedTask) -> Seq<char> {
    ",\"timeout_seconds\":"@ + json_timeout(t.timeout_seconds) + ",\"exclusive\":"@ + json_strings(t.exclusive@)
        + ",\"requires\":"@ + json_strings(t.requires@) + ",\"consumers\":"@ + json_strings(t.consumers@)
        + ",\"pass_environment\":"@ + json_strings(t.pass_environment@) + ",\"compose\":"@ + json_compose(t.compose)
        + ",\"cache\":"@ + json_cache(t.cache) + "}"@
}

/// A planned task as a JSON object, every field in declaration order.
pub open spec fn json_task(t: PlannedTask) -> Seq<char> {
    json_task_head(t) + json_task_tail(t)
}

/// The header of a cached task's fingerprint: a JSON array of the program
/// version, the planned task's definition, the profile, its environment, the
/// tool versions and the fingerprints of its dependencies.
pub open spec fn fingerprint_header(
    version: Seq<char>,
    task: PlannedTask,
    profile: Seq<char>,
    environment: Seq<(String, String)>,
    tools: Seq<(String, String)>,
    dependencies: Seq<String>,
) -> Seq<char> {
    "["@ + json_quoted(version) + ","@ + json_task(task) + ","@ + json_quoted(profile) + ","@ + json_map(environment)
        + ","@ + json_map(tools) + ","@ + json_strings(dependencies) + "]"@
}

fn push_task_head(out: &mut String, t: &PlannedTask)
    ensures
        final(out)@ == old(out)@ + json_task_head(*t),
{
    out.append("{\"id\":");
    push_json_string(out, t.id.as_str());
    out.append(",\"command\":");
    push_json_strings(out, &t.command);
    out.append(",\"working_directory\":");
    push_json_string(out, t.working_directory.as_str());
    out.append(",\"environment\":");
    push_json_map(out, &t.environment);
    out.append(",\"destructive\":");
    push_json_bool(out, t.destructive);
    out.append(",\"depends_on\":");
    push_json_strings(out, &t.depends_on);
    out.append(",\"cleanup\":");
    push_json_commands(out, &t.cleanup);
    assert(out@ =~= old(out)@ + json_task_head(*t));
}

fn push_compose(out: &mut String, compose: &Option<Compose>)
    ensures
        final(out)@ == old(out)@ + json_compose(*compose),
{
    match compose {
        Some(c) => {
            out.append("{\"file\":");
            push_json_string(out, c.file.as_str());
            out.append(",\"service\":");
            push_json_string(out, c.service.as_str());
            out.append(",\"project\":");
            push_json_string(out, c.project.as_str());
            out.append(",\"build\":");
            push_json_bool(out, c.build);
            out.append("}");
            assert(out@ =~= old(out)@ + json_compose(*compose));
        },
        None => out.append("null"),
    }
}

fn push_cache(out: &mut String, cache: &Option<Cache>)
    ensures
        final(out)@ == old(out)@ + json_cache(*cache),
{
    match cache {
        Some(c) => {
            out.append("{\"inputs\":");
            push_json_strings(out, &c.inputs);
            out.append(",\"outputs\":");
            push_json_strings(out, &c.outputs);
            out.append("}");
            assert(out@ =~= old(out)@ + json_cache(*cache));
        },
        None => out.append("null"),
    }
}

fn push_timeout(out: &mut String, timeout: Option<u64>)
    ensures
        final(out)@ == old(out)@ + json_timeout(timeout),
{
    match timeout {
        Some(n) => {
            let d = decimal_u64_text(n);
            out.append(d.as_str());
        },
        None => out.append("null"),
    }
}

fn push_task_tail(out: &mut String, t: &PlannedTask)
    ensures
        final(out)@ == old(out)@ + json_task_tail(*t),
{
    out.append(",\"timeout_seconds\":");
    push_timeout(out, t.timeout_seconds);
    out.append(",\"exclusive\":");
    push_json_strings(out, &t.exclusive);
    out.append(",\"requires\":");
    push_json_strings(out, &t.requires);
    out.append(",\"consumers\":");
    push_json_strings(out, &t.consumers);
    out.append(",\"pass_environment\":");
    push_json_strings(out, &t.pass_environment);
    out.append(",\"compose\":");
    push_compose(out, &t.compose);
    out.append(",\"cache\":");
    push_cache(out, &t.cache);
    out.append("}");
    assert(out@ =~= old(out)@ + json_task_tail(*t));
}

/// The header of a cached task's fingerprint, as text.
pub fn header_text(
    version: &str,
    task: &PlannedTask,
    profile: &str,
    environment: &KeyMap<String>,
    tools: &KeyMap<String>,
    dependencies: &Vec<String>,
) -> (r: String)
    ensures
        r@ == fingerprint_header(version@, *task, profile@, environment@, tools@, dependencies@),
{
    let mut out = String::new();
    out.append("[");
    push_json_string(&mut out, version);
    out.append(",");
    let ghost mark = out@;
    push_task_head(&mut out, task);
    push_task_tail(&mut out, task);
    assert(out@ =~= mark + json_task(*task));
    out.append(",");
    push_json_string(&mut out, profile);
    out.append(",");
    push_json_map(&mut out, environment);
    out.append(",");
    push_json_map(&mut out, tools);
    out.append(",");
    push_json_strings(&mut out, dependencies);
    out.append("]");
    assert(out@ =~= fingerprint_header(version@, *task, profile@, environment@, tools@, dependencies@));
    out
}

/// The fingerprint of a cached task: the hexadecimal SHA-256 digest of its
/// header (program version, task definition, profile, environment, tool
/// versions and dependency fingerprints) in UTF-8, followed by the records of
/// its inputs. Any change to one of these is a change to what is hashed.
pub fn fingerprint(
    version: &str,
    task: &PlannedTask,
    profile: &str,
    environment: &KeyMap<String>,
    tools: &KeyMap<String>,
    dependencies: &Vec<String>,
    records: &Vec<Vec<u8>>,
) -> (r: String)
    ensures
        r@ == hex_text(
            sha256(
                vstd::utf8::encode_utf8(fingerprint_header(version@, *task, profile@, environment@, tools@, dependencies@))
                    + flatten(records@),
            ),
        ),
{
    let header = header_text(version, task, profile, environment, tools, dependencies);
    fingerprint_digest(header.as_str().as_bytes(), records)
}

/// The text of a receipt: the JSON array of the fingerprint and the digest of
/// the outputs.
pub open spec fn receipt_text(fingerprint: Seq<char>, outputs: Seq<char>) -> Seq<char> {
    json_array(seq![json_quoted(fingerprint), json_quoted(outputs)])
}

/// The bytes of the receipt for `fingerprint` and `outputs`.
pub fn receipt_bytes(fingerprint: &str, outputs: &str) -> (r: Vec<u8>)
    ensures
        r@ == vstd::utf8::encode_utf8(receipt_text(fingerprint@, outputs@)),
{
    let mut text = String::new();
    text.append("[");
    push_json_string(&mut text, fingerprint);
    text.append(",");
    push_json_string(&mut text, outputs);
    text.append("]");
    proof {
        let items = seq![json_quoted(fingerprint@), json_quoted(outputs@)];
        assert(items.drop_last() =~= seq![json_quoted(fingerprint@)]);
        assert(comma_joined(items.drop_last()) == json_quoted(fingerprint@));
        assert(comma_joined(items) == json_quoted(fingerprint@) + ","@ + json_quoted(outputs@));
        assert(text@ =~= receipt_text(fingerprint@, outputs@));
    }
    let mut r: Vec<u8> = Vec::new();
    push_bytes(&mut r, text.as_str().as_bytes());
    r
}

/// A pair of strings, if any, by their views.
pub open spec fn pair_view(p: Option<(String, String)>) -> Option<(Seq<char>, Seq<char>)> {
    match p {
        Some(p) => Some((p.0@, p.1@)),
        None => None,
    }
}

/// What `serde_json` reads from `bytes` as a pair of strings, if anything.
pub uninterp spec fn receipt_fields(bytes: Seq<u8>) -> Option<(Seq<char>, Seq<char>)>;

/// Calls `serde_json::from_slice::<(String, String)>`. Claimed: what is read
/// depends on the bytes alone; and since `serde_json` reads back the strings
/// it writes, the bytes of a receipt written for `f` and `o` read as `f` and `o`.
#[verifier::external_body]
fn decode_receipt(bytes: &[u8]) -> (r: Option<(String, String)>)
    ensures
        pair_view(r) == receipt_fields(bytes@),
        forall|f: Seq<char>, o: Seq<char>|
            bytes@ == vstd::utf8::encode_utf8(#[trigger] receipt_text(f, o)) ==> pair_view(r) == Some((f, o)),
{
    serde_json::from_slice::<(String, String)>(bytes).ok()
}

/// Reads a receipt's fingerprint and outputs digest from its bytes, if the
/// receipt could be read at all. A receipt written by `receipt_bytes` reads
/// back as what was written.
pub fn read_receipt(bytes: &Option<Vec<u8>>) -> (r: Option<(String, String)>)
    ensures
        match bytes {
            None => r.is_none(),
            Some(b) => pair_view(r) == receipt_fields(b@),
        },
        forall|f: Seq<char>, o: Seq<char>|
            (bytes matches Some(b) && b@ == vstd::utf8::encode_utf8(#[trigger] receipt_text(f, o))) ==> pair_view(r)
                == Some((f, o)),
{
    match bytes {
        None => None,
        Some(b) => decode_receipt(b.as_slice()),
    }
}

} // verus!
