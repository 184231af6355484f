use pctl::cache::{hash, lock_names, path_record_bytes, receipt_matches, receipt_name};
use pctl::environment::{load, parse_assignments, valid_name};
use pctl::execution::{ExecutionReport, TaskReport};
use pctl::generation::{artifacts, contract, drift_check, markdown_cell, names_where, schema_document};
use pctl::keymap::KeyMap;
use pctl::model::{Cache, Manifest, PlannedTask, Tool, ValueType, Variable, Visibility};
use pctl::paths::inside;
use pctl::reporting::{escape, junit, terminal};
use pctl::text::{decimal_text, signed_decimal_text};
use pctl::tools::{probe_environment, Probe};

fn entries(map: &KeyMap<String>) -> Vec<(String, String)> {
    (0..map.len()).map(|i| (map.key_at(i).clone(), map.value_at(i).clone())).collect()
}

fn pairs(items: &[(&str, &str)]) -> Vec<(String, String)> {
    items.iter().map(|(k, v)| (k.to_string(), v.to_string())).collect()
}

#[test]
fn environment_files_parse_assignments_comments_and_quotes() {
    let source = "# comment\n\nNAME=value\n  SPACED = padded  \nQUOTED=\"a b\"\nSINGLE='x'\r\nEMPTY=\n";
    let parsed = parse_assignments(source).unwrap();
    assert_eq!(
        entries(&parsed),
        pairs(&[("EMPTY", ""), ("NAME", "value"), ("QUOTED", "a b"), ("SINGLE", "x"), ("SPACED", "padded")])
    );
}

#[test]
fn environment_file_errors_name_the_line() {
    assert_eq!(parse_assignments("A=1\nnot an assignment").unwrap_err(), "Invalid environment assignment on line 2");
    assert_eq!(parse_assignments("\n\n1X=1").unwrap_err(), "Invalid environment name on line 3");
    assert_eq!(parse_assignments("A=\"open").unwrap_err(), "Unclosed quote on line 1");
    assert_eq!(parse_assignments("A='x\"").unwrap_err(), "Unclosed quote on line 1");
    assert_eq!(parse_assignments("A=1\nA=2").unwrap_err(), "Duplicate environment name A");
    let mut long = String::new();
    for _ in 0..11 {
        long.push_str("# filler\n");
    }
    long.push_str("broken");
    assert_eq!(parse_assignments(&long).unwrap_err(), "Invalid environment assignment on line 12");
}

#[test]
fn process_environment_overrides_the_file() {
    let mut process = KeyMap::new();
    process.insert("A".to_string(), "process".to_string());
    let loaded = load(Some("A=file\nB=file"), &process).unwrap();
    assert_eq!(entries(&loaded), pairs(&[("A", "process"), ("B", "file")]));
    assert_eq!(entries(&load(None, &process).unwrap()), pairs(&[("A", "process")]));
}

#[test]
fn variable_names_are_portable() {
    assert!(valid_name("_PRIVATE_1"));
    assert!(valid_name("a"));
    assert!(!valid_name(""));
    assert!(!valid_name("1A"));
    assert!(!valid_name("TOKEN\nACTIVE"));
    assert!(!valid_name("CAFÉ"));
}

#[test]
fn paths_stay_inside_the_root() {
    assert_eq!(inside("/root", "work").unwrap(), "/root/work");
    assert_eq!(inside("/root", "./a//b/./c").unwrap(), "/root/a/b/c");
    assert_eq!(inside("/root", ".").unwrap(), "/root");
    assert_eq!(inside("/root", "a/..b").unwrap(), "/root/a/..b");
    for refused in ["..", "a/../b", "/etc", "a/.."] {
        assert_eq!(
            inside("/root", refused).unwrap_err(),
            "Path must be relative and cannot contain parent traversal"
        );
    }
}

#[test]
fn decimal_rendering() {
    assert_eq!(decimal_text(0), "0");
    assert_eq!(decimal_text(1200), "1200");
    assert_eq!(signed_decimal_text(-42), "-42");
    assert_eq!(signed_decimal_text(i32::MIN), "-2147483648");
}

fn report(id: &str, status: &str, exit_code: i32, duration_ms: u128, message: Option<&str>) -> TaskReport {
    TaskReport {
        id: id.into(),
        status: status.into(),
        exit_code,
        duration_ms,
        cleanup_errors: 0,
        message: message.map(|m| m.to_string()),
        fingerprint: None,
    }
}

#[test]
fn reports_render_for_terminals_and_junit() {
    let run = ExecutionReport {
        exit_code: 42,
        completed: vec!["build".into()],
        failed: Some("test<&>".into()),
        tasks: vec![
            report("build", "success", 0, 1234, None),
            report("test<&>", "failed", 42, 5, Some("bad \"quote\"\u{1}")),
            report("deploy", "skipped", 0, 0, Some("Dependency failure or cancellation")),
        ],
    };
    assert_eq!(
        terminal(&run),
        "build: success (1234 ms)\ntest<&>: failed (5 ms) - bad \"quote\"\u{1}\ndeploy: skipped (0 ms) - Dependency failure or cancellation"
    );
    let times = vec!["1.234".to_string(), "0.005".to_string(), "0.000".to_string()];
    assert_eq!(
        junit(&run, &times),
        [
            "<?xml version=\"1.0\" encoding=\"UTF-8\"?>\n<testsuite name=\"pctl\" tests=\"3\" failures=\"1\">\n",
            "  <testcase name=\"build\" time=\"1.234\"></testcase>\n",
            "  <testcase name=\"test&lt;&amp;&gt;\" time=\"0.005\"><failure message=\"Exit code 42\">bad &quot;quote&quot;</failure></testcase>\n",
            "  <testcase name=\"deploy\" time=\"0.000\"><skipped/></testcase>\n",
            "</testsuite>",
        ]
        .concat()
    );
    assert_eq!(escape("it's\ta\nb\r"), "it&apos;s\ta\nb\r");
}

fn variable(kind: ValueType, visibility: Visibility, browser: bool, required_in: &[&str], consumers: &[&str]) -> Variable {
    Variable {
        kind,
        visibility,
        values: vec![],
        required_in: required_in.iter().map(|s| s.to_string()).collect(),
        consumers: consumers.iter().map(|s| s.to_string()).collect(),
        browser_exposed: browser,
    }
}

fn contract_manifest() -> Manifest {
    let mut manifest = Manifest::new();
    for (name, kind, visibility, exposed) in [
        ("TOKEN", ValueType::String, Visibility::Secret, false),
        ("COUNT", ValueType::Integer, Visibility::Internal, false),
        ("ENABLED", ValueType::Boolean, Visibility::Public, true),
        ("MODE", ValueType::Enum, Visibility::Public, true),
        ("SERVER", ValueType::String, Visibility::Public, false),
        ("URL", ValueType::Url, Visibility::Public, true),
    ] {
        let mut v = variable(kind, visibility, exposed, &["production"], &["api"]);
        if name == "MODE" {
            v.values = vec!["b".into(), "a".into()];
        }
        manifest.variables.insert(name.into(), v);
    }
    manifest
}

#[test]
fn schemas_validate_strings_and_allowlist_browser_variables() {
    let published = contract(&contract_manifest(), "production").unwrap();
    let schema = schema_document(&published.variables, false);
    let public = schema_document(&published.variables, true);
    for document in [&schema, &public] {
        assert_eq!(document.dialect, "https://json-schema.org/draft/2020-12/schema");
        assert_eq!(document.value_type, "object");
        for property in &document.properties {
            assert_eq!(property.value_type, "string");
        }
    }
    let names: Vec<&str> = schema.properties.iter().map(|s| s.name.as_str()).collect();
    assert_eq!(names, ["COUNT", "ENABLED", "MODE", "SERVER", "TOKEN", "URL"]);
    let properties = &schema.properties;
    assert_eq!(properties[1].allowed.as_deref(), Some(&["true".to_string(), "false".to_string()][..]));
    assert_eq!(properties[0].pattern.as_deref(), Some("^(0|-?[1-9][0-9]*)(?![\\s\\S])"));
    assert_eq!(properties[2].allowed.as_deref(), Some(&["a".to_string(), "b".to_string()][..]));
    for plain in [&properties[3], &properties[4]] {
        assert!(plain.allowed.is_none() && plain.pattern.is_none() && plain.format.is_none());
    }
    assert!(!schema.closed);
    assert!(public.closed);
    assert_eq!(properties[5].format.as_deref(), Some("uri"));
    let public_names: Vec<&str> = public.properties.iter().map(|s| s.name.as_str()).collect();
    assert_eq!(public_names, ["ENABLED", "MODE", "URL"]);
    assert_eq!(public.properties[2].format.as_deref(), Some("uri"));
    assert_eq!(public.required, ["ENABLED", "MODE", "URL"]);
    assert_eq!(schema.required, ["COUNT", "ENABLED", "MODE", "SERVER", "TOKEN", "URL"]);
    assert_eq!(names_where(&published.variables, true, false), ["ENABLED", "MODE", "URL"]);
    let local = contract(&contract_manifest(), "local").unwrap();
    assert!(schema_document(&local.variables, false).required.is_empty());
    assert!(schema_document(&local.variables, true).required.is_empty());
}

#[test]
fn examples_never_supply_values_and_secrets_are_not_published() {
    let mut manifest = contract_manifest();
    let mut token = variable(ValueType::String, Visibility::Secret, false, &["production"], &["api"]);
    token.values = vec!["sensitive-sentinel".into()];
    manifest.variables.insert("TOKEN".into(), token);
    let published = contract(&manifest, "production").unwrap();
    for text in [&published.example, &published.documentation] {
        assert!(!text.contains("sensitive-sentinel"));
    }
    assert!(published.example.lines().all(|line| line.is_empty() || line.starts_with('#')));
    assert!(published.example.contains("# TOKEN=\n"));
    assert!(published.documentation.contains("| TOKEN | string | secret | yes | no | api |\n"));
}

#[test]
fn rejects_browser_secrets_and_injected_variable_names() {
    let mut manifest = contract_manifest();
    let mut token = variable(ValueType::String, Visibility::Secret, true, &["production"], &["api"]);
    manifest.variables.insert("TOKEN".into(), token.clone());
    assert_eq!(
        contract(&manifest, "local").unwrap_err(),
        "TOKEN: browser exposure requires public visibility"
    );
    token.browser_exposed = false;
    manifest.variables.remove("TOKEN");
    manifest.variables.insert("TOKEN\nACTIVE=yes".into(), token);
    assert_eq!(
        contract(&manifest, "local").unwrap_err(),
        "Environment variable names must match [A-Za-z_][A-Za-z0-9_]*"
    );
    let mut empty_enum = Manifest::new();
    empty_enum.variables.insert("MODE".into(), variable(ValueType::Enum, Visibility::Public, false, &[], &["web"]));
    assert_eq!(contract(&empty_enum, "local").unwrap_err(), "MODE: enum requires declared values");
}

#[test]
fn contracts_sort_enum_values_and_consumers() {
    let mut manifest = Manifest::new();
    manifest.variables.insert(
        "TOKEN".into(),
        variable(ValueType::String, Visibility::Secret, false, &["production"], &["web", "api", "web"]),
    );
    let mut mode = variable(ValueType::Enum, Visibility::Public, true, &[], &["web|ui"]);
    mode.values = vec!["b".into(), "a".into(), "b".into()];
    manifest.variables.insert("MODE".into(), mode);
    let published = contract(&manifest, "production").unwrap();
    assert_eq!(
        published.example,
        "# Set values in your environment. No defaults are supplied here.\n\
\n# MODE: enum; public; required: no\n# MODE=\n\
\n# TOKEN: string; secret; required: yes\n# TOKEN=\n"
    );
    assert!(published.documentation.ends_with(
        "| MODE | enum | public | no | yes | web&#124;ui |\n| TOKEN | string | secret | yes | no | api, web |\n"
    ));
    assert_eq!(published.variables[0].values, ["a", "b"]);
    assert_eq!(published.variables[1].consumers, ["api", "web"]);
}

#[test]
fn markdown_cells_cannot_break_the_table() {
    assert_eq!(markdown_cell("a|b\r\nc<&>"), "a&#124;b  c&lt;&amp;&gt;");
}

#[test]
fn hashes_are_lowercase_sha256_hex() {
    assert_eq!(hash(b""), "e3b0c44298fc1c149afbf4c8996fb92427ae41e4649b934ca495991b7852b855");
    assert_eq!(hash(b"abc"), "ba7816bf8f01cfea414140de5dae2223b00361a396177a9cb410ff61f20015ad");
    assert_eq!(receipt_name("abc"), "ba7816bf8f01cfea414140de5dae2223b00361a396177a9cb410ff61f20015ad.json");
}

#[test]
fn receipts_need_the_same_fingerprint_and_outputs() {
    let saved = Some(("fp".to_string(), "out".to_string()));
    assert!(receipt_matches(&saved, "fp", &Ok("out".to_string())));
    assert!(!receipt_matches(&saved, "other", &Ok("out".to_string())));
    assert!(!receipt_matches(&saved, "fp", &Ok("tampered".to_string())));
    assert!(!receipt_matches(&saved, "fp", &Err("missing".to_string())));
    assert!(!receipt_matches(&None, "fp", &Ok("out".to_string())));
}

#[test]
fn lock_names_are_sorted_and_unique() {
    let task = PlannedTask {
        id: "build".into(),
        command: vec![],
        working_directory: ".".into(),
        environment: KeyMap::new(),
        destructive: false,
        depends_on: vec![],
        cleanup: vec![],
        timeout_seconds: None,
        exclusive: vec!["db".into(), "apt".into(), "db".into()],
        requires: vec![],
        consumers: vec![],
        pass_environment: vec![],
        compose: None,
        cache: Some(Cache { inputs: vec![], outputs: vec![] }),
    };
    assert_eq!(lock_names(&task), ["apt", "cache:build", "db"]);
}

#[test]
fn probes_receive_only_operating_system_keys_and_check_versions() {
    let mut source = KeyMap::new();
    for (k, v) in [("PATH", "/bin"), ("TOKEN", "secret"), ("LANG", "C")] {
        source.insert(k.to_string(), v.to_string());
    }
    assert_eq!(entries(&probe_environment(&source)), pairs(&[("LANG", "C"), ("PATH", "/bin")]));
    let mut tools = KeyMap::new();
    tools.insert(
        "node".to_string(),
        Tool { command: vec!["node".into(), "--version".into()], version_contains: Some("v20".into()) },
    );
    let mut probe = Probe::new();
    assert_eq!(probe.tool_for(&tools, "ruby").unwrap_err(), "Unknown capability ruby");
    let tool = probe.tool_for(&tools, "node").unwrap().unwrap().clone();
    assert_eq!(probe.observe("node", &tool, Ok((3, String::new()))).unwrap_err(), "node: version probe failed (3)");
    assert_eq!(
        probe.observe("node", &tool, Ok((0, "v18.1.0\n".into()))).unwrap_err(),
        "node: installed version does not match version_contains"
    );
    assert_eq!(
        probe.observe("node", &tool, Err("spawn".into())).unwrap_err(),
        "node: unable to execute version probe"
    );
    assert!(probe.observe("node", &tool, Ok((0, " v20.3.1\n".into()))).is_ok());
    assert_eq!(entries(&probe.versions), pairs(&[("node", "v20.3.1")]));
    assert!(probe.tool_for(&tools, "node").unwrap().is_none());
}

#[test]
fn cache_path_records_frame_names_and_contents() {
    assert_eq!(
        path_record_bytes(b"a", Some(&b"xy"[..])),
        [1, 0, 0, 0, 0, 0, 0, 0, 97, 102, 105, 108, 101, 2, 0, 0, 0, 0, 0, 0, 0, 120, 121]
    );
    assert_eq!(path_record_bytes(b"dir", None), [3, 0, 0, 0, 0, 0, 0, 0, 100, 105, 114, 100, 105, 114]);
    let long = vec![7u8; 300];
    let record = path_record_bytes(&long, None);
    assert_eq!(&record[..8], &[44, 1, 0, 0, 0, 0, 0, 0]);
}

#[test]
fn generation_writes_exactly_four_files_by_name() {
    let published = contract(&contract_manifest(), "production").unwrap();
    let example = published.example.clone();
    let documentation = published.documentation.clone();
    let files = artifacts(published, "{\"env\":1}\n".to_string(), "{\"public\":1}\n".to_string());
    assert_eq!(
        entries(&files),
        vec![
            (".env.example".to_string(), example),
            ("environment.md".to_string(), documentation),
            ("environment.schema.json".to_string(), "{\"env\":1}\n".to_string()),
            ("public-runtime.schema.json".to_string(), "{\"public\":1}\n".to_string()),
        ]
    );
}

#[test]
fn drift_checks_compare_generated_files_byte_for_byte() {
    assert_eq!(drift_check(".env.example", "# é\n", &Ok("# é\n".as_bytes().to_vec())), Ok(()));
    assert_eq!(
        drift_check(".env.example", "# é\n", &Ok(b"# e\n".to_vec())),
        Err("Generated artifact drift: .env.example".to_string())
    );
    assert_eq!(
        drift_check(".env.example", "# a\n", &Ok(b"# a\n\n".to_vec())),
        Err("Generated artifact drift: .env.example".to_string())
    );
    assert_eq!(
        drift_check("environment.md", "x", &Err("No such file".to_string())),
        Err("Generated artifact missing or unreadable: environment.md: No such file".to_string())
    );
}
