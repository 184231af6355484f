use pctl::environment;
use pctl::execution::{
    preflight, ExecutionReport, ProcessExecutor, ProcessRequest,
    RunOptions, Scheduler, Stage, TaskPaths, TaskRun,
};
use pctl::keymap::KeyMap;
use pctl::cache::{
    fingerprint, fingerprint_digest, header_text, outputs_digest, path_record_bytes, read_receipt, receipt_bytes,
    receipt_matches,
};
use pctl::model::{Cache, Compose, Manifest, Plan, PlannedTask, ValueType, Variable, Visibility};
use std::collections::BTreeMap;
use std::sync::Mutex;

#[derive(Debug, Clone)]
struct Call {
    command: Vec<String>,
    directory: String,
    environment: Vec<(String, String)>,
    timeout_seconds: Option<u64>,
    cancellation: i32,
    secrets: Vec<String>,
}

#[derive(Default)]
struct FakeExecutor {
    calls: Mutex<Vec<Call>>,
    outcomes: BTreeMap<String, Result<i32, String>>,
    cancel_primary: bool,
    write_output: bool,
    files: Mutex<BTreeMap<String, Vec<u8>>>,
}

fn entries(map: &KeyMap<String>) -> Vec<(String, String)> {
    (0..map.len()).map(|i| (map.key_at(i).clone(), map.value_at(i).clone())).collect()
}

impl ProcessExecutor for FakeExecutor {
    fn execute(&self, request: ProcessRequest<'_>) -> Result<i32, String> {
        self.calls.lock().unwrap().push(Call {
            command: request.command.to_vec(),
            directory: request.directory.to_string(),
            environment: entries(request.environment),
            timeout_seconds: request.timeout_seconds,
            cancellation: request.cancellation.signal(),
            secrets: request.secrets.to_vec(),
        });
        let name = request.command.join(" ");
        if self.cancel_primary && name == "primary" {
            request.cancellation.cancel(15);
        }
        if self.write_output && name == "build" {
            let mut files = self.files.lock().unwrap();
            let input = files.get("input.txt").cloned().unwrap();
            files.insert("output.txt".into(), input);
        }
        self.outcomes.get(&name).cloned().unwrap_or(Ok(0))
    }
}

fn task(id: &str) -> PlannedTask {
    PlannedTask {
        id: id.into(),
        command: vec![id.into()],
        working_directory: ".".into(),
        environment: KeyMap::new(),
        destructive: false,
        depends_on: vec![],
        cleanup: vec![],
        timeout_seconds: None,
        exclusive: vec![],
        requires: vec![],
        consumers: vec![],
        pass_environment: vec![],
        compose: None,
        cache: None,
    }
}

fn plan(tasks: Vec<PlannedTask>) -> Plan {
    Plan { profile: "ci".into(), tasks, tools: KeyMap::new() }
}

fn clean_paths(plan: &Plan) -> Vec<TaskPaths> {
    plan.tasks
        .iter()
        .map(|t| TaskPaths {
            directory_linked: false,
            directory_exists: true,
            compose_linked: false,
            compose_exists: true,
            cache_linked: match &t.cache {
                Some(c) => vec![false; c.inputs.len() + c.outputs.len()],
                None => vec![],
            },
        })
        .collect()
}

/// Runs a plan one task at a time through the library's scheduling decisions.
fn run_plan(plan: &Plan, root: &str, options: &RunOptions, executor: &FakeExecutor) -> Result<ExecutionReport, String> {
    let directories = preflight(plan, root, options.allow_destructive, &clean_paths(plan))?;
    let mut scheduler = Scheduler::new(plan.tasks.len(), options.jobs);
    loop {
        let mut started = Vec::new();
        for index in scheduler.candidates(plan, options.cancellation.signal()) {
            if !scheduler.has_capacity() {
                break;
            }
            scheduler.start(index);
            started.push(index);
        }
        for index in started {
            let task = &plan.tasks[index];
            let stamps = scheduler.stamps(task);
            let mut run = TaskRun::new(task, stamps.is_some());
            assert_eq!(run.stage, Stage::Processes);
            run.run_commands(task, &directories[index], options, executor);
            if run.stage == Stage::Save {
                run.saved(Ok(()));
            }
            scheduler.record(run.finish(0));
        }
        if scheduler.finished(options.cancellation.signal()) {
            break;
        }
    }
    Ok(scheduler.into_report(plan, options.cancellation.signal()))
}

#[test]
fn cleanup_runs_after_exit_failure_and_spawn_error_and_dependents_are_skipped() {
    for (outcome, expected_code, expected_message) in [
        (Ok(42), 42, None),
        (Err("cannot spawn primary".to_string()), 2, Some("cannot spawn primary")),
    ] {
        let mut primary = task("primary");
        primary.cleanup = vec![vec!["cleanup-fails".into()], vec!["cleanup-last".into()]];
        let mut dependent = task("dependent");
        dependent.depends_on = vec!["primary".into()];
        let executor = FakeExecutor {
            outcomes: BTreeMap::from([("primary".into(), outcome), ("cleanup-fails".into(), Ok(9))]),
            ..Default::default()
        };
        let report = run_plan(&plan(vec![primary, dependent]), "/root", &RunOptions::default(), &executor).unwrap();
        assert_eq!(report.exit_code, expected_code);
        assert_eq!(report.failed.as_deref(), Some("primary"));
        assert!(report.completed.is_empty());
        assert_eq!(report.tasks[0].status, "failed");
        assert_eq!(report.tasks[0].cleanup_errors, 1);
        assert_eq!(report.tasks[0].message.as_deref(), expected_message);
        assert_eq!(report.tasks[1].status, "skipped");
        let calls = executor.calls.lock().unwrap();
        assert_eq!(
            calls.iter().map(|c| c.command[0].as_str()).collect::<Vec<_>>(),
            ["primary", "cleanup-fails", "cleanup-last"]
        );
    }
}

#[test]
fn cleanup_failure_turns_success_into_failure_for_exit_and_spawn_errors() {
    for outcome in [Ok(7), Err("cannot spawn cleanup".to_string())] {
        let mut primary = task("primary");
        primary.cleanup = vec![vec!["cleanup".into()]];
        let executor = FakeExecutor {
            outcomes: BTreeMap::from([("cleanup".into(), outcome)]),
            ..Default::default()
        };
        let report = run_plan(&plan(vec![primary]), "/root", &RunOptions::default(), &executor).unwrap();
        assert_ne!(report.exit_code, 0);
        assert_eq!(report.failed.as_deref(), Some("primary"));
        assert!(report.completed.is_empty());
        assert_eq!(report.tasks[0].status, "failed");
        assert_eq!(report.tasks[0].cleanup_errors, 1);
        assert_eq!(executor.calls.lock().unwrap().len(), 2);
    }
}

#[test]
fn run_options_reach_processes_and_cleanup_uses_fresh_cancellation() {
    let mut primary = task("primary");
    primary.working_directory = "work".into();
    primary.timeout_seconds = Some(17);
    primary.environment.insert("SOURCE".into(), "literal".into());
    primary.cleanup = vec![vec!["cleanup".into()]];
    let mut resolved = KeyMap::new();
    resolved.insert("SOURCE".to_string(), "resolved".to_string());
    let mut options = RunOptions::default();
    options.environments.insert("primary".into(), resolved.clone());
    options.secrets = vec!["redaction-sentinel".into()];
    let executor = FakeExecutor {
        cancel_primary: true,
        outcomes: BTreeMap::from([("primary".into(), Ok(143))]),
        ..Default::default()
    };
    let report = run_plan(&plan(vec![primary]), "/root", &options, &executor).unwrap();
    assert_eq!(report.exit_code, 143);
    assert_eq!(options.cancellation.signal(), 15);
    let calls = executor.calls.lock().unwrap();
    assert_eq!(calls.len(), 2);
    assert_eq!(calls[0].timeout_seconds, Some(17));
    assert_eq!(calls[1].timeout_seconds, Some(30));
    for call in calls.iter() {
        assert_eq!(call.directory, "/root/work");
        assert_eq!(call.environment, entries(&resolved));
        assert_eq!(call.secrets, options.secrets);
        assert_eq!(call.cancellation, 0);
    }
}

#[test]
fn stops_on_failure_and_preserves_exit_code() {
    let mut left = task("left");
    left.depends_on = vec!["prepare".into()];
    let mut right = task("right");
    right.depends_on = vec!["prepare".into()];
    let mut all = task("all");
    all.command = vec![];
    all.depends_on = vec!["left".into(), "right".into()];
    let executor = FakeExecutor {
        outcomes: BTreeMap::from([("left".into(), Ok(42))]),
        ..Default::default()
    };
    let mut options = RunOptions::default();
    options.jobs = 1;
    let report = run_plan(&plan(vec![task("prepare"), left, right, all]), "/root", &options, &executor).unwrap();
    assert_eq!(report.exit_code, 42);
    assert_eq!(report.completed, ["prepare"]);
    assert_eq!(executor.calls.lock().unwrap().len(), 2);
    assert_eq!(report.tasks[2].status, "skipped");
    assert_eq!(report.tasks[3].status, "skipped");
}

/// Runs a plan with several tasks in flight: each round starts every task the
/// scheduler admits, then the task that started first finishes. Returns the
/// report, the most tasks in flight at once and the order of events.
fn run_overlapping(plan: &Plan, options: &RunOptions, executor: &FakeExecutor) -> (ExecutionReport, usize, Vec<String>) {
    let directories = preflight(plan, "/root", options.allow_destructive, &clean_paths(plan)).unwrap();
    let mut scheduler = Scheduler::new(plan.tasks.len(), options.jobs);
    let mut in_flight: Vec<usize> = Vec::new();
    let mut maximum = 0;
    let mut events = Vec::new();
    loop {
        for index in scheduler.candidates(plan, options.cancellation.signal()) {
            if !scheduler.has_capacity() {
                break;
            }
            scheduler.start(index);
            in_flight.push(index);
            events.push(format!("start {}", plan.tasks[index].id));
        }
        maximum = maximum.max(scheduler.running);
        if in_flight.is_empty() {
            break;
        }
        let index = in_flight.remove(0);
        let task = &plan.tasks[index];
        let mut run = TaskRun::new(task, scheduler.stamps(task).is_some());
        run.run_commands(task, &directories[index], options, executor);
        if run.stage == Stage::Save {
            run.saved(Ok(()));
        }
        scheduler.record(run.finish(0));
        events.push(format!("finish {}", task.id));
        if scheduler.finished(options.cancellation.signal()) {
            break;
        }
    }
    (scheduler.into_report(plan, options.cancellation.signal()), maximum, events)
}

#[test]
fn jobs_two_overlaps_independent_tasks_and_waits_for_dependencies() {
    let mut tasks = vec![task("left"), task("right"), task("third")];
    let mut join = task("join");
    join.depends_on = tasks.iter().map(|t| t.id.clone()).collect();
    tasks.push(join);
    let executor = FakeExecutor::default();
    let options = RunOptions { jobs: 2, ..Default::default() };
    let (report, maximum, events) = run_overlapping(&plan(tasks), &options, &executor);
    assert_eq!(report.exit_code, 0, "{report:?}");
    assert_eq!(report.completed, ["left", "right", "third", "join"]);
    assert_eq!(maximum, 2);
    assert_eq!(
        events,
        [
            "start left",
            "start right",
            "finish left",
            "start third",
            "finish right",
            "finish third",
            "start join",
            "finish join",
        ]
    );
    assert_eq!(executor.calls.lock().unwrap().len(), 4);
}

#[test]
fn preflights_entire_plan_before_any_side_effect() {
    let mut last = task("all");
    last.depends_on = vec!["prepare".into()];
    last.destructive = true;
    let mut destructive = plan(vec![task("prepare"), last]);
    let facts = clean_paths(&destructive);
    assert_eq!(
        preflight(&destructive, "/root", false, &facts).unwrap_err(),
        "all: requires --allow-destructive"
    );
    assert_eq!(preflight(&destructive, "/root", true, &facts).unwrap(), ["/root", "/root"]);
    destructive.tasks[1].working_directory = "..".into();
    assert_eq!(
        preflight(&destructive, "/root", true, &facts).unwrap_err(),
        "Path must be relative and cannot contain parent traversal"
    );
    let out_of_order = plan(vec![destructive.tasks[1].clone(), task("prepare")]);
    assert_eq!(
        preflight(&out_of_order, "/root", true, &clean_paths(&out_of_order)).unwrap_err(),
        "Plan must be topologically ordered with unique tasks"
    );
    let ordered = plan(vec![task("prepare")]);
    let mut missing = clean_paths(&ordered);
    missing[0].directory_exists = false;
    assert_eq!(preflight(&ordered, "/root", false, &missing).unwrap_err(), "prepare: missing working directory");
    missing[0].directory_exists = true;
    missing[0].directory_linked = true;
    assert_eq!(preflight(&ordered, "/root", false, &missing).unwrap_err(), "Managed paths cannot contain symlinks");
}

#[test]
fn compose_down_runs_after_up_failure_spawn_error_and_setup_failure() {
    let up = "docker compose --project-name runtime-test --file compose.yaml up --build --abort-on-container-exit --exit-code-from tests tests";
    let down = "docker compose --project-name runtime-test --file compose.yaml down";
    for (command, outcome, code) in [
        (up, Ok(23), 23),
        (up, Err("docker unavailable".to_string()), 2),
        ("setup", Ok(19), 19),
    ] {
        let mut compose_task = task("setup");
        compose_task.compose = Some(Compose {
            file: "compose.yaml".into(),
            service: "tests".into(),
            project: "runtime-test".into(),
            build: true,
        });
        compose_task.cleanup = vec![vec!["extra-cleanup".into()]];
        let executor = FakeExecutor {
            outcomes: BTreeMap::from([(command.to_string(), outcome)]),
            ..Default::default()
        };
        let report = run_plan(&plan(vec![compose_task]), "/root", &RunOptions::default(), &executor).unwrap();
        assert_eq!(report.exit_code, code);
        let calls = executor.calls.lock().unwrap();
        let actual: Vec<_> = calls.iter().map(|c| c.command.join(" ")).collect();
        let expected = if command == "setup" {
            vec!["setup", down, "extra-cleanup"]
        } else {
            vec!["setup", up, down, "extra-cleanup"]
        };
        assert_eq!(actual, expected);
        assert_eq!(report.tasks[0].cleanup_errors, 0);
    }
}

#[test]
fn consumed_values_must_have_the_declared_type_whatever_their_route() {
    let mut manifest = Manifest::new();
    manifest.schema_version = 1;
    manifest.variables.insert(
        "FLAG".into(),
        Variable {
            kind: ValueType::Boolean,
            visibility: Visibility::Internal,
            values: vec![],
            required_in: vec![],
            consumers: vec!["api".into()],
            browser_exposed: false,
        },
    );
    let mut api = task("api");
    api.consumers = vec!["api".into()];
    api.pass_environment = vec!["FLAG".into()];
    let mut source = KeyMap::new();
    source.insert("FLAG".to_string(), "yes".to_string());
    assert_eq!(
        environment::resolve(&manifest, &api, "ci", &source).unwrap_err(),
        "FLAG: invalid value for task api"
    );
    source.insert("FLAG".to_string(), "true".to_string());
    let resolved = environment::resolve(&manifest, &api, "ci", &source).unwrap();
    assert_eq!(resolved.get("FLAG"), Some(&"true".to_string()));
}

#[test]
fn resolved_environments_only_reach_their_declared_consumers() {
    let mut manifest = Manifest::new();
    manifest.schema_version = 1;
    manifest.variables.insert(
        "API_TOKEN".into(),
        Variable {
            kind: ValueType::String,
            visibility: Visibility::Secret,
            values: vec![],
            required_in: vec!["ci".into()],
            consumers: vec!["api".into()],
            browser_exposed: false,
        },
    );
    manifest.variables.insert(
        "PUBLIC_URL".into(),
        Variable {
            kind: ValueType::String,
            visibility: Visibility::Public,
            values: vec![],
            required_in: vec!["ci".into()],
            consumers: vec!["web".into()],
            browser_exposed: false,
        },
    );
    let mut source = KeyMap::new();
    for (k, v) in [
        ("API_TOKEN", "private-sentinel"),
        ("PUBLIC_URL", "https://example.test"),
        ("UNRELATED_SECRET", "must-not-leak"),
        ("EXPLICIT", "passed"),
    ] {
        source.insert(k.to_string(), v.to_string());
    }
    let mut api = task("api");
    api.consumers = vec!["api".into()];
    let mut web = task("web");
    web.consumers = vec!["web".into()];
    web.pass_environment = vec!["EXPLICIT".into()];
    let plan = plan(vec![api, web]);
    let mut options = RunOptions::default();
    for task in &plan.tasks {
        let resolved = environment::resolve(&manifest, task, "ci", &source).unwrap();
        options.environments.insert(task.id.clone(), resolved);
    }
    let executor = FakeExecutor::default();
    let report = run_plan(&plan, "/root", &options, &executor).unwrap();
    assert_eq!(report.exit_code, 0);
    let calls = executor.calls.lock().unwrap();
    assert_eq!(calls.len(), 2);
    assert_eq!(calls[0].environment, vec![("API_TOKEN".to_string(), "private-sentinel".to_string())]);
    assert_eq!(
        calls[1].environment,
        vec![
            ("EXPLICIT".to_string(), "passed".to_string()),
            ("PUBLIC_URL".to_string(), "https://example.test".to_string()),
        ]
    );
    let mut missing = source.duplicate();
    missing.remove("API_TOKEN");
    assert!(environment::resolve(&manifest, &plan.tasks[0], "ci", &missing).is_err());
    assert!(environment::resolve(&manifest, &plan.tasks[1], "ci", &missing).is_ok());
    let mut unauthorized = plan.tasks[1].clone();
    unauthorized.environment.insert("API_TOKEN".into(), "literal".into());
    assert_eq!(
        environment::resolve(&manifest, &unauthorized, "ci", &source).unwrap_err(),
        "web: not a consumer of API_TOKEN"
    );
}

#[test]
fn secrets_are_the_nonempty_values_of_secret_variables() {
    let mut manifest = Manifest::new();
    manifest.variables.insert(
        "TOKEN".into(),
        Variable {
            kind: ValueType::String,
            visibility: Visibility::Secret,
            values: vec![],
            required_in: vec![],
            consumers: vec!["api".into()],
            browser_exposed: false,
        },
    );
    manifest.variables.insert(
        "URL".into(),
        Variable {
            kind: ValueType::Url,
            visibility: Visibility::Public,
            values: vec![],
            required_in: vec![],
            consumers: vec!["api".into()],
            browser_exposed: true,
        },
    );
    let mut source = KeyMap::new();
    source.insert("TOKEN".to_string(), "t0ken".to_string());
    source.insert("URL".to_string(), "https://example.test".to_string());
    assert_eq!(environment::secrets(&manifest, &source), ["t0ken"]);
    source.insert("TOKEN".to_string(), String::new());
    assert!(environment::secrets(&manifest, &source).is_empty());
}

#[test]
fn literal_task_values_reach_the_task_over_source_values() {
    let mut manifest = Manifest::new();
    manifest.variables.insert(
        "MODE".into(),
        Variable {
            kind: ValueType::Enum,
            visibility: Visibility::Public,
            values: vec!["fast".into(), "slow".into()],
            required_in: vec![],
            consumers: vec!["api".into()],
            browser_exposed: false,
        },
    );
    let mut source = KeyMap::new();
    source.insert("MODE".to_string(), "slow".to_string());
    source.insert("PATH".to_string(), "/bin".to_string());
    let mut api = task("api");
    api.consumers = vec!["api".into()];
    api.environment.insert("MODE".into(), "fast".into());
    api.environment.insert("EXTRA".into(), "1".into());
    let resolved = environment::resolve(&manifest, &api, "ci", &source).unwrap();
    assert_eq!(
        entries(&resolved),
        vec![
            ("EXTRA".to_string(), "1".to_string()),
            ("MODE".to_string(), "fast".to_string()),
            ("PATH".to_string(), "/bin".to_string()),
        ]
    );
    api.environment.insert("MODE".into(), "medium".into());
    assert_eq!(
        environment::resolve(&manifest, &api, "ci", &source).unwrap_err(),
        "MODE: invalid value for task api"
    );
}

/// The records of cache paths held in memory, or the error for a missing one.
fn records(files: &BTreeMap<String, Vec<u8>>, paths: &[String]) -> Result<Vec<Vec<u8>>, String> {
    paths
        .iter()
        .map(|p| match files.get(p) {
            Some(bytes) => Ok(path_record_bytes(p.as_bytes(), Some(bytes.as_slice()))),
            None => Err(format!("Missing cache path: {p}")),
        })
        .collect()
}

/// Runs a single cached task through every stage of a task run, with its
/// files and receipt held in memory.
fn run_cached(
    task: &PlannedTask,
    options: &RunOptions,
    executor: &FakeExecutor,
    receipt: &mut Option<Vec<u8>>,
) -> ExecutionReport {
    let plan = plan(vec![task.clone()]);
    let directories = preflight(&plan, "/root", false, &clean_paths(&plan)).unwrap();
    let mut scheduler = Scheduler::new(1, 1);
    let index = scheduler.candidates(&plan, 0)[0];
    scheduler.start(index);
    let stamps = scheduler.stamps(task);
    let cache = task.cache.as_ref().unwrap();
    let mut run = TaskRun::new(task, stamps.is_some());
    assert_eq!(run.stage, Stage::Fingerprint);
    let stamp = {
        let files = executor.files.lock().unwrap();
        records(&files, &cache.inputs).map(|r| {
            fingerprint("0.1.0", task, "ci", &task.environment, &options.tool_versions, &stamps.clone().unwrap(), &r)
        })
    };
    run.fingerprinted(stamp, options.force);
    if run.stage == Stage::Receipt {
        let current = {
            let files = executor.files.lock().unwrap();
            records(&files, &cache.outputs).map(|r| outputs_digest(&r))
        };
        let fingerprint = run.report.fingerprint.clone().unwrap();
        run.checked(Ok(receipt_matches(&read_receipt(receipt), &fingerprint, &current)));
    }
    if run.stage == Stage::Processes {
        run.run_commands(task, &directories[index], options, executor);
    }
    if run.stage == Stage::Save {
        let files = executor.files.lock().unwrap();
        let saved = records(&files, &cache.outputs).map(|r| outputs_digest(&r));
        match saved {
            Ok(output) => {
                *receipt = Some(receipt_bytes(run.report.fingerprint.as_ref().unwrap(), &output));
                run.saved(Ok(()));
            }
            Err(e) => run.saved(Err(e)),
        }
    }
    scheduler.record(run.finish(0));
    scheduler.into_report(&plan, 0)
}

#[test]
fn cache_verifies_inputs_and_outputs_and_force_bypasses_hit() {
    let mut build = task("build");
    build.cache = Some(Cache { inputs: vec!["input.txt".into()], outputs: vec!["output.txt".into()] });
    let executor = FakeExecutor { write_output: true, ..Default::default() };
    executor.files.lock().unwrap().insert("input.txt".into(), b"first".to_vec());
    let mut options = RunOptions::default();
    let mut receipt = None;
    for (step, status, calls) in [
        ("initial", "success", 1),
        ("unchanged", "cached", 1),
        ("input", "success", 2),
        ("output", "success", 3),
        ("missing-output", "success", 4),
        ("warm", "cached", 4),
        ("force", "success", 5),
    ] {
        {
            let mut files = executor.files.lock().unwrap();
            match step {
                "input" => {
                    files.insert("input.txt".into(), b"second".to_vec());
                }
                "output" => {
                    files.insert("output.txt".into(), b"tampered".to_vec());
                }
                "missing-output" => {
                    files.remove("output.txt");
                }
                "force" => options.force = true,
                _ => {}
            }
        }
        let report = run_cached(&build, &options, &executor, &mut receipt);
        assert_eq!(report.exit_code, 0, "{step}: {report:?}");
        assert_eq!(report.tasks[0].status, status, "{step}");
        assert_eq!(report.completed, ["build"]);
        assert_eq!(executor.calls.lock().unwrap().len(), calls, "{step}");
        let files = executor.files.lock().unwrap();
        assert_eq!(files.get("output.txt"), files.get("input.txt"));
    }
}

#[test]
fn fingerprints_cover_the_header_and_every_input_record() {
    let a = vec![path_record_bytes(b"a", Some(&b"1"[..]))];
    let b = vec![path_record_bytes(b"a", Some(&b"2"[..]))];
    assert_ne!(fingerprint_digest(b"task", &a), fingerprint_digest(b"task", &b));
    assert_ne!(fingerprint_digest(b"task", &a), fingerprint_digest(b"other", &a));
    assert_eq!(outputs_digest(&vec![]), pctl::cache::hash(b""));
    let mut joined = b"task".to_vec();
    joined.extend_from_slice(&a[0]);
    assert_eq!(fingerprint_digest(b"task", &a), pctl::cache::hash(&joined));
}

#[test]
fn fingerprint_headers_hold_version_task_profile_environment_tools_and_dependencies() {
    let mut build = task("build");
    build.command = vec!["make".into(), "x".into()];
    build.environment.insert("A".into(), "1".into());
    build.timeout_seconds = Some(5);
    build.cache = Some(Cache { inputs: vec!["in".into()], outputs: vec!["out".into()] });
    let mut environment = KeyMap::new();
    environment.insert("K".to_string(), "v\"q".to_string());
    let mut tools = KeyMap::new();
    tools.insert("tool".to_string(), "1.2".to_string());
    let dependencies = vec!["dep".to_string()];
    let header = header_text("0.1.0", &build, "ci", &environment, &tools, &dependencies);
    assert_eq!(
        header,
        [
            "[\"0.1.0\",{\"id\":\"build\",\"command\":[\"make\",\"x\"],\"working_directory\":\".\",",
            "\"environment\":{\"A\":\"1\"},\"destructive\":false,\"depends_on\":[],\"cleanup\":[],",
            "\"timeout_seconds\":5,\"exclusive\":[],\"requires\":[],\"consumers\":[],\"pass_environment\":[],",
            "\"compose\":null,\"cache\":{\"inputs\":[\"in\"],\"outputs\":[\"out\"]}},\"ci\",{\"K\":\"v\\\"q\"},",
            "{\"tool\":\"1.2\"},[\"dep\"]]",
        ]
        .concat()
    );
    let records = vec![path_record_bytes(b"in", Some(&b"1"[..]))];
    let stamp = fingerprint("0.1.0", &build, "ci", &environment, &tools, &dependencies, &records);
    assert_eq!(stamp, fingerprint_digest(header.as_bytes(), &records));
    let mut newer = tools.duplicate();
    newer.insert("tool".to_string(), "1.3".to_string());
    assert_ne!(stamp, fingerprint("0.1.0", &build, "ci", &environment, &newer, &dependencies, &records));
    assert_ne!(stamp, fingerprint("0.1.0", &build, "production", &environment, &tools, &dependencies, &records));
    let mut changed = build.clone();
    changed.command = vec!["make".into(), "y".into()];
    assert_ne!(stamp, fingerprint("0.1.0", &changed, "ci", &environment, &tools, &dependencies, &records));
}

#[test]
fn receipts_are_read_back_as_written() {
    let bytes = receipt_bytes("fp", "out\n\"x\"");
    assert_eq!(bytes, b"[\"fp\",\"out\\n\\\"x\\\"\"]".to_vec());
    assert_eq!(read_receipt(&Some(bytes)), Some(("fp".to_string(), "out\n\"x\"".to_string())));
    assert_eq!(read_receipt(&Some(b"not json".to_vec())), None);
    assert_eq!(read_receipt(&Some(b"[\"only\"]".to_vec())), None);
    assert_eq!(read_receipt(&None), None);
}
