use pctl::arguments::{parameter, parameter_map};
use pctl::config::{admit_fragment, check_schema, merge_fragment, validate, validate_environment, Project};
use pctl::keymap::KeyMap;
use pctl::model::{Manifest, Parameter, Task, ValueType, Variable, Visibility};
use pctl::planning;

fn strings(items: &[&str]) -> Vec<String> {
    items.iter().map(|s| s.to_string()).collect()
}

fn task(description: &str, command: &[&str], depends_on: &[&str]) -> Task {
    Task {
        description: description.into(),
        command: strings(command),
        working_directory: ".".into(),
        depends_on: strings(depends_on),
        profiles: vec![],
        parameters: KeyMap::new(),
        environment: KeyMap::new(),
        destructive: false,
        cleanup: vec![],
        timeout_seconds: None,
        exclusive: vec![],
        requires: vec![],
        consumers: vec![],
        pass_environment: vec![],
        compose: None,
        cache: None,
    }
}

fn manifest_of(tasks: Vec<(&str, Task)>) -> Manifest {
    let mut manifest = Manifest::new();
    manifest.schema_version = 1;
    for (id, task) in tasks {
        manifest.tasks.insert(id.into(), task);
    }
    manifest
}

fn shared_tasks() -> Manifest {
    manifest_of(vec![
        ("prepare", task("Prepare", &["example", "prepare"], &[])),
        ("left", task("Left", &["example", "left"], &["prepare"])),
        ("right", task("Right", &["example", "right"], &["prepare"])),
        ("all", task("All", &[], &["left", "right"])),
    ])
}

fn values(pairs: &[(&str, &str)]) -> KeyMap<String> {
    let mut map = KeyMap::new();
    for (k, v) in pairs {
        map.insert(k.to_string(), v.to_string());
    }
    map
}

fn variable(kind: ValueType, visibility: Visibility, consumers: &[&str], required_in: &[&str]) -> Variable {
    Variable {
        kind,
        visibility,
        values: vec![],
        required_in: strings(required_in),
        consumers: strings(consumers),
        browser_exposed: false,
    }
}

#[test]
fn shared_dependencies_execute_once_in_declared_order() {
    let project = Project::load("/project".into(), shared_tasks()).unwrap();
    let plan = planning::build(&project.manifest, "all", "local", &KeyMap::new()).unwrap();
    assert_eq!(
        plan.tasks.iter().map(|t| t.id.as_str()).collect::<Vec<_>>(),
        ["prepare", "left", "right", "all"]
    );
}

#[test]
fn validates_parameters_and_keeps_shell_characters_in_one_argument() {
    let mut echo = task("Echo", &["echo", "{param:message}"], &[]);
    echo.profiles = strings(&["local"]);
    echo.parameters.insert(
        "message".into(),
        Parameter { kind: ValueType::String, default: None, values: vec![] },
    );
    let project = Project::load("/project".into(), manifest_of(vec![("echo", echo)])).unwrap();
    let input = "hello; $(touch /tmp/never)";
    let parameters = values(&[("message", input)]);
    let plan = planning::build(&project.manifest, "echo", "local", &parameters).unwrap();
    assert_eq!(plan.tasks[0].command, ["echo", input]);
    assert!(planning::build(&project.manifest, "echo", "production", &parameters).is_err());
    assert!(planning::build(&project.manifest, "echo", "local", &KeyMap::new()).is_err());
}

#[test]
fn rejects_cycles_duplicates_unknown_fields_and_browser_secrets() {
    let mut cyclic = shared_tasks();
    cyclic.tasks.insert("prepare".into(), task("Prepare", &[], &["all"]));
    assert!(Project::load("/project".into(), cyclic).is_err());

    let mut secret = Manifest::new();
    secret.schema_version = 1;
    let mut token = variable(ValueType::String, Visibility::Secret, &["api"], &[]);
    token.browser_exposed = true;
    secret.variables.insert("TOKEN".into(), token);
    assert!(Project::load("/project".into(), secret).is_err());

    let mut root = shared_tasks();
    assert_eq!(merge_fragment(&mut root, shared_tasks()).unwrap_err(), "Duplicate task: all");
}

#[test]
fn environment_errors_never_echo_values() {
    let mut manifest = Manifest::new();
    manifest.schema_version = 1;
    manifest.variables.insert(
        "TOKEN".into(),
        variable(ValueType::Integer, Visibility::Secret, &["api"], &["production"]),
    );
    let project = Project::load("/project".into(), manifest).unwrap();
    assert!(validate_environment(&project.manifest, "local", &KeyMap::new()).is_ok());
    assert!(validate_environment(&project.manifest, "production", &KeyMap::new()).is_err());
    let error = validate_environment(
        &project.manifest,
        "production",
        &values(&[("TOKEN", "private-value")]),
    )
    .unwrap_err();
    assert!(error.contains("TOKEN"));
    assert!(!error.contains("private-value"));
}

#[test]
fn dependencies_must_allow_the_selected_profile() {
    let mut manifest = shared_tasks();
    let mut prepare = task("Prepare", &["example", "prepare"], &[]);
    prepare.profiles = strings(&["ci"]);
    manifest.tasks.insert("prepare".into(), prepare);
    assert!(validate(&manifest).is_ok());
    assert!(planning::build(&manifest, "all", "local", &KeyMap::new()).is_err());
    assert!(planning::build(&manifest, "all", "ci", &KeyMap::new()).is_ok());
}

#[test]
fn root_parameters_never_reach_dependencies() {
    let mut manifest = shared_tasks();
    let mut all = task("All", &["report", "{param:level}"], &["left", "right"]);
    all.parameters.insert(
        "level".into(),
        Parameter { kind: ValueType::Enum, default: Some("low".into()), values: strings(&["low", "high"]) },
    );
    manifest.tasks.insert("all".into(), all);
    let plan = planning::build(&manifest, "all", "local", &values(&[("level", "high")])).unwrap();
    assert_eq!(plan.tasks[3].command, ["report", "high"]);
    assert_eq!(plan.tasks[0].command, ["example", "prepare"]);
    assert!(planning::build(&manifest, "all", "local", &values(&[("level", "medium")])).is_err());
    assert!(planning::build(&manifest, "left", "local", &values(&[("level", "high")])).is_err());
}

#[test]
fn command_line_parameters_split_at_the_first_equals_sign() {
    assert_eq!(parameter("filter=a=b").unwrap(), ("filter".to_string(), "a=b".to_string()));
    assert_eq!(parameter("empty=").unwrap(), ("empty".to_string(), String::new()));
    assert_eq!(parameter("missing").unwrap_err(), "Use --param name=value");
    assert_eq!(parameter("=value").unwrap_err(), "Parameter name cannot be empty");
    let pairs = vec![("a".to_string(), "1".to_string()), ("b".to_string(), "2".to_string())];
    let map = parameter_map(pairs).unwrap();
    assert_eq!(map.get("a"), Some(&"1".to_string()));
    assert_eq!(map.get("b"), Some(&"2".to_string()));
    let repeated = vec![("a".to_string(), "1".to_string()), ("a".to_string(), "2".to_string())];
    assert_eq!(parameter_map(repeated).unwrap_err(), "Repeated parameter: a");
}

#[test]
fn unknown_dependencies_and_secret_literals_are_rejected() {
    let manifest = manifest_of(vec![("build", task("Build", &["make"], &["missing"]))]);
    assert_eq!(validate(&manifest).unwrap_err(), "build: unknown dependency missing");
    let mut secret = manifest_of(vec![("build", task("Build", &["make"], &[]))]);
    secret.variables.insert("TOKEN".into(), variable(ValueType::String, Visibility::Secret, &["api"], &[]));
    let mut build = task("Build", &["make"], &[]);
    build.environment.insert("TOKEN".into(), "literal".into());
    secret.tasks.insert("build".into(), build);
    assert_eq!(
        validate(&secret).unwrap_err(),
        "build: secret TOKEN must come from the process environment"
    );
}

#[test]
fn every_declaration_rule_has_its_diagnostic() {
    let empty = manifest_of(vec![("idle", task("Idle", &[], &[]))]);
    assert_eq!(validate(&empty).unwrap_err(), "idle: task needs a command or dependencies");
    let blank = manifest_of(vec![("blank", task("Blank", &["", "x"], &[]))]);
    assert_eq!(validate(&blank).unwrap_err(), "blank: command executable cannot be empty");
    let mut defaults = task("Count", &["count", "{param:n}"], &[]);
    defaults.parameters.insert(
        "n".into(),
        Parameter { kind: ValueType::Integer, default: Some("many".into()), values: vec![] },
    );
    assert_eq!(
        validate(&manifest_of(vec![("count", defaults)])).unwrap_err(),
        "count: invalid default for parameter n"
    );
    let mut unused = Manifest::new();
    unused.variables.insert("LONELY".into(), variable(ValueType::String, Visibility::Public, &[], &[]));
    assert_eq!(validate(&unused).unwrap_err(), "LONELY: declare at least one consumer");
    let mut cyclic = shared_tasks();
    cyclic.tasks.insert("prepare".into(), task("Prepare", &[], &["all"]));
    assert!(validate(&cyclic).unwrap_err().starts_with("Task dependency cycle at "));
}

#[test]
fn fragments_are_admitted_once_inside_the_project_with_the_supported_schema() {
    let mut visited = Vec::new();
    assert!(admit_fragment("/project/pctl.toml", "/project", &mut visited).is_ok());
    assert!(admit_fragment("/project/tasks.toml", "/project", &mut visited).is_ok());
    assert_eq!(
        admit_fragment("/project/tasks.toml", "/project", &mut visited).unwrap_err(),
        "Repeated or cyclic include: /project/tasks.toml"
    );
    assert_eq!(
        admit_fragment("/projects/other.toml", "/project", &mut visited).unwrap_err(),
        "Manifest includes must stay inside the project"
    );
    assert!(check_schema(1, "/project/pctl.toml").is_ok());
    assert_eq!(check_schema(2, "/project/pctl.toml").unwrap_err(), "Unsupported schema version in /project/pctl.toml");
    let mut root = Manifest::new();
    root.variables.insert("TOKEN".into(), variable(ValueType::String, Visibility::Secret, &["api"], &[]));
    let mut fragment = Manifest::new();
    fragment.variables.insert("TOKEN".into(), variable(ValueType::String, Visibility::Secret, &["api"], &[]));
    assert_eq!(merge_fragment(&mut root, fragment).unwrap_err(), "Duplicate variable: TOKEN");
}

#[test]
fn parameter_errors_name_the_task_and_parameter() {
    let mut echo = task("Echo", &["echo", "prefix-{param:message}"], &[]);
    echo.parameters.insert(
        "message".into(),
        Parameter { kind: ValueType::Boolean, default: None, values: vec![] },
    );
    let manifest = manifest_of(vec![("echo", echo)]);
    assert_eq!(
        planning::build(&manifest, "echo", "local", &values(&[("message", "true")])).unwrap_err(),
        "echo: parameter references must occupy an entire argument"
    );
    let mut echo = task("Echo", &["echo", "{param:message}"], &[]);
    echo.parameters.insert(
        "message".into(),
        Parameter { kind: ValueType::Boolean, default: None, values: vec![] },
    );
    let manifest = manifest_of(vec![("echo", echo)]);
    assert_eq!(
        planning::build(&manifest, "echo", "local", &values(&[("message", "yes")])).unwrap_err(),
        "echo: invalid parameter message"
    );
    assert_eq!(
        planning::build(&manifest, "echo", "local", &KeyMap::new()).unwrap_err(),
        "echo: missing parameter message"
    );
    assert_eq!(
        planning::build(&manifest, "echo", "local", &values(&[("message", "true"), ("other", "1")])).unwrap_err(),
        "echo: unknown parameter other"
    );
    assert_eq!(planning::build(&manifest, "absent", "local", &KeyMap::new()).unwrap_err(), "Unknown task: absent");
}
