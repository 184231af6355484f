//! Dependency scheduling, task runs and failure reporting. Starting processes,
//! file locks and cache files belong to the caller; the decisions are made here.
use vstd::prelude::*;
use crate::compose::{commands, down_arguments, up_arguments};
use crate::keymap::{as_map, has_key, lookup, KeyMap};
use crate::model::{command_views, copy_commands, copy_strings, Plan, PlannedTask};
use crate::process::Cancellation;
use crate::paths::{inside, inside_result};
use crate::text::{contains_text, join2, owned, same, views};

verus! {

/// One process to run for a task.
pub struct ProcessRequest<'a> {
    pub command: &'a [String],
    pub directory: &'a str,
    pub environment: &'a KeyMap<String>,
    pub timeout_seconds: Option<u64>,
    pub cancellation: &'a Cancellation,
    pub secrets: &'a [String],
}

/// What a process request holds, as values.
pub struct RequestView {
    pub command: Seq<Seq<char>>,
    pub directory: Seq<char>,
    pub environment: Seq<(String, String)>,
    pub timeout_seconds: Option<u64>,
    pub cancellation: Cancellation,
    pub secrets: Seq<String>,
}

/// The values a request holds.
pub open spec fn request_view(r: ProcessRequest<'_>) -> RequestView {
    RequestView {
        command: views(r.command@),
        directory: r.directory@,
        environment: r.environment@,
        timeout_seconds: r.timeout_seconds,
        cancellation: *r.cancellation,
        secrets: r.secrets@,
    }
}

/// Runs processes on behalf of a task run. Nothing is assumed of the outcome
/// beyond this: `ran(request, outcome)` records that `outcome` is what running
/// `request` gave.
pub trait ProcessExecutor {
    /// `outcome` is what this executor gave for `request`. An implementation
    /// that does not define it promises nothing: it then holds of every pair.
    /// Code generic over the executor knows only what `execute` establishes.
    closed spec fn ran(&self, request: RequestView, outcome: Result<i32, String>) -> bool {
        true
    }

    fn execute(&self, request: ProcessRequest<'_>) -> (r: Result<i32, String>)
        ensures
            self.ran(request_view(request), r),
    ;
}

/// Settings of one run of a plan.
pub struct RunOptions {
    pub jobs: usize,
    pub allow_destructive: bool,
    pub force: bool,
    pub cancellation: Cancellation,
    pub environments: KeyMap<KeyMap<String>>,
    pub tool_versions: KeyMap<String>,
    pub secrets: Vec<String>,
}

impl RunOptions {
    /// Sequential, non-destructive, no overrides, no secrets.
    pub fn new() -> (r: Self)
        ensures
            r.jobs == 0,
            !r.allow_destructive,
            !r.force,
            r.environments@.len() == 0,
            r.tool_versions@.len() == 0,
            r.secrets@.len() == 0,
    {
        RunOptions {
            jobs: 0,
            allow_destructive: false,
            force: false,
            cancellation: Cancellation::new(),
            environments: KeyMap::new(),
            tool_versions: KeyMap::new(),
            secrets: Vec::new(),
        }
    }
}

impl Default for RunOptions {
    fn default() -> (r: Self)
        ensures
            r.jobs == 0,
            !r.allow_destructive,
            !r.force,
            r.environments@.len() == 0,
            r.tool_versions@.len() == 0,
            r.secrets@.len() == 0,
    {
        RunOptions::new()
    }
}

/// The outcome of one task.
#[derive(Debug)]
pub struct TaskReport {
    pub id: String,
    pub status: String,
    pub exit_code: i32,
    pub duration_ms: u128,
    pub cleanup_errors: usize,
    pub message: Option<String>,
    pub fingerprint: Option<String>,
}

/// The outcome of a plan.
#[derive(Debug)]
pub struct ExecutionReport {
    pub exit_code: i32,
    pub completed: Vec<String>,
    pub failed: Option<String>,
    pub tasks: Vec<TaskReport>,
}

/// The exit code reported for a process that could not be run.
pub const PROCESS_ERROR_CODE: i32 = 2;

/// How long a cleanup command may run, in seconds.
pub const CLEANUP_TIMEOUT_SECONDS: u64 = 30;

/// The commands a task runs: its own command when it has one, then the
/// Compose `up` command when it drives a Compose service.
pub open spec fn main_commands(task: PlannedTask) -> Seq<Seq<Seq<char>>> {
    let own: Seq<Seq<Seq<char>>> = if task.command@.len() == 0 {
        Seq::empty()
    } else {
        seq![views(task.command@)]
    };
    match task.compose {
        Some(c) => own.push(up_arguments(c)),
        None => own,
    }
}

/// The cleanup commands of a task: Compose `down` first, then its own.
pub open spec fn cleanup_commands(task: PlannedTask) -> Seq<Seq<Seq<char>>> {
    let own = command_views(task.cleanup@).map_values(|c: Seq<String>| views(c));
    match task.compose {
        Some(c) => seq![down_arguments(c)] + own,
        None => own,
    }
}

/// The argument lists of a list of commands.
pub open spec fn command_texts(v: Seq<Vec<String>>) -> Seq<Seq<Seq<char>>> {
    command_views(v).map_values(|c: Seq<String>| views(c))
}

/// Builds the main and cleanup command lists of a task.
pub fn task_commands(task: &PlannedTask) -> (r: (Vec<Vec<String>>, Vec<Vec<String>>))
    ensures
        command_texts(r.0@) == main_commands(*task),
        command_texts(r.1@) == cleanup_commands(*task),
{
    let mut main: Vec<Vec<String>> = Vec::new();
    if task.command.len() > 0 {
        main.push(copy_strings(&task.command));
    }
    let own = copy_commands(&task.cleanup);
    let mut cleanup: Vec<Vec<String>> = Vec::new();
    match &task.compose {
        Some(compose) => {
            let (up, down) = commands(compose);
            main.push(up);
            cleanup.push(down);
        },
        None => {},
    }
    let ghost head = command_views(cleanup@);
    let mut i: usize = 0;
    while i < own.len()
        invariant
            i <= own@.len(),
            command_views(own@) == command_views(task.cleanup@),
            command_views(cleanup@) == head + command_views(own@).take(i as int),
        decreases own@.len() - i,
    {
        let ghost before = cleanup@;
        let item = copy_strings(&own[i]);
        cleanup.push(item);
        proof {
            assert(command_views(cleanup@) =~= command_views(before).push(own@[i as int]@));
            assert(command_views(own@).take(i + 1) =~= command_views(own@).take(i as int).push(own@[i as int]@));
        }
        i = i + 1;
    }
    proof {
        assert(command_views(own@).take(own@.len() as int) =~= command_views(own@));
        assert(command_texts(main@) =~= main_commands(*task));
        assert(command_texts(cleanup@) =~= cleanup_commands(*task));
    }
    (main, cleanup)
}

/// The main commands ran in order until the first one that did not succeed.
pub open spec fn ran_until_failure(count: nat, outcomes: Seq<Result<i32, String>>) -> bool {
    &&& outcomes.len() <= count
    &&& forall|i: int| 0 <= i < outcomes.len() - 1 ==> #[trigger] outcomes[i] == Ok::<i32, String>(0)
    &&& outcomes.len() < count ==> outcomes.len() > 0 && outcomes.last() != Ok::<i32, String>(0)
}

/// The exit code after the main commands: that of the last one run, or the
/// process-error code when it could not be run.
pub open spec fn main_code(outcomes: Seq<Result<i32, String>>) -> i32 {
    if outcomes.len() == 0 {
        0
    } else {
        match outcomes.last() {
            Ok(c) => c,
            Err(_) => PROCESS_ERROR_CODE,
        }
    }
}

/// The error that stopped the main commands, if one could not be run.
pub open spec fn main_error(outcomes: Seq<Result<i32, String>>) -> Option<String> {
    if outcomes.len() == 0 {
        None
    } else {
        match outcomes.last() {
            Ok(_) => None,
            Err(e) => Some(e),
        }
    }
}

/// The exit code after cleanup: a cleanup command that fails or cannot run
/// turns success into failure (code 1) and keeps a failure as it was.
pub open spec fn cleanup_code(code: i32, outcomes: Seq<Result<i32, String>>) -> i32
    decreases outcomes.len(),
{
    if outcomes.len() == 0 {
        code
    } else {
        let before = cleanup_code(code, outcomes.drop_last());
        if outcomes.last() != Ok::<i32, String>(0) && before == 0 {
            1
        } else {
            before
        }
    }
}

/// How many cleanup commands failed or could not run.
pub open spec fn cleanup_failures(outcomes: Seq<Result<i32, String>>) -> nat
    decreases outcomes.len(),
{
    if outcomes.len() == 0 {
        0
    } else {
        cleanup_failures(outcomes.drop_last()) + if outcomes.last() != Ok::<i32, String>(0) {
            1nat
        } else {
            0nat
        }
    }
}

proof fn lemma_cleanup_failures_bound(outcomes: Seq<Result<i32, String>>)
    ensures
        cleanup_failures(outcomes) <= outcomes.len(),
    decreases outcomes.len(),
{
    if outcomes.len() > 0 {
        lemma_cleanup_failures_bound(outcomes.drop_last());
    }
}

/// What running the processes of a task produced: the outcome of each main
/// command run and of each cleanup command, and the requests, in call order.
pub struct ProcessOutcomes {
    pub main: Vec<Result<i32, String>>,
    pub cleanup: Vec<Result<i32, String>>,
    pub requests: Ghost<Seq<RequestView>>,
}

/// The request for a main command: the task's timeout and the run's cancellation.
pub open spec fn main_request_of(
    command: Seq<String>,
    directory: Seq<char>,
    environment: Seq<(String, String)>,
    timeout_seconds: Option<u64>,
    options: RunOptions,
) -> RequestView {
    RequestView {
        command: views(command),
        directory,
        environment,
        timeout_seconds,
        cancellation: options.cancellation,
        secrets: options.secrets@,
    }
}

/// `v` is the request for a cleanup command: the cleanup timeout and a
/// cancellation of its own (any handle made for the call).
pub open spec fn is_cleanup_request(
    v: RequestView,
    command: Seq<String>,
    directory: Seq<char>,
    environment: Seq<(String, String)>,
    options: RunOptions,
) -> bool {
    &&& v.command == views(command)
    &&& v.directory == directory
    &&& v.environment == environment
    &&& v.timeout_seconds == Some(CLEANUP_TIMEOUT_SECONDS)
    &&& v.secrets == options.secrets@
}

/// Builds the request for a main command.
pub fn main_request<'a>(
    command: &'a Vec<String>,
    directory: &'a str,
    environment: &'a KeyMap<String>,
    timeout_seconds: Option<u64>,
    options: &'a RunOptions,
) -> (r: ProcessRequest<'a>)
    ensures
        request_view(r) == main_request_of(command@, directory@, environment@, timeout_seconds, *options),
{
    ProcessRequest {
        command: command.as_slice(),
        directory,
        environment,
        timeout_seconds,
        cancellation: &options.cancellation,
        secrets: options.secrets.as_slice(),
    }
}

/// Builds the request for a cleanup command, with the cleanup timeout and the
/// cancellation `fresh` made for it.
pub fn cleanup_request<'a>(
    command: &'a Vec<String>,
    directory: &'a str,
    environment: &'a KeyMap<String>,
    fresh: &'a Cancellation,
    options: &'a RunOptions,
) -> (r: ProcessRequest<'a>)
    ensures
        is_cleanup_request(request_view(r), command@, directory@, environment@, *options),
        request_view(r).cancellation == *fresh,
{
    ProcessRequest {
        command: command.as_slice(),
        directory,
        environment,
        timeout_seconds: Some(CLEANUP_TIMEOUT_SECONDS),
        cancellation: fresh,
        secrets: options.secrets.as_slice(),
    }
}

/// Runs the main commands in order until one fails, then every cleanup
/// command, each with a cancellation made for it and the cleanup timeout.
/// Every recorded outcome is what the executor gave for that request.
pub fn run_processes<E: ProcessExecutor>(
    main: &Vec<Vec<String>>,
    cleanup: &Vec<Vec<String>>,
    directory: &str,
    environment: &KeyMap<String>,
    timeout_seconds: Option<u64>,
    options: &RunOptions,
    executor: &E,
) -> (r: ProcessOutcomes)
    ensures
        ran_until_failure(main@.len(), r.main@),
        r.cleanup@.len() == cleanup@.len(),
        r.requests@.len() == r.main@.len() + r.cleanup@.len(),
        forall|i: int| 0 <= i < r.main@.len() ==> {
            &&& #[trigger] r.requests@[i] == main_request_of(main@[i]@, directory@, environment@, timeout_seconds, *options)
            &&& executor.ran(r.requests@[i], r.main@[i])
        },
        forall|j: int| 0 <= j < r.cleanup@.len() ==> {
            &&& is_cleanup_request(#[trigger] r.requests@[r.main@.len() + j], cleanup@[j]@, directory@, environment@, *options)
            &&& executor.ran(r.requests@[r.main@.len() + j], r.cleanup@[j])
        },
{
    let mut outcomes: Vec<Result<i32, String>> = Vec::new();
    let ghost mut requests: Seq<RequestView> = Seq::empty();
    let mut i: usize = 0;
    let mut stopped = false;
    while i < main.len() && !stopped
        invariant
            i <= main@.len(),
            outcomes@.len() == if stopped { i + 1 } else { i as int },
            stopped ==> i < main@.len() && outcomes@.last() != Ok::<i32, String>(0),
            forall|j: int| 0 <= j < i ==> #[trigger] outcomes@[j] == Ok::<i32, String>(0),
            requests.len() == outcomes@.len(),
            forall|k: int| 0 <= k < outcomes@.len() ==> {
                &&& #[trigger] requests[k] == main_request_of(main@[k]@, directory@, environment@, timeout_seconds, *options)
                &&& executor.ran(requests[k], outcomes@[k])
            },
        decreases main@.len() - i + if stopped { 0int } else { 1int },
    {
        let request = main_request(&main[i], directory, environment, timeout_seconds, options);
        let ghost view = request_view(request);
        let outcome = executor.execute(request);
        let succeeded = match &outcome {
            Ok(code) => *code == 0,
            Err(_) => false,
        };
        proof {
            requests = requests.push(view);
        }
        outcomes.push(outcome);
        if !succeeded {
            stopped = true;
        } else {
            i = i + 1;
        }
    }
    let ghost n = outcomes@.len();
    let mut after: Vec<Result<i32, String>> = Vec::new();
    let mut k: usize = 0;
    while k < cleanup.len()
        invariant
            k <= cleanup@.len(),
            after@.len() == k,
            n == outcomes@.len(),
            requests.len() == n + k,
            forall|m: int| 0 <= m < n ==> {
                &&& #[trigger] requests[m] == main_request_of(main@[m]@, directory@, environment@, timeout_seconds, *options)
                &&& executor.ran(requests[m], outcomes@[m])
            },
            forall|j: int| 0 <= j < k ==> {
                &&& is_cleanup_request(#[trigger] requests[n + j], cleanup@[j]@, directory@, environment@, *options)
                &&& executor.ran(requests[n + j], after@[j])
            },
        decreases cleanup@.len() - k,
    {
        let fresh = Cancellation::new();
        let request = cleanup_request(&cleanup[k], directory, environment, &fresh, options);
        let ghost view = request_view(request);
        let outcome = executor.execute(request);
        proof {
            requests = requests.push(view);
        }
        after.push(outcome);
        k = k + 1;
    }
    ProcessOutcomes { main: outcomes, cleanup: after, requests: Ghost(requests) }
}

/// Where a task run stands.
#[derive(Debug, Clone, Copy, PartialEq, Eq, Structural)]
pub enum Stage {
    /// The cache fingerprint is to be computed.
    Fingerprint,
    /// The receipt of a previous run is to be checked against the fingerprint.
    Receipt,
    /// The task's processes are to be run.
    Processes,
    /// A receipt for this successful run is to be saved.
    Save,
    /// The outcome is decided.
    Done,
}

/// The run of one task: its report so far and what comes next.
#[derive(Debug)]
pub struct TaskRun {
    pub report: TaskReport,
    pub stage: Stage,
}

/// The report of a task that has just started.
pub open spec fn fresh_report(r: TaskReport, id: Seq<char>) -> bool {
    &&& r.id@ == id
    &&& r.status@ == "success"@
    &&& r.exit_code == 0
    &&& r.duration_ms == 0
    &&& r.cleanup_errors == 0
    &&& r.message.is_none()
    &&& r.fingerprint.is_none()
}

/// `after` is `before` failed by an error with `message`: exit code 2 and the message.
pub open spec fn failed_with(after: TaskReport, before: TaskReport, message: Seq<char>) -> bool {
    &&& after.id == before.id
    &&& after.status == before.status
    &&& after.exit_code == PROCESS_ERROR_CODE
    &&& after.duration_ms == before.duration_ms
    &&& after.cleanup_errors == before.cleanup_errors
    &&& after.message matches Some(m) && m@ == message
    &&& after.fingerprint == before.fingerprint
}

impl TaskRun {
    /// Starts the run of `task`; the cache is consulted only when the task
    /// declares one and the fingerprints of its dependencies are known.
    pub fn new(task: &PlannedTask, stamps_known: bool) -> (r: Self)
        ensures
            fresh_report(r.report, task.id@),
            r.stage == (if task.cache.is_some() && stamps_known { Stage::Fingerprint } else { Stage::Processes }),
    {
        let report = TaskReport {
            id: task.id.clone(),
            status: owned("success"),
            exit_code: 0,
            duration_ms: 0,
            cleanup_errors: 0,
            message: None,
            fingerprint: None,
        };
        let stage = if task.cache.is_some() && stamps_known { Stage::Fingerprint } else { Stage::Processes };
        TaskRun { report, stage }
    }

    fn fail(&mut self, message: String)
        ensures
            failed_with(final(self).report, old(self).report, message@),
            final(self).stage == Stage::Done,
    {
        self.report.exit_code = PROCESS_ERROR_CODE;
        self.report.message = Some(message);
        self.stage = Stage::Done;
    }

    /// Takes the computed fingerprint: an error fails the task; otherwise it
    /// is recorded and, unless `force`, the receipt is checked next.
    pub fn fingerprinted(&mut self, result: Result<String, String>, force: bool)
        requires
            old(self).stage == Stage::Fingerprint,
        ensures
            match result {
                Err(e) => failed_with(final(self).report, old(self).report, e@) && final(self).stage == Stage::Done,
                Ok(f) => final(self).report.fingerprint == Some(f) && final(self).report.id == old(self).report.id
                    && final(self).report.status == old(self).report.status && final(self).report.exit_code
                    == old(self).report.exit_code && final(self).report.cleanup_errors == old(self).report.cleanup_errors
                    && final(self).report.message == old(self).report.message && final(self).report.duration_ms
                    == old(self).report.duration_ms && final(self).stage == (if force {
                    Stage::Processes
                } else {
                    Stage::Receipt
                }),
            },
    {
        match result {
            Err(e) => self.fail(e),
            Ok(f) => {
                self.report.fingerprint = Some(f);
                self.stage = if force { Stage::Processes } else { Stage::Receipt };
            },
        }
    }

    /// Takes the receipt check: an error fails the task, a valid receipt
    /// finishes it as cached, otherwise its processes run.
    pub fn checked(&mut self, result: Result<bool, String>)
        requires
            old(self).stage == Stage::Receipt,
        ensures
            match result {
                Err(e) => failed_with(final(self).report, old(self).report, e@) && final(self).stage == Stage::Done,
                Ok(true) => final(self).report.status@ == "cached"@ && final(self).report.exit_code == 0
                    && final(self).report.id == old(self).report.id && final(self).report.fingerprint
                    == old(self).report.fingerprint && final(self).report.cleanup_errors == old(self).report.cleanup_errors
                    && final(self).report.message == old(self).report.message && final(self).stage == Stage::Done,
                Ok(false) => final(self).report == old(self).report && final(self).stage == Stage::Processes,
            },
    {
        match result {
            Err(e) => self.fail(e),
            Ok(hit) => {
                if hit {
                    self.report.status = owned("cached");
                    self.report.exit_code = 0;
                    self.stage = Stage::Done;
                } else {
                    self.stage = Stage::Processes;
                }
            },
        }
    }

    /// Takes the outcomes of the task's processes. A main command that could
    /// not run fails the task with its error; otherwise the exit code is
    /// decided, and a successful run with a fingerprint saves a receipt next.
    pub fn ran(&mut self, outcomes: ProcessOutcomes)
        requires
            old(self).stage == Stage::Processes,
            old(self).report.cleanup_errors == 0,
        ensures
            final(self).report.id == old(self).report.id,
            final(self).report.status == old(self).report.status,
            final(self).report.fingerprint == old(self).report.fingerprint,
            final(self).report.duration_ms == old(self).report.duration_ms,
            final(self).report.cleanup_errors == cleanup_failures(outcomes.cleanup@),
            match main_error(outcomes.main@) {
                Some(e) => final(self).report.exit_code == PROCESS_ERROR_CODE && (final(self).report.message matches Some(m)
                    && m@ == e@) && final(self).stage == Stage::Done,
                None => final(self).report.exit_code == cleanup_code(main_code(outcomes.main@), outcomes.cleanup@)
                    && final(self).report.message == old(self).report.message && final(self).stage == (if cleanup_code(
                    main_code(outcomes.main@),
                    outcomes.cleanup@,
                ) == 0 && old(self).report.fingerprint.is_some() {
                    Stage::Save
                } else {
                    Stage::Done
                }),
            },
    {
        let ProcessOutcomes { main, cleanup, .. } = outcomes;
        let mut code: i32 = 0;
        let mut error: Option<String> = None;
        let n = main.len();
        if n > 0 {
            match &main[n - 1] {
                Ok(c) => {
                    code = *c;
                },
                Err(e) => {
                    code = PROCESS_ERROR_CODE;
                    error = Some(e.clone());
                },
            }
        }
        proof {
            lemma_cleanup_failures_bound(cleanup@);
        }
        let mut errors: usize = 0;
        let mut k: usize = 0;
        while k < cleanup.len()
            invariant
                k <= cleanup@.len(),
                code == cleanup_code(main_code(main@), cleanup@.take(k as int)),
                errors == cleanup_failures(cleanup@.take(k as int)),
                errors <= k,
            decreases cleanup@.len() - k,
        {
            let failed = match &cleanup[k] {
                Ok(c) => *c != 0,
                Err(_) => true,
            };
            proof {
                assert(cleanup@.take(k + 1).drop_last() =~= cleanup@.take(k as int));
            }
            if failed {
                errors = errors + 1;
                if code == 0 {
                    code = 1;
                }
            }
            k = k + 1;
        }
        proof {
            assert(cleanup@.take(cleanup@.len() as int) =~= cleanup@);
        }
        self.report.cleanup_errors = errors;
        match error {
            Some(e) => {
                self.fail(e);
            },
            None => {
                self.report.exit_code = code;
                self.stage = if code == 0 && self.report.fingerprint.is_some() { Stage::Save } else { Stage::Done };
            },
        }
    }

    /// Runs the processes of `task`: its main commands in order until one does
    /// not succeed, then every cleanup command, in `directory` with the
    /// task's environment, and takes their outcomes as `ran` does. Returns the
    /// outcomes of the main and cleanup commands and the requests, in call order.
    pub fn run_commands<E: ProcessExecutor>(
        &mut self,
        task: &PlannedTask,
        directory: &str,
        options: &RunOptions,
        executor: &E,
    ) -> (log: Ghost<(Seq<Result<i32, String>>, Seq<Result<i32, String>>, Seq<RequestView>)>)
        requires
            old(self).stage == Stage::Processes,
            old(self).report.cleanup_errors == 0,
        ensures
            ran_until_failure(main_commands(*task).len(), log@.0),
            log@.1.len() == cleanup_commands(*task).len(),
            log@.2.len() == log@.0.len() + log@.1.len(),
            forall|i: int| 0 <= i < log@.0.len() ==> {
                &&& #[trigger] log@.2[i] == (RequestView {
                    command: main_commands(*task)[i],
                    directory: directory@,
                    environment: environment_of(*options, *task),
                    timeout_seconds: task.timeout_seconds,
                    cancellation: options.cancellation,
                    secrets: options.secrets@,
                })
                &&& executor.ran(log@.2[i], log@.0[i])
            },
            forall|j: int| 0 <= j < log@.1.len() ==> {
                &&& (#[trigger] log@.2[log@.0.len() + j]).command == cleanup_commands(*task)[j]
                &&& log@.2[log@.0.len() + j].directory == directory@
                &&& log@.2[log@.0.len() + j].environment == environment_of(*options, *task)
                &&& log@.2[log@.0.len() + j].timeout_seconds == Some(CLEANUP_TIMEOUT_SECONDS)
                &&& log@.2[log@.0.len() + j].secrets == options.secrets@
                &&& executor.ran(log@.2[log@.0.len() + j], log@.1[j])
            },
            final(self).report.id == old(self).report.id,
            final(self).report.status == old(self).report.status,
            final(self).report.fingerprint == old(self).report.fingerprint,
            final(self).report.duration_ms == old(self).report.duration_ms,
            final(self).report.cleanup_errors == cleanup_failures(log@.1),
            match main_error(log@.0) {
                Some(e) => final(self).report.exit_code == PROCESS_ERROR_CODE && (final(self).report.message matches Some(m)
                    && m@ == e@) && final(self).stage == Stage::Done,
                None => final(self).report.exit_code == cleanup_code(main_code(log@.0), log@.1)
                    && final(self).report.message == old(self).report.message && final(self).stage == (if cleanup_code(
                    main_code(log@.0),
                    log@.1,
                ) == 0 && old(self).report.fingerprint.is_some() {
                    Stage::Save
                } else {
                    Stage::Done
                }),
            },
    {
        let (main, cleanup) = task_commands(task);
        let environment = task_environment(options, task);
        let outcomes = run_processes(&main, &cleanup, directory, environment, task.timeout_seconds, options, executor);
        let ghost log = (outcomes.main@, outcomes.cleanup@, outcomes.requests@);
        proof {
            assert forall|i: int| 0 <= i < main@.len() implies #[trigger] main_commands(*task)[i] == views(main@[i]@) by {
                assert(command_texts(main@)[i] == views(main@[i]@));
            }
            assert forall|j: int| 0 <= j < cleanup@.len() implies #[trigger] cleanup_commands(*task)[j] == views(cleanup@[j]@) by {
                assert(command_texts(cleanup@)[j] == views(cleanup@[j]@));
            }
            assert(main@.len() == main_commands(*task).len()) by {
                assert(command_texts(main@).len() == main@.len());
            }
            assert(cleanup@.len() == cleanup_commands(*task).len()) by {
                assert(command_texts(cleanup@).len() == cleanup@.len());
            }
        }
        self.ran(outcomes);
        Ghost(log)
    }

    /// Takes the outcome of saving the receipt: an error fails the task.
    pub fn saved(&mut self, result: Result<(), String>)
        requires
            old(self).stage == Stage::Save,
        ensures
            final(self).stage == Stage::Done,
            match result {
                Err(e) => failed_with(final(self).report, old(self).report, e@),
                Ok(_) => final(self).report == old(self).report,
            },
    {
        match result {
            Err(e) => self.fail(e),
            Ok(_) => {
                self.stage = Stage::Done;
            },
        }
    }

    /// The final report: a task that did not exit with 0 is marked failed and
    /// keeps no fingerprint, so that failures are never cached.
    pub fn finish(self, duration_ms: u128) -> (r: TaskReport)
        requires
            self.stage == Stage::Done,
        ensures
            r.id == self.report.id,
            r.exit_code == self.report.exit_code,
            r.duration_ms == duration_ms,
            r.cleanup_errors == self.report.cleanup_errors,
            r.message == self.report.message,
            self.report.exit_code != 0 ==> r.status@ == "failed"@ && r.fingerprint.is_none(),
            self.report.exit_code == 0 ==> r.status == self.report.status && r.fingerprint == self.report.fingerprint,
    {
        let mut report = self.report;
        if report.exit_code != 0 {
            report.status = owned("failed");
            report.fingerprint = None;
        }
        report.duration_ms = duration_ms;
        report
    }
}

/// The task with identifier `id` has finished with exit code 0.
pub open spec fn succeeded(results: Seq<(String, TaskReport)>, id: Seq<char>) -> bool {
    lookup(results, id) matches Some(r) && r.exit_code == 0
}

/// Every dependency of `task` has succeeded.
pub open spec fn dependencies_met(results: Seq<(String, TaskReport)>, task: PlannedTask) -> bool {
    forall|d: int| 0 <= d < task.depends_on@.len() ==> succeeded(results, #[trigger] task.depends_on@[d]@)
}

/// The indices from `i` on of the tasks not yet started whose dependencies have succeeded.
pub open spec fn ready_from(started: Seq<bool>, tasks: Seq<PlannedTask>, results: Seq<(String, TaskReport)>, i: int) -> Seq<usize>
    decreases tasks.len() - i,
{
    if i < 0 || i >= tasks.len() {
        Seq::empty()
    } else {
        let rest = ready_from(started, tasks, results, i + 1);
        if !started[i] && dependencies_met(results, tasks[i]) {
            seq![i as usize] + rest
        } else {
            rest
        }
    }
}

/// The report of a task that never ran.
pub open spec fn skipped_report(r: TaskReport, id: Seq<char>) -> bool {
    &&& r.id@ == id
    &&& r.status@ == "skipped"@
    &&& r.exit_code == 0
    &&& r.duration_ms == 0
    &&& r.cleanup_errors == 0
    &&& r.message matches Some(m) && m@ == "Dependency failure or cancellation"@
    &&& r.fingerprint.is_none()
}

/// No earlier task of the plan has the identifier of task `i`.
pub open spec fn first_of(tasks: Seq<PlannedTask>, i: int) -> bool {
    forall|j: int| 0 <= j < i ==> (#[trigger] tasks[j]).id@ != tasks[i].id@
}

/// The identifiers of the reports that completed (succeeded or were cached), in order.
pub open spec fn completed_ids(reports: Seq<TaskReport>) -> Seq<Seq<char>>
    decreases reports.len(),
{
    if reports.len() == 0 {
        Seq::empty()
    } else {
        let rest = completed_ids(reports.drop_last());
        let r = reports.last();
        if r.status@ == "success"@ || r.status@ == "cached"@ {
            rest.push(r.id@)
        } else {
            rest
        }
    }
}

/// No task before position `i` has identifier `k`.
pub open spec fn unclaimed(tasks: Seq<PlannedTask>, i: int, k: Seq<char>) -> bool {
    forall|j: int| 0 <= j < i ==> (#[trigger] tasks[j]).id@ != k
}

/// The exit code of a run: that of its first failure, else 128 plus the
/// cancellation signal, else 0.
pub open spec fn run_exit_code(failure: Option<(String, i32)>, signal: i32) -> int {
    match failure {
        Some(f) => f.1 as int,
        None => if signal != 0 {
            128 + signal
        } else {
            0
        },
    }
}

/// Each report is stored under its own task's identifier.
pub open spec fn keyed_by_id(results: Seq<(String, TaskReport)>) -> bool {
    forall|k: Seq<char>| #[trigger] has_key(results, k) ==> lookup(results, k)->0.id@ == k
}

/// The scheduling state of a plan's run.
#[derive(Debug)]
pub struct Scheduler {
    /// Per task of the plan, whether it has been started.
    pub started: Vec<bool>,
    /// How many started tasks have not reported yet.
    pub running: usize,
    /// How many tasks may run at once (at least one).
    pub jobs: usize,
    /// The first task that failed, with its exit code.
    pub failure: Option<(String, i32)>,
    /// The reports received so far, by task identifier.
    pub results: KeyMap<TaskReport>,
}

/// The environment a task runs with: the resolved one when the options hold
/// one for it, else its literal environment.
pub fn task_environment<'a>(options: &'a RunOptions, task: &'a PlannedTask) -> (r: &'a KeyMap<String>)
    ensures
        match lookup(options.environments@, task.id@) {
            Some(e) => *r == e,
            None => *r == task.environment,
        },
{
    match options.environments.get(task.id.as_str()) {
        Some(e) => e,
        None => &task.environment,
    }
}

/// The environment a task runs with, as `task_environment` chooses it.
pub open spec fn environment_of(options: RunOptions, task: PlannedTask) -> Seq<(String, String)> {
    match lookup(options.environments@, task.id@) {
        Some(e) => e@,
        None => task.environment@,
    }
}

impl Scheduler {
    /// Nothing started for a plan of `count` tasks.
    pub fn new(count: usize, jobs: usize) -> (r: Self)
        ensures
            r.started@ == Seq::new(count as nat, |i: int| false),
            r.running == 0,
            r.jobs == jobs,
            r.failure.is_none(),
            r.results@.len() == 0,
            keyed_by_id(r.results@),
    {
        let mut started: Vec<bool> = Vec::new();
        let mut i: usize = 0;
        while i < count
            invariant
                i <= count,
                started@ == Seq::new(i as nat, |j: int| false),
            decreases count - i,
        {
            started.push(false);
            i = i + 1;
            assert(started@ =~= Seq::new(i as nat, |j: int| false));
        }
        Scheduler { started, running: 0, jobs, failure: None, results: KeyMap::new() }
    }

    /// Whether every dependency of `task` has succeeded.
    pub fn dependencies_succeeded(&self, task: &PlannedTask) -> (r: bool)
        ensures
            r == dependencies_met(self.results@, *task),
    {
        let mut d: usize = 0;
        while d < task.depends_on.len()
            invariant
                d <= task.depends_on@.len(),
                forall|e: int| 0 <= e < d ==> succeeded(self.results@, #[trigger] task.depends_on@[e]@),
            decreases task.depends_on@.len() - d,
        {
            match self.results.get(task.depends_on[d].as_str()) {
                Some(r) => {
                    if r.exit_code != 0 {
                        return false;
                    }
                },
                None => {
                    return false;
                },
            }
            d = d + 1;
        }
        true
    }

    /// The tasks that may start now, in plan order: none after a failure or a
    /// cancellation, else those not started whose dependencies all succeeded.
    pub fn candidates(&self, plan: &Plan, signal: i32) -> (r: Vec<usize>)
        requires
            self.started@.len() == plan.tasks@.len(),
        ensures
            self.failure.is_some() || signal != 0 ==> r@.len() == 0,
            self.failure.is_none() && signal == 0 ==> r@ == ready_from(self.started@, plan.tasks@, self.results@, 0),
    {
        let mut r: Vec<usize> = Vec::new();
        if self.failure.is_some() || signal != 0 {
            return r;
        }
        let n = plan.tasks.len();
        let mut i: usize = 0;
        while i < n
            invariant
                n == plan.tasks@.len() == self.started@.len(),
                i <= n,
                r@ + ready_from(self.started@, plan.tasks@, self.results@, i as int) == ready_from(
                    self.started@,
                    plan.tasks@,
                    self.results@,
                    0,
                ),
            decreases n - i,
        {
            if !self.started[i] && self.dependencies_succeeded(&plan.tasks[i]) {
                let ghost before = r@;
                r.push(i);
                assert(before + ready_from(self.started@, plan.tasks@, self.results@, i as int) =~= r@
                    + ready_from(self.started@, plan.tasks@, self.results@, i + 1));
            }
            i = i + 1;
        }
        assert(r@ + Seq::<usize>::empty() =~= r@);
        r
    }

    /// Whether another task may start: fewer than `jobs` (at least one) are running.
    pub fn has_capacity(&self) -> (r: bool)
        ensures
            r == (self.running < if self.jobs > 1 { self.jobs } else { 1 }),
    {
        let limit = if self.jobs > 1 { self.jobs } else { 1 };
        self.running < limit
    }

    /// Records that task `index` has started.
    pub fn start(&mut self, index: usize)
        requires
            index < old(self).started@.len(),
            old(self).running < usize::MAX,
        ensures
            final(self).started@ == old(self).started@.update(index as int, true),
            final(self).running == old(self).running + 1,
            final(self).jobs == old(self).jobs,
            final(self).failure == old(self).failure,
            final(self).results == old(self).results,
    {
        self.started.set(index, true);
        self.running = self.running + 1;
    }

    /// The fingerprints of the dependencies of `task`, when all of them have one.
    pub fn stamps(&self, task: &PlannedTask) -> (r: Option<Vec<String>>)
        requires
            forall|d: int| 0 <= d < task.depends_on@.len() ==> has_key(self.results@, #[trigger] task.depends_on@[d]@),
        ensures
            (forall|d: int| 0 <= d < task.depends_on@.len() ==> (#[trigger] lookup(self.results@, task.depends_on@[d]@))->0.fingerprint.is_some())
                ==> (r matches Some(v) && v@.len() == task.depends_on@.len() && forall|d: int| 0 <= d < v@.len() ==> Some(
                #[trigger] v@[d]) == lookup(self.results@, task.depends_on@[d]@)->0.fingerprint),
            !(forall|d: int| 0 <= d < task.depends_on@.len() ==> (#[trigger] lookup(self.results@, task.depends_on@[d]@))->0.fingerprint.is_some())
                ==> r.is_none(),
    {
        let mut v: Vec<String> = Vec::new();
        let mut d: usize = 0;
        while d < task.depends_on.len()
            invariant
                d <= task.depends_on@.len(),
                forall|e: int| 0 <= e < task.depends_on@.len() ==> has_key(self.results@, #[trigger] task.depends_on@[e]@),
                v@.len() == d,
                forall|e: int| 0 <= e < d ==> Some(#[trigger] v@[e]) == lookup(self.results@, task.depends_on@[e]@)->0.fingerprint,
            decreases task.depends_on@.len() - d,
        {
            let dependency = task.depends_on[d].as_str();
            match self.results.get(dependency) {
                Some(r) => match &r.fingerprint {
                    Some(f) => {
                        v.push(f.clone());
                    },
                    None => {
                        return None;
                    },
                },
                None => {
                    return None;
                },
            }
            d = d + 1;
        }
        assert forall|e: int| 0 <= e < task.depends_on@.len() implies (#[trigger] lookup(self.results@, task.depends_on@[e]@))->0.fingerprint.is_some() by {
            assert(Some(v@[e]) == lookup(self.results@, task.depends_on@[e]@)->0.fingerprint);
        }
        Some(v)
    }

    /// Receives the report of a finished task; the first failure is kept.
    pub fn record(&mut self, report: TaskReport)
        requires
            old(self).running > 0,
        ensures
            final(self).started == old(self).started,
            final(self).jobs == old(self).jobs,
            final(self).running == old(self).running - 1,
            final(self).failure == (if old(self).failure.is_none() && report.exit_code != 0 {
                Some((report.id, report.exit_code))
            } else {
                old(self).failure
            }),
            as_map(final(self).results@) == as_map(old(self).results@).insert(report.id@, report),
            keyed_by_id(old(self).results@) ==> keyed_by_id(final(self).results@),
    {
        if report.exit_code != 0 && self.failure.is_none() {
            self.failure = Some((report.id.clone(), report.exit_code));
        }
        let id = report.id.clone();
        self.results.insert(id, report);
        self.running = self.running - 1;
    }

    /// Whether the run is over: nothing is running, and every task has
    /// started, or a task failed, or the run was cancelled.
    pub fn finished(&self, signal: i32) -> (r: bool)
        ensures
            r == (self.running == 0 && ((forall|i: int| 0 <= i < self.started@.len() ==> #[trigger] self.started@[i])
                || self.failure.is_some() || signal != 0)),
    {
        if self.running != 0 {
            return false;
        }
        if self.failure.is_some() || signal != 0 {
            return true;
        }
        let mut i: usize = 0;
        while i < self.started.len()
            invariant
                i <= self.started@.len(),
                self.running == 0,
                self.failure.is_none(),
                signal == 0,
                forall|j: int| 0 <= j < i ==> #[trigger] self.started@[j],
            decreases self.started@.len() - i,
        {
            if !self.started[i] {
                assert(!self.started@[i as int]);
                return false;
            }
            i = i + 1;
        }
        true
    }

    /// The report of the run: one entry per task of the plan, in plan order,
    /// each the task's own report or a skipped one; the completed tasks; the
    /// first failure; and the exit code.
    pub fn into_report(self, plan: &Plan, signal: i32) -> (r: ExecutionReport)
        requires
            signal <= i32::MAX - 128,
        ensures
            r.tasks@.len() == plan.tasks@.len(),
            forall|i: int| 0 <= i < plan.tasks@.len() && first_of(plan.tasks@, i) && has_key(self.results@, plan.tasks@[i].id@)
                ==> #[trigger] r.tasks@[i] == lookup(self.results@, plan.tasks@[i].id@)->0,
            forall|i: int| 0 <= i < plan.tasks@.len() && !(first_of(plan.tasks@, i) && has_key(self.results@, plan.tasks@[i].id@))
                ==> skipped_report(#[trigger] r.tasks@[i], plan.tasks@[i].id@),
            views(r.completed@) == completed_ids(r.tasks@),
            r.failed == (match self.failure {
                Some(f) => Some(f.0),
                None => None,
            }),
            r.exit_code == run_exit_code(self.failure, signal),
            keyed_by_id(self.results@) ==> forall|i: int| 0 <= i < plan.tasks@.len() ==> (#[trigger] r.tasks@[i]).id@
                == plan.tasks@[i].id@,
    {
        let Scheduler { started: _, running: _, jobs: _, failure, results } = self;
        let ghost initial = results@;
        let mut results = results;
        let mut tasks: Vec<TaskReport> = Vec::new();
        let n = plan.tasks.len();
        let mut i: usize = 0;
        while i < n
            invariant
                n == plan.tasks@.len(),
                i <= n,
                tasks@.len() == i,
                forall|k: Seq<char>| #[trigger] has_key(results@, k) <==> (has_key(initial, k) && unclaimed(plan.tasks@, i as int, k)),
                forall|k: Seq<char>| has_key(results@, k) ==> #[trigger] lookup(results@, k) == lookup(initial, k),
                forall|j: int| 0 <= j < i && first_of(plan.tasks@, j) && has_key(initial, plan.tasks@[j].id@)
                    ==> #[trigger] tasks@[j] == lookup(initial, plan.tasks@[j].id@)->0,
                forall|j: int| 0 <= j < i && !(first_of(plan.tasks@, j) && has_key(initial, plan.tasks@[j].id@))
                    ==> skipped_report(#[trigger] tasks@[j], plan.tasks@[j].id@),
            decreases n - i,
        {
            let id = &plan.tasks[i].id;
            let ghost k = id@;
            proof {
                if first_of(plan.tasks@, i as int) {
                    assert(has_key(results@, k) == has_key(initial, k));
                } else {
                    let j = choose|j: int| 0 <= j < i && (#[trigger] plan.tasks@[j]).id@ == plan.tasks@[i as int].id@;
                    assert(!unclaimed(plan.tasks@, i as int, k));
                    assert(!has_key(results@, k));
                }
            }
            let ghost held = results@;
            let taken = results.remove(id.as_str());
            proof {
                assert forall|k2: Seq<char>| #[trigger] has_key(results@, k2) <==> (has_key(initial, k2) && unclaimed(plan.tasks@, i + 1, k2)) by {
                    if k2 != k {
                        assert(lookup(results@, k2) == lookup(held, k2));
                        if !unclaimed(plan.tasks@, i + 1, k2) {
                            let j = choose|j: int| 0 <= j < i + 1 && (#[trigger] plan.tasks@[j]).id@ == k2;
                            assert(!unclaimed(plan.tasks@, i as int, k2));
                        }
                    } else {
                        assert(lookup(results@, k2).is_none());
                        assert(plan.tasks@[i as int].id@ == k2);
                    }
                }
            }
            let report = match taken {
                Some(report) => report,
                None => TaskReport {
                    id: id.clone(),
                    status: owned("skipped"),
                    exit_code: 0,
                    duration_ms: 0,
                    cleanup_errors: 0,
                    message: Some(owned("Dependency failure or cancellation")),
                    fingerprint: None,
                },
            };
            tasks.push(report);
            i = i + 1;
        }
        let mut completed: Vec<String> = Vec::new();
        let mut t: usize = 0;
        while t < tasks.len()
            invariant
                t <= tasks@.len(),
                views(completed@) == completed_ids(tasks@.take(t as int)),
            decreases tasks@.len() - t,
        {
            let status = tasks[t].status.as_str();
            proof {
                assert(tasks@.take(t + 1).drop_last() =~= tasks@.take(t as int));
            }
            if same(status, "success") || same(status, "cached") {
                let ghost before = completed@;
                completed.push(tasks[t].id.clone());
                assert(views(completed@) =~= views(before).push(tasks@[t as int].id@));
            }
            t = t + 1;
        }
        assert(tasks@.take(tasks@.len() as int) =~= tasks@);
        let exit_code = match &failure {
            Some(f) => f.1,
            None => if signal != 0 { 128 + signal } else { 0 },
        };
        let failed = match failure {
            Some(f) => Some(f.0),
            None => None,
        };
        proof {
            if keyed_by_id(initial) {
                assert forall|i: int| 0 <= i < plan.tasks@.len() implies (#[trigger] tasks@[i]).id@ == plan.tasks@[i].id@ by {
                    if first_of(plan.tasks@, i) && has_key(initial, plan.tasks@[i].id@) {
                        assert(tasks@[i] == lookup(initial, plan.tasks@[i].id@)->0);
                    }
                }
            }
        }
        ExecutionReport { exit_code, completed, failed, tasks }
    }
}

/// What the filesystem says about the locations a task names.
#[derive(Debug)]
pub struct TaskPaths {
    /// The working directory's location passes through a symbolic link.
    pub directory_linked: bool,
    /// The working directory exists as a directory.
    pub directory_exists: bool,
    /// The Compose file's location passes through a symbolic link.
    pub compose_linked: bool,
    /// The Compose file exists as a regular file.
    pub compose_exists: bool,
    /// For each cache input, then each cache output, whether its location
    /// passes through a symbolic link.
    pub cache_linked: Vec<bool>,
}

/// The location of `path` under `root`, refused when it is not confined or
/// passes through a symbolic link.
pub open spec fn place(root: Seq<char>, path: Seq<char>, linked: bool) -> Result<Seq<char>, Seq<char>> {
    match inside_result(root, path) {
        Err(e) => Err(e),
        Ok(p) => if linked {
            Err("Managed paths cannot contain symlinks"@)
        } else {
            Ok(p)
        },
    }
}

/// The first refused cache path from position `i` on, if any.
pub open spec fn cache_error(root: Seq<char>, paths: Seq<String>, linked: Seq<bool>, i: int) -> Option<Seq<char>>
    decreases paths.len() - i,
{
    if i < 0 || i >= paths.len() {
        None
    } else {
        match place(root, paths[i]@, linked[i]) {
            Err(e) => Some(e),
            Ok(_) => cache_error(root, paths, linked, i + 1),
        }
    }
}

/// The paths a cache declaration names: inputs, then outputs.
pub open spec fn cache_paths(task: PlannedTask) -> Seq<String> {
    match task.cache {
        Some(c) => c.inputs@ + c.outputs@,
        None => Seq::empty(),
    }
}

/// Whether task `i` of `tasks` comes after all its dependencies and has an identifier not seen before.
pub open spec fn in_order(tasks: Seq<PlannedTask>, i: int) -> bool {
    &&& forall|d: int| 0 <= d < tasks[i].depends_on@.len() ==> !unclaimed(tasks, i, #[trigger] tasks[i].depends_on@[d]@)
    &&& unclaimed(tasks, i, tasks[i].id@)
}

/// The checks of task `i` before anything runs, giving its working directory.
pub open spec fn task_preflight(tasks: Seq<PlannedTask>, i: int, allow_destructive: bool, root: Seq<char>, facts: TaskPaths) -> Result<Seq<char>, Seq<char>> {
    let task = tasks[i];
    if !in_order(tasks, i) {
        Err("Plan must be topologically ordered with unique tasks"@)
    } else if task.destructive && !allow_destructive {
        Err(task.id@ + ": requires --allow-destructive"@)
    } else if task.command@.len() > 0 && task.command@[0]@.len() == 0 {
        Err("Empty task executable"@)
    } else {
        match place(root, task.working_directory@, facts.directory_linked) {
            Err(e) => Err(e),
            Ok(directory) => if !facts.directory_exists {
                Err(task.id@ + ": missing working directory"@)
            } else {
                let compose = match task.compose {
                    Some(c) => match place(directory, c.file@, facts.compose_linked) {
                        Err(e) => Some(e),
                        Ok(_) => if !facts.compose_exists {
                            Some(task.id@ + ": missing Compose file"@)
                        } else {
                            None
                        },
                    },
                    None => None,
                };
                match compose {
                    Some(e) => Err(e),
                    None => match cache_error(root, cache_paths(task), facts.cache_linked@, 0) {
                        Some(e) => Err(e),
                        None => Ok(directory),
                    },
                }
            },
        }
    }
}

/// The working directories of the tasks from `i` on, or the first refusal.
pub open spec fn preflight_from(tasks: Seq<PlannedTask>, i: int, allow_destructive: bool, root: Seq<char>, facts: Seq<TaskPaths>) -> Result<Seq<Seq<char>>, Seq<char>>
    decreases tasks.len() - i,
{
    if i < 0 || i >= tasks.len() {
        Ok(Seq::empty())
    } else {
        match task_preflight(tasks, i, allow_destructive, root, facts[i]) {
            Err(e) => Err(e),
            Ok(d) => match preflight_from(tasks, i + 1, allow_destructive, root, facts) {
                Err(e) => Err(e),
                Ok(rest) => Ok(seq![d] + rest),
            },
        }
    }
}

/// Places `path` under `root`, refusing it when it passes through a symbolic link.
fn place_path(root: &str, path: &str, linked: bool) -> (r: Result<String, String>)
    ensures
        match place(root@, path@, linked) {
            Ok(p) => r matches Ok(s) && s@ == p,
            Err(e) => r matches Err(m) && m@ == e,
        },
{
    let placed = inside(root, path);
    match placed {
        Err(e) => Err(e),
        Ok(p) => if linked {
            Err(owned("Managed paths cannot contain symlinks"))
        } else {
            Ok(p)
        },
    }
}

/// Checks the cache paths of a task.
fn check_cache(root: &str, task: &PlannedTask, linked: &Vec<bool>) -> (r: Result<(), String>)
    requires
        linked@.len() == cache_paths(*task).len(),
    ensures
        match cache_error(root@, cache_paths(*task), linked@, 0) {
            None => r is Ok,
            Some(e) => r matches Err(m) && m@ == e,
        },
{
    match &task.cache {
        None => Ok(()),
        Some(cache) => {
            let ghost all = cache_paths(*task);
            let ni = cache.inputs.len();
            let total = linked.len();
            let mut i: usize = 0;
            while i < total
                invariant
                    all == cache.inputs@ + cache.outputs@,
                    all == cache_paths(*task),
                    ni == cache.inputs@.len(),
                    total == all.len() == linked@.len(),
                    i <= total,
                    cache_error(root@, all, linked@, 0) == cache_error(root@, all, linked@, i as int),
                decreases total - i,
            {
                let path = if i < ni { cache.inputs[i].as_str() } else { cache.outputs[i - ni].as_str() };
                assert(path@ == all[i as int]@);
                match place_path(root, path, linked[i]) {
                    Err(e) => {
                        return Err(e);
                    },
                    Ok(_) => {},
                }
                i = i + 1;
            }
            Ok(())
        },
    }
}

/// Checks one task of a plan before anything runs, giving its working directory.
fn check_task(plan: &Plan, i: usize, seen: &Vec<String>, allow_destructive: bool, root: &str, facts: &TaskPaths) -> (r: Result<String, String>)
    requires
        i < plan.tasks@.len(),
        seen@.len() == i,
        forall|j: int| 0 <= j < i ==> (#[trigger] seen@[j])@ == plan.tasks@[j].id@,
        facts.cache_linked@.len() == cache_paths(plan.tasks@[i as int]).len(),
    ensures
        match task_preflight(plan.tasks@, i as int, allow_destructive, root@, *facts) {
            Ok(d) => r matches Ok(s) && s@ == d,
            Err(e) => r matches Err(m) && m@ == e,
        },
{
    let task = &plan.tasks[i];
    let ghost tasks = plan.tasks@;
    let mut d: usize = 0;
    let mut ordered = true;
    while d < task.depends_on.len()
        invariant
            d <= task.depends_on@.len(),
            *task == tasks[i as int],
            seen@.len() == i,
            forall|j: int| 0 <= j < i ==> (#[trigger] seen@[j])@ == tasks[j].id@,
            ordered == forall|e: int| 0 <= e < d ==> !unclaimed(tasks, i as int, #[trigger] task.depends_on@[e]@),
        decreases task.depends_on@.len() - d,
    {
        let known = contains_text(seen.as_slice(), task.depends_on[d].as_str());
        proof {
            let k = task.depends_on@[d as int]@;
            if known {
                let j = choose|j: int| 0 <= j < seen@.len() && (#[trigger] seen@[j])@ == k;
                assert(tasks[j].id@ == k);
            } else {
                assert forall|j: int| 0 <= j < i implies (#[trigger] tasks[j]).id@ != k by {
                    assert(seen@[j]@ == tasks[j].id@);
                }
            }
        }
        ordered = ordered && known;
        d = d + 1;
    }
    let repeated = contains_text(seen.as_slice(), task.id.as_str());
    proof {
        let k = task.id@;
        if repeated {
            let j = choose|j: int| 0 <= j < seen@.len() && (#[trigger] seen@[j])@ == k;
            assert(tasks[j].id@ == k);
        } else {
            assert forall|j: int| 0 <= j < i implies (#[trigger] tasks[j]).id@ != k by {
                assert(seen@[j]@ == tasks[j].id@);
            }
        }
    }
    if !ordered || repeated {
        return Err(owned("Plan must be topologically ordered with unique tasks"));
    }
    if task.destructive && !allow_destructive {
        return Err(join2(task.id.as_str(), ": requires --allow-destructive"));
    }
    if task.command.len() > 0 && task.command[0].as_str().unicode_len() == 0 {
        return Err(owned("Empty task executable"));
    }
    let directory = match place_path(root, task.working_directory.as_str(), facts.directory_linked) {
        Err(e) => {
            return Err(e);
        },
        Ok(d) => d,
    };
    if !facts.directory_exists {
        return Err(join2(task.id.as_str(), ": missing working directory"));
    }
    match &task.compose {
        Some(c) => {
            match place_path(directory.as_str(), c.file.as_str(), facts.compose_linked) {
                Err(e) => {
                    return Err(e);
                },
                Ok(_) => {},
            }
            if !facts.compose_exists {
                return Err(join2(task.id.as_str(), ": missing Compose file"));
            }
        },
        None => {},
    }
    match check_cache(root, task, &facts.cache_linked) {
        Err(e) => {
            return Err(e);
        },
        Ok(_) => {},
    }
    Ok(directory)
}

/// Checks the whole plan before any side effect: tasks come after their
/// dependencies and are unique, destructive tasks are allowed, executables
/// are named, and every declared location is confined to the project, free
/// of symbolic links and present. Gives each task's working directory.
pub fn preflight(plan: &Plan, root: &str, allow_destructive: bool, facts: &Vec<TaskPaths>) -> (r: Result<Vec<String>, String>)
    requires
        facts@.len() == plan.tasks@.len(),
        forall|i: int| 0 <= i < facts@.len() ==> (#[trigger] facts@[i]).cache_linked@.len() == cache_paths(plan.tasks@[i]).len(),
    ensures
        match preflight_from(plan.tasks@, 0, allow_destructive, root@, facts@) {
            Ok(ds) => r matches Ok(v) && views(v@) == ds,
            Err(e) => r matches Err(m) && m@ == e,
        },
{
    let mut seen: Vec<String> = Vec::new();
    let mut directories: Vec<String> = Vec::new();
    let n = plan.tasks.len();
    let mut i: usize = 0;
    while i < n
        invariant
            n == plan.tasks@.len() == facts@.len(),
            forall|k: int| 0 <= k < facts@.len() ==> (#[trigger] facts@[k]).cache_linked@.len() == cache_paths(plan.tasks@[k]).len(),
            i <= n,
            seen@.len() == i,
            forall|j: int| 0 <= j < i ==> (#[trigger] seen@[j])@ == plan.tasks@[j].id@,
            preflight_from(plan.tasks@, 0, allow_destructive, root@, facts@) == (match preflight_from(plan.tasks@, i as int, allow_destructive, root@, facts@) {
                Err(e) => Err(e),
                Ok(rest) => Ok(views(directories@) + rest),
            }),
        decreases n - i,
    {
        let checked = check_task(plan, i, &seen, allow_destructive, root, &facts[i]);
        match checked {
            Err(e) => {
                return Err(e);
            },
            Ok(d) => {
                let ghost before = views(directories@);
                directories.push(d);
                proof {
                    assert(views(directories@) =~= before.push(directories@.last()@));
                    match preflight_from(plan.tasks@, i + 1, allow_destructive, root@, facts@) {
                        Err(e) => {},
                        Ok(rest) => {
                            assert(before + (seq![directories@.last()@] + rest) =~= views(directories@) + rest);
                        },
                    }
                }
            },
        }
        seen.push(plan.tasks[i].id.clone());
        i = i + 1;
    }
    assert(views(directories@) + Seq::<Seq<char>>::empty() =~= views(directories@));
    Ok(directories)
}

proof fn lemma_preflight_from(tasks: Seq<PlannedTask>, i: int, allow_destructive: bool, root: Seq<char>, facts: Seq<TaskPaths>, j: int)
    requires
        0 <= i <= j < tasks.len(),
        preflight_from(tasks, i, allow_destructive, root, facts) is Ok,
    ensures
        task_preflight(tasks, j, allow_destructive, root, facts[j]) is Ok,
    decreases j - i,
{
    if i < j {
        lemma_preflight_from(tasks, i + 1, allow_destructive, root, facts, j);
    }
}

/// A plan that passes preflight lists every task after its dependencies,
/// names each task once, and holds no destructive task unless destructive
/// tasks are allowed.
pub proof fn law_preflight_admits_only_ordered_allowed_plans(
    tasks: Seq<PlannedTask>,
    allow_destructive: bool,
    root: Seq<char>,
    facts: Seq<TaskPaths>,
    i: int,
)
    requires
        0 <= i < tasks.len(),
        preflight_from(tasks, 0, allow_destructive, root, facts) is Ok,
    ensures
        in_order(tasks, i),
        tasks[i].destructive ==> allow_destructive,
{
    lemma_preflight_from(tasks, 0, allow_destructive, root, facts, i);
}

proof fn lemma_ready_from(started: Seq<bool>, tasks: Seq<PlannedTask>, results: Seq<(String, TaskReport)>, i: int, k: int)
    requires
        0 <= i,
        started.len() == tasks.len(),
        tasks.len() <= usize::MAX,
        0 <= k < ready_from(started, tasks, results, i).len(),
    ensures
        i <= ready_from(started, tasks, results, i)[k] < tasks.len(),
        !started[ready_from(started, tasks, results, i)[k] as int],
        dependencies_met(results, tasks[ready_from(started, tasks, results, i)[k] as int]),
    decreases tasks.len() - i,
{
    if i < tasks.len() {
        let rest = ready_from(started, tasks, results, i + 1);
        if !started[i] && dependencies_met(results, tasks[i]) {
            if k > 0 {
                lemma_ready_from(started, tasks, results, i + 1, k - 1);
                assert(ready_from(started, tasks, results, i)[k] == rest[k - 1]);
            }
        } else {
            lemma_ready_from(started, tasks, results, i + 1, k);
        }
    }
}

/// A task may start only once: it is offered while not started, and only
/// when every one of its dependencies has finished with exit code 0.
pub proof fn law_tasks_start_after_their_dependencies_succeed(
    started: Seq<bool>,
    tasks: Seq<PlannedTask>,
    results: Seq<(String, TaskReport)>,
    k: int,
)
    requires
        started.len() == tasks.len(),
        tasks.len() <= usize::MAX,
        0 <= k < ready_from(started, tasks, results, 0).len(),
    ensures
        ready_from(started, tasks, results, 0)[k] < tasks.len(),
        !started[ready_from(started, tasks, results, 0)[k] as int],
        dependencies_met(results, tasks[ready_from(started, tasks, results, 0)[k] as int]),
{
    lemma_ready_from(started, tasks, results, 0, k);
}

} // verus!
