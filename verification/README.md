# pctl

pctl plans and runs repository operations declared in TOML: tasks with
dependencies and typed parameters, environment contracts, profiles, cached
tasks and supervised processes.

## Layout

- `src/` is the library, written in Verus. Its functions carry contracts
  over mathematical models (sequences, maps, sets) and are proved. The
  exceptions are the cancellation handle, whose shared signal has no model,
  and the calls into `sha2`, `hex` and `serde_json`, whose contracts are trusted:
  - `model`, `keymap`, `text`: the manifest data, a sorted string-keyed map and
    text helpers;
  - `config`: manifest validation, include admission and fragment merging;
  - `planning`: dependency planning and parameter binding;
  - `environment`: environment files and consumer-scoped resolution;
  - `execution`: preflight checks, scheduling, task runs and run reports;
  - `process`: output redaction, bounded capture, cancellation and the
    stop/exit-code rules of supervised children;
  - `paths`, `cache`, `json`, `tools`, `reporting`, `generation`, `arguments`:
    path confinement, fingerprints, receipts and lock names, the JSON text of
    headers and receipts, capability probes, terminal and JUnit reports,
    environment contracts and drift checks, command-line parameters.
  Statements that hold across functions are public proof functions named
  `law_...`.
- `app/` is the command-line program around the library: argument parsing,
  files, processes, threads, signals and JSON. It drives the library's
  decisions and performs the effects they call for.
- `tests/` exercise the library on concrete values.
