# rb

The logic of a build tool for Rust packages, with its behaviour stated in contracts and proved by Verus.

* `src/` is the library. It reads manifests, lock files and settings, selects versions and features, makes the graph
  of units, writes the command lines of the compiler, keys units by what goes into them, decides what is run when,
  and plans what the store keeps. Nothing in it touches the file system, the net or a process: where a decision
  depends on what is outside, a function takes what is known so far and returns the next step.
* `app/` performs those steps: files, links, archives, the store on disk, git, HTTP, processes, threads and the terminal.
  `loading` loads a workspace and resolves or updates its lockfile, `driver` runs a whole build, and `commands` has the rest. The compiler's
  installation, the text of lockfiles and SHA-256 are left to the caller, behind the traits `Toolchain`, `LockFormat` and
  `Checksums`.
* `tests/` runs the library on values.

## Where things are

| module | what it holds |
| --- | --- |
| `text`, `path`, `cleaning`, `num`, `size`, `order`, `sort`, `sets`, `finite`, `strmap`, `keymap` | text, paths, ordered lists, maps and sets |
| `value`, `json`, `version`, `hash` | TOML, JSON, versions and digests |
| `cfgexpr`, `manifest`, `profile`, `lints`, `lockfile` | what manifests and lock files say |
| `config`, `config_get`, `host`, `shell` | settings, the machine, and how lines are shown |
| `registry`, `git`, `resolve`, `features`, `workspace` | packages and where they come from |
| `unit`, `graph`, `plan`, `planning`, `commands`, `invocation`, `layout` | units of a build and their command lines |
| `keys`, `rekey`, `srchash`, `store`, `gc`, `state`, `deferred` | what is kept from one build to the next |
| `session`, `building`, `exec`, `build_script`, `depinfo`, `schedule`, `timings` | running a build |
| `run`, `info`, `tree`, `edit`, `installs`, `bundle`, `messages` | the other commands, and messages for programs |
| `blobs`, `places`, `worktree`, `laws` | the store as a disk of files, and what holds across modules |

## What is believed

The contracts of a few functions stand without proof, because they are about other crates or about `std`. Each says so
in its doc comment: the digests of `blake3`, the readers and writers of `serde_json` and `toml`, the readers of `semver`, the patterns of `glob`,
the quoting of `shell-words`, and the classes and cases of characters.
