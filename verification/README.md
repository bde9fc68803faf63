# handy

Handy starts, stops and watches the services of local development projects.
This crate is its core, verified with Verus: the configuration and its rules,
the resolution of nested groups into commands, the state of the running
commands and their logs, the choice of configuration file on load and save,
the edits that the user makes, and the detection of commands in a project
folder.

- `src/` is the verified library. `model.rs` and `graph.rs` hold the
  configuration, its validation and the resolution of targets; `runtime.rs`
  the statuses, the bounded log and the targets that share commands;
  `store.rs` loading and saving with a backup; `editing.rs` the edits that
  are refused while they would change what runs; `detector.rs` the command
  suggestions; `id_map.rs` and `text.rs` the map and text rules underneath.
- `app/` is the desktop application around it: the serialised records, the
  files on disk, the processes and the window.
- `tests/` runs the library on concrete values.

Two choices shape the library:

- The configuration maps and sets are keyed by text ids. vstd describes
  std's `HashMap` and `HashSet` in a way that supports proofs only for keys
  whose equality and hashing it knows, such as integers; with `String` keys
  nothing could be proved about what the map holds. So the configuration
  keeps its entries in `IdMap`, a vector of pairs whose keys are distinct by
  a type invariant, viewed as a `Map`, and the sets of command ids are
  vectors without repeats.
- Paths follow the Unix rules: a folder is absolute when it starts with `/`,
  and a working directory is safe when it is not absolute and has no `..`
  component between `/` separators. Windows paths (drive prefixes, `\`
  separators) would need a rule chosen by the platform at compile time, or
  a result that depends on the machine; the library states the Unix rule
  exactly instead.
