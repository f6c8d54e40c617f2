# goto

Navigate to projects through namespace-based paths (`gh/project`, `work/app`),
with aliases, tab completion, configuration editing and zsh integration.

## Layout

- `src/` — the library, written in Verus. Each public function carries a
  contract that states its result over mathematical models (`Seq`, `Set`,
  views of the library's types), and Verus proves the code against it.
  - `text.rs`: string primitives (trimming, ASCII case folding, prefixes,
    ordering, path joining).
  - `sorting.rs`: stable sorting by key and sorted insertion.
  - `config.rs`: the configuration model, path expansion and the config file
    location.
  - `namespace.rs`: validation of namespace definitions, the sorted namespace
    map, lookup by name or alias, resolution of targets, listing and completion.
  - `commands.rs`: configuration edits (add, remove, rename, set path, aliases).
  - `shell.rs`: the zsh integration block, installing and removing it.
  - `doctor.rs`: the health report over a configuration.
  - `validity.rs`: what validation of namespace definitions guarantees, stated
    over the keys of names and aliases.
  - `laws.rs`: properties that relate several operations, proved as lemmas.
- `tests/` — executable tests of the library.
- `app/` — the command-line program: argument parsing, file and directory
  access, TOML (de)serialisation, printing.
