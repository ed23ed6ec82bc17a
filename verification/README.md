# agent_atuin

Agent-oriented extensions to a shell-history tool, written in Verus: a store
of *memories* (natural-language notes about work done, linked to history
entries and arranged as a forest of tasks and sub-tasks) and the decision
logic of the client commands that report on history statistics, history
import, the record store and sync.

## Layout

- `src/` — the verified library.
  - `memory.rs`: memories, their JSON summaries, the repository name of a path.
  - `database.rs`: `MemoryStore`, the in-memory model of the memory database
    (create, link, delete, list, search, children, ancestors, tree, roots),
    with its well-formedness invariant and exact contracts.
  - `order.rs`, `like.rs`: row ordering (newest first, limits) and SQL `LIKE`.
  - `tree.rs`, `tree_text.rs`: the memory forest as nested nodes and as text.
  - `memory_cmd.rs`: the `memory` command's decisions (creation and linking,
    reports, the replay of linked commands).
  - `stats.rs`, `import.rs`, `store.rs`, `sync.rs`: the other commands'
    decisions and reports.
  - `laws.rs`: properties that relate several operations of the store.
  - `text.rs`: string helpers (trimming, joining, decimal text).
- `tests/` — tests of the library.
- `app/` — the program around it: command line, SQLite, processes, printing,
  and the calls into the history client.

## The program in `app/`

`app/` calls the history client crates `atuin-client` and `atuin-history`
(the history database, settings, importers, the record store, sync and the
statistics computation). `Cargo.toml` does not list them: with them the
dependency tree grows past what this build accepts. `app/` is therefore kept
as the program's source and does not build without them.

The store subcommands `rebuild`, `rekey`, `purge`, `verify`, `push` and
`pull` and the sync subcommands `login`, `logout`, `register` and `status`
are accepted on the command line and answered with an error: their
implementations are not part of this project.

