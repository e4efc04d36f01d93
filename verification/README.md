# acdx

Runs the commands declared in an `AsciiDoc` file, each after the commands it
depends on. The library part is verified with Verus.

- `src/command/id.rs` — command ids and their validation.
- `src/command/block.rs` — command blocks (id, shell, script with a trailing newline).
- `src/command/graph.rs` — the builder that resolves dependencies into a graph,
  the graph, and the queues of commands it hands out in execution order.
- `src/command/laws.rs` — properties proved across calls: when building
  succeeds, what a built graph holds, what a request needs, and how ids round-trip.
- `src/dag.rs` — the `petgraph` acyclic graph that stores the commands, behind
  trusted wrappers whose contracts state what `petgraph` does.
- `src/discovery.rs` — the search for the file to read when none is named:
  which question to ask the file system next, and when the search ends.
- `src/paths.rs` — walks, reachability and acyclicity, with their lemmas.
- `src/text.rs` — quoting of strings and characters for error messages.
- `app/` — the command-line side: arguments, answering the search's questions
  and reading the file,
  listing or running commands.
