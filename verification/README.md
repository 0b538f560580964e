# zcode

The verified core of a coding agent: the tools that a model calls, the text handling behind them,
the schemas that their arguments are held to, and the protocol between the agent and its clients.

- `src/` is the library. Every function has a contract, and Verus proves it.
  - `text/`: display width, size limits for output, streamed output, search in files, pictures.
  - `workspace.rs`: where paths lead, and how they are shown.
  - `tools/`: reading, writing and editing files, listing and searching, the todo list, commands.
  - `schema/`: JSON schemas: compiling, validating, telling what is wrong.
  - `protocol/`: versions, envelopes, frames, and the types that frames carry.
  - `strings.rs`, `order.rs`, `digest.rs`, `utf8.rs`, `regexes.rs`, `globs.rs`, `base64.rs`: what these share.
- `app/` is ordinary Rust around it: files, processes, directory trees, threads, and `serde`.
- `tests/` runs the library.

What the library takes from other crates goes through a few functions whose contracts are believed,
not proved; each of them names the function that it calls and says what is claimed of it.
