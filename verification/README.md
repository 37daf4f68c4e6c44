# cea-language-server

A language server for Cheat Engine Auto Assembler (`.cea`) scripts with
embedded Lua, whose logic is a library verified with Verus.

## Layout

- `src/` — the verified library:
  - `text`, `integer`, `json`: positions and UTF-16 columns, integer
    literals and their hover text, JSON values as plain data;
  - `syntax`, `document`, `checks`: the syntax tree of a script, its
    diagnostics, outline, integer hovers, native completion and the
    position-preserving virtual Lua document;
  - `lua_scan`, `symbol_index`, `workspace_index`, `navigation`: symbol
    occurrences per script and across the workspace, semantic diagnostics,
    definitions, references, highlights, rename and completion;
  - `keyed`, `diagnostics`, `server_state`, `workspace_folders`,
    `workspace_files`: the workspace's documents and folders and the
    diagnostics published for them;
  - `lua_paths`, `lua_config`, `lua_protocol`, `supervisor`, `cea_api`: the
    managed Lua language server (settings, messages, URI translation,
    restarts) and the bundled Cheat Engine API declarations.
- `app/` — the server program: stdio, the LSP framework, the tree-sitter
  parser, the file system and the Lua server process, calling the library
  for every decision.
- `tests/` — tests of the library on concrete values.

Laws of the library are public proof functions named `law_*`.
