# cwc

The front end of the Caraway compiler, a language that evaluates to a Desmos
graphing-calculator state, written in Verus: the logic is executable Rust whose
behaviour is stated in `requires` / `ensures` contracts and proved.

## Layout

- `src/` is the verified library.
  - `ast.rs`: the syntax tree, its mathematical mirror and the views between them.
  - `ast_builder.rs`: turning a parse tree into the syntax tree, with operators
    grouped by precedence, and the errors and file dependencies found on the way.
  - `parser.rs`: one file's parse tree to its program, errors and dependencies.
  - `frontend_types.rs`: spans, parse errors and where they lie in their source,
    and the tracker that hands files to workers.
  - `merge.rs`: flattening the programs of all files into one namespaced list.
  - `resolve.rs`: checking that imports name known files and symbols and that no
    files import each other in a circle; import paths are built as `PathBuf`
    builds them with `/` as separator.
  - `graph.rs`: a directed graph with topological order, the condensation into
    strongly connected components and the list of elementary cycles.
  - `macros.rs`, `macro_implementations.rs`: compile-time macros (`@hex`) and
    the registry that finds them by name.
  - `text.rs`: string helpers (joining, splitting, removing, float literals).
  - `args.rs`: the command-line arguments as plain values.
- `tests/`: tests of the library.
- `app/`: the program around it: the command line (clap), the grammar (pest),
  reading files, the worker threads and coloured output.
