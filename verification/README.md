# quill

The driver side of the Quill compiler, as a library verified with Verus, and the
`quill` command-line tool around it.

- `src/` is the verified library:
  - `location`, `types`, `typed`: source spans, names, types, and the typed
    expressions, patterns and definitions that the MIR is built from;
  - `mir`, `translate`, `check_hir`: the mid-level representation (control flow
    graphs), its construction from typed definitions (`to_mir`), and the test of
    the inputs it accepts (`is_translatable`);
  - `source_file`: the in-memory cache of a package's source files;
  - `diagnostic`, `emit`, `text`: error and warning messages and their layout as
    styled lines, with the offending lines of code;
  - `cli`, `project`: the decisions of the command-line tool and the reading of
    `quill.toml`;
  - `display`: the MIR, types and patterns written out as text.
- `tests/` holds the tests, run against the compiled library.
- `app/main.rs` is the command-line tool: argument parsing, files, processes and
  terminal output, calling the library for every decision.
