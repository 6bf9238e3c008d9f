# cx

Semantic code navigation for AI agents: a table of contents of a file or a
directory, symbol search, definitions, and references, all answered from an
index of the symbols of a project.

The library under `src/` holds the logic of the queries and is verified with
Verus:

- `text`, `path`: character sequences, lexical path normalization, resolving
  arguments against the working directory and the project root, test-file
  detection;
- `sort`: a stable merge sort by composite keys, with the order laws it needs;
- `pagination`: offset and limit, truncation, the envelope decision and the
  stderr hint;
- `index`: symbols, kinds and their priorities, the project index, name globs;
- `query`: path filters, the symbol listing and the kind counts;
- `lines`: line starts, line ranges and symbol bodies;
- `definition`, `references`, `overview`: the remaining queries.

`app/` is the command-line program around it: argument parsing, reading files
and the working directory, building the index with the tree-sitter language
pack, and printing JSON or TOON.
