# fatou_lsp

The request logic of a Julia language server, verified with Verus: what a server
answers, as functions from plain values to plain values.

- `src/` is the library. Every function in it is verified: positions and edits,
  names and tokens, hovers and completions, calls, renames of names and of files,
  diagnostics, project files, and the decisions of the server's threads.
- `app/` is the server around it: the wire, the threads and the disk. It is generic
  over an `Engine`, which parses, resolves, lints, formats and harvests.
- `tests/` exercises the library on small Julia sources.

A syntax tree, the names of a file, an index of packages and what the formatter or
the linter found come in as values of the library's own types; `validity` says
whether they can be answered from. `read_jobs` answers one request from a document
and a snapshot of what is known beside it.

Trusted are the classes of characters of the standard library (`chars`),
`String::push` (`strings`), the line diff of `similar` (`format`) and the reading of
URIs of `lsp_types` (`rename_files`).
