# codegenome

The verified core of a code graph: content addresses for files and symbols,
graph construction from the definitions and references a language backend
extracts, file-scoped cross-file resolution, `file:line` queries, W3C PROV
export, a markdown repo map, and in-toto attestation of index snapshots.

- `src/` is the library, verified with Verus. Each public function states its
  result over spec functions; the laws that relate functions are public proof
  functions next to them (`lemma_*`).
- `tests/` exercises the library on concrete values.
- `app/` is the command-line front end (`attest`, `export-prov`, `map`): file
  I/O, JSON and binary encoding around the library.

Inside the library a confidence is kept as the bit pattern of its `f64` value.

Paths are modelled with `/` as the only separator, as on Unix targets: path
comparison and the file-extension rule are stated for that case.
