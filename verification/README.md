# wdl

Verified pieces of tooling for the Workflow Description Language (WDL): a
formatter for WDL documents, the parts of a WDL engine that decide things
(values and their coercions, types, task inputs, scopes, the input path
trie, exit handling, URLs and paths), and the repository bookkeeping of a
conformance runner.

Every function under `src/` carries a `requires`/`ensures` contract that
Verus proves. The few calls into other crates (`url`, `path-clean`,
`faster-hex`, `serde_json`, and `String::push` of std) go through small wrappers whose
contracts are stated in their doc comments.

Layout:

- `src/format/`: tokens, the pre- and post-processing streams, the
  formatter state, syntax elements and the WDL v1 element writers; and,
  over a lossless syntax tree whose whitespace and comments stand among
  their siblings, the comment rules and the writers of the import list, import
  statements, call statements, bound declarations, scatter and
  conditional blocks and expressions.
- `src/engine/`: values, types, JSON inputs files, inputs and their validation, evaluation
  scopes and the input trie, backend configuration, URLs and paths, and a
  few standard library functions.
- `src/gauntlet/`: repository identifiers, commit hashes, document filters
  and the sorted set of repositories a run covers.
- `src/text.rs`: string helpers shared by the modules above.
- `tests/`: tests of the library.
- `app/`: file system access, serde support, and the rendering of
  floats, around the library.

Collections: where a map or set keeps insertion order or sort order
(scope bindings, map and object members, the repositories of a run, the
children of a trie node), the library holds a `Vec` and states that order,
and the absence of duplicate keys, as the type's invariant.
