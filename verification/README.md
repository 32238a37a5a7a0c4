# eslint_builtin

The verified core of a JavaScript linter plugin, written in Verus.

- `src/` is the library. Every function in it is verified, except the few
  trusted wrappers (`#[verifier::external_body]`) that call `regex`,
  `serde_json` and the standard library's `String::push` and
  `char::from_u32`; their contracts say what those calls are taken to do.
  - `code_path_segment`, `fork_context`, `code_path`, `code_path_analyzer`,
    `analyzer`: the code path analysis (segment graphs, fork contexts, the
    walk over segments, and the steps taken on entering and leaving nodes;
    `analyzer::node_facts` reads those steps off a syntax tree, and
    `analyzer::walk` lists them, in order, for a whole tree).
  - `syntax_tree`: a syntax tree as plain values, and the queries on it.
  - `ast_helpers`: literal decoding (cooked strings, numeric literals) and
    small node helpers; `ast_helpers::cooking` proves that cooking
    distributes over joined texts.
  - `conf`, `directive_comments`: global variable tables and the `globals`
    directives of comments.
  - `pattern`: regular expressions, through the `regex` crate.
  - `debug_helpers`: the `dot` drawing of a code path;
    `debug_helpers::reach` proves that it marks exactly the segments reachable
    from the initial one.
  - `rules`: the decisions of the rules; `configs::all` lists the keys that
    turn every rule on.
- `tests/` runs the library on concrete values.
- `app/` holds what is not verified: debug output, floating-point literal
  values, and option types that are read with serde.

## Arenas

Segments, fork contexts and code paths refer to one another by index into
plain `Vec` arenas (`SegmentArena`, `ForkContextArena`, the analyzer's list
of code paths), and the crate does not depend on `id_arena`. The contracts
read each segment's fields (its successors, predecessors, marks), so the
arena has to be a value that Verus can see into: with a `Vec` it is a `Seq`
of segment views, and every operation on it is stated and proved over that
sequence. An `id_arena::Arena` could only be declared to Verus as an opaque
type, and `id_arena::Id<CodePathSegment>` would have to stand inside
`CodePathSegment` itself, which a declared outside type cannot do.
