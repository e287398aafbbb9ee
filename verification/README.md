# weavatrix-rust-refactor

Evidence-backed refactor operations for Weavatrix, verified with Verus: plan production, the gates
in front of a write, and rollback.

The library consumes the read-only evidence graph of a repository and produces
`weavatrix.edit-plan.v1` envelopes. It performs no I/O. A host reads the files, calls a
`RefactorSession`, performs the step that comes back in the working tree, and hands back what
became of it. Every operation's answer is stated as a function of the repository and the arguments,
and the functions are proved against it.

## Layout

| Place | What stands there |
| --- | --- |
| `src/contract.rs` | The tools, their schemas and the result states |
| `src/text.rs`, `src/words.rs`, `src/order.rs`, `src/json.rs` | Slices of text, classes of characters, ordered lists, documents |
| `src/coordinates.rs` | Byte columns and UTF-16 offsets, and the way between them |
| `src/parse.rs`, `src/pattern.rs` | What the parser and the pattern compiler are asked |
| `src/graph.rs`, `src/resolve.rs`, `src/evidence.rs`, `src/declaration.rs`, `src/specifier.rs` | The evidence, and what is read from it |
| `src/plan.rs`, `src/envelope.rs`, `src/fit.rs` | Building a plan, reading one, and holding one against the sources |
| `src/token.rs` | Confirmations: single use, bound to a plan, a repository and a time |
| `src/operations/` | The eleven operations and the session over them |
| `tests/` | Scenarios, on a working tree in memory |
| `app/` | The host: sources on disk, the clock, and the working tree's transactions |

## Operations

| Operation | What it proves |
| --- | --- |
| `rename_symbol` | The declaration, every site the graph proves references it, and the import lines of files the graph proves import the declaring file |
| `rename_related_symbols` | One transaction for several renames; chains and swaps take effect at once |
| `change_signature` | A parameter added or removed, with the argument at each proven call site; what could not be settled is listed |
| `organize_imports` | Named JavaScript and TypeScript bindings whose identifier occurs once in the file |
| `edit_symbol` | A replacement of a declaration, or an insertion beside it |
| `bulk_replace` | Literal or regex matches, listed first and planned by selection or count |
| `move_file` | The relative import specifiers that a move changes |
| `move_symbol` | Whether a move introduces a dependency cycle |
| `delete_readiness` | Whether anything still depends on a symbol |
| `apply_edit_plan` | Preview, single-use confirmation, write with retained contents |
| `rollback_last_apply` | The previous contents, restored |

No planner claims more than `PARTIAL`: a call site comes from a graph edge, so these operations
prove the sites they edit and cannot prove the absence of other references.

## Laws

Among what is proved of the library as a whole:

- every answer carries a status of the contract;
- nothing is written unless the session may write and the call presents an unexpired, unspent
  confirmation for that plan and that repository;
- an answer says that the working tree changed exactly where the transaction said so;
- the plan of every planner reads back from its envelope, and every edit of it stands in the source
  it was made from: the text it replaces is the text between its positions;
- in the files a rename looks at, every occurrence of the name is planned or reported;
- on a line proven to call, every call of the name is edited or listed as uncertain;
- a rewritten import specifier still leads to the file it led to.
