# diffscope

Structural comparison of two Git revisions: which files and functions changed,
how risky each change is, and what reaches it.

The library is written in Verus. Every function in `src/` states what it returns
in `requires` and `ensures` clauses, and the verifier proves it. What the library
takes on trust stands behind a few wrappers, each with a doc comment that says
what it claims: the Tree-sitter parser and its cursor, `serde_json` values, UTF-8
decoding, the quoted form of a text, and `Arc::clone`.

| Directory | What it holds |
| --- | --- |
| `src/git.rs` | Reading what Git prints: changes, patches, object listings |
| `src/languages/` | Functions, metrics, calls, imports and exports of a source file |
| `src/analysis.rs`, `src/application.rs` | Pairing functions across a change, building the analysis |
| `src/imports/` | Import graphs and exported symbols of a revision |
| `src/graph/` | What a change reaches: module and call graphs, groups, cycles, renderings |
| `src/query/` | Ranked lists, details, risk and summaries of an analysis |
| `src/harness/` | Cursors, cached analyses, and the decisions of the two servers |
| `src/order.rs`, `src/collections.rs`, `src/text.rs` | Orders, sorted sets and maps, texts |
| `app/` | The command line, Git processes, and the JSON and MCP transports |
| `tests/` | What the library does on concrete inputs |

Laws that hold across functions are public proof functions next to the functions
they speak of: pages cover a list once, a cursor continues only the query that
issued it, every function of a file is in one change or named as ambiguous, a
graph never has a loose end, guesses change no call that resolves exactly, a root
is never grouped, an overview counts every file and function once.
