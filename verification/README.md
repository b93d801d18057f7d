# formualizer-engine-v2-poc

A dependency-tracking model of spreadsheet formulas, verified with Verus.

The library (`src/`) keeps formula cells with the dependencies their
formulas name (cells, ranges, defined names, spills, tables, effects),
decides which cells a change invalidates, finds static and runtime cycles
among formulas, resolves references and defined names while recording what
an evaluation read, and analyses the edge dumps and reports the engine
writes. Every public function carries a contract over a mathematical model
of its data, and `src/laws.rs` states the properties that span several
operations.

Outside the library: computing cell values (formula evaluation works on
floating-point numbers), parsing formula text, and loading workbooks. The
engine keeps formulas, names, spills and dirty cells; a caller that evaluates
drives a recalculation through `begin_schedule`, `cycle_step` and
`finish_schedule` and records its reads in the trace.

Ordered sets and maps are kept as sorted `Vec`s without repeats, the sorted
order stated as each type's invariant: vstd's contracts for `BTreeMap` and
`BTreeSet` hold only for key types whose `Ord` obeys vstd's ordering model,
and the keys here (cells, ranges, references, names) are the library's own
types with a derived `Ord`, which Verus does not read.

Layout:

- `src/address.rs`, `src/reference.rs`, `src/resolve.rs`: cells, ranges,
  spills and tables; reference arithmetic (INDEX, OFFSET, range union);
  resolving references and names with the reads recorded.
- `src/names.rs`: the defined-name registry (scopes, identities,
  generations, row insertion).
- `src/dependency.rs`, `src/collect.rs`, `src/engine.rs`: dependency
  descriptors, their collection from a formula tree, and the engine that
  files formulas, indexes dependents and marks cells dirty.
- `src/graph.rs`, `src/cycles.rs`, `src/schedule.rs`, `src/evaluation.rs`:
  strongly connected components, reachability paths, the bookkeeping
  around a recalculation, and the evaluator's call-stack decisions (whether
  a cell is evaluated, and the cycle a read closes).
- `src/trace.rs`, `src/shadow.rs`, `src/shadow_model.rs`: the read trace
  of an evaluation and the audits built on it.
- `src/dump.rs`, `src/archive.rs`, `src/edge_dump.rs`, `src/analysis.rs`:
  parsing the engine's text dumps (also from zip archives) and the graph
  analyses over them.
- `src/json.rs`, `src/inputs.rs`, `src/artifacts.rs`: the values the
  reports read out of JSON summaries (through serde_json), and the counts
  of the artifact-backed report.
- `src/compatibility.rs`, `src/builtins.rs`: classifying computed values
  against cached ones, and the text the ADDRESS function builds.
- `app/`: the command-line program (artifact reports and graph analysis),
  which reads files, hands their text to the library, and prints or writes
  the results; it parses JSON itself only for the two timings (floating
  point) and for values it copies verbatim into its output.
- `tests/`: tests of the library.
