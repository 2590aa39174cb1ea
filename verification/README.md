# ferro_sheet

A command-line spreadsheet whose engine is written in Verus and proved against its
contracts: integer cells, formulas over cells and ranges (SUM, AVG, MIN, MAX, STDEV,
SLEEP), dependency tracking with cycle detection, cell history, locked and named ranges,
a vim-like editor, a text save format, and a DOT drawing of a cell's relationships.

## Layout

- `src/` — the verified library.
  - `spreadsheet.rs`, `cell.rs`, `text.rs`: the sheet, its cells, keys and text helpers.
  - `evaluator.rs`, `formula.rs`, `reevaluate_topo.rs`, `graph.rs`, `dfs.rs`: reading and
    evaluating formulas, recording dependencies, and re-evaluating the cells that depend
    on a change, in an order that respects their dependencies.
  - `command.rs`, `vim.rs`, `screen.rs`, `render.rs`, `extensions.rs`, `named.rs`: the
    commands, the editor, and what is shown.
  - `save_load.rs`, `roundtrip.rs`: the text form of a sheet and reading it back.
  - `visualize.rs`: the relationship drawing, built with petgraph.
  - `relationships.rs`, `recalculate.rs`, `dependency_table.rs`, `linked_list.rs`,
    `links.rs`: other ways of keeping relationships between cells.
  - `laws.rs`: what the commands promise about the sheet as a whole.
- `app/main.rs` — the program: arguments, the command loop, files, timing and sleeping,
  and running Graphviz.
- `tests/` — tests of the library.

## Not included

Some other designs of the engine are not part of the library: a sparse sheet kept in a
hash map of cells with dirty flags and a recalculation queue (its evaluation step is a
placeholder, and its queue need not empty when dirty cells wait on each other), lists of
range dependencies kept per range, and re-evaluation through relationship maps driven by a
formula parser of its own. The relationship maps themselves, recalculating one cell from
them, updating its dependents and finding a ring through them are in
`relationships.rs` and `recalculate.rs`.
