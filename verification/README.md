# grid-wasm

The model behind a spreadsheet-style grid widget, verified with Verus.

- `src/` is the verified library:
  - `cells.rs`: cell contents and styles, and the map-level meaning of
    writing text, writing a style and clearing a cell;
  - `groups.rs`: nested row and column groups, the chain of enclosing
    groups, which groups are folded away by a collapsed group, and the
    table of lines those groups hide;
  - `grid.rs`: the `Grid` state (cells, groups, hidden lines, selection,
    editing and column-resize markers) with its invariant and operations;
  - `json.rs`: the calls into `serde_json` that read member lists and cell
    triples;
  - `pivot.rs`: numbering the labels of a pivot table;
  - `label.rs`: column and row header labels;
  - `laws.rs`: properties that relate several operations.
- `app/` is the WebAssembly face: pixel sizes, scrolling, hit testing and
  the render frame (all floating point), the pivot values, and the JSON that
  goes to the page.
- `tests/` runs the library on concrete values.
