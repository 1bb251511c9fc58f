use grid_wasm::grid::Grid;
use grid_wasm::pivot::label_indices;

fn strings(v: &[&str]) -> Vec<String> {
    v.iter().map(|s| s.to_string()).collect()
}

#[test]
fn labels_are_numbered_by_first_appearance() {
    let (idx, distinct) = label_indices(&strings(&["b", "a", "b", "c", "a"]));
    assert_eq!(idx, vec![1, 2, 1, 3, 2]);
    assert_eq!(distinct, strings(&["b", "a", "c"]));
    let (idx, distinct) = label_indices(&Vec::new());
    assert!(idx.is_empty() && distinct.is_empty());
}

#[test]
fn pivot_layout_writes_headers_and_clears() {
    let mut g = Grid::new();
    g.set_cell(9, 9, "old");
    g.add_row_group("grp", "[1]", 0);
    g.select(2, 2);
    g.edit(3, 3);
    let rows = strings(&["Row A", "Row B", "Row A"]);
    let cols = strings(&["Col 1", "Col 1", "Col 2"]);
    let (ri, ci) = g.load_pivot_layout(&rows, &cols);
    assert_eq!(ri, vec![1, 2, 1]);
    assert_eq!(ci, vec![1, 1, 2]);
    assert_eq!(g.get_cell_text(0, 1), "Col 1");
    assert_eq!(g.get_cell_text(0, 2), "Col 2");
    assert_eq!(g.get_cell_text(1, 0), "Row A");
    assert_eq!(g.get_cell_text(2, 0), "Row B");
    assert_eq!(g.get_cell_text(0, 0), "");
    assert_eq!(g.get_cell_text(9, 9), "");
    assert_eq!(g.cell_count(), 4);
    assert_eq!(g.group_count(), 0);
    assert_eq!((g.sel_row(), g.sel_col()), (-1, -1));
    assert_eq!((g.edit_row(), g.edit_col()), (-1, -1));
    // The group id counter keeps counting.
    assert_eq!(g.add_row_group("next", "[]", 0), 2);
}

#[test]
fn reset_content_keeps_resize_marker() {
    let mut g = Grid::new();
    g.start_col_resize(2);
    g.set_cell(1, 1, "x");
    g.reset_content();
    assert_eq!(g.cell_count(), 0);
    assert!(g.is_resizing());
}
