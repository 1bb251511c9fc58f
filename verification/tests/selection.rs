use grid_wasm::grid::Grid;

#[test]
fn select_and_edit_are_remembered() {
    let mut g = Grid::new();
    assert_eq!((g.sel_row(), g.sel_col()), (-1, -1));
    assert_eq!((g.edit_row(), g.edit_col()), (-1, -1));
    g.select(3, 4);
    g.edit(5, 6);
    assert_eq!((g.sel_row(), g.sel_col()), (3, 4));
    assert_eq!((g.edit_row(), g.edit_col()), (5, 6));
}

#[test]
fn move_from_nothing_starts_at_origin() {
    let mut g = Grid::new();
    g.move_selection(1, 0);
    assert_eq!((g.sel_row(), g.sel_col()), (1, 0));
    g.move_selection(-5, -5);
    assert_eq!((g.sel_row(), g.sel_col()), (0, 0));
}

#[test]
fn move_skips_hidden_rows_forward() {
    let mut g = Grid::new();
    let id = g.add_row_group("a", "[2,3,4]", 0);
    g.toggle_group(id);
    g.select(1, 0);
    g.move_selection(1, 0);
    assert_eq!(g.sel_row(), 5);
}

#[test]
fn move_skips_hidden_rows_backward() {
    let mut g = Grid::new();
    let id = g.add_row_group("a", "[2,3,4]", 0);
    g.toggle_group(id);
    g.select(5, 0);
    g.move_selection(-1, 0);
    assert_eq!(g.sel_row(), 1);
}

#[test]
fn move_back_over_hidden_start_ends_at_zero() {
    let mut g = Grid::new();
    let id = g.add_col_group("a", "[0,1,2]", 0);
    g.toggle_group(id);
    g.select(0, 3);
    g.move_selection(0, -1);
    assert_eq!(g.sel_col(), 0);
}

#[test]
fn move_skips_hidden_columns_forward() {
    let mut g = Grid::new();
    let id = g.add_col_group("a", "[0,1]", 0);
    g.toggle_group(id);
    g.move_selection(0, 0);
    assert_eq!((g.sel_row(), g.sel_col()), (0, 2));
}

#[test]
fn column_resize_markers() {
    let mut g = Grid::new();
    assert!(!g.is_resizing());
    g.start_col_resize(-1);
    assert!(!g.is_resizing());
    g.start_col_resize(4);
    assert!(g.is_resizing());
    assert_eq!(g.resize_col(), 4);
    g.end_col_resize();
    assert!(!g.is_resizing());
    assert_eq!(g.resize_col(), -1);
}
