use grid_wasm::grid::Grid;

#[test]
fn set_then_get_returns_text() {
    let mut g = Grid::new();
    g.set_cell(3, 4, "hello");
    assert_eq!(g.get_cell_text(3, 4), "hello");
    assert_eq!(g.get_cell_text(4, 3), "");
    assert_eq!(g.cell_count(), 1);
}

#[test]
fn rewriting_a_cell_keeps_count() {
    let mut g = Grid::new();
    g.set_cell(0, 0, "a");
    g.set_cell(0, 0, "b");
    assert_eq!(g.get_cell_text(0, 0), "b");
    assert_eq!(g.cell_count(), 1);
    g.set_cell(0, 1, "c");
    assert_eq!(g.cell_count(), 2);
}

#[test]
fn text_keeps_style_and_style_keeps_text() {
    let mut g = Grid::new();
    g.set_cell_style(1, 1, "#FF0000", "#00FF00", true);
    g.set_cell(1, 1, "x");
    let d = g.cell_display(1, 1);
    assert_eq!(d.text, "x");
    assert_eq!(d.bg, "#FF0000");
    assert_eq!(d.fg, "#00FF00");
    assert!(d.bold);
    g.set_cell_style(1, 1, "", "", false);
    let d = g.cell_display(1, 1);
    assert_eq!(d.text, "x");
    assert_eq!(d.bg, "#FF0000");
    assert_eq!(d.fg, "#00FF00");
    assert!(!d.bold);
}

#[test]
fn clear_cell_removes_text_and_style() {
    let mut g = Grid::new();
    g.set_cell(2, 2, "t");
    g.set_cell_style(2, 2, "#123456", "", true);
    g.clear_cell(2, 2);
    assert_eq!(g.get_cell_text(2, 2), "");
    assert_eq!(g.cell_count(), 0);
    let d = g.cell_display(2, 2);
    assert_eq!(d.bg, "#FFFFFF");
    assert_eq!(d.fg, "#1E293B");
    assert!(!d.bold);
}

#[test]
fn cells_far_apart_do_not_collide() {
    let mut g = Grid::new();
    g.set_cell(1, 0, "row one");
    g.set_cell(0, 1, "col one");
    g.set_cell(u32::MAX, u32::MAX, "corner");
    assert_eq!(g.get_cell_text(1, 0), "row one");
    assert_eq!(g.get_cell_text(0, 1), "col one");
    assert_eq!(g.get_cell_text(u32::MAX, u32::MAX), "corner");
    assert_eq!(g.cell_count(), 3);
}

#[test]
fn load_cells_json_writes_in_order() {
    let mut g = Grid::new();
    g.load_cells_json(r#"[[0, 0, "a"], [1, 2, "b"], [0, 0, "c"]]"#);
    assert_eq!(g.get_cell_text(0, 0), "c");
    assert_eq!(g.get_cell_text(1, 2), "b");
    assert_eq!(g.cell_count(), 2);
}

#[test]
fn load_cells_json_ignores_bad_text() {
    let mut g = Grid::new();
    g.set_cell(5, 5, "kept");
    g.load_cells_json("not json");
    g.load_cells_json(r#"[[1, 2]]"#);
    g.load_cells_json(r#"[[-1, 2, "neg"]]"#);
    assert_eq!(g.get_cell_text(5, 5), "kept");
    assert_eq!(g.cell_count(), 1);
}

#[test]
fn load_cell_entries_matches_json() {
    let mut g = Grid::new();
    g.load_cell_entries(vec![(7, 8, "x".to_string()), (7, 8, "y".to_string())]);
    assert_eq!(g.get_cell_text(7, 8), "y");
    assert_eq!(g.cell_count(), 1);
}

#[test]
fn display_marks_selection_and_editing() {
    let mut g = Grid::new();
    g.set_cell_style(1, 1, "#ABCDEF", "", false);
    g.select(1, 1);
    let d = g.cell_display(1, 1);
    assert!(d.selected && !d.editing);
    assert_eq!(d.bg, "#DBEAFE");
    g.edit(1, 1);
    let d = g.cell_display(1, 1);
    assert!(d.selected && d.editing);
    assert_eq!(d.bg, "#FFFFFF");
    let other = g.cell_display(1, 2);
    assert!(!other.selected && !other.editing);
    assert_eq!(other.text, "");
    g.select(-1, -1);
    g.edit(-1, -1);
    assert_eq!(g.cell_display(1, 1).bg, "#ABCDEF");
}
