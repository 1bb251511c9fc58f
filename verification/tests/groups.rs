use grid_wasm::grid::Grid;

fn hidden_rows(g: &mut Grid, upto: u32) -> Vec<u32> {
    g.rebuild_hidden();
    (0..upto).filter(|&r| g.is_row_hidden(r)).collect()
}

fn hidden_cols(g: &mut Grid, upto: u32) -> Vec<u32> {
    g.rebuild_hidden();
    (0..upto).filter(|&c| g.is_col_hidden(c)).collect()
}

#[test]
fn group_ids_count_up_from_one() {
    let mut g = Grid::new();
    assert_eq!(g.add_row_group("a", "[1,2]", 0), 1);
    assert_eq!(g.add_col_group("b", "[3]", 0), 2);
    assert_eq!(g.add_row_group("c", "[]", -5), 3);
    assert_eq!(g.group_count(), 3);
    assert_eq!(g.next_group_id(), 4);
}

#[test]
fn members_are_read_from_json() {
    let mut g = Grid::new();
    let id = g.add_row_group("a", "[4, 2, 9]", 0);
    let grp = &g.row_groups()[0];
    assert_eq!(grp.id, id);
    assert_eq!(grp.label, "a");
    assert_eq!(grp.members, vec![4, 2, 9]);
    assert!(!grp.collapsed);
    assert_eq!(grp.depth, 0);
    assert_eq!(grp.parent, None);
    assert_eq!(grp.member_bounds(), Some((2, 9)));
}

#[test]
fn bad_members_json_gives_no_members() {
    let mut g = Grid::new();
    g.add_row_group("a", "not a list", 0);
    g.add_row_group("b", "[1, -2]", 0);
    assert!(g.row_groups()[0].members.is_empty());
    assert!(g.row_groups()[1].members.is_empty());
    assert_eq!(g.row_groups()[0].member_bounds(), None);
}

#[test]
fn collapsing_hides_members() {
    let mut g = Grid::new();
    let id = g.add_row_group("a", "[2,3]", 0);
    assert_eq!(hidden_rows(&mut g, 10), Vec::<u32>::new());
    g.toggle_group(id);
    assert!(g.row_groups()[0].collapsed);
    assert_eq!(hidden_rows(&mut g, 10), vec![2, 3]);
    assert_eq!(hidden_cols(&mut g, 10), Vec::<u32>::new());
}

#[test]
fn toggling_twice_shows_again() {
    let mut g = Grid::new();
    let id = g.add_col_group("a", "[1,5]", 0);
    g.toggle_group(id);
    assert_eq!(hidden_cols(&mut g, 10), vec![1, 5]);
    g.toggle_group(id);
    assert!(!g.col_groups()[0].collapsed);
    assert_eq!(hidden_cols(&mut g, 10), Vec::<u32>::new());
}

#[test]
fn toggle_unknown_group_changes_nothing() {
    let mut g = Grid::new();
    g.add_row_group("a", "[1]", 0);
    g.toggle_group(42);
    assert!(!g.row_groups()[0].collapsed);
    assert_eq!(hidden_rows(&mut g, 5), Vec::<u32>::new());
}

#[test]
fn nested_groups_hide_with_their_ancestor() {
    let mut g = Grid::new();
    let outer = g.add_row_group("outer", "[1,2]", 0);
    let inner = g.add_row_group("inner", "[5,6]", outer as i32);
    let deepest = g.add_row_group("deepest", "[8]", inner as i32);
    assert_eq!(g.row_groups()[1].depth, 1);
    assert_eq!(g.row_groups()[2].depth, 2);
    assert_eq!(g.max_row_depth(), 3);
    assert_eq!(g.max_col_depth(), 0);
    g.toggle_group(outer);
    assert_eq!(hidden_rows(&mut g, 10), vec![1, 2, 5, 6, 8]);
    assert!(g.group_ancestor_collapsed(true, deepest));
    assert!(g.group_ancestor_collapsed(true, inner));
    assert!(!g.group_ancestor_collapsed(true, outer));
    g.toggle_group(outer);
    g.toggle_group(inner);
    assert_eq!(hidden_rows(&mut g, 10), vec![5, 6, 8]);
    assert!(g.group_ancestor_collapsed(true, deepest));
    assert!(!g.group_ancestor_collapsed(true, inner));
}

#[test]
fn parent_in_other_list_gives_depth_zero() {
    let mut g = Grid::new();
    let row = g.add_row_group("r", "[1]", 0);
    let col = g.add_col_group("c", "[1]", row as i32);
    assert_eq!(g.col_groups()[0].parent, Some(row));
    assert_eq!(g.col_groups()[0].depth, 0);
    g.toggle_group(row);
    assert_eq!(hidden_cols(&mut g, 5), Vec::<u32>::new());
    assert!(!g.group_ancestor_collapsed(false, col));
}

#[test]
fn cyclic_parents_terminate() {
    let mut g = Grid::new();
    // Group 1 names group 2 as its parent before group 2 exists, and group 2
    // names group 1: the chain of parents runs in a circle.
    let a = g.add_row_group("a", "[1]", 2);
    let b = g.add_row_group("b", "[2]", 1);
    assert_eq!((a, b), (1, 2));
    assert!(!g.group_ancestor_collapsed(true, a));
    assert_eq!(hidden_rows(&mut g, 5), Vec::<u32>::new());
    g.toggle_group(b);
    assert!(g.group_ancestor_collapsed(true, a));
    assert!(g.group_ancestor_collapsed(true, b));
    assert_eq!(hidden_rows(&mut g, 5), vec![1, 2]);
}

#[test]
fn removing_a_group_detaches_its_children() {
    let mut g = Grid::new();
    let outer = g.add_row_group("outer", "[1]", 0);
    let inner = g.add_row_group("inner", "[2]", outer as i32);
    let col = g.add_col_group("c", "[3]", outer as i32);
    g.toggle_group(outer);
    assert_eq!(hidden_rows(&mut g, 5), vec![1, 2]);
    g.remove_group(outer);
    assert_eq!(g.group_count(), 2);
    assert_eq!(g.row_groups().len(), 1);
    assert_eq!(g.row_groups()[0].id, inner);
    assert_eq!(g.row_groups()[0].parent, None);
    assert_eq!(g.row_groups()[0].depth, 0);
    assert_eq!(g.col_groups()[0].id, col);
    assert_eq!(g.col_groups()[0].parent, None);
    assert_eq!(hidden_rows(&mut g, 5), Vec::<u32>::new());
    g.remove_group(99);
    assert_eq!(g.group_count(), 2);
}

#[test]
fn hidden_table_is_stale_until_rebuilt() {
    let mut g = Grid::new();
    let id = g.add_row_group("a", "[1]", 0);
    g.rebuild_hidden();
    g.toggle_group(id);
    assert!(!g.is_row_hidden(1));
    g.rebuild_hidden();
    assert!(g.is_row_hidden(1));
    assert!(!g.is_row_hidden(1_000_000));
}
