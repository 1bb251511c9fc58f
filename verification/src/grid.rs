use std::collections::HashMap;
use vstd::prelude::*;

use crate::cells::{
    cell_key, cell_or_empty, key_of, lemma_cell_key_injective, with_style, with_text, with_texts,
    CellData, CellMap, CellView,
};
use crate::groups::{
    ancestor_collapsed, depth_levels, depth_under, detach, find_index, flip_at, has_id,
    hidden_lines, hidden_table, ids_unique, index_of, lemma_index_of_unique, lemma_prune,
    lemma_table_hides, line_hidden, max_depth, parent_arg, prune, prune_list, under_collapsed,
    views, Group, GroupView,
};
use crate::json::{
    entries_view, json_cell_entries, json_u32_list, parse_cell_entries, parse_u32_list,
};
use crate::pivot::{first_seen, label_indices, numbered_by, texts};

verus! {

broadcast use {vstd::std_specs::hash::group_hash_axioms, vstd::string::to_string_from_display_ensures_for_str};

/// The state of a grid that does not depend on sizes in pixels: cells,
/// groups, the lines those groups hide, and the selection, edit and
/// column-resize markers.
pub struct Grid {
    cells: HashMap<u64, CellData>,
    cell_map: Ghost<CellMap>,
    row_groups: Vec<Group>,
    col_groups: Vec<Group>,
    next_group_id: u32,
    hidden_rows: Vec<bool>,
    hidden_cols: Vec<bool>,
    hidden_dirty: bool,
    sel_row: i32,
    sel_col: i32,
    edit_row: i32,
    edit_col: i32,
    resize_col: i32,
}

/// The mathematical value of a [`Grid`].
#[verifier::ext_equal]
pub struct GridView {
    pub cells: CellMap,
    pub row_groups: Seq<GroupView>,
    pub col_groups: Seq<GroupView>,
    pub next_group_id: u32,
    pub hidden_rows: Seq<bool>,
    pub hidden_cols: Seq<bool>,
    pub hidden_dirty: bool,
    pub sel_row: i32,
    pub sel_col: i32,
    pub edit_row: i32,
    pub edit_col: i32,
    pub resize_col: i32,
}

impl View for Grid {
    type V = GridView;

    closed spec fn view(&self) -> GridView {
        GridView {
            cells: self.cell_map@,
            row_groups: views(self.row_groups@),
            col_groups: views(self.col_groups@),
            next_group_id: self.next_group_id,
            hidden_rows: self.hidden_rows@,
            hidden_cols: self.hidden_cols@,
            hidden_dirty: self.hidden_dirty,
            sel_row: self.sel_row,
            sel_col: self.sel_col,
            edit_row: self.edit_row,
            edit_col: self.edit_col,
            resize_col: self.resize_col,
        }
    }
}

/// Ids grow strictly along `gs`.
pub open spec fn ids_increasing(gs: Seq<GroupView>) -> bool {
    forall|i: int, j: int| 0 <= i < j < gs.len() ==> gs[i].id < gs[j].id
}

/// Every id of `gs` lies in `1..next` and every depth is below its id.
pub open spec fn ids_valid(gs: Seq<GroupView>, next: u32) -> bool {
    forall|i: int| 0 <= i < gs.len() ==> 1 <= #[trigger] gs[i].id < next && gs[i].depth < gs[i].id
}

/// The invariant of the group lists: within each list ids grow in the order
/// of creation, no id is in both lists, ids lie between `1` and the next id
/// to hand out, a group's depth is below its id, and there are fewer groups
/// than the next id.
pub open spec fn groups_ok(v: GridView) -> bool {
    &&& ids_increasing(v.row_groups)
    &&& ids_increasing(v.col_groups)
    &&& ids_valid(v.row_groups, v.next_group_id)
    &&& ids_valid(v.col_groups, v.next_group_id)
    &&& forall|i: int, j: int|
        0 <= i < v.row_groups.len() && 0 <= j < v.col_groups.len() ==> v.row_groups[i].id
            != v.col_groups[j].id
    &&& v.row_groups.len() + v.col_groups.len() < v.next_group_id
}

pub proof fn lemma_increasing_unique(gs: Seq<GroupView>)
    requires
        ids_increasing(gs),
    ensures
        ids_unique(gs),
{
    assert forall|i: int, j: int| 0 <= i < gs.len() && 0 <= j < gs.len() && i != j implies gs[i].id
        != gs[j].id by {
        if i < j {
            assert(gs[i].id < gs[j].id);
        } else {
            assert(gs[j].id < gs[i].id);
        }
    }
}

/// The tables of hidden lines match the groups unless they are marked stale.
pub open spec fn hidden_ok(v: GridView) -> bool {
    !v.hidden_dirty ==> v.hidden_rows == hidden_table(v.row_groups) && v.hidden_cols
        == hidden_table(v.col_groups)
}

/// Line `r` counts as hidden in table `t`.
pub open spec fn table_hides(t: Seq<bool>, r: u32) -> bool {
    r < t.len() && t[r as int]
}

impl Grid {
    /// The well-formedness of a grid.
    pub closed spec fn wf(&self) -> bool {
        &&& forall|r: u32, c: u32| #[trigger]
            self.cell_map@.contains_key((r, c)) <==> self.cells@.contains_key(cell_key(r, c))
        &&& forall|r: u32, c: u32| #[trigger]
            self.cell_map@.contains_key((r, c)) ==> self.cells@[cell_key(r, c)]@
                == self.cell_map@[(r, c)]
        &&& self.cell_map@.dom().finite()
        &&& self.cell_map@.len() == self.cells@.len()
        &&& groups_ok(self@)
        &&& hidden_ok(self@)
    }

    /// A well-formed grid keeps the invariants of its groups and of its
    /// tables of hidden lines.
    pub proof fn lemma_wf_view(&self)
        requires
            self.wf(),
        ensures
            groups_ok(self@),
            hidden_ok(self@),
            self@.cells.dom().finite(),
    {
    }

    proof fn lemma_wf_unique(&self)
        requires
            self.wf(),
        ensures
            ids_unique(self@.row_groups),
            ids_unique(self@.col_groups),
    {
        lemma_increasing_unique(self@.row_groups);
        lemma_increasing_unique(self@.col_groups);
    }

    /// An empty grid: no cells, no groups, nothing selected or edited, no
    /// column being resized, and group ids handed out from `1`.
    pub fn new() -> (g: Self)
        ensures
            g.wf(),
            g@ == (GridView {
                cells: Map::empty(),
                row_groups: Seq::empty(),
                col_groups: Seq::empty(),
                next_group_id: 1,
                hidden_rows: Seq::empty(),
                hidden_cols: Seq::empty(),
                hidden_dirty: true,
                sel_row: -1i32,
                sel_col: -1i32,
                edit_row: -1i32,
                edit_col: -1i32,
                resize_col: -1i32,
            }),
    {
        let g = Grid {
            cells: HashMap::new(),
            cell_map: Ghost(Map::empty()),
            row_groups: Vec::new(),
            col_groups: Vec::new(),
            next_group_id: 1,
            hidden_rows: Vec::new(),
            hidden_cols: Vec::new(),
            hidden_dirty: true,
            sel_row: -1,
            sel_col: -1,
            edit_row: -1,
            edit_col: -1,
            resize_col: -1,
        };
        proof {
            assert(views(g.row_groups@) =~= Seq::empty());
            assert(views(g.col_groups@) =~= Seq::empty());
        }
        g
    }
}

impl Grid {
    // ─── Cells ───────────────────────────────────────────────────────

    /// The parts of two grids other than their cells agree.
    closed spec fn same_but_cells(&self, other: &Grid) -> bool {
        &&& self.row_groups == other.row_groups
        &&& self.col_groups == other.col_groups
        &&& self.next_group_id == other.next_group_id
        &&& self.hidden_rows == other.hidden_rows
        &&& self.hidden_cols == other.hidden_cols
        &&& self.hidden_dirty == other.hidden_dirty
        &&& self.sel_row == other.sel_row
        &&& self.sel_col == other.sel_col
        &&& self.edit_row == other.edit_row
        &&& self.edit_col == other.edit_col
        &&& self.resize_col == other.resize_col
    }

    proof fn lemma_cells_insert(a: &Grid, b: &Grid, r: u32, c: u32, v: CellData)
        requires
            a.wf(),
            b.same_but_cells(a),
            b.cells@ == a.cells@.insert(cell_key(r, c), v),
            b.cell_map@ == a.cell_map@.insert((r, c), v@),
        ensures
            b.wf(),
    {
        assert forall|r2: u32, c2: u32| #[trigger]
            b.cell_map@.contains_key((r2, c2)) <==> b.cells@.contains_key(cell_key(r2, c2)) by {
            if cell_key(r2, c2) == cell_key(r, c) {
                lemma_cell_key_injective(r2, c2, r, c);
            }
        }
        assert forall|r2: u32, c2: u32| #[trigger]
            b.cell_map@.contains_key((r2, c2)) implies b.cells@[cell_key(r2, c2)]@
                == b.cell_map@[(r2, c2)] by {
            if cell_key(r2, c2) == cell_key(r, c) {
                lemma_cell_key_injective(r2, c2, r, c);
            }
        }
        assert(b@.row_groups == a@.row_groups);
        assert(b@.col_groups == a@.col_groups);
    }

    proof fn lemma_cells_remove(a: &Grid, b: &Grid, r: u32, c: u32)
        requires
            a.wf(),
            b.same_but_cells(a),
            b.cells@ == a.cells@.remove(cell_key(r, c)),
            b.cell_map@ == a.cell_map@.remove((r, c)),
        ensures
            b.wf(),
    {
        assert forall|r2: u32, c2: u32| #[trigger]
            b.cell_map@.contains_key((r2, c2)) <==> b.cells@.contains_key(cell_key(r2, c2)) by {
            if cell_key(r2, c2) == cell_key(r, c) {
                lemma_cell_key_injective(r2, c2, r, c);
            }
        }
        assert forall|r2: u32, c2: u32| #[trigger]
            b.cell_map@.contains_key((r2, c2)) implies b.cells@[cell_key(r2, c2)]@
                == b.cell_map@[(r2, c2)] by {
            if cell_key(r2, c2) == cell_key(r, c) {
                lemma_cell_key_injective(r2, c2, r, c);
            }
        }
        assert(b@.row_groups == a@.row_groups);
        assert(b@.col_groups == a@.col_groups);
    }

    /// Takes cell `(r, c)` out of the hash map, or makes an empty one.
    fn take_cell(&mut self, r: u32, c: u32) -> (cd: CellData)
        requires
            old(self).wf(),
        ensures
            cd@ == cell_or_empty(old(self)@.cells, r, c),
            final(self).cells@ == old(self).cells@.remove(cell_key(r, c)),
            final(self).cell_map == old(self).cell_map,
            final(self).same_but_cells(old(self)),
    {
        let k = key_of(r, c);
        match self.cells.remove(&k) {
            Some(cd) => cd,
            None => CellData::default(),
        }
    }

    /// Sets the text of cell `(row, col)`, creating the cell if needed and
    /// keeping its style.
    pub fn set_cell(&mut self, row: u32, col: u32, text: &str)
        requires
            old(self).wf(),
        ensures
            final(self).wf(),
            final(self)@ == (GridView { cells: with_text(old(self)@.cells, row, col, text@), ..old(self)@ }),
    {
        let ghost g0 = *self;
        let mut cd = self.take_cell(row, col);
        cd.text = text.to_string();
        let ghost v = cd;
        self.cells.insert(key_of(row, col), cd);
        self.cell_map = Ghost(with_text(self.cell_map@, row, col, text@));
        proof {
            assert(self.cells@ =~= g0.cells@.insert(cell_key(row, col), v));
            assert(v@ == CellView { text: text@, ..cell_or_empty(g0@.cells, row, col) });
            Grid::lemma_cells_insert(&g0, self, row, col, v);
            assert(self@ =~= (GridView { cells: with_text(g0@.cells, row, col, text@), ..g0@ }));
        }
    }

    /// Sets the style of cell `(row, col)`, creating the cell if needed: a
    /// non-empty `bg` or `fg` replaces that colour, an empty one keeps it, and
    /// the bold flag becomes `bold`.
    pub fn set_cell_style(&mut self, row: u32, col: u32, bg: &str, fg: &str, bold: bool)
        requires
            old(self).wf(),
        ensures
            final(self).wf(),
            final(self)@ == (GridView {
                cells: with_style(old(self)@.cells, row, col, bg@, fg@, bold),
                ..old(self)@
            }),
    {
        let ghost g0 = *self;
        let mut cd = self.take_cell(row, col);
        if !bg.is_empty() {
            cd.bg_color = Some(bg.to_string());
        }
        if !fg.is_empty() {
            cd.fg_color = Some(fg.to_string());
        }
        cd.bold = bold;
        let ghost v = cd;
        self.cells.insert(key_of(row, col), cd);
        self.cell_map = Ghost(with_style(self.cell_map@, row, col, bg@, fg@, bold));
        proof {
            assert(self.cells@ =~= g0.cells@.insert(cell_key(row, col), v));
            Grid::lemma_cells_insert(&g0, self, row, col, v);
            assert(self@ =~= (GridView {
                cells: with_style(g0@.cells, row, col, bg@, fg@, bold),
                ..g0@
            }));
        }
    }

    /// The text of cell `(row, col)`, empty where there is no cell.
    pub fn get_cell_text(&self, row: u32, col: u32) -> (t: String)
        requires
            self.wf(),
        ensures
            t@ == cell_or_empty(self@.cells, row, col).text,
    {
        match self.cells.get(&key_of(row, col)) {
            Some(cd) => cd.text.clone(),
            None => String::new(),
        }
    }

    /// Removes cell `(row, col)`, with its text and style.
    pub fn clear_cell(&mut self, row: u32, col: u32)
        requires
            old(self).wf(),
        ensures
            final(self).wf(),
            final(self)@ == (GridView { cells: old(self)@.cells.remove((row, col)), ..old(self)@ }),
    {
        let ghost g0 = *self;
        self.cells.remove(&key_of(row, col));
        self.cell_map = Ghost(self.cell_map@.remove((row, col)));
        proof {
            Grid::lemma_cells_remove(&g0, self, row, col);
            assert(self@ =~= (GridView { cells: g0@.cells.remove((row, col)), ..g0@ }));
        }
    }

    /// The number of cells, truncated to 32 bits.
    pub fn cell_count(&self) -> (n: u32)
        requires
            self.wf(),
        ensures
            n == self@.cells.len() as u32,
    {
        self.cells.len() as u32
    }
}

impl Grid {
    /// Writes the texts of `entries` in order, as `set_cell` does for each.
    pub fn load_cell_entries(&mut self, entries: Vec<(u32, u32, String)>)
        requires
            old(self).wf(),
        ensures
            final(self).wf(),
            final(self)@ == (GridView {
                cells: with_texts(old(self)@.cells, entries_view(entries@)),
                ..old(self)@
            }),
    {
        let ghost g0 = self@;
        let ghost es = entries_view(entries@);
        let mut i: usize = 0;
        while i < entries.len()
            invariant
                self.wf(),
                i <= entries.len(),
                es == entries_view(entries@),
                self@ == (GridView { cells: with_texts(g0.cells, es.take(i as int)), ..g0 }),
            decreases entries.len() - i,
        {
            let (r, c, ref t) = entries[i];
            proof {
                assert(es.take(i + 1).drop_last() =~= es.take(i as int));
                assert(es.take(i + 1).last() == (r, c, t@));
            }
            self.set_cell(r, c, t.as_str());
            i = i + 1;
        }
        proof {
            assert(es.take(entries.len() as int) =~= es);
        }
    }

    /// Reads a JSON array of `[row, column, "text"]` triples and writes each
    /// text as `set_cell` does; text that does not read as such an array
    /// changes nothing.
    pub fn load_cells_json(&mut self, json: &str)
        requires
            old(self).wf(),
        ensures
            final(self).wf(),
            final(self)@ == match json_cell_entries(json@) {
                Some(es) => GridView { cells: with_texts(old(self)@.cells, es), ..old(self)@ },
                None => old(self)@,
            },
    {
        match parse_cell_entries(json) {
            Ok(entries) => self.load_cell_entries(entries),
            Err(_) => {},
        }
    }
}

/// The group that `add_row_group` or `add_col_group` appends to list `gs`.
pub open spec fn new_group(
    gs: Seq<GroupView>,
    id: u32,
    label: Seq<char>,
    members: Seq<u32>,
    parent_id: i32,
) -> GroupView {
    GroupView {
        id,
        label,
        members,
        collapsed: false,
        depth: depth_under(gs, parent_arg(parent_id)),
        parent: parent_arg(parent_id),
    }
}

/// The members that a members argument in JSON gives: the list it reads as,
/// or no members where it does not read as a list.
pub open spec fn members_arg(members_json: Seq<char>) -> Seq<u32> {
    match json_u32_list(members_json) {
        Some(ms) => ms,
        None => Seq::empty(),
    }
}

impl Grid {
    // ─── Groups ──────────────────────────────────────────────────────

    /// The next group id to hand out.
    pub fn next_group_id(&self) -> (id: u32)
        ensures
            id == self@.next_group_id,
    {
        self.next_group_id
    }

    /// The depth of a new group of `gs` with enclosing group `parent`.
    fn depth_for(gs: &Vec<Group>, parent: Option<u32>, next: u32) -> (d: u32)
        requires
            ids_increasing(views(gs@)),
            ids_valid(views(gs@), next),
            next > 0,
        ensures
            d == depth_under(views(gs@), parent),
            d < next,
    {
        match parent {
            Some(pid) => match find_index(gs, pid) {
                Some(i) => {
                    proof {
                        lemma_increasing_unique(views(gs@));
                        assert(views(gs@)[i as int] == gs@[i as int]@);
                        lemma_index_of_unique(views(gs@), i as int);
                        assert(1 <= views(gs@)[i as int].id < next);
                    }
                    gs[i].depth + 1
                },
                None => 0,
            },
            None => 0,
        }
    }

    /// Adds a row group with the given members and returns its id.
    ///
    /// A positive `parent_id` names the enclosing group; the new group is one
    /// level deeper than that group when it is a row group, else at depth 0.
    pub fn add_row_group_members(&mut self, label: &str, members: Vec<u32>, parent_id: i32) -> (id: u32)
        requires
            old(self).wf(),
            old(self)@.next_group_id < u32::MAX,
        ensures
            final(self).wf(),
            id == old(self)@.next_group_id,
            final(self)@ == (GridView {
                row_groups: old(self)@.row_groups.push(
                    new_group(old(self)@.row_groups, id, label@, members@, parent_id),
                ),
                next_group_id: (id + 1) as u32,
                hidden_dirty: true,
                ..old(self)@
            }),
    {
        let ghost v0 = self@;
        let parent = if parent_id > 0 {
            Some(parent_id as u32)
        } else {
            None
        };
        let depth = Grid::depth_for(&self.row_groups, parent, self.next_group_id);
        let id = self.next_group_id;
        self.next_group_id = id + 1;
        let g = Group { id, label: label.to_string(), members, collapsed: false, depth, parent };
        let ghost gv = g@;
        self.row_groups.push(g);
        self.hidden_dirty = true;
        proof {
            assert(views(self.row_groups@) =~= v0.row_groups.push(gv));
            assert(gv == new_group(v0.row_groups, id, label@, members@, parent_id));
            assert(self@ =~= (GridView {
                row_groups: v0.row_groups.push(gv),
                next_group_id: (id + 1) as u32,
                hidden_dirty: true,
                ..v0
            }));
        }
        id
    }

    /// Adds a column group with the given members and returns its id.
    ///
    /// A positive `parent_id` names the enclosing group; the new group is one
    /// level deeper than that group when it is a column group, else at depth 0.
    pub fn add_col_group_members(&mut self, label: &str, members: Vec<u32>, parent_id: i32) -> (id: u32)
        requires
            old(self).wf(),
            old(self)@.next_group_id < u32::MAX,
        ensures
            final(self).wf(),
            id == old(self)@.next_group_id,
            final(self)@ == (GridView {
                col_groups: old(self)@.col_groups.push(
                    new_group(old(self)@.col_groups, id, label@, members@, parent_id),
                ),
                next_group_id: (id + 1) as u32,
                hidden_dirty: true,
                ..old(self)@
            }),
    {
        let ghost v0 = self@;
        let parent = if parent_id > 0 {
            Some(parent_id as u32)
        } else {
            None
        };
        let depth = Grid::depth_for(&self.col_groups, parent, self.next_group_id);
        let id = self.next_group_id;
        self.next_group_id = id + 1;
        let g = Group { id, label: label.to_string(), members, collapsed: false, depth, parent };
        let ghost gv = g@;
        self.col_groups.push(g);
        self.hidden_dirty = true;
        proof {
            assert(views(self.col_groups@) =~= v0.col_groups.push(gv));
            assert(gv == new_group(v0.col_groups, id, label@, members@, parent_id));
            assert(self@ =~= (GridView {
                col_groups: v0.col_groups.push(gv),
                next_group_id: (id + 1) as u32,
                hidden_dirty: true,
                ..v0
            }));
        }
        id
    }

    /// Adds a row group whose members are given as a JSON array of numbers
    /// (no members where the text does not read as one) and returns its id.
    pub fn add_row_group(&mut self, label: &str, members_json: &str, parent_id: i32) -> (id: u32)
        requires
            old(self).wf(),
            old(self)@.next_group_id < u32::MAX,
        ensures
            final(self).wf(),
            id == old(self)@.next_group_id,
            final(self)@ == (GridView {
                row_groups: old(self)@.row_groups.push(
                    new_group(old(self)@.row_groups, id, label@, members_arg(members_json@), parent_id),
                ),
                next_group_id: (id + 1) as u32,
                hidden_dirty: true,
                ..old(self)@
            }),
    {
        let members = match parse_u32_list(members_json) {
            Ok(v) => v,
            Err(_) => Vec::new(),
        };
        self.add_row_group_members(label, members, parent_id)
    }

    /// Adds a column group whose members are given as a JSON array of numbers
    /// (no members where the text does not read as one) and returns its id.
    pub fn add_col_group(&mut self, label: &str, members_json: &str, parent_id: i32) -> (id: u32)
        requires
            old(self).wf(),
            old(self)@.next_group_id < u32::MAX,
        ensures
            final(self).wf(),
            id == old(self)@.next_group_id,
            final(self)@ == (GridView {
                col_groups: old(self)@.col_groups.push(
                    new_group(old(self)@.col_groups, id, label@, members_arg(members_json@), parent_id),
                ),
                next_group_id: (id + 1) as u32,
                hidden_dirty: true,
                ..old(self)@
            }),
    {
        let members = match parse_u32_list(members_json) {
            Ok(v) => v,
            Err(_) => Vec::new(),
        };
        self.add_col_group_members(label, members, parent_id)
    }

    /// The number of groups, rows and columns together.
    pub fn group_count(&self) -> (n: u32)
        requires
            self.wf(),
        ensures
            n == self@.row_groups.len() + self@.col_groups.len(),
    {
        (self.row_groups.len() + self.col_groups.len()) as u32
    }
}

/// A grid view after `toggle_group(gid)`: the first list that holds group
/// `gid` has its collapsed flag flipped, rows first; nothing changes when
/// neither list holds it.
pub open spec fn toggled(v: GridView, gid: u32) -> GridView {
    if has_id(v.row_groups, gid) {
        GridView {
            row_groups: flip_at(v.row_groups, index_of(v.row_groups, gid)),
            hidden_dirty: true,
            ..v
        }
    } else if has_id(v.col_groups, gid) {
        GridView {
            col_groups: flip_at(v.col_groups, index_of(v.col_groups, gid)),
            hidden_dirty: true,
            ..v
        }
    } else {
        v
    }
}

/// Flips the collapsed flag of the `i`-th group of `gs`.
fn flip_group(gs: &mut Vec<Group>, i: usize)
    requires
        i < old(gs).len(),
    ensures
        views(final(gs)@) == flip_at(views(old(gs)@), i as int),
{
    let ghost v0 = views(gs@);
    let mut g = gs.remove(i);
    g.collapsed = !g.collapsed;
    gs.insert(i, g);
    proof {
        assert(views(gs@) =~= flip_at(v0, i as int));
    }
}

impl Grid {
    /// Flips the collapsed flag of group `group_id`.
    pub fn toggle_group(&mut self, group_id: u32)
        requires
            old(self).wf(),
        ensures
            final(self).wf(),
            final(self)@ == toggled(old(self)@, group_id),
    {
        let ghost v0 = self@;
        proof {
            self.lemma_wf_unique();
        }
        match find_index(&self.row_groups, group_id) {
            Some(i) => {
                proof {
                    assert(v0.row_groups[i as int] == self.row_groups@[i as int]@);
                    lemma_index_of_unique(v0.row_groups, i as int);
                }
                flip_group(&mut self.row_groups, i);
                self.hidden_dirty = true;
                proof {
                    assert(self@ =~= toggled(v0, group_id));
                }
                return;
            },
            None => {},
        }
        match find_index(&self.col_groups, group_id) {
            Some(i) => {
                proof {
                    assert(v0.col_groups[i as int] == self.col_groups@[i as int]@);
                    lemma_index_of_unique(v0.col_groups, i as int);
                }
                flip_group(&mut self.col_groups, i);
                self.hidden_dirty = true;
                proof {
                    assert(self@ =~= toggled(v0, group_id));
                }
            },
            None => {},
        }
    }

    /// Removes group `group_id` from both lists; its direct children become
    /// top-level groups at depth 0.
    pub fn remove_group(&mut self, group_id: u32)
        requires
            old(self).wf(),
        ensures
            final(self).wf(),
            final(self)@ == (GridView {
                row_groups: prune(old(self)@.row_groups, group_id),
                col_groups: prune(old(self)@.col_groups, group_id),
                hidden_dirty: true,
                ..old(self)@
            }),
    {
        let ghost v0 = self@;
        let mut rows: Vec<Group> = Vec::new();
        std::mem::swap(&mut rows, &mut self.row_groups);
        self.row_groups = prune_list(rows, group_id);
        let mut cols: Vec<Group> = Vec::new();
        std::mem::swap(&mut cols, &mut self.col_groups);
        self.col_groups = prune_list(cols, group_id);
        self.hidden_dirty = true;
        proof {
            lemma_prune(v0.row_groups, group_id);
            lemma_prune(v0.col_groups, group_id);
            let pr = prune(v0.row_groups, group_id);
            let pc = prune(v0.col_groups, group_id);
            assert forall|i: int| 0 <= i < pr.len() implies 1 <= #[trigger] pr[i].id
                < v0.next_group_id && pr[i].depth < pr[i].id by {
                let j = choose|j: int|
                    0 <= j < v0.row_groups.len() && v0.row_groups[j].id != group_id
                        && #[trigger] pr[i] == detach(v0.row_groups[j], group_id);
                assert(1 <= v0.row_groups[j].id < v0.next_group_id);
            }
            assert forall|i: int| 0 <= i < pc.len() implies 1 <= #[trigger] pc[i].id
                < v0.next_group_id && pc[i].depth < pc[i].id by {
                let j = choose|j: int|
                    0 <= j < v0.col_groups.len() && v0.col_groups[j].id != group_id
                        && #[trigger] pc[i] == detach(v0.col_groups[j], group_id);
                assert(1 <= v0.col_groups[j].id < v0.next_group_id);
            }
            assert forall|i: int, j: int| 0 <= i < pr.len() && 0 <= j < pc.len() implies pr[i].id
                != pc[j].id by {
                let a = choose|a: int|
                    0 <= a < v0.row_groups.len() && v0.row_groups[a].id != group_id
                        && #[trigger] pr[i] == detach(v0.row_groups[a], group_id);
                let b = choose|b: int|
                    0 <= b < v0.col_groups.len() && v0.col_groups[b].id != group_id
                        && #[trigger] pc[j] == detach(v0.col_groups[b], group_id);
                assert(v0.row_groups[a].id != v0.col_groups[b].id);
            }
            assert(self@ =~= (GridView {
                row_groups: pr,
                col_groups: pc,
                hidden_dirty: true,
                ..v0
            }));
        }
    }
}

/// `res` is the first line at or after `start` that `gs` does not hide.
pub open spec fn first_shown_from(gs: Seq<GroupView>, start: int, res: int) -> bool {
    &&& start <= res
    &&& !line_hidden(gs, res as u32)
    &&& forall|r: int| start <= r < res ==> #[trigger] line_hidden(gs, r as u32)
}

/// `res` is the last line at or before `start` that `gs` does not hide, or
/// `0` when `gs` hides every line from `0` to `start`.
pub open spec fn last_shown_to(gs: Seq<GroupView>, start: int, res: int) -> bool {
    if exists|r: int| 0 <= r <= start && !#[trigger] line_hidden(gs, r as u32) {
        &&& 0 <= res <= start
        &&& !line_hidden(gs, res as u32)
        &&& forall|r: int| res < r <= start ==> #[trigger] line_hidden(gs, r as u32)
    } else {
        res == 0
    }
}

/// Where a selection index `cur` moves by `delta`: from `max(cur, 0)`, by
/// `delta`, but not below `0`.
pub open spec fn moved(cur: i32, delta: i32) -> int {
    let s = if cur < 0 {
        0
    } else {
        cur as int
    };
    if s + delta < 0 {
        0
    } else {
        s + delta
    }
}

/// Moving by `delta` from `cur` over the lines of `gs` ends at `res`: the
/// first line from the moved-to line on that is not hidden when moving
/// forward (or not at all), the last one before it when moving back.
pub open spec fn moved_over(gs: Seq<GroupView>, cur: i32, delta: i32, res: int) -> bool {
    if delta >= 0 {
        first_shown_from(gs, moved(cur, delta), res)
    } else {
        last_shown_to(gs, moved(cur, delta), res)
    }
}

/// Moving by `delta` from `cur` stays within `i32`: the sum does not
/// overflow, and moving forward meets a line that is not hidden by
/// `i32::MAX`.
pub open spec fn move_fits(gs: Seq<GroupView>, cur: i32, delta: i32) -> bool {
    &&& (if cur < 0 {
        0
    } else {
        cur as int
    }) + delta <= i32::MAX
    &&& delta >= 0 ==> exists|r: int|
        moved(cur, delta) <= r <= i32::MAX && !#[trigger] line_hidden(gs, r as u32)
}

impl Grid {
    // ─── Hidden lines ────────────────────────────────────────────────

    /// Recomputes the tables of hidden rows and columns from the groups if
    /// they are marked stale.
    pub fn rebuild_hidden(&mut self)
        requires
            old(self).wf(),
        ensures
            final(self).wf(),
            final(self)@ == (GridView {
                hidden_rows: hidden_table(old(self)@.row_groups),
                hidden_cols: hidden_table(old(self)@.col_groups),
                hidden_dirty: false,
                ..old(self)@
            }),
    {
        let ghost v0 = self@;
        if !self.hidden_dirty {
            proof {
                assert(self@ =~= (GridView {
                    hidden_rows: hidden_table(v0.row_groups),
                    hidden_cols: hidden_table(v0.col_groups),
                    hidden_dirty: false,
                    ..v0
                }));
            }
            return;
        }
        proof {
            self.lemma_wf_unique();
        }
        self.hidden_rows = hidden_lines(&self.row_groups);
        self.hidden_cols = hidden_lines(&self.col_groups);
        self.hidden_dirty = false;
        proof {
            assert(self@ =~= (GridView {
                hidden_rows: hidden_table(v0.row_groups),
                hidden_cols: hidden_table(v0.col_groups),
                hidden_dirty: false,
                ..v0
            }));
        }
    }

    /// Whether row `r` is marked hidden in the table of hidden rows.
    pub fn is_row_hidden(&self, r: u32) -> (b: bool)
        ensures
            b == table_hides(self@.hidden_rows, r),
    {
        (r as usize) < self.hidden_rows.len() && self.hidden_rows[r as usize]
    }

    /// Whether column `c` is marked hidden in the table of hidden columns.
    pub fn is_col_hidden(&self, c: u32) -> (b: bool)
        ensures
            b == table_hides(self@.hidden_cols, c),
    {
        (c as usize) < self.hidden_cols.len() && self.hidden_cols[c as usize]
    }

    /// The number of nesting levels of row groups.
    pub fn max_row_depth(&self) -> (d: u32)
        requires
            self.wf(),
        ensures
            d == max_depth(self@.row_groups),
    {
        proof {
            assert forall|i: int| 0 <= i < self.row_groups.len() implies #[trigger] self.row_groups@[i].depth
                < u32::MAX by {
                assert(self@.row_groups[i] == self.row_groups@[i]@);
            }
        }
        depth_levels(&self.row_groups)
    }

    /// The number of nesting levels of column groups.
    pub fn max_col_depth(&self) -> (d: u32)
        requires
            self.wf(),
        ensures
            d == max_depth(self@.col_groups),
    {
        proof {
            assert forall|i: int| 0 <= i < self.col_groups.len() implies #[trigger] self.col_groups@[i].depth
                < u32::MAX by {
                assert(self@.col_groups[i] == self.col_groups@[i]@);
            }
        }
        depth_levels(&self.col_groups)
    }

    // ─── Selection and editing ───────────────────────────────────────

    /// Selects cell `(r, c)`.
    pub fn select(&mut self, r: i32, c: i32)
        requires
            old(self).wf(),
        ensures
            final(self).wf(),
            final(self)@ == (GridView { sel_row: r, sel_col: c, ..old(self)@ }),
    {
        self.sel_row = r;
        self.sel_col = c;
        proof {
            assert(self@ =~= (GridView { sel_row: r, sel_col: c, ..old(self)@ }));
        }
    }

    /// The selected row (`-1` for none).
    pub fn sel_row(&self) -> (r: i32)
        ensures
            r == self@.sel_row,
    {
        self.sel_row
    }

    /// The selected column (`-1` for none).
    pub fn sel_col(&self) -> (c: i32)
        ensures
            c == self@.sel_col,
    {
        self.sel_col
    }

    /// Marks cell `(r, c)` as the one being edited.
    pub fn edit(&mut self, r: i32, c: i32)
        requires
            old(self).wf(),
        ensures
            final(self).wf(),
            final(self)@ == (GridView { edit_row: r, edit_col: c, ..old(self)@ }),
    {
        self.edit_row = r;
        self.edit_col = c;
        proof {
            assert(self@ =~= (GridView { edit_row: r, edit_col: c, ..old(self)@ }));
        }
    }

    /// The row being edited (`-1` for none).
    pub fn edit_row(&self) -> (r: i32)
        ensures
            r == self@.edit_row,
    {
        self.edit_row
    }

    /// The column being edited (`-1` for none).
    pub fn edit_col(&self) -> (c: i32)
        ensures
            c == self@.edit_col,
    {
        self.edit_col
    }

    /// Moves the selection by `dr` rows and `dc` columns, from row and
    /// column 0 where nothing is selected, and not below 0. The move then
    /// goes on past hidden lines in its direction; moving back from hidden
    /// lines down to line 0 ends at line 0. Refreshes the tables of hidden
    /// lines on the way.
    pub fn move_selection(&mut self, dr: i32, dc: i32)
        requires
            old(self).wf(),
            move_fits(old(self)@.row_groups, old(self)@.sel_row, dr),
            move_fits(old(self)@.col_groups, old(self)@.sel_col, dc),
        ensures
            final(self).wf(),
            moved_over(old(self)@.row_groups, old(self)@.sel_row, dr, final(self)@.sel_row as int),
            moved_over(old(self)@.col_groups, old(self)@.sel_col, dc, final(self)@.sel_col as int),
            final(self)@ == (GridView {
                sel_row: final(self)@.sel_row,
                sel_col: final(self)@.sel_col,
                hidden_rows: hidden_table(old(self)@.row_groups),
                hidden_cols: hidden_table(old(self)@.col_groups),
                hidden_dirty: false,
                ..old(self)@
            }),
    {
        let ghost v0 = self@;
        if self.sel_row < 0 {
            self.sel_row = 0;
        }
        if self.sel_col < 0 {
            self.sel_col = 0;
        }
        let r = self.sel_row + dr;
        self.sel_row = if r < 0 {
            0
        } else {
            r
        };
        let c = self.sel_col + dc;
        self.sel_col = if c < 0 {
            0
        } else {
            c
        };
        self.rebuild_hidden();
        let ghost rs = v0.row_groups;
        let ghost cs = v0.col_groups;
        let ghost r0 = moved(v0.sel_row, dr);
        let ghost c0 = moved(v0.sel_col, dc);
        assert(self.sel_row == r0 && self.sel_col == c0);
        // Rows
        if dr >= 0 {
            let ghost w = choose|w: int| r0 <= w <= i32::MAX && !#[trigger] line_hidden(rs, w as u32);
            while self.is_row_hidden(#[verifier::truncate] (self.sel_row as u32)) && self.sel_row >= 0
                invariant
                    self.wf(),
                    self@.row_groups == rs,
                    !self@.hidden_dirty,
                    r0 <= self.sel_row <= w <= i32::MAX,
                    !line_hidden(rs, w as u32),
                    forall|r: int| r0 <= r < self.sel_row ==> #[trigger] line_hidden(rs, r as u32),
                    self@ == (GridView { sel_row: self@.sel_row, sel_col: c0 as i32, hidden_rows: hidden_table(rs), hidden_cols: hidden_table(cs), hidden_dirty: false, ..v0 }),
                decreases w - self.sel_row,
            {
                proof {
                    assert(self@.hidden_rows == hidden_table(rs));
                    lemma_table_hides(rs, self.sel_row as u32);
                    assert(line_hidden(rs, self.sel_row as u32));
                    assert(self.sel_row != w);
                }
                self.sel_row = self.sel_row + 1;
            }
            proof {
                lemma_table_hides(rs, self.sel_row as u32);
            }
        } else {
            while self.is_row_hidden(#[verifier::truncate] (self.sel_row as u32)) && self.sel_row >= 0
                invariant
                    self.wf(),
                    self@.row_groups == rs,
                    !self@.hidden_dirty,
                    -1 <= self.sel_row <= r0,
                    forall|r: int| self.sel_row < r <= r0 ==> #[trigger] line_hidden(rs, r as u32),
                    self@ == (GridView { sel_row: self@.sel_row, sel_col: c0 as i32, hidden_rows: hidden_table(rs), hidden_cols: hidden_table(cs), hidden_dirty: false, ..v0 }),
                decreases self.sel_row + 1,
            {
                proof {
                    lemma_table_hides(rs, self.sel_row as u32);
                }
                self.sel_row = self.sel_row - 1;
            }
            proof {
                if self.sel_row >= 0 {
                    lemma_table_hides(rs, self.sel_row as u32);
                }
            }
        }
        let ghost row_end = self.sel_row;
        // Columns
        if dc >= 0 {
            let ghost w = choose|w: int| c0 <= w <= i32::MAX && !#[trigger] line_hidden(cs, w as u32);
            while self.is_col_hidden(#[verifier::truncate] (self.sel_col as u32)) && self.sel_col >= 0
                invariant
                    self.wf(),
                    self@.col_groups == cs,
                    !self@.hidden_dirty,
                    c0 <= self.sel_col <= w <= i32::MAX,
                    !line_hidden(cs, w as u32),
                    forall|r: int| c0 <= r < self.sel_col ==> #[trigger] line_hidden(cs, r as u32),
                    self@ == (GridView { sel_row: row_end, sel_col: self@.sel_col, hidden_rows: hidden_table(rs), hidden_cols: hidden_table(cs), hidden_dirty: false, ..v0 }),
                decreases w - self.sel_col,
            {
                proof {
                    assert(self@.hidden_cols == hidden_table(cs));
                    lemma_table_hides(cs, self.sel_col as u32);
                    assert(line_hidden(cs, self.sel_col as u32));
                    assert(self.sel_col != w);
                }
                self.sel_col = self.sel_col + 1;
            }
            proof {
                lemma_table_hides(cs, self.sel_col as u32);
            }
        } else {
            while self.is_col_hidden(#[verifier::truncate] (self.sel_col as u32)) && self.sel_col >= 0
                invariant
                    self.wf(),
                    self@.col_groups == cs,
                    !self@.hidden_dirty,
                    -1 <= self.sel_col <= c0,
                    forall|r: int| self.sel_col < r <= c0 ==> #[trigger] line_hidden(cs, r as u32),
                    self@ == (GridView { sel_row: row_end, sel_col: self@.sel_col, hidden_rows: hidden_table(rs), hidden_cols: hidden_table(cs), hidden_dirty: false, ..v0 }),
                decreases self.sel_col + 1,
            {
                proof {
                    lemma_table_hides(cs, self.sel_col as u32);
                }
                self.sel_col = self.sel_col - 1;
            }
            proof {
                if self.sel_col >= 0 {
                    lemma_table_hides(cs, self.sel_col as u32);
                }
            }
        }
        if self.sel_row < 0 {
            self.sel_row = 0;
        }
        if self.sel_col < 0 {
            self.sel_col = 0;
        }
        proof {
            assert(self@ =~= (GridView {
                sel_row: self@.sel_row,
                sel_col: self@.sel_col,
                hidden_rows: hidden_table(rs),
                hidden_cols: hidden_table(cs),
                hidden_dirty: false,
                ..v0
            }));
        }
    }
}

/// What a rendered cell shows: its text and colours, whether it is bold,
/// and whether it is the selected or the edited cell.
pub struct CellDisplay {
    pub text: String,
    pub bg: String,
    pub fg: String,
    pub bold: bool,
    pub selected: bool,
    pub editing: bool,
}

/// The cells after the pivot labels are written: the column labels along
/// row 0 from column 1 on, then the row labels down column 0 from row 1 on.
pub open spec fn header_entries(rows: Seq<Seq<char>>, cols: Seq<Seq<char>>) -> Seq<(u32, u32, Seq<char>)> {
    Seq::new(cols.len(), |i: int| (0u32, (i + 1) as u32, cols[i])) + Seq::new(
        rows.len(),
        |i: int| ((i + 1) as u32, 0u32, rows[i]),
    )
}

/// A grid view with its content reset: no cells, no groups, stale tables of
/// hidden lines, nothing selected or edited.
pub open spec fn cleared(v: GridView) -> GridView {
    GridView {
        cells: Map::empty(),
        row_groups: Seq::empty(),
        col_groups: Seq::empty(),
        hidden_rows: Seq::empty(),
        hidden_cols: Seq::empty(),
        hidden_dirty: true,
        sel_row: -1i32,
        sel_col: -1i32,
        edit_row: -1i32,
        edit_col: -1i32,
        ..v
    }
}

impl Grid {
    // ─── Column resize ───────────────────────────────────────────────

    /// Starts resizing column `col`; a negative `col` changes nothing.
    pub fn start_col_resize(&mut self, col: i32)
        requires
            old(self).wf(),
        ensures
            final(self).wf(),
            final(self)@ == if col >= 0 {
                GridView { resize_col: col, ..old(self)@ }
            } else {
                old(self)@
            },
    {
        if col >= 0 {
            self.resize_col = col;
        }
        proof {
            assert(self@ =~= if col >= 0 {
                GridView { resize_col: col, ..old(self)@ }
            } else {
                old(self)@
            });
        }
    }

    /// Ends any column resize.
    pub fn end_col_resize(&mut self)
        requires
            old(self).wf(),
        ensures
            final(self).wf(),
            final(self)@ == (GridView { resize_col: -1i32, ..old(self)@ }),
    {
        self.resize_col = -1;
        proof {
            assert(self@ =~= (GridView { resize_col: -1i32, ..old(self)@ }));
        }
    }

    /// Whether a column is being resized.
    pub fn is_resizing(&self) -> (b: bool)
        ensures
            b == (self@.resize_col >= 0),
    {
        self.resize_col >= 0
    }

    /// The column being resized (`-1` for none).
    pub fn resize_col(&self) -> (c: i32)
        ensures
            c == self@.resize_col,
    {
        self.resize_col
    }

    // ─── What is drawn ───────────────────────────────────────────────

    /// The row groups.
    pub fn row_groups(&self) -> (gs: &Vec<Group>)
        ensures
            views(gs@) == self@.row_groups,
    {
        &self.row_groups
    }

    /// The column groups.
    pub fn col_groups(&self) -> (gs: &Vec<Group>)
        ensures
            views(gs@) == self@.col_groups,
    {
        &self.col_groups
    }

    /// Whether some enclosing group of group `gid` is collapsed, looking in
    /// the row groups when `rows` holds, else in the column groups.
    pub fn group_ancestor_collapsed(&self, rows: bool, gid: u32) -> (b: bool)
        requires
            self.wf(),
        ensures
            b == if rows {
                under_collapsed(self@.row_groups, gid)
            } else {
                under_collapsed(self@.col_groups, gid)
            },
    {
        proof {
            self.lemma_wf_unique();
        }
        if rows {
            ancestor_collapsed(&self.row_groups, gid)
        } else {
            ancestor_collapsed(&self.col_groups, gid)
        }
    }

    /// What cell `(row, col)` shows when drawn: its text (empty for no
    /// cell); a white background while edited, a light blue one while
    /// selected, else its own background or white; its own foreground or
    /// slate; and its bold flag.
    pub fn cell_display(&self, row: u32, col: u32) -> (d: CellDisplay)
        requires
            self.wf(),
        ensures
            d.selected == (self@.sel_row == row as i32 && self@.sel_col == col as i32),
            d.editing == (self@.edit_row == row as i32 && self@.edit_col == col as i32),
            d.text@ == cell_or_empty(self@.cells, row, col).text,
            d.bg@ == if d.editing {
                "#FFFFFF"@
            } else if d.selected {
                "#DBEAFE"@
            } else {
                match cell_or_empty(self@.cells, row, col).bg_color {
                    Some(c) => c,
                    None => "#FFFFFF"@,
                }
            },
            d.fg@ == match cell_or_empty(self@.cells, row, col).fg_color {
                Some(c) => c,
                None => "#1E293B"@,
            },
            d.bold == cell_or_empty(self@.cells, row, col).bold,
    {
        let r = #[verifier::truncate] (row as i32);
        let c = #[verifier::truncate] (col as i32);
        let selected = self.sel_row == r && self.sel_col == c;
        let editing = self.edit_row == r && self.edit_col == c;
        let cd = self.cells.get(&key_of(row, col));
        let text = match cd {
            Some(cell) => cell.text.clone(),
            None => String::new(),
        };
        let bg = if editing {
            "#FFFFFF".to_string()
        } else if selected {
            "#DBEAFE".to_string()
        } else {
            match cd {
                Some(cell) => match &cell.bg_color {
                    Some(b) => b.clone(),
                    None => "#FFFFFF".to_string(),
                },
                None => "#FFFFFF".to_string(),
            }
        };
        let fg = match cd {
            Some(cell) => match &cell.fg_color {
                Some(f) => f.clone(),
                None => "#1E293B".to_string(),
            },
            None => "#1E293B".to_string(),
        };
        let bold = match cd {
            Some(cell) => cell.bold,
            None => false,
        };
        CellDisplay { text, bg, fg, bold, selected, editing }
    }

    // ─── Pivot tables ────────────────────────────────────────────────

    /// Removes all cells and groups and clears the selection and the edit
    /// marker; sizes and the next group id stay.
    pub fn reset_content(&mut self)
        requires
            old(self).wf(),
        ensures
            final(self).wf(),
            final(self)@ == cleared(old(self)@),
    {
        self.cells.clear();
        self.cell_map = Ghost(Map::empty());
        self.row_groups.clear();
        self.col_groups.clear();
        self.hidden_rows.clear();
        self.hidden_cols.clear();
        self.hidden_dirty = true;
        self.sel_row = -1;
        self.sel_col = -1;
        self.edit_row = -1;
        self.edit_col = -1;
        proof {
            assert(views(self.row_groups@) =~= Seq::empty());
            assert(views(self.col_groups@) =~= Seq::empty());
            assert(self@ =~= cleared(old(self)@));
        }
    }

    /// Lays out a pivot table for records with the given row and column
    /// labels: clears the content, numbers the distinct row labels and the
    /// distinct column labels from 1 in the order of first appearance, and
    /// writes the column labels along row 0 and the row labels down column 0.
    /// Returns the row number and the column number of each record.
    pub fn load_pivot_layout(&mut self, row_labels: &Vec<String>, col_labels: &Vec<String>) -> (res: (Vec<u32>, Vec<u32>))
        requires
            old(self).wf(),
            row_labels.len() < u32::MAX,
            col_labels.len() < u32::MAX,
        ensures
            final(self).wf(),
            numbered_by(texts(row_labels@), first_seen(texts(row_labels@)), res.0@),
            numbered_by(texts(col_labels@), first_seen(texts(col_labels@)), res.1@),
            final(self)@ == (GridView {
                cells: with_texts(
                    Map::empty(),
                    header_entries(first_seen(texts(row_labels@)), first_seen(texts(col_labels@))),
                ),
                ..cleared(old(self)@)
            }),
    {
        self.reset_content();
        let ghost v1 = self@;
        let (row_idx, rows) = label_indices(row_labels);
        let (col_idx, cols) = label_indices(col_labels);
        let ghost hs = header_entries(texts(rows@), texts(cols@));
        let mut entries: Vec<(u32, u32, String)> = Vec::new();
        let mut c: usize = 0;
        while c < cols.len()
            invariant
                c <= cols.len(),
                cols.len() <= col_labels.len() < u32::MAX,
                hs == header_entries(texts(rows@), texts(cols@)),
                entries_view(entries@) == hs.take(c as int),
            decreases cols.len() - c,
        {
            let ghost e0 = entries_view(entries@);
            entries.push((0, (c + 1) as u32, cols[c].clone()));
            proof {
                assert(hs[c as int] == (0u32, (c + 1) as u32, texts(cols@)[c as int]));
                assert(entries_view(entries@) =~= e0.push(hs[c as int]));
                assert(entries_view(entries@) =~= hs.take(c + 1));
            }
            c = c + 1;
        }
        let mut r: usize = 0;
        while r < rows.len()
            invariant
                r <= rows.len(),
                rows.len() <= row_labels.len() < u32::MAX,
                hs == header_entries(texts(rows@), texts(cols@)),
                entries_view(entries@) == hs.take(cols.len() + r),
            decreases rows.len() - r,
        {
            let ghost e0 = entries_view(entries@);
            entries.push(((r + 1) as u32, 0, rows[r].clone()));
            proof {
                assert(hs[cols.len() + r] == ((r + 1) as u32, 0u32, texts(rows@)[r as int]));
                assert(entries_view(entries@) =~= e0.push(hs[cols.len() + r]));
                assert(entries_view(entries@) =~= hs.take(cols.len() + r + 1));
            }
            r = r + 1;
        }
        proof {
            assert(hs.take(cols.len() + rows.len()) =~= hs);
        }
        self.load_cell_entries(entries);
        (row_idx, col_idx)
    }
}

} // verus!
