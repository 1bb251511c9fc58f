use vstd::prelude::*;

use crate::cells::{cell_or_empty, empty_cell, with_style, with_text, with_texts, CellMap};
use crate::grid::{groups_ok, header_entries, moved_over, table_hides, toggled, Grid, GridView};
use crate::groups::{
    ancestor, collapsed_ancestor, depth_under, detach, folded, has_id, hidden_table, ids_unique, index_of,
    lemma_index_of_unique, lemma_prune, lemma_table_hides, line_hidden, prune, GroupView,
};
use crate::label::{col_label_spec, letter};

verus! {

// ─── Cells ───────────────────────────────────────────────────────────

/// Reading a cell back gives the text just written to it, and writing a
/// cell's text leaves every other cell as it was.
pub proof fn law_read_after_write(m: CellMap, r: u32, c: u32, t: Seq<char>, r2: u32, c2: u32)
    ensures
        cell_or_empty(with_text(m, r, c, t), r, c).text == t,
        (r2, c2) != (r, c) ==> cell_or_empty(with_text(m, r, c, t), r2, c2) == cell_or_empty(m, r2, c2),
{
}

/// Writing a cell's text keeps its colours and bold flag.
pub proof fn law_text_keeps_style(m: CellMap, r: u32, c: u32, t: Seq<char>)
    ensures
        cell_or_empty(with_text(m, r, c, t), r, c).bg_color == cell_or_empty(m, r, c).bg_color,
        cell_or_empty(with_text(m, r, c, t), r, c).fg_color == cell_or_empty(m, r, c).fg_color,
        cell_or_empty(with_text(m, r, c, t), r, c).bold == cell_or_empty(m, r, c).bold,
{
}

/// Styling a cell keeps its text, and leaves every other cell as it was.
pub proof fn law_style_keeps_text(
    m: CellMap,
    r: u32,
    c: u32,
    bg: Seq<char>,
    fg: Seq<char>,
    bold: bool,
    r2: u32,
    c2: u32,
)
    ensures
        cell_or_empty(with_style(m, r, c, bg, fg, bold), r, c).text == cell_or_empty(m, r, c).text,
        (r2, c2) != (r, c) ==> cell_or_empty(with_style(m, r, c, bg, fg, bold), r2, c2)
            == cell_or_empty(m, r2, c2),
{
}

/// A cleared cell reads back as an empty, unstyled cell.
pub proof fn law_clear_reads_empty(m: CellMap, r: u32, c: u32)
    ensures
        cell_or_empty(m.remove((r, c)), r, c) == empty_cell(),
{
}

/// Writing a cell that did not exist adds one cell; rewriting one keeps the
/// count.
pub proof fn law_write_count(m: CellMap, r: u32, c: u32, t: Seq<char>)
    requires
        m.dom().finite(),
    ensures
        with_text(m, r, c, t).len() == if m.contains_key((r, c)) {
            m.len()
        } else {
            m.len() + 1
        },
{
}

/// Styling a cell gives it the new background and foreground wherever
/// they are non-empty (whatever colours it had), keeps the old ones where
/// they are empty, and sets the bold flag.
pub proof fn law_style_sets_colours(
    m: CellMap,
    r: u32,
    c: u32,
    bg: Seq<char>,
    fg: Seq<char>,
    bold: bool,
)
    ensures
        bg.len() > 0 ==> cell_or_empty(with_style(m, r, c, bg, fg, bold), r, c).bg_color == Some(bg),
        bg.len() == 0 ==> cell_or_empty(with_style(m, r, c, bg, fg, bold), r, c).bg_color
            == cell_or_empty(m, r, c).bg_color,
        fg.len() > 0 ==> cell_or_empty(with_style(m, r, c, bg, fg, bold), r, c).fg_color == Some(fg),
        fg.len() == 0 ==> cell_or_empty(with_style(m, r, c, bg, fg, bold), r, c).fg_color
            == cell_or_empty(m, r, c).fg_color,
        cell_or_empty(with_style(m, r, c, bg, fg, bold), r, c).bold == bold,
        with_style(m, r, c, bg, fg, bold).contains_key((r, c)),
{
}

/// Writing a list of texts changes no cell's colours or bold flag; a cell
/// that some entry names ends with the text of the last entry naming it,
/// and any other cell keeps its text.
pub proof fn law_texts_keep_style(m: CellMap, es: Seq<(u32, u32, Seq<char>)>, r: u32, c: u32)
    ensures
        cell_or_empty(with_texts(m, es), r, c).bg_color == cell_or_empty(m, r, c).bg_color,
        cell_or_empty(with_texts(m, es), r, c).fg_color == cell_or_empty(m, r, c).fg_color,
        cell_or_empty(with_texts(m, es), r, c).bold == cell_or_empty(m, r, c).bold,
        forall|k: int|
            0 <= k < es.len() && (#[trigger] es[k]).0 == r && es[k].1 == c && (forall|j: int|
                k < j < es.len() ==> !((#[trigger] es[j]).0 == r && es[j].1 == c)) ==> cell_or_empty(
                with_texts(m, es),
                r,
                c,
            ).text == es[k].2,
        (forall|j: int| 0 <= j < es.len() ==> !((#[trigger] es[j]).0 == r && es[j].1 == c))
            ==> cell_or_empty(with_texts(m, es), r, c) == cell_or_empty(m, r, c),
    decreases es.len(),
{
    if es.len() > 0 {
        let d = es.drop_last();
        law_texts_keep_style(m, d, r, c);
        let n = es.len() - 1;
        assert forall|k: int|
            0 <= k < es.len() && (#[trigger] es[k]).0 == r && es[k].1 == c && (forall|j: int|
                k < j < es.len() ==> !((#[trigger] es[j]).0 == r && es[j].1 == c)) implies cell_or_empty(
            with_texts(m, es),
            r,
            c,
        ).text == es[k].2 by {
            if k < n {
                assert(!(es[n].0 == r && es[n].1 == c));
                assert(d[k] == es[k]);
                assert forall|j: int| k < j < d.len() implies !((#[trigger] d[j]).0 == r && d[j].1 == c) by {
                    assert(d[j] == es[j]);
                }
            }
        }
        if forall|j: int| 0 <= j < es.len() ==> !((#[trigger] es[j]).0 == r && es[j].1 == c) {
            assert(!(es[n].0 == r && es[n].1 == c));
            assert forall|j: int| 0 <= j < d.len() implies !((#[trigger] d[j]).0 == r && d[j].1 == c) by {
                assert(d[j] == es[j]);
            }
        }
    }
}

// ─── Selection ───────────────────────────────────────────────────────

/// Moving the selection by `delta` from `cur` starts at
/// `max(max(cur, 0) + delta, 0)`: moving forward ends at the first line
/// from there on that is not hidden, moving back at the last such line up
/// to there (or 0); where no line is hidden it ends exactly there.
pub proof fn law_move_distance(gs: Seq<GroupView>, cur: i32, delta: i32, res: int)
    requires
        moved_over(gs, cur, delta, res),
    ensures
        ({
            let s: int = if cur < 0 {
                0
            } else {
                cur as int
            };
            let start: int = if s + delta < 0 {
                0
            } else {
                s + delta
            };
            &&& delta >= 0 ==> start <= res && !line_hidden(gs, res as u32) && forall|q: int|
                start <= q < res ==> #[trigger] line_hidden(gs, q as u32)
            &&& delta < 0 ==> 0 <= res <= start && forall|q: int|
                res < q <= start ==> #[trigger] line_hidden(gs, q as u32)
            &&& delta < 0 && res > 0 ==> !line_hidden(gs, res as u32)
            &&& (forall|q: u32| !#[trigger] line_hidden(gs, q)) && 0 <= start <= u32::MAX ==> res
                == start
        }),
{
    let s: int = if cur < 0 {
        0
    } else {
        cur as int
    };
    let start: int = if s + delta < 0 {
        0
    } else {
        s + delta
    };
    if (forall|q: u32| !#[trigger] line_hidden(gs, q)) && 0 <= start <= u32::MAX {
        if delta >= 0 {
            if start < res {
                assert(line_hidden(gs, start as u32));
            }
        } else {
            assert(!line_hidden(gs, start as u32));
            if res < start {
                assert(line_hidden(gs, start as u32));
            }
        }
    }
}

// ─── Groups ──────────────────────────────────────────────────────────

/// Toggling a group twice gives back the groups it started with.
pub proof fn law_toggle_twice(v: GridView, gid: u32)
    requires
        ids_unique(v.row_groups),
        ids_unique(v.col_groups),
    ensures
        toggled(toggled(v, gid), gid).row_groups == v.row_groups,
        toggled(toggled(v, gid), gid).col_groups == v.col_groups,
{
    let t = toggled(v, gid);
    if has_id(v.row_groups, gid) {
        let i = index_of(v.row_groups, gid);
        lemma_index_of_unique(v.row_groups, i);
        assert(t.row_groups[i].id == gid);
        lemma_index_of_unique(t.row_groups, i);
        assert(toggled(t, gid).row_groups =~= v.row_groups);
    } else if has_id(v.col_groups, gid) {
        let i = index_of(v.col_groups, gid);
        lemma_index_of_unique(v.col_groups, i);
        assert(t.col_groups[i].id == gid);
        lemma_index_of_unique(t.col_groups, i);
        assert(!has_id(t.row_groups, gid));
        assert(toggled(t, gid).col_groups =~= v.col_groups);
    }
}

/// A new group gets an id that no group has yet.
pub proof fn law_fresh_id(v: GridView)
    requires
        groups_ok(v),
    ensures
        !has_id(v.row_groups, v.next_group_id),
        !has_id(v.col_groups, v.next_group_id),
{
    if has_id(v.row_groups, v.next_group_id) {
        let i = choose|i: int| 0 <= i < v.row_groups.len() && v.row_groups[i].id == v.next_group_id;
        assert(v.row_groups[i].id < v.next_group_id);
    }
    if has_id(v.col_groups, v.next_group_id) {
        let i = choose|i: int| 0 <= i < v.col_groups.len() && v.col_groups[i].id == v.next_group_id;
        assert(v.col_groups[i].id < v.next_group_id);
    }
}

/// The members of a group that lies inside a collapsed group (at any
/// depth, the collapsed group itself included) are hidden.
pub proof fn law_collapse_hides_nested(gs: Seq<GroupView>, i: int, j: int, k: nat, r: u32)
    requires
        0 <= i < gs.len(),
        0 <= j < gs.len(),
        ids_unique(gs),
        gs[i].collapsed,
        ancestor(gs, gs[j].id, k) == Some(gs[i].id),
        gs[j].members.contains(r),
    ensures
        line_hidden(gs, r),
        r < hidden_table(gs).len() && hidden_table(gs)[r as int],
{
    lemma_index_of_unique(gs, i);
    assert(collapsed_ancestor(gs, gs[j].id, k));
    assert(folded(gs, gs[j].id));
    lemma_table_hides(gs, r);
}

/// Once the tables of hidden lines are rebuilt, a row (or column) counts as
/// hidden exactly when it is a member of a collapsed group or of a group
/// nested, at any depth, inside a collapsed one.
pub proof fn law_rebuilt_hidden(g: &Grid, r: u32)
    requires
        g.wf(),
        !g@.hidden_dirty,
    ensures
        table_hides(g@.hidden_rows, r) == line_hidden(g@.row_groups, r),
        table_hides(g@.hidden_cols, r) == line_hidden(g@.col_groups, r),
{
    g.lemma_wf_view();
    lemma_table_hides(g@.row_groups, r);
    lemma_table_hides(g@.col_groups, r);
}

/// Removing group `gid` keeps every other group with its id, label,
/// members and collapsed flag; a direct child of `gid` becomes a top-level
/// group at depth 0, and any other group keeps its parent and depth.
pub proof fn law_remove_keeps_groups(gs: Seq<GroupView>, gid: u32, j: int)
    requires
        0 <= j < gs.len(),
        gs[j].id != gid,
    ensures
        exists|i: int|
            0 <= i < prune(gs, gid).len() && {
                let g = #[trigger] prune(gs, gid)[i];
                &&& g.id == gs[j].id
                &&& g.label == gs[j].label
                &&& g.members == gs[j].members
                &&& g.collapsed == gs[j].collapsed
                &&& g.parent == if gs[j].parent == Some(gid) {
                    None
                } else {
                    gs[j].parent
                }
                &&& g.depth == if gs[j].parent == Some(gid) {
                    0
                } else {
                    gs[j].depth
                }
            },
    decreases gs.len(),
{
    let d = gs.drop_last();
    let p = prune(gs, gid);
    if j < gs.len() - 1 {
        assert(d[j] == gs[j]);
        law_remove_keeps_groups(d, gid, j);
        let i = choose|i: int|
            0 <= i < prune(d, gid).len() && {
                let g = #[trigger] prune(d, gid)[i];
                &&& g.id == d[j].id
                &&& g.label == d[j].label
                &&& g.members == d[j].members
                &&& g.collapsed == d[j].collapsed
                &&& g.parent == if d[j].parent == Some(gid) {
                    None
                } else {
                    d[j].parent
                }
                &&& g.depth == if d[j].parent == Some(gid) {
                    0
                } else {
                    d[j].depth
                }
            };
        assert(p[i] == prune(d, gid)[i]);
    } else {
        assert(p[p.len() - 1] == detach(gs[j], gid));
    }
}

/// A new group nested under a group `p` of the same list is one level
/// deeper than `p`; without such a parent it is at depth 0.
pub proof fn law_nested_depth(gs: Seq<GroupView>, i: int, parent: Option<u32>)
    requires
        ids_unique(gs),
        0 <= i < gs.len(),
        gs[i].depth < u32::MAX,
    ensures
        parent == Some(gs[i].id) ==> depth_under(gs, parent) == gs[i].depth + 1,
        (parent matches Some(p) && !has_id(gs, p)) || parent is None ==> depth_under(gs, parent) == 0,
{
    lemma_index_of_unique(gs, i);
}

/// After `remove_group(gid)` no group has id `gid` or has `gid` as its
/// enclosing group, and every other group is kept, detached from `gid`.
pub proof fn law_remove_group(gs: Seq<GroupView>, gid: u32)
    ensures
        forall|i: int|
            0 <= i < prune(gs, gid).len() ==> #[trigger] prune(gs, gid)[i].id != gid && prune(
                gs,
                gid,
            )[i].parent != Some(gid),
        forall|j: int|
            0 <= j < gs.len() && gs[j].id != gid ==> prune(gs, gid).contains(
                #[trigger] detach(gs[j], gid),
            ),
    decreases gs.len(),
{
    lemma_prune(gs, gid);
    let p = prune(gs, gid);
    assert forall|i: int| 0 <= i < p.len() implies #[trigger] p[i].id != gid && p[i].parent != Some(
        gid,
    ) by {
        let j = choose|j: int| 0 <= j < gs.len() && gs[j].id != gid && #[trigger] p[i] == detach(gs[j], gid);
    }
    if gs.len() > 0 {
        let d = gs.drop_last();
        law_remove_group(d, gid);
        let rest = prune(d, gid);
        assert forall|j: int| 0 <= j < gs.len() && gs[j].id != gid implies p.contains(
            #[trigger] detach(gs[j], gid),
        ) by {
            if j < gs.len() - 1 {
                assert(d[j] == gs[j]);
                assert(rest.contains(detach(d[j], gid)));
                let q = choose|q: int| 0 <= q < rest.len() && rest[q] == detach(d[j], gid);
                assert(p[q] == rest[q]);
            } else {
                assert(p[p.len() - 1] == detach(gs[j], gid));
            }
        }
    }
}

// ─── Pivot tables ────────────────────────────────────────────────────

proof fn lemma_with_texts_dom(m: CellMap, es: Seq<(u32, u32, Seq<char>)>, r: u32, c: u32)
    ensures
        with_texts(m, es).contains_key((r, c)) <==> (m.contains_key((r, c)) || exists|j: int|
            0 <= j < es.len() && (#[trigger] es[j]).0 == r && es[j].1 == c),
    decreases es.len(),
{
    if es.len() > 0 {
        let d = es.drop_last();
        lemma_with_texts_dom(m, d, r, c);
        if exists|j: int| 0 <= j < es.len() && (#[trigger] es[j]).0 == r && es[j].1 == c {
            let j = choose|j: int| 0 <= j < es.len() && (#[trigger] es[j]).0 == r && es[j].1 == c;
            if j < es.len() - 1 {
                assert(d[j] == es[j]);
            }
        }
        if exists|j: int| 0 <= j < d.len() && (#[trigger] d[j]).0 == r && d[j].1 == c {
            let j = choose|j: int| 0 <= j < d.len() && (#[trigger] d[j]).0 == r && d[j].1 == c;
            assert(es[j] == d[j]);
        }
    }
}

proof fn lemma_with_texts_last_write(m: CellMap, es: Seq<(u32, u32, Seq<char>)>, k: int)
    requires
        0 <= k < es.len(),
        forall|j: int| k < j < es.len() ==> ((#[trigger] es[j]).0, es[j].1) != (es[k].0, es[k].1),
    ensures
        with_texts(m, es).contains_key((es[k].0, es[k].1)),
        with_texts(m, es)[(es[k].0, es[k].1)].text == es[k].2,
    decreases es.len(),
{
    let d = es.drop_last();
    if k < es.len() - 1 {
        assert forall|j: int| k < j < d.len() implies ((#[trigger] d[j]).0, d[j].1) != (d[k].0, d[k].1) by {
            assert(d[j] == es[j]);
        }
        lemma_with_texts_last_write(m, d, k);
        assert(es[es.len() - 1] == es.last());
    }
}

/// After a pivot layout with distinct row labels `rows` and distinct column
/// labels `cols`, row 0 holds the column labels from column 1 on, column 0
/// holds the row labels from row 1 on, the corner stays empty, and there is
/// no other cell.
pub proof fn law_pivot_headers(rows: Seq<Seq<char>>, cols: Seq<Seq<char>>, r: u32, c: u32)
    requires
        rows.len() < u32::MAX,
        cols.len() < u32::MAX,
    ensures
        ({
            let m = with_texts(Map::empty(), header_entries(rows, cols));
            &&& r == 0 && 1 <= c <= cols.len() ==> m.contains_key((r, c)) && m[(r, c)].text == cols[c - 1]
            &&& c == 0 && 1 <= r <= rows.len() ==> m.contains_key((r, c)) && m[(r, c)].text == rows[r - 1]
            &&& m.contains_key((r, c)) <==> (r == 0 && 1 <= c <= cols.len()) || (c == 0 && 1 <= r
                <= rows.len())
        }),
{
    let es = header_entries(rows, cols);
    let m = with_texts(Map::empty(), es);
    let n = cols.len();
    lemma_with_texts_dom(Map::empty(), es, r, c);
    if r == 0 && 1 <= c <= n {
        let k = c - 1;
        assert(es[k] == (0u32, c, cols[k]));
        assert forall|j: int| k < j < es.len() implies ((#[trigger] es[j]).0, es[j].1) != (es[k].0, es[k].1) by {
            if j < n {
                assert(es[j].1 == (j + 1) as u32);
            } else {
                assert(es[j].0 == (j - n + 1) as u32);
            }
        }
        lemma_with_texts_last_write(Map::empty(), es, k);
    }
    if c == 0 && 1 <= r <= rows.len() {
        let k = n + r - 1;
        assert(es[k] == (r, 0u32, rows[r - 1]));
        assert forall|j: int| k < j < es.len() implies ((#[trigger] es[j]).0, es[j].1) != (es[k].0, es[k].1) by {
            assert(es[j].0 == (j - n + 1) as u32);
        }
        lemma_with_texts_last_write(Map::empty(), es, k);
    }
    if m.contains_key((r, c)) {
        let j = choose|j: int| 0 <= j < es.len() && (#[trigger] es[j]).0 == r && es[j].1 == c;
        if j < n {
            assert(es[j] == (0u32, (j + 1) as u32, cols[j]));
        } else {
            assert(es[j] == ((j - n + 1) as u32, 0u32, rows[j - n]));
        }
    }
    if (r == 0 && 1 <= c <= n) {
        assert(es[c - 1].0 == r && es[c - 1].1 == c);
    }
    if (c == 0 && 1 <= r <= rows.len()) {
        assert(es[n + r - 1].0 == r && es[n + r - 1].1 == c);
    }
}

// ─── Labels ──────────────────────────────────────────────────────────

/// The first 26 columns are labelled by one letter, `A` to `Z`.
pub proof fn law_col_label_single(c: nat)
    requires
        c < 26,
    ensures
        col_label_spec(c) == seq![letter(c)],
{
}

/// A label of a column from 26 on has at least two letters.
pub proof fn law_col_label_long(c: nat)
    ensures
        c >= 26 ==> col_label_spec(c).len() >= 2,
        col_label_spec(c).len() >= 1,
    decreases c,
{
    if c >= 26 {
        law_col_label_long((c / 26 - 1) as nat);
    }
}

/// Distinct columns get distinct labels.
pub proof fn law_col_label_injective(c1: nat, c2: nat)
    requires
        c1 != c2,
    ensures
        col_label_spec(c1) != col_label_spec(c2),
    decreases c1 + c2,
{
    law_col_label_long(c1);
    law_col_label_long(c2);
    if c1 < 26 && c2 < 26 {
        assert(col_label_spec(c1)[0] == letter(c1));
        assert(col_label_spec(c2)[0] == letter(c2));
    } else if c1 >= 26 && c2 >= 26 {
        let a = col_label_spec(c1);
        let b = col_label_spec(c2);
        if c1 % 26 != c2 % 26 {
            assert(a.last() == letter(c1 % 26));
            assert(b.last() == letter(c2 % 26));
        } else {
            assert(c1 / 26 != c2 / 26);
            law_col_label_injective((c1 / 26 - 1) as nat, (c2 / 26 - 1) as nat);
            if a == b {
                assert(a.drop_last() =~= col_label_spec((c1 / 26 - 1) as nat));
                assert(b.drop_last() =~= col_label_spec((c2 / 26 - 1) as nat));
            }
        }
    }
}

} // verus!
