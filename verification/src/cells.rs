use vstd::prelude::*;

verus! {

/// The content and style of one cell.
#[derive(Clone, Debug)]
pub struct CellData {
    pub text: String,
    pub bg_color: Option<String>,
    pub fg_color: Option<String>,
    pub bold: bool,
}

/// The mathematical value of a [`CellData`].
pub struct CellView {
    pub text: Seq<char>,
    pub bg_color: Option<Seq<char>>,
    pub fg_color: Option<Seq<char>>,
    pub bold: bool,
}

/// The value of an optional string.
pub open spec fn opt_text(o: Option<String>) -> Option<Seq<char>> {
    match o {
        Some(s) => Some(s@),
        None => None,
    }
}

impl View for CellData {
    type V = CellView;

    open spec fn view(&self) -> CellView {
        CellView {
            text: self.text@,
            bg_color: opt_text(self.bg_color),
            fg_color: opt_text(self.fg_color),
            bold: self.bold,
        }
    }
}

/// An empty, unstyled cell.
pub open spec fn empty_cell() -> CellView {
    CellView { text: Seq::empty(), bg_color: None, fg_color: None, bold: false }
}

impl Default for CellData {
    fn default() -> (c: Self)
        ensures
            c@ == empty_cell(),
    {
        CellData { text: String::new(), bg_color: None, fg_color: None, bold: false }
    }
}

/// The cells of a grid, by `(row, column)`.
pub type CellMap = Map<(u32, u32), CellView>;

/// The cell at `(r, c)`, or an empty cell where there is none.
pub open spec fn cell_or_empty(m: CellMap, r: u32, c: u32) -> CellView {
    if m.contains_key((r, c)) {
        m[(r, c)]
    } else {
        empty_cell()
    }
}

/// `m` with the text of cell `(r, c)` set to `t`, its style kept.
pub open spec fn with_text(m: CellMap, r: u32, c: u32, t: Seq<char>) -> CellMap {
    m.insert((r, c), CellView { text: t, ..cell_or_empty(m, r, c) })
}

/// `m` with the texts of `es` written in order.
pub open spec fn with_texts(m: CellMap, es: Seq<(u32, u32, Seq<char>)>) -> CellMap
    decreases es.len(),
{
    if es.len() == 0 {
        m
    } else {
        let e = es.last();
        with_text(with_texts(m, es.drop_last()), e.0, e.1, e.2)
    }
}

/// `m` with the style of cell `(r, c)` set: a non-empty background or
/// foreground colour replaces the old one, an empty one keeps it, and the
/// bold flag is set to `bold`. The text is kept.
pub open spec fn with_style(
    m: CellMap,
    r: u32,
    c: u32,
    bg: Seq<char>,
    fg: Seq<char>,
    bold: bool,
) -> CellMap {
    let old_cell = cell_or_empty(m, r, c);
    m.insert(
        (r, c),
        CellView {
            text: old_cell.text,
            bg_color: if bg.len() > 0 {
                Some(bg)
            } else {
                old_cell.bg_color
            },
            fg_color: if fg.len() > 0 {
                Some(fg)
            } else {
                old_cell.fg_color
            },
            bold,
        },
    )
}

/// The hash-map key of cell `(r, c)`: the row in the high 32 bits and the
/// column in the low 32 bits.
pub open spec fn cell_key(r: u32, c: u32) -> u64 {
    (r as int * 0x1_0000_0000 + c as int) as u64
}

/// Distinct cells have distinct keys.
pub proof fn lemma_cell_key_injective(r1: u32, c1: u32, r2: u32, c2: u32)
    requires
        cell_key(r1, c1) == cell_key(r2, c2),
    ensures
        r1 == r2 && c1 == c2,
{
    assert(r1 as int * 0x1_0000_0000 + c1 as int <= 0xffff_ffff_ffff_ffff) by (nonlinear_arith);
    assert(r2 as int * 0x1_0000_0000 + c2 as int <= 0xffff_ffff_ffff_ffff) by (nonlinear_arith);
    assert(r1 as int * 0x1_0000_0000 + c1 as int == r2 as int * 0x1_0000_0000 + c2 as int);
    assert(r1 == r2 && c1 == c2) by (nonlinear_arith)
        requires
            r1 as int * 0x1_0000_0000 + c1 as int == r2 as int * 0x1_0000_0000 + c2 as int,
            0 <= c1 < 0x1_0000_0000,
            0 <= c2 < 0x1_0000_0000,
    ;
}

/// The hash-map key of cell `(r, c)`.
pub(crate) fn key_of(r: u32, c: u32) -> (k: u64)
    ensures
        k == cell_key(r, c),
{
    (r as u64) * 0x1_0000_0000 + (c as u64)
}

} // verus!
