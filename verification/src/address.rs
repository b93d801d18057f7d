//! Cell and range addresses, spill shapes, tables and the references that
//! formulas resolve to.
use vstd::prelude::*;
use crate::text::{column_letters_spec, decimal_spec, push_char, push_column_letters, push_decimal, push_str, text_equal, text_less, text_lt, lemma_text_lt_irrefl, lemma_text_lt_trans, lemma_text_lt_total};

verus! {

/// A cell on a named sheet, 1-based row and column.
#[derive(Clone, Debug, Eq, PartialEq, Ord, PartialOrd, Hash)]
pub struct CellId {
    pub sheet: String,
    pub row: u32,
    pub col: u32,
}

/// The mathematical value of a [`CellId`].
pub struct CellView {
    pub sheet: Seq<char>,
    pub row: u32,
    pub col: u32,
}

impl View for CellId {
    type V = CellView;

    open spec fn view(&self) -> CellView {
        CellView { sheet: self.sheet@, row: self.row, col: self.col }
    }
}

/// The order of cells: by sheet name, then row, then column.
pub open spec fn cell_lt(a: CellView, b: CellView) -> bool {
    ||| text_lt(a.sheet, b.sheet)
    ||| (a.sheet == b.sheet && a.row < b.row)
    ||| (a.sheet == b.sheet && a.row == b.row && a.col < b.col)
}

/// No cell sorts before itself.
pub proof fn lemma_cell_lt_irrefl(a: CellView)
    ensures
        !cell_lt(a, a),
{
    lemma_text_lt_irrefl(a.sheet);
}

/// The cell order is transitive.
pub proof fn lemma_cell_lt_trans(a: CellView, b: CellView, c: CellView)
    requires
        cell_lt(a, b),
        cell_lt(b, c),
    ensures
        cell_lt(a, c),
{
    if text_lt(a.sheet, b.sheet) && text_lt(b.sheet, c.sheet) {
        lemma_text_lt_trans(a.sheet, b.sheet, c.sheet);
    }
}

/// Of two different cells, one sorts before the other.
pub proof fn lemma_cell_lt_total(a: CellView, b: CellView)
    ensures
        a == b || cell_lt(a, b) || cell_lt(b, a),
{
    lemma_text_lt_total(a.sheet, b.sheet);
}

/// Two cells never sort before each other.
pub proof fn lemma_cell_lt_asym(a: CellView, b: CellView)
    requires
        cell_lt(a, b),
    ensures
        !cell_lt(b, a),
{
    if cell_lt(b, a) {
        lemma_cell_lt_trans(a, b, a);
        lemma_cell_lt_irrefl(a);
    }
}

/// Cells in strictly increasing order (as a `BTreeSet` holds them).
pub open spec fn cells_sorted(s: Seq<CellView>) -> bool {
    forall|i: int, j: int| 0 <= i < j < s.len() ==> cell_lt(#[trigger] s[i], #[trigger] s[j])
}

/// The values of a list of cells.
pub open spec fn cells_view(v: Seq<CellId>) -> Seq<CellView> {
    v.map_values(|c: CellId| c@)
}

/// The position of `c` in a sorted list of cells, if it is there.
pub fn find_cell(nodes: &Vec<CellId>, c: &CellId) -> (r: Option<usize>)
    requires
        cells_sorted(cells_view(nodes@)),
    ensures
        r matches Some(i) ==> i < nodes.len() && nodes@[i as int]@ == c@,
        r is None ==> forall|i: int| 0 <= i < nodes.len() ==> #[trigger] nodes@[i]@ != c@,
{
    let ghost nv = cells_view(nodes@);
    let mut lo: usize = 0;
    let mut hi: usize = nodes.len();
    while lo < hi
        invariant
            nv == cells_view(nodes@),
            cells_sorted(nv),
            lo <= hi <= nodes.len(),
            forall|i: int| 0 <= i < lo ==> cell_lt(#[trigger] nv[i], c@),
            forall|i: int| hi <= i < nodes.len() ==> cell_lt(c@, #[trigger] nv[i]),
        decreases hi - lo,
    {
        let mid = lo + (hi - lo) / 2;
        assert(nv[mid as int] == nodes@[mid as int]@);
        if nodes[mid].same(c) {
            return Some(mid);
        }
        if nodes[mid].less(c) {
            proof {
                assert forall|i: int| 0 <= i < mid + 1 implies cell_lt(#[trigger] nv[i], c@) by {
                    if i < mid {
                        lemma_cell_lt_trans(nv[i], nv[mid as int], c@);
                    }
                }
            }
            lo = mid + 1;
        } else {
            proof {
                lemma_cell_lt_total(nv[mid as int], c@);
                assert forall|i: int| mid <= i < nodes.len() implies cell_lt(c@, #[trigger] nv[i]) by {
                    if i > mid {
                        lemma_cell_lt_trans(c@, nv[mid as int], nv[i]);
                    }
                }
            }
            hi = mid;
        }
    }
    proof {
        assert forall|i: int| 0 <= i < nodes.len() implies #[trigger] nodes@[i]@ != c@ by {
            assert(nv[i] == nodes@[i]@);
            if nodes@[i]@ == c@ {
                lemma_cell_lt_irrefl(c@);
            }
        }
    }
    None
}

/// The column part of an address: its letters, or "?" for column 0.
pub open spec fn column_name_spec(col: nat) -> Seq<char> {
    if col == 0 {
        seq!['?']
    } else {
        column_letters_spec(col)
    }
}

/// "Sheet!B7" for a cell.
pub open spec fn cell_text(c: CellView) -> Seq<char> {
    c.sheet + seq!['!'] + column_name_spec(c.col as nat) + decimal_spec(c.row as nat)
}

/// The column name of `col`: letters ("A", "AA", ...), or "?" for 0.
pub fn column_name(col: u32) -> (r: String)
    ensures
        r@ == column_name_spec(col as nat),
{
    let mut s = String::new();
    if col == 0 {
        push_char(&mut s, '?');
        assert(s@ =~= seq!['?']);
    } else {
        push_column_letters(&mut s, col);
        assert(s@ =~= column_letters_spec(col as nat));
    }
    s
}

/// The column letters of `column`, empty for 0.
pub fn column_label(column: u32) -> (r: String)
    ensures
        r@ == column_letters_spec(column as nat),
{
    let mut s = String::new();
    push_column_letters(&mut s, column);
    assert(s@ =~= column_letters_spec(column as nat));
    s
}

/// The column letters of `column`, empty for 0 (the same labels as [`column_label`]).
pub fn column_letters(column: u32) -> (r: String)
    ensures
        r@ == column_letters_spec(column as nat),
{
    column_label(column)
}

impl CellId {
    /// The cell at (`row`, `col`) of `sheet`.
    pub fn new(sheet: String, row: u32, col: u32) -> (r: CellId)
        ensures
            r@ == (CellView { sheet: sheet@, row, col }),
    {
        CellId { sheet, row, col }
    }

    /// A copy of this cell.
    pub fn duplicate(&self) -> (r: CellId)
        ensures
            r == *self,
    {
        CellId { sheet: self.sheet.clone(), row: self.row, col: self.col }
    }

    /// Whether both name the same cell.
    pub fn same(&self, other: &CellId) -> (r: bool)
        ensures
            r == (self@ == other@),
    {
        self.row == other.row && self.col == other.col && text_equal(
            self.sheet.as_str(),
            other.sheet.as_str(),
        )
    }

    /// Whether this cell sorts strictly before `other`.
    pub fn less(&self, other: &CellId) -> (r: bool)
        ensures
            r == cell_lt(self@, other@),
    {
        if text_less(self.sheet.as_str(), other.sheet.as_str()) {
            true
        } else if text_equal(self.sheet.as_str(), other.sheet.as_str()) {
            self.row < other.row || (self.row == other.row && self.col < other.col)
        } else {
            false
        }
    }

    /// The address text, such as "Sheet1!B7".
    pub fn to_a1_string(&self) -> (r: String)
        ensures
            r@ == cell_text(self@),
    {
        let mut s = String::new();
        push_str(&mut s, self.sheet.as_str());
        push_char(&mut s, '!');
        let name = column_name(self.col);
        push_str(&mut s, name.as_str());
        push_decimal(&mut s, self.row as u64);
        assert(s@ =~= cell_text(self@));
        s
    }
}

/// A rectangular block of cells on one sheet.
#[derive(Clone, Debug, Eq, PartialEq, Ord, PartialOrd, Hash)]
pub struct RangeDescriptor {
    pub sheet: String,
    pub start_row: u32,
    pub start_col: u32,
    pub end_row: u32,
    pub end_col: u32,
}

/// The mathematical value of a [`RangeDescriptor`].
pub struct RangeView {
    pub sheet: Seq<char>,
    pub start_row: u32,
    pub start_col: u32,
    pub end_row: u32,
    pub end_col: u32,
}

impl View for RangeDescriptor {
    type V = RangeView;

    open spec fn view(&self) -> RangeView {
        RangeView {
            sheet: self.sheet@,
            start_row: self.start_row,
            start_col: self.start_col,
            end_row: self.end_row,
            end_col: self.end_col,
        }
    }
}

pub open spec fn min_u32(a: u32, b: u32) -> u32 {
    if a <= b {
        a
    } else {
        b
    }
}

pub open spec fn max_u32(a: u32, b: u32) -> u32 {
    if a <= b {
        b
    } else {
        a
    }
}

/// The range spanned by two corners, in either order.
pub open spec fn normalized_range(sheet: Seq<char>, r1: u32, c1: u32, r2: u32, c2: u32) -> RangeView {
    RangeView {
        sheet,
        start_row: min_u32(r1, r2),
        start_col: min_u32(c1, c2),
        end_row: max_u32(r1, r2),
        end_col: max_u32(c1, c2),
    }
}

/// A range whose start corner is not past its end corner.
pub open spec fn range_wf(r: RangeView) -> bool {
    r.start_row <= r.end_row && r.start_col <= r.end_col
}

/// Whether the range covers the cell.
pub open spec fn range_contains(r: RangeView, c: CellView) -> bool {
    &&& r.sheet == c.sheet
    &&& r.start_row <= c.row <= r.end_row
    &&& r.start_col <= c.col <= r.end_col
}

pub open spec fn range_height(r: RangeView) -> int {
    r.end_row - r.start_row + 1
}

pub open spec fn range_width(r: RangeView) -> int {
    r.end_col - r.start_col + 1
}

/// The number of cells of a well-formed range.
pub open spec fn range_area(r: RangeView) -> int {
    range_height(r) * range_width(r)
}

/// The single-cell range of `c`.
pub open spec fn cell_range(c: CellView) -> RangeView {
    RangeView { sheet: c.sheet, start_row: c.row, start_col: c.col, end_row: c.row, end_col: c.col }
}

/// The `i`-th cell of a range in row-major order.
pub open spec fn range_cell_at(r: RangeView, i: int) -> CellView {
    CellView {
        sheet: r.sheet,
        row: (r.start_row + i / range_width(r)) as u32,
        col: (r.start_col + i % range_width(r)) as u32,
    }
}

/// "Sheet!A1:C3" for a range.
pub open spec fn range_text(r: RangeView) -> Seq<char> {
    r.sheet + seq!['!'] + column_name_spec(r.start_col as nat) + decimal_spec(r.start_row as nat)
        + seq![':'] + column_name_spec(r.end_col as nat) + decimal_spec(r.end_row as nat)
}

impl RangeDescriptor {
    /// The range between two corners, whichever corner comes first.
    pub fn new(sheet: String, start_row: u32, start_col: u32, end_row: u32, end_col: u32) -> (r:
        RangeDescriptor)
        ensures
            r@ == normalized_range(sheet@, start_row, start_col, end_row, end_col),
            range_wf(r@),
    {
        let (start_row, end_row) = if start_row <= end_row {
            (start_row, end_row)
        } else {
            (end_row, start_row)
        };
        let (start_col, end_col) = if start_col <= end_col {
            (start_col, end_col)
        } else {
            (end_col, start_col)
        };
        RangeDescriptor { sheet, start_row, start_col, end_row, end_col }
    }

    /// The range of exactly one cell.
    pub fn from_cell(cell: &CellId) -> (r: RangeDescriptor)
        ensures
            r@ == cell_range(cell@),
            range_wf(r@),
    {
        Self::new(cell.sheet.clone(), cell.row, cell.col, cell.row, cell.col)
    }

    /// A copy of this range.
    pub fn duplicate(&self) -> (r: RangeDescriptor)
        ensures
            r == *self,
    {
        RangeDescriptor {
            sheet: self.sheet.clone(),
            start_row: self.start_row,
            start_col: self.start_col,
            end_row: self.end_row,
            end_col: self.end_col,
        }
    }

    /// Whether both are the same range.
    pub fn same(&self, other: &RangeDescriptor) -> (r: bool)
        ensures
            r == (self@ == other@),
    {
        self.start_row == other.start_row && self.start_col == other.start_col && self.end_row
            == other.end_row && self.end_col == other.end_col && text_equal(
            self.sheet.as_str(),
            other.sheet.as_str(),
        )
    }

    /// Whether the range covers `cell`.
    pub fn contains(&self, cell: &CellId) -> (r: bool)
        ensures
            r == range_contains(self@, cell@),
    {
        self.start_row <= cell.row && cell.row <= self.end_row && self.start_col <= cell.col
            && cell.col <= self.end_col && text_equal(self.sheet.as_str(), cell.sheet.as_str())
    }

    /// The number of cells in the range.
    pub fn area(&self) -> (r: usize)
        requires
            range_wf(self@),
            range_height(self@) <= u32::MAX,
            range_width(self@) <= u32::MAX,
            range_area(self@) <= usize::MAX,
        ensures
            r == range_area(self@),
    {
        let rows = (self.end_row - self.start_row + 1) as usize;
        let cols = (self.end_col - self.start_col + 1) as usize;
        assert(rows * cols == range_area(self@));
        rows * cols
    }

    /// Every cell of the range, row by row, left to right.
    pub fn cells(&self) -> (r: Vec<CellId>)
        requires
            range_wf(self@),
            range_height(self@) <= u32::MAX,
            range_width(self@) <= u32::MAX,
            range_area(self@) <= usize::MAX,
        ensures
            r.len() == range_area(self@),
            forall|i: int| 0 <= i < r.len() ==> #[trigger] r[i]@ == range_cell_at(self@, i),
    {
        let mut out: Vec<CellId> = Vec::new();
        let height = (self.end_row - self.start_row + 1) as usize;
        let width = (self.end_col - self.start_col + 1) as usize;
        let ghost w = range_width(self@);
        let ghost h = range_height(self@);
        let mut i: usize = 0;
        while i < height
            invariant
                range_wf(self@),
                w == width,
                h == height,
                w == range_width(self@),
                h == range_height(self@),
                w <= u32::MAX,
                h <= u32::MAX,
                range_area(self@) == h * w,
                range_area(self@) <= usize::MAX,
                i <= height,
                out.len() == i * w,
                forall|k: int| 0 <= k < out.len() ==> #[trigger] out[k]@ == range_cell_at(self@, k),
            decreases height - i,
        {
            assert((i + 1) * w <= h * w) by (nonlinear_arith)
                requires
                    i < h,
                    w >= 0,
            ;
            assert((i + 1) * w == i * w + w) by (nonlinear_arith);
            let mut j: usize = 0;
            while j < width
                invariant
                    range_wf(self@),
                    w == width,
                    w == range_width(self@),
                    h == range_height(self@),
                    i < h,
                    w <= u32::MAX,
                    h <= u32::MAX,
                    (i + 1) * w <= range_area(self@),
                    (i + 1) * w == i * w + w,
                    range_area(self@) <= usize::MAX,
                    j <= width,
                    out.len() == i * w + j,
                    forall|k: int|
                        0 <= k < out.len() ==> #[trigger] out[k]@ == range_cell_at(self@, k),
                decreases width - j,
            {
                let ghost k = out.len() as int;
                let row = self.start_row + i as u32;
                let col = self.start_col + j as u32;
                out.push(CellId { sheet: self.sheet.clone(), row, col });
                assert(k / w == i && k % w == j) by (nonlinear_arith)
                    requires
                        k == i * w + j,
                        0 <= j < w,
                        i >= 0,
                ;
                assert(range_cell_at(self@, k) == out[k]@);
                j = j + 1;
            }
            i = i + 1;
        }
        out
    }

    /// The address text, such as "Sheet1!A1:C3".
    pub fn to_a1_string(&self) -> (r: String)
        ensures
            r@ == range_text(self@),
    {
        let mut s = String::new();
        push_str(&mut s, self.sheet.as_str());
        push_char(&mut s, '!');
        let a = column_name(self.start_col);
        push_str(&mut s, a.as_str());
        push_decimal(&mut s, self.start_row as u64);
        push_char(&mut s, ':');
        let b = column_name(self.end_col);
        push_str(&mut s, b.as_str());
        push_decimal(&mut s, self.end_row as u64);
        assert(s@ =~= range_text(self@));
        s
    }
}

/// The output area of a dynamic array anchored at a cell.
#[derive(Clone, Debug, Eq, PartialEq, Ord, PartialOrd, Hash)]
pub struct SpillRef {
    pub anchor: CellId,
    pub rows: u32,
    pub cols: u32,
}

/// The mathematical value of a [`SpillRef`].
pub struct SpillView {
    pub anchor: CellView,
    pub rows: u32,
    pub cols: u32,
}

impl View for SpillRef {
    type V = SpillView;

    open spec fn view(&self) -> SpillView {
        SpillView { anchor: self.anchor@, rows: self.rows, cols: self.cols }
    }
}

pub open spec fn sat_add_u32(a: u32, b: u32) -> u32 {
    if a + b > u32::MAX {
        u32::MAX
    } else {
        (a + b) as u32
    }
}

pub open spec fn sat_sub_u32(a: u32, b: u32) -> u32 {
    if a < b {
        0
    } else {
        (a - b) as u32
    }
}

/// The block a spill covers: `rows` by `cols` from the anchor (at least the
/// anchor itself), clipped at the largest index.
pub open spec fn spill_range(s: SpillView) -> RangeView {
    RangeView {
        sheet: s.anchor.sheet,
        start_row: s.anchor.row,
        start_col: s.anchor.col,
        end_row: sat_add_u32(s.anchor.row, sat_sub_u32(s.rows, 1)),
        end_col: sat_add_u32(s.anchor.col, sat_sub_u32(s.cols, 1)),
    }
}

impl SpillRef {
    /// The block of cells the spill covers, from its anchor.
    pub fn range(&self) -> (r: RangeDescriptor)
        ensures
            r@ == spill_range(self@),
            range_wf(r@),
    {
        RangeDescriptor::new(
            self.anchor.sheet.clone(),
            self.anchor.row,
            self.anchor.col,
            self.anchor.row.saturating_add(self.rows.saturating_sub(1)),
            self.anchor.col.saturating_add(self.cols.saturating_sub(1)),
        )
    }

    /// A copy of this spill.
    pub fn duplicate(&self) -> (r: SpillRef)
        ensures
            r == *self,
    {
        SpillRef { anchor: self.anchor.duplicate(), rows: self.rows, cols: self.cols }
    }
}

/// A named table occupying a range.
#[derive(Clone, Debug, Eq, PartialEq, Ord, PartialOrd, Hash)]
pub struct TableDescriptor {
    pub name: String,
    pub range: RangeDescriptor,
    pub generation: u64,
}

/// The mathematical value of a [`TableDescriptor`].
pub struct TableView {
    pub name: Seq<char>,
    pub range: RangeView,
    pub generation: u64,
}

impl View for TableDescriptor {
    type V = TableView;

    open spec fn view(&self) -> TableView {
        TableView { name: self.name@, range: self.range@, generation: self.generation }
    }
}

impl TableDescriptor {
    /// A copy of this table.
    pub fn duplicate(&self) -> (r: TableDescriptor)
        ensures
            r == *self,
    {
        TableDescriptor {
            name: self.name.clone(),
            range: self.range.duplicate(),
            generation: self.generation,
        }
    }
}

/// What a reference expression denotes.
#[derive(Clone, Debug, Eq, PartialEq, Ord, PartialOrd, Hash)]
pub enum ReferenceValue {
    Cell(CellId),
    Range(RangeDescriptor),
    Spill(SpillRef),
    Table(TableDescriptor),
}

/// The mathematical value of a [`ReferenceValue`].
pub enum ReferenceView {
    Cell(CellView),
    Range(RangeView),
    Spill(SpillView),
    Table(TableView),
}

impl View for ReferenceValue {
    type V = ReferenceView;

    open spec fn view(&self) -> ReferenceView {
        match self {
            ReferenceValue::Cell(c) => ReferenceView::Cell(c@),
            ReferenceValue::Range(r) => ReferenceView::Range(r@),
            ReferenceValue::Spill(s) => ReferenceView::Spill(s@),
            ReferenceValue::Table(t) => ReferenceView::Table(t@),
        }
    }
}

impl ReferenceValue {
    /// A copy of this reference.
    pub fn duplicate(&self) -> (r: ReferenceValue)
        ensures
            r == *self,
    {
        match self {
            ReferenceValue::Cell(c) => ReferenceValue::Cell(c.duplicate()),
            ReferenceValue::Range(r) => ReferenceValue::Range(r.duplicate()),
            ReferenceValue::Spill(s) => ReferenceValue::Spill(s.duplicate()),
            ReferenceValue::Table(t) => ReferenceValue::Table(t.duplicate()),
        }
    }
}

} // verus!
