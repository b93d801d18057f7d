//! Reference arithmetic used by INDEX, OFFSET and the range operator: the
//! size of a reference, the cell or line a position selects, shifting, and
//! joining two references into one range.
use vstd::prelude::*;
use crate::address::{CellId, CellView, RangeDescriptor, RangeView, ReferenceValue, ReferenceView, cell_range, cell_text, max_u32, min_u32, normalized_range, range_text, range_wf, spill_range};
use crate::formula::{ErrorKind, FormulaAst, ReferenceTarget};
use crate::text::{push_str, string_of};

verus! {

/// The block of cells a reference covers.
pub open spec fn reference_range(r: ReferenceView) -> RangeView {
    match r {
        ReferenceView::Cell(c) => cell_range(c),
        ReferenceView::Range(g) => g,
        ReferenceView::Spill(s) => spill_range(s),
        ReferenceView::Table(t) => t.range,
    }
}

/// The block of cells a reference covers.
pub fn to_range(r: &ReferenceValue) -> (g: RangeDescriptor)
    ensures
        g@ == reference_range(r@),
{
    match r {
        ReferenceValue::Cell(c) => RangeDescriptor::from_cell(c),
        ReferenceValue::Range(g) => g.duplicate(),
        ReferenceValue::Spill(s) => s.range(),
        ReferenceValue::Table(t) => t.range.duplicate(),
    }
}

/// The number of rows and of columns of a range.
pub open spec fn range_size(g: RangeView) -> (int, int) {
    (g.end_row - g.start_row + 1, g.end_col - g.start_col + 1)
}

/// A range whose corners are in order and whose height and width are
/// representable.
pub open spec fn range_measurable(g: RangeView) -> bool {
    &&& range_wf(g)
    &&& g.end_row - g.start_row + 1 <= u32::MAX
    &&& g.end_col - g.start_col + 1 <= u32::MAX
}

/// The rows and columns of a reference: one by one for a cell, the declared
/// extent for a spill.
pub open spec fn dimensions(r: ReferenceView) -> (int, int) {
    match r {
        ReferenceView::Cell(_) => (1, 1),
        ReferenceView::Range(g) => range_size(g),
        ReferenceView::Spill(s) => (s.rows as int, s.cols as int),
        ReferenceView::Table(t) => range_size(t.range),
    }
}

/// Whether the dimensions of a reference can be computed.
pub open spec fn measurable(r: ReferenceView) -> bool {
    match r {
        ReferenceView::Range(g) => range_measurable(g),
        ReferenceView::Table(t) => range_measurable(t.range),
        _ => true,
    }
}

/// The number of rows and of columns of a reference.
pub fn reference_dimensions(reference: &ReferenceValue) -> (r: (usize, usize))
    requires
        measurable(reference@),
    ensures
        r.0 == dimensions(reference@).0,
        r.1 == dimensions(reference@).1,
{
    match reference {
        ReferenceValue::Cell(_) => (1, 1),
        ReferenceValue::Range(g) => (
            (g.end_row - g.start_row + 1) as usize,
            (g.end_col - g.start_col + 1) as usize,
        ),
        ReferenceValue::Spill(s) => (s.rows as usize, s.cols as usize),
        ReferenceValue::Table(t) => (
            (t.range.end_row - t.range.start_row + 1) as usize,
            (t.range.end_col - t.range.start_col + 1) as usize,
        ),
    }
}

/// What INDEX selects in a range at (`row`, `col`), both 1-based with 0
/// meaning "all": the whole range, a column, a row, or a cell.
pub open spec fn indexed(g: RangeView, row: int, col: int) -> ReferenceView {
    if row == 0 && col == 0 {
        ReferenceView::Range(g)
    } else if row == 0 {
        ReferenceView::Range(
            normalized_range(g.sheet, g.start_row, (g.start_col + col - 1) as u32, g.end_row, (g.start_col + col - 1) as u32),
        )
    } else if col == 0 {
        ReferenceView::Range(
            normalized_range(g.sheet, (g.start_row + row - 1) as u32, g.start_col, (g.start_row + row - 1) as u32, g.end_col),
        )
    } else {
        ReferenceView::Cell(
            CellView { sheet: g.sheet, row: (g.start_row + row - 1) as u32, col: (g.start_col + col - 1) as u32 },
        )
    }
}

/// The part of `range` that INDEX selects at (`row`, `col`), counted from
/// the range's first row and column (the caller checks that it lies inside).
pub fn index_range_reference(range: RangeDescriptor, row: usize, col: usize) -> (r: ReferenceValue)
    requires
        row > 0 ==> range@.start_row + row <= u32::MAX,
        col > 0 ==> range@.start_col + col <= u32::MAX,
    ensures
        r@ == indexed(range@, row as int, col as int),
{
    if row == 0 && col == 0 {
        ReferenceValue::Range(range)
    } else if row == 0 {
        let c = range.start_col + col as u32 - 1;
        ReferenceValue::Range(RangeDescriptor::new(range.sheet, range.start_row, c, range.end_row, c))
    } else if col == 0 {
        let r = range.start_row + row as u32 - 1;
        ReferenceValue::Range(RangeDescriptor::new(range.sheet, r, range.start_col, r, range.end_col))
    } else {
        ReferenceValue::Cell(
            CellId::new(range.sheet, range.start_row + row as u32 - 1, range.start_col + col as u32 - 1),
        )
    }
}

/// The range spanning two references on one sheet.
pub open spec fn combined(a: ReferenceView, b: ReferenceView) -> Result<ReferenceView, ErrorKind> {
    let l = reference_range(a);
    let r = reference_range(b);
    if l.sheet != r.sheet {
        Err(ErrorKind::Ref)
    } else {
        Ok(
            ReferenceView::Range(
                normalized_range(
                    l.sheet,
                    min_u32(l.start_row, r.start_row),
                    min_u32(l.start_col, r.start_col),
                    max_u32(l.end_row, r.end_row),
                    max_u32(l.end_col, r.end_col),
                ),
            ),
        )
    }
}

/// The range operator `a:b`: the smallest range covering both, or a
/// reference error when they are on different sheets.
pub fn combine_reference(left: ReferenceValue, right: ReferenceValue) -> (r: Result<ReferenceValue, ErrorKind>)
    ensures
        match r {
            Ok(v) => combined(left@, right@) == Ok::<ReferenceView, ErrorKind>(v@),
            Err(e) => combined(left@, right@) == Err::<ReferenceView, ErrorKind>(e),
        },
{
    let l = to_range(&left);
    let g = to_range(&right);
    if !crate::text::text_equal(l.sheet.as_str(), g.sheet.as_str()) {
        return Err(ErrorKind::Ref);
    }
    let start_row = if l.start_row <= g.start_row { l.start_row } else { g.start_row };
    let start_col = if l.start_col <= g.start_col { l.start_col } else { g.start_col };
    let end_row = if l.end_row >= g.end_row { l.end_row } else { g.end_row };
    let end_col = if l.end_col >= g.end_col { l.end_col } else { g.end_col };
    Ok(ReferenceValue::Range(RangeDescriptor::new(l.sheet, start_row, start_col, end_row, end_col)))
}

/// `v` at least 1, kept to its low 32 bits.
pub open spec fn clamp_start(v: int) -> u32 {
    if v < 1 {
        1
    } else {
        (v % 0x1_0000_0000) as u32
    }
}

/// OFFSET's result: the reference's block moved by the deltas (its start at
/// least row and column 1), with the given height and width.
pub open spec fn shifted(source: ReferenceView, row_delta: int, col_delta: int, height: u32, width: u32) -> ReferenceView {
    let base = reference_range(source);
    let sr = clamp_start(base.start_row + row_delta);
    let sc = clamp_start(base.start_col + col_delta);
    ReferenceView::Range(
        normalized_range(
            base.sheet,
            sr,
            sc,
            crate::address::sat_add_u32(sr, crate::address::sat_sub_u32(height, 1)),
            crate::address::sat_add_u32(sc, crate::address::sat_sub_u32(width, 1)),
        ),
    )
}

fn clamp_start_exec(v: i64) -> (r: u32)
    ensures
        r == clamp_start(v as int),
{
    if v < 1 {
        1
    } else {
        let r = (v % 0x1_0000_0000) as u32;
        assert(v % 0x1_0000_0000 == (v as int) % 0x1_0000_0000);
        r
    }
}

/// OFFSET: the block of `source` moved by `row_delta` rows and `col_delta`
/// columns, `height` by `width` cells (at least one each).
pub fn shift_reference(source: ReferenceValue, row_delta: i64, col_delta: i64, height: u32, width: u32) -> (r: Result<
    ReferenceValue,
    ErrorKind,
>)
    requires
        reference_range(source@).start_row + row_delta <= i64::MAX,
        reference_range(source@).start_col + col_delta <= i64::MAX,
    ensures
        r matches Ok(v) && v@ == shifted(source@, row_delta as int, col_delta as int, height, width),
{
    let base = to_range(&source);
    let start_row = clamp_start_exec(base.start_row as i64 + row_delta);
    let start_col = clamp_start_exec(base.start_col as i64 + col_delta);
    Ok(
        ReferenceValue::Range(
            RangeDescriptor::new(
                base.sheet,
                start_row,
                start_col,
                start_row.saturating_add(height.saturating_sub(1)),
                start_col.saturating_add(width.saturating_sub(1)),
            ),
        ),
    )
}

/// The cell an OFFSET or INDIRECT argument names directly, if it is a cell reference.
pub open spec fn selector_of(node: FormulaAst, current: Seq<char>) -> Option<CellView> {
    match node {
        FormulaAst::Reference(ReferenceTarget::Cell { sheet, row, col }) => Some(
            CellView { sheet: crate::collect::sheet_or(sheet, current), row, col },
        ),
        _ => None,
    }
}

/// The cell an OFFSET or INDIRECT argument names directly, if it is a cell reference.
pub fn selector_cell(node: &FormulaAst, current_sheet: &str) -> (r: Option<CellId>)
    ensures
        match r {
            Some(c) => selector_of(*node, current_sheet@) == Some(c@),
            None => selector_of(*node, current_sheet@) is None,
        },
{
    match node {
        FormulaAst::Reference(ReferenceTarget::Cell { sheet, row, col }) => {
            let sheet_name = match sheet {
                Some(s) => s.clone(),
                None => string_of(current_sheet),
            };
            Some(CellId::new(sheet_name, *row, *col))
        },
        _ => None,
    }
}

/// The text of a reference: an address, "spill:" and the spill's range, or
/// "table:" and the table's name.
pub open spec fn reference_text(r: ReferenceView) -> Seq<char> {
    match r {
        ReferenceView::Cell(c) => cell_text(c),
        ReferenceView::Range(g) => range_text(g),
        ReferenceView::Spill(s) => "spill:"@ + range_text(spill_range(s)),
        ReferenceView::Table(t) => "table:"@ + t.name,
    }
}

/// The text of a reference.
pub fn reference_to_string(reference: &ReferenceValue) -> (r: String)
    ensures
        r@ == reference_text(reference@),
{
    match reference {
        ReferenceValue::Cell(c) => c.to_a1_string(),
        ReferenceValue::Range(g) => g.to_a1_string(),
        ReferenceValue::Spill(s) => {
            let mut out = string_of("spill:");
            let g = s.range();
            let text = g.to_a1_string();
            push_str(&mut out, text.as_str());
            out
        },
        ReferenceValue::Table(t) => {
            let mut out = string_of("table:");
            push_str(&mut out, t.name.as_str());
            out
        },
    }
}

/// Whether INDEX's arithmetic on `source` at (`row`, `col`) stays within `u32`.
pub open spec fn index_fits(source: ReferenceView, row: int, col: int) -> bool {
    let g = reference_range(source);
    &&& row > 0 ==> g.start_row + row <= u32::MAX
    &&& col > 0 ==> g.start_col + col <= u32::MAX
}

/// What INDEX gives for `source` at (`row`, `col`): a reference error when
/// the position is outside the reference (a cell has only position 1, 1);
/// otherwise the selected part.
pub open spec fn index_result(source: ReferenceView, row: int, col: int) -> Result<ReferenceView, ErrorKind> {
    let d = dimensions(source);
    if row > d.0 || col > d.1 {
        Err(ErrorKind::Ref)
    } else {
        match source {
            ReferenceView::Cell(_) => if row > 1 || col > 1 {
                Err(ErrorKind::Ref)
            } else {
                Ok(source)
            },
            _ => Ok(indexed(reference_range(source), row, col)),
        }
    }
}

/// INDEX on a reference at (`row`, `col`), 1-based with 0 meaning "all".
pub fn index_selection(source: ReferenceValue, row: usize, col: usize) -> (r: Result<ReferenceValue, ErrorKind>)
    requires
        measurable(source@),
        index_fits(source@, row as int, col as int),
    ensures
        match r {
            Ok(v) => index_result(source@, row as int, col as int) == Ok::<ReferenceView, ErrorKind>(v@),
            Err(e) => index_result(source@, row as int, col as int) == Err::<ReferenceView, ErrorKind>(e),
        },
{
    let (rows, cols) = reference_dimensions(&source);
    if row > rows || col > cols {
        return Err(ErrorKind::Ref);
    }
    match source {
        ReferenceValue::Cell(cell) => {
            if row > 1 || col > 1 {
                Err(ErrorKind::Ref)
            } else {
                Ok(ReferenceValue::Cell(cell))
            }
        },
        ReferenceValue::Range(g) => Ok(index_range_reference(g, row, col)),
        ReferenceValue::Spill(s) => Ok(index_range_reference(s.range(), row, col)),
        ReferenceValue::Table(t) => Ok(index_range_reference(t.range, row, col)),
    }
}

} // verus!
