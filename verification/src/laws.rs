//! Properties that hold across operations: what a name definition makes a
//! later lookup return, which edits invalidate nothing, how ranges and
//! offsets behave, what text substitution keeps, how many reads a trace
//! keeps, and how compared cells are counted.
use vstd::prelude::*;
use crate::address::{CellView, RangeView, normalized_range, range_area, range_cell_at, range_contains, range_height, range_width, range_wf};
use crate::dependency::{ChangeView, DependencyView, matches_event};
use crate::address::{SpillView, sat_add_u32};
use crate::collect::static_dependencies;
use crate::engine::FormulaView;
use crate::formula::{FormulaAst, ReferenceTarget};
use crate::names::shift_record;
use crate::compatibility::{transition_key, transition_keys};
use crate::engine::{PocEngine, affected_cells, feeds, lemma_affected_extend, lemma_affected_seed, seeded};
use crate::names::{NameDefinition, NameDefinitionRecord, NameKeyView, NameScope, name_key, records_after_define, resolve_spec, sat_add_u64};
use crate::address::ReferenceView;
use crate::reference::shifted;
use crate::text::{ascii_upper, nth_occurrence, occurs_at, substituted};
use crate::trace::{ReadView, TraceSummary, after_read, summary_limit};
use crate::compatibility::{CompatibilityClass, ComparedView, class_count, class_keys, class_occurrences, examples_of, key_counts, lemma_class_count};

verus! {

/// A workbook-scoped definition is what a later lookup of the name (in any
/// letter case) returns from every sheet that has no sheet-scoped name of
/// the same text.
pub proof fn lemma_define_then_resolve_workbook(
    records: Map<NameKeyView, NameDefinitionRecord>,
    next_id: u32,
    name: String,
    scope_sheet: Option<String>,
    definition: NameDefinition,
    lookup: Seq<char>,
    sheet: Seq<char>,
)
    requires
        ascii_upper(lookup) == ascii_upper(name@),
        !records.contains_key((Some(sheet), ascii_upper(name@))),
    ensures
        resolve_spec(
            records_after_define(records, next_id, name, NameScope::Workbook, scope_sheet, definition),
            lookup,
            sheet,
        ) matches Some(r) && r.definition == definition,
{
    let after = records_after_define(records, next_id, name, NameScope::Workbook, scope_sheet, definition);
    let key = name_key(NameScope::Workbook, scope_sheet, name@);
    assert(key == (None::<Seq<char>>, ascii_upper(name@)));
    assert(after.contains_key(key));
    assert(!after.contains_key((Some(sheet), ascii_upper(lookup))));
}

/// A sheet-scoped definition is what a later lookup of the name (in any
/// letter case) returns from its own sheet, whatever workbook-scoped name of
/// the same text exists.
pub proof fn lemma_define_then_resolve_local(
    records: Map<NameKeyView, NameDefinitionRecord>,
    next_id: u32,
    name: String,
    sheet: String,
    definition: NameDefinition,
    lookup: Seq<char>,
)
    requires
        ascii_upper(lookup) == ascii_upper(name@),
    ensures
        resolve_spec(
            records_after_define(records, next_id, name, NameScope::Sheet, Some(sheet), definition),
            lookup,
            sheet@,
        ) matches Some(r) && r.definition == definition,
{
    let key = name_key(NameScope::Sheet, Some(sheet), name@);
    assert(key == (Some(sheet@), ascii_upper(lookup)));
}

/// Redefining a name keeps its identity and counts one more definition
/// generation; a first definition starts at generation 1.
pub proof fn lemma_redefinition_keeps_identity(
    records: Map<NameKeyView, NameDefinitionRecord>,
    next_id: u32,
    name: String,
    scope: NameScope,
    scope_sheet: Option<String>,
    definition: NameDefinition,
)
    ensures
        ({
            let key = name_key(scope, scope_sheet, name@);
            let after = records_after_define(records, next_id, name, scope, scope_sheet, definition);
            &&& after.contains_key(key)
            &&& after[key].definition == definition
            &&& records.contains_key(key) ==> after[key].id == records[key].id
                && after[key].definition_generation == sat_add_u64(records[key].definition_generation, 1)
            &&& !records.contains_key(key) ==> after[key].definition_generation == 1
        }),
{
}

/// Name lookup ignores letter case.
pub proof fn lemma_resolve_ignores_case(
    records: Map<NameKeyView, NameDefinitionRecord>,
    a: Seq<char>,
    b: Seq<char>,
    sheet: Seq<char>,
)
    requires
        ascii_upper(a) == ascii_upper(b),
    ensures
        resolve_spec(records, a, sheet) == resolve_spec(records, b, sheet),
{
}

/// An edit of a cell that holds no formula and that no formula's dependency
/// mentions invalidates nothing, so the edit leaves the dirty set as it was.
pub proof fn lemma_unrelated_edit_invalidates_nothing(engine: PocEngine, c: CellView)
    requires
        engine.unrelated(c, Seq::empty()),
    ensures
        affected_cells(
            engine.formulas().remove(c),
            engine.direct_index(),
            engine.range_index(),
            ChangeView::Cell(c),
        ) == Set::<CellView>::empty(),
{
    let f = engine.formulas().remove(c);
    let s = affected_cells(f, engine.direct_index(), engine.range_index(), ChangeView::Cell(c));
    assert forall|d: CellView| !s.contains(d) by {
        if s.contains(d) {
            let p = choose|p: Seq<CellView>|
                p.len() > 0 && crate::engine::is_chain(engine.direct_index(), engine.range_index(), p)
                    && seeded(f, ChangeView::Cell(c), p[0]) && #[trigger] p.last() == d;
            let k = choose|k: int|
                0 <= k < f[p[0]].dependencies.len() && crate::dependency::matches_event(
                    #[trigger] f[p[0]].dependencies[k],
                    ChangeView::Cell(c),
                );
            assert(engine.formulas().contains_key(p[0]));
            assert(!PocEngine::touches(engine.formulas()[p[0]].dependencies[k], c));
        }
    }
    assert(s =~= Set::<CellView>::empty());
}

/// What a change invalidates is closed under dependents: whatever depends,
/// directly or through a covering range, on an invalidated cell is
/// invalidated too.
pub proof fn lemma_invalidation_reaches_dependents(
    formulas: Map<CellView, crate::engine::FormulaView>,
    direct: Set<(CellView, CellView)>,
    ranges: Seq<(RangeView, CellView)>,
    change: ChangeView,
    c: CellView,
    d: CellView,
)
    requires
        affected_cells(formulas, direct, ranges, change).contains(c),
        feeds(direct, ranges, c, d),
    ensures
        affected_cells(formulas, direct, ranges, change).contains(d),
{
    lemma_affected_extend(formulas, direct, ranges, change, c, d);
}

/// A range is the same whichever two opposite corners name it, and it
/// covers exactly the cells of its sheet between the corners.
pub proof fn lemma_range_corners(sheet: Seq<char>, r1: u32, c1: u32, r2: u32, c2: u32, cell: CellView)
    ensures
        normalized_range(sheet, r1, c1, r2, c2) == normalized_range(sheet, r2, c2, r1, c1),
        normalized_range(sheet, r1, c1, r2, c2) == normalized_range(sheet, r1, c2, r2, c1),
        range_contains(normalized_range(sheet, r1, c1, r2, c2), cell) <==> (cell.sheet == sheet && ((r1 <= cell.row
            <= r2) || (r2 <= cell.row <= r1)) && ((c1 <= cell.col <= c2) || (c2 <= cell.col <= c1))),
{
}

/// OFFSET by no rows and no columns, with the range's own height and
/// width, gives the range back.
pub proof fn lemma_offset_zero_is_identity(r: RangeView)
    requires
        1 <= r.start_row <= r.end_row,
        1 <= r.start_col <= r.end_col,
    ensures
        shifted(ReferenceView::Range(r), 0, 0, range_height(r) as u32, range_width(r) as u32) == ReferenceView::Range(r),
{
    assert(r.start_row as int % 0x1_0000_0000 == r.start_row as int);
    assert(r.start_col as int % 0x1_0000_0000 == r.start_col as int);
}

proof fn lemma_nth_occurrence_occurs(t: Seq<char>, p: Seq<char>, i: int, n: nat)
    requires
        nth_occurrence(t, p, i, n) is Some,
    ensures
        occurs_at(t, p, nth_occurrence(t, p, i, n)->0),
    decreases t.len() - i,
{
    if p.len() == 0 || n == 0 || i < 0 || i + p.len() > t.len() {
    } else if occurs_at(t, p, i) {
        if n != 1 {
            lemma_nth_occurrence_occurs(t, p, i + p.len(), (n - 1) as nat);
        }
    } else {
        lemma_nth_occurrence_occurs(t, p, i + 1, n);
    }
}

/// Substituting a text by itself changes nothing, and a substitution that
/// finds its occurrence changes the length by the difference of the texts.
pub proof fn lemma_substitution_lengths(t: Seq<char>, old: Seq<char>, new: Seq<char>, instance: nat)
    ensures
        substituted(t, old, old, instance) == t,
        old.len() > 0 && instance > 0 && nth_occurrence(t, old, 0, instance) is Some ==> substituted(
            t,
            old,
            new,
            instance,
        ).len() == t.len() - old.len() + new.len(),
        (old.len() == 0 || instance == 0 || nth_occurrence(t, old, 0, instance) is None) ==> substituted(
            t,
            old,
            new,
            instance,
        ) == t,
{
    if old.len() > 0 && instance > 0 && nth_occurrence(t, old, 0, instance) is Some {
        let i = nth_occurrence(t, old, 0, instance)->0;
        lemma_nth_occurrence_occurs(t, old, 0, instance);
        assert(t.subrange(0, i) + old + t.subrange(i + old.len(), t.len() as int) =~= t);
    }
}

/// What a change invalidates includes every formula with a dependency that
/// the change touches: a changed cell its readers, a redefined name the
/// formulas that use it.
pub proof fn lemma_touched_dependents_invalidated(
    formulas: Map<CellView, crate::engine::FormulaView>,
    direct: Set<(CellView, CellView)>,
    ranges: Seq<(RangeView, CellView)>,
    change: ChangeView,
    c: CellView,
)
    requires
        seeded(formulas, change, c),
    ensures
        affected_cells(formulas, direct, ranges, change).contains(c),
{
    lemma_affected_seed(formulas, direct, ranges, change, c);
}

/// The cells a range lists, row by row, are exactly the cells it covers:
/// each listed cell is covered, and each covered cell is listed at the
/// position its row and column offsets give.
pub proof fn lemma_range_cells_are_its_cells(r: RangeView, i: int, c: CellView)
    requires
        range_wf(r),
    ensures
        0 <= i < range_area(r) ==> range_contains(r, range_cell_at(r, i)),
        range_contains(r, c) ==> {
            let k = (c.row - r.start_row) * range_width(r) + (c.col - r.start_col);
            &&& 0 <= k < range_area(r)
            &&& range_cell_at(r, k) == c
        },
{
    let w = range_width(r);
    let h = range_height(r);
    if 0 <= i < range_area(r) {
        let q = i / w;
        let m = i % w;
        vstd::arithmetic::div_mod::lemma_fundamental_div_mod(i, w);
        assert(0 <= m < w) by {
            vstd::arithmetic::div_mod::lemma_mod_pos_bound(i, w);
        }
        assert(0 <= q < h) by (nonlinear_arith)
            requires
                i == w * q + m,
                0 <= m < w,
                0 <= i < h * w,
                w > 0,
        {
            if q >= h {
                assert(w * q >= w * h);
            }
            if q < 0 {
                assert(w * q <= -w);
            }
        }
    }
    if range_contains(r, c) {
        let dr = c.row - r.start_row;
        let dc = c.col - r.start_col;
        let k = dr * w + dc;
        assert(0 <= k < h * w) by (nonlinear_arith)
            requires
                k == dr * w + dc,
                0 <= dr < h,
                0 <= dc < w,
        {
            assert(dr * w <= (h - 1) * w);
        }
        vstd::arithmetic::div_mod::lemma_fundamental_div_mod_converse(k, w, dr, dc);
        assert(range_area(r) == h * w);
    }
}


/// A trace never keeps more reads than its limit: a read arriving while the
/// kept reads are under the limit is kept, one arriving at the limit is not
/// kept and marks the trace truncated, and a truncated trace stays so.
pub proof fn lemma_kept_reads_within_limit(o: TraceSummary, read: ReadView)
    requires
        o.execution_reads.finite(),
        o.execution_reads.len() <= summary_limit(o),
    ensures
        after_read(o, read).execution_reads.finite(),
        after_read(o, read).execution_reads.len() <= summary_limit(after_read(o, read)),
        summary_limit(after_read(o, read)) == summary_limit(o),
        after_read(o, read).execution_reads.contains(read) || after_read(o, read).execution_reads_truncated,
        o.execution_reads_truncated ==> after_read(o, read).execution_reads_truncated,
{
    let a = after_read(o, read);
    if o.execution_reads.len() < summary_limit(o) {
        assert(a.execution_reads == o.execution_reads.insert(read));
    }
}


/// Among the first `n` compared cells, a class other than a match keeps as
/// examples as many of its cells as it has, but never more than `max`; a
/// match keeps none.
pub proof fn lemma_examples_capped(cells: Seq<ComparedView>, max: usize, class: CompatibilityClass, n: nat)
    requires
        n <= cells.len(),
    ensures
        examples_of(cells, n, max, class) == if class == CompatibilityClass::Match {
            0
        } else if class_occurrences(cells.take(n as int), class) < max {
            class_occurrences(cells.take(n as int), class)
        } else {
            max as nat
        },
    decreases n,
{
    if n > 0 {
        let m = (n - 1) as nat;
        lemma_examples_capped(cells, max, class, m);
        let p = cells.take(m as int);
        assert(cells.take(n as int) =~= p.push(cells[m as int]));
        assert(cells.take(n as int).drop_last() =~= p);
    } else {
        assert(cells.take(0) =~= Seq::<ComparedView>::empty());
    }
}


/// Every compared cell is counted in exactly one class: the counts of the
/// six classes add up to the number of cells.
pub proof fn lemma_classes_partition_cells(cells: Seq<ComparedView>)
    requires
        cells.len() <= u64::MAX,
    ensures
        class_count(key_counts(class_keys(cells)), CompatibilityClass::Match) + class_count(
            key_counts(class_keys(cells)),
            CompatibilityClass::ValueMismatch,
        ) + class_count(key_counts(class_keys(cells)), CompatibilityClass::SameError) + class_count(
            key_counts(class_keys(cells)),
            CompatibilityClass::DifferentErrorKind,
        ) + class_count(key_counts(class_keys(cells)), CompatibilityClass::FormualizerOnlyError) + class_count(
            key_counts(class_keys(cells)),
            CompatibilityClass::ExcelErrorFormualizerValue,
        ) == cells.len(),
{
    lemma_class_count(cells, CompatibilityClass::Match);
    lemma_class_count(cells, CompatibilityClass::ValueMismatch);
    lemma_class_count(cells, CompatibilityClass::SameError);
    lemma_class_count(cells, CompatibilityClass::DifferentErrorKind);
    lemma_class_count(cells, CompatibilityClass::FormualizerOnlyError);
    lemma_class_count(cells, CompatibilityClass::ExcelErrorFormualizerValue);
    lemma_class_occurrences_total(cells);
}

proof fn lemma_class_occurrences_total(cells: Seq<ComparedView>)
    ensures
        class_occurrences(cells, CompatibilityClass::Match) + class_occurrences(cells, CompatibilityClass::ValueMismatch)
            + class_occurrences(cells, CompatibilityClass::SameError) + class_occurrences(
            cells,
            CompatibilityClass::DifferentErrorKind,
        ) + class_occurrences(cells, CompatibilityClass::FormualizerOnlyError) + class_occurrences(
            cells,
            CompatibilityClass::ExcelErrorFormualizerValue,
        ) == cells.len(),
    decreases cells.len(),
{
    if cells.len() > 0 {
        lemma_class_occurrences_total(cells.drop_last());
    }
}

/// A spill change reaches every shape dependency on the same anchor,
/// whatever the sizes of the old and the new spill area; so a resized spill
/// invalidates every formula that depends on its shape.
pub proof fn lemma_spill_change_reaches_shape(
    f: Map<CellView, FormulaView>,
    direct: Set<(CellView, CellView)>,
    ranges: Seq<(RangeView, CellView)>,
    changed: SpillView,
    c: CellView,
    k: int,
)
    requires
        f.contains_key(c),
        0 <= k < f[c].dependencies.len(),
        f[c].dependencies[k] is Shape,
        f[c].dependencies[k]->Shape_0.anchor == changed.anchor,
    ensures
        matches_event(f[c].dependencies[k], ChangeView::Spill(changed)),
        affected_cells(f, direct, ranges, ChangeView::Spill(changed)).contains(c),
{
    assert(seeded(f, ChangeView::Spill(changed), c));
    lemma_affected_seed(f, direct, ranges, ChangeView::Spill(changed), c);
}

/// A spill change reaches exactly the shape dependencies on its anchor.
pub proof fn lemma_spill_change_reaches_only_its_shapes(d: DependencyView, changed: SpillView)
    ensures
        matches_event(d, ChangeView::Spill(changed)) <==> (d is Shape && d->Shape_0.anchor == changed.anchor),
{
}

/// Inserting `count` rows before row `before` of `sheet` moves every row of
/// a name's range on that sheet at or below the insertion down by `count`
/// (saturating): a range below moves, a range spanning the insertion keeps
/// its start and grows, a range above or on another sheet stays (for a range
/// whose start row is not past its end row, as every built range is).
pub proof fn lemma_row_insertion_moves_named_ranges(
    records: Map<NameKeyView, NameDefinitionRecord>,
    key: NameKeyView,
    sheet: Seq<char>,
    before: u32,
    count: u32,
)
    requires
        records.contains_key(key),
        records[key].definition is Range,
        records[key].definition->Range_0.start_row <= records[key].definition->Range_0.end_row,
    ensures
        ({
            let g = records[key].definition->Range_0;
            let after = records.map_values(|r: NameDefinitionRecord| shift_record(r, sheet, before, count));
            let h = after[key].definition->Range_0;
            &&& after.contains_key(key)
            &&& after[key].definition is Range
            &&& h.sheet == g.sheet
            &&& h.start_col == g.start_col
            &&& h.end_col == g.end_col
            &&& h.start_row == if g.sheet@ == sheet && g.start_row >= before {
                sat_add_u32(g.start_row, count)
            } else {
                g.start_row
            }
            &&& h.end_row == if g.sheet@ == sheet && g.end_row >= before {
                sat_add_u32(g.end_row, count)
            } else {
                g.end_row
            }
        }),
{
    let after = records.map_values(|r: NameDefinitionRecord| shift_record(r, sheet, before, count));
    assert(after[key] == shift_record(records[key], sheet, before, count));
    assert(after[key].definition == crate::names::shift_definition(records[key].definition, sheet, before, count));
}

/// A range reference depends on the sheet it names, or on the formula's own
/// sheet when it names none: every dependency it has is a range there, and
/// an edit of any cell inside the written bounds on that sheet reaches it.
pub proof fn lemma_range_reference_keeps_its_sheet(
    names: Map<NameKeyView, NameDefinitionRecord>,
    current: Seq<char>,
    sheet: Option<String>,
    r1: u32,
    c1: u32,
    r2: u32,
    c2: u32,
    edited: CellView,
)
    requires
        edited.sheet == (match sheet {
            Some(s) => s@,
            None => current,
        }),
        r1 <= edited.row <= r2,
        c1 <= edited.col <= c2,
    ensures
        ({
            let ast = FormulaAst::Reference(
                ReferenceTarget::Range {
                    sheet,
                    start_row: Some(r1),
                    start_col: Some(c1),
                    end_row: Some(r2),
                    end_col: Some(c2),
                },
            );
            let deps = static_dependencies(names, current, ast);
            &&& forall|d: DependencyView| #[trigger] deps.contains(d) ==> d is Range && d->Range_0.sheet == edited.sheet
            &&& exists|d: DependencyView| #[trigger] deps.contains(d) && matches_event(d, ChangeView::Cell(edited))
        }),
{
    let ast = FormulaAst::Reference(
        ReferenceTarget::Range {
            sheet,
            start_row: Some(r1),
            start_col: Some(c1),
            end_row: Some(r2),
            end_col: Some(c2),
        },
    );
    let g = normalized_range(edited.sheet, r1, c1, r2, c2);
    let one = set![DependencyView::Range(g)];
    assert(crate::collect::node_dependencies(names, current, ast, crate::collect::DependencyRole::Normal, 0) == Some(one));
    assert(crate::collect::expansion_finishes(names, current, ast));
    let fuel = crate::collect::expansion_depth(names, current, ast);
    assert(crate::collect::node_dependencies(names, current, ast, crate::collect::DependencyRole::Normal, fuel) == Some(
        one,
    ));
    assert(static_dependencies(names, current, ast) == one);
    assert(range_contains(g, edited));
    assert(one.contains(DependencyView::Range(g)));
}

/// A range dependency leads to every formula inside the range: if a
/// dependency of the formula at `f` is a range covering the formula at `g`,
/// then `(f, g)` is an edge of the static graph, so a cycle closed through a
/// range is a static cycle.
pub proof fn lemma_range_dependency_is_a_static_edge(e: &PocEngine, f: CellView, g: CellView, k: int)
    requires
        e.formulas().contains_key(f),
        e.formulas().contains_key(g),
        0 <= k < e.formulas()[f].dependencies.len(),
        e.formulas()[f].dependencies[k] is Range,
        range_contains(e.formulas()[f].dependencies[k]->Range_0, g),
    ensures
        e.static_edge_set().contains((f, g)),
{
    assert(e.leads_to(e.formulas()[f].dependencies[k], g));
}

/// A cell dependency leads to the formula at that cell: if a dependency of
/// the formula at `f` is the cell `g` and `g` holds a formula, `(f, g)` is
/// an edge of the static graph.
pub proof fn lemma_cell_dependency_is_a_static_edge(e: &PocEngine, f: CellView, g: CellView, k: int)
    requires
        e.formulas().contains_key(f),
        e.formulas().contains_key(g),
        0 <= k < e.formulas()[f].dependencies.len(),
        e.formulas()[f].dependencies[k] == DependencyView::Cell(g),
    ensures
        e.static_edge_set().contains((f, g)),
{
    assert(e.leads_to(e.formulas()[f].dependencies[k], g));
}

/// A cell's transition names the cached side by its error, else its kind,
/// then " -> ", then the computed side by its error, else its kind; and the
/// tally of any cells has that transition among its keys for each of them.
pub proof fn lemma_transition_names_both_sides(cells: Seq<ComparedView>, i: int)
    requires
        0 <= i < cells.len(),
    ensures
        ({
            let c = cells[i];
            let cached = match c.source_error {
                Some(e) => e,
                None => c.source_kind,
            };
            let computed = match c.computed_error {
                Some(e) => e,
                None => c.computed_kind,
            };
            &&& transition_key(c) == cached + " -> "@ + computed
            &&& c.source_error is None && c.computed_error is None ==> transition_key(c) == c.source_kind + " -> "@
                + c.computed_kind
            &&& key_counts(transition_keys(cells)).contains_key(cached + " -> "@ + computed)
        }),
{
    let keys = transition_keys(cells);
    assert(keys[i] == transition_key(cells[i]));
    assert(keys.contains(transition_key(cells[i])));
}

} // verus!
