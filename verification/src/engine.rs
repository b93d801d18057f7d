//! The dependency side of the formula engine: formula records with their
//! static dependencies, the reverse indexes that find the dependents of a
//! cell, the set of cells awaiting evaluation, and how a change spreads
//! through them. Cell values and their evaluation are kept by the caller.
use vstd::prelude::*;
use crate::address::{CellId, CellView, RangeDescriptor, RangeView, SpillRef, cells_sorted, cells_view, range_contains, spill_range};
use crate::dependency::{ChangeEvent, ChangeView, DependencyDescriptor, DependencyView, dependency_matches_event, matches_event};
use crate::collect::{DependencyRole, collect_invalidation_dependencies, expansion_finishes, node_dependencies, static_dependencies};
use crate::dependency::EffectKey;
use crate::formula::{ErrorKind, FormulaAst, ScalarLiteral};
use crate::names::NameRegistry;
use crate::cycles::{cell_lists_view, cycle_components, cyclic_components_of, edges_within, pairs_view};
use crate::keys::{Filed, file_item, filed_map, filed_sorted, find_filed, lemma_cell_key_order, lemma_filed_map_index, unfile};
use crate::names::{NameDefinition, NameId, NameScope, records_after_define, sat_add_u64};
use crate::order::{SortKey, insert_sorted, lemma_sorted_set_len, lemma_sorted_within, remove_sorted, sorted_by_key, sorted_contains, sorted_list, value_set, views};
use crate::text::string_of;

verus! {

/// A formula cell: where it is, its text, its expression and its static
/// dependencies.
pub struct FormulaRecord {
    pub address: CellId,
    pub source: String,
    pub ast: FormulaAst,
    pub generation: u64,
    pub static_dependencies: Vec<DependencyDescriptor>,
}

/// The mathematical value of a [`FormulaRecord`].
pub struct FormulaView {
    pub address: CellView,
    pub source: Seq<char>,
    pub ast: FormulaAst,
    pub generation: u64,
    pub dependencies: Seq<DependencyView>,
}

impl View for FormulaRecord {
    type V = FormulaView;

    open spec fn view(&self) -> FormulaView {
        FormulaView {
            address: self.address@,
            source: self.source@,
            ast: self.ast,
            generation: self.generation,
            dependencies: views(self.static_dependencies@),
        }
    }
}

impl Filed for FormulaRecord {
    type Key = CellId;

    open spec fn filed_under(v: FormulaView) -> CellView {
        v.address
    }

    fn filing_key(&self) -> (c: &CellId) {
        &self.address
    }
}

/// The addresses of a list of formula records, in order.
pub open spec fn addresses(f: Seq<FormulaView>) -> Seq<CellView> {
    f.map_values(|r: FormulaView| r.address)
}

/// Whether a change reaches one of the static dependencies of the formula at `c`.
pub open spec fn seeded(f: Map<CellView, FormulaView>, e: ChangeView, c: CellView) -> bool {
    &&& f.contains_key(c)
    &&& exists|k: int| 0 <= k < f[c].dependencies.len() && matches_event(#[trigger] f[c].dependencies[k], e)
}

/// One step of invalidation: `d` depends on `c` through the direct index or
/// through a range of the range index that covers `c`.
pub open spec fn feeds(
    direct: Set<(CellView, CellView)>,
    ranges: Seq<(RangeView, CellView)>,
    c: CellView,
    d: CellView,
) -> bool {
    ||| direct.contains((c, d))
    ||| exists|i: int| 0 <= i < ranges.len() && ranges[i].1 == d && range_contains(#[trigger] ranges[i].0, c)
}

/// A chain of invalidation steps.
pub open spec fn is_chain(
    direct: Set<(CellView, CellView)>,
    ranges: Seq<(RangeView, CellView)>,
    p: Seq<CellView>,
) -> bool {
    forall|i: int| 0 <= i < p.len() - 1 ==> feeds(direct, ranges, #[trigger] p[i], p[i + 1])
}

/// The cells a change invalidates: every formula it reaches directly, and
/// every cell reached from those through the indexes, transitively.
pub open spec fn affected_cells(
    f: Map<CellView, FormulaView>,
    direct: Set<(CellView, CellView)>,
    ranges: Seq<(RangeView, CellView)>,
    e: ChangeView,
) -> Set<CellView> {
    Set::new(
        |d: CellView|
            exists|p: Seq<CellView>|
                p.len() > 0 && is_chain(direct, ranges, p) && seeded(f, e, p[0]) && #[trigger] p.last()
                    == d,
    )
}

pub(crate) proof fn lemma_affected_extend(
    f: Map<CellView, FormulaView>,
    direct: Set<(CellView, CellView)>,
    ranges: Seq<(RangeView, CellView)>,
    e: ChangeView,
    c: CellView,
    d: CellView,
)
    requires
        affected_cells(f, direct, ranges, e).contains(c),
        feeds(direct, ranges, c, d),
    ensures
        affected_cells(f, direct, ranges, e).contains(d),
{
    let p = choose|p: Seq<CellView>|
        p.len() > 0 && is_chain(direct, ranges, p) && seeded(f, e, p[0]) && #[trigger] p.last() == c;
    let q = p.push(d);
    assert(q.last() == d);
    assert(q[0] == p[0]);
    assert forall|i: int| 0 <= i < q.len() - 1 implies feeds(direct, ranges, #[trigger] q[i], q[i + 1]) by {
        if i < p.len() - 1 {
            assert(q[i] == p[i] && q[i + 1] == p[i + 1]);
        } else {
            assert(q[i] == c);
        }
    }
}

pub(crate) proof fn lemma_affected_seed(
    f: Map<CellView, FormulaView>,
    direct: Set<(CellView, CellView)>,
    ranges: Seq<(RangeView, CellView)>,
    e: ChangeView,
    c: CellView,
)
    requires
        seeded(f, e, c),
    ensures
        affected_cells(f, direct, ranges, e).contains(c),
{
    let p = seq![c];
    assert(p.last() == c);
    assert(is_chain(direct, ranges, p));
}

proof fn lemma_closed_covers(
    f: Map<CellView, FormulaView>,
    direct: Set<(CellView, CellView)>,
    ranges: Seq<(RangeView, CellView)>,
    e: ChangeView,
    s: Set<CellView>,
    p: Seq<CellView>,
)
    requires
        forall|c: CellView| seeded(f, e, c) ==> s.contains(c),
        forall|c: CellView, d: CellView| s.contains(c) && feeds(direct, ranges, c, d) ==> s.contains(d),
        p.len() > 0,
        is_chain(direct, ranges, p),
        seeded(f, e, p[0]),
    ensures
        s.contains(p.last()),
    decreases p.len(),
{
    if p.len() > 1 {
        let q = p.drop_last();
        assert forall|i: int| 0 <= i < q.len() - 1 implies feeds(direct, ranges, #[trigger] q[i], q[i + 1]) by {
            assert(q[i] == p[i] && q[i + 1] == p[i + 1]);
        }
        lemma_closed_covers(f, direct, ranges, e, s, q);
        assert(feeds(direct, ranges, p[p.len() - 2], p[p.len() - 1]));
    }
}

/// How the engine evaluates: iteration limit and mode for cycles, whether
/// static cycles are reported, whether per-formula reads are traced, and how
/// many diagnostic records a trace keeps.
#[derive(Clone, Copy, Debug, PartialEq, Eq)]
pub struct EngineSettings {
    pub max_iterations: usize,
    pub iterative: bool,
    pub static_cycle_diagnostics: bool,
    pub track_formula_reads: bool,
    pub diagnostic_trace_limit: usize,
}

/// The direct-index entries a formula's dependencies give: (target, formula)
/// for every cell or selector dependency.
pub open spec fn direct_entries(deps: Seq<DependencyView>, c: CellView) -> Set<(CellView, CellView)> {
    Set::new(
        |p: (CellView, CellView)|
            p.1 == c && exists|k: int|
                0 <= k < deps.len() && (#[trigger] deps[k] == DependencyView::Cell(p.0) || deps[k]
                    == DependencyView::Selector(p.0)),
    )
}

/// The range-index entries a formula's dependencies give, in dependency order.
pub open spec fn range_entries(deps: Seq<DependencyView>, c: CellView) -> Seq<(RangeView, CellView)>
    decreases deps.len(),
{
    if deps.len() == 0 {
        Seq::empty()
    } else {
        range_entries(deps.drop_last(), c) + match deps.last() {
            DependencyView::Range(r) => seq![(r, c)],
            _ => Seq::empty(),
        }
    }
}

/// The direct index built from a list of formulas.
pub open spec fn all_direct_entries(fl: Seq<FormulaView>) -> Set<(CellView, CellView)>
    decreases fl.len(),
{
    if fl.len() == 0 {
        Set::empty()
    } else {
        all_direct_entries(fl.drop_last()).union(direct_entries(fl.last().dependencies, fl.last().address))
    }
}

/// The range index built from a list of formulas, in formula order.
pub open spec fn all_range_entries(fl: Seq<FormulaView>) -> Seq<(RangeView, CellView)>
    decreases fl.len(),
{
    if fl.len() == 0 {
        Seq::empty()
    } else {
        all_range_entries(fl.drop_last()) + range_entries(fl.last().dependencies, fl.last().address)
    }
}

/// The direct index and its targets agree: the targets are exactly the
/// first cells of the index's pairs.
pub open spec fn indexes_wf(direct: Seq<(CellId, CellId)>, targets: Seq<CellId>) -> bool {
    &&& sorted_by_key::<(CellId, CellId)>(views(direct))
    &&& sorted_by_key::<CellId>(views(targets))
    &&& forall|t: CellView|
        value_set(targets).contains(t) <==> exists|d: CellView| value_set(direct).contains((t, d))
}

/// Records in the indexes that the formula at `cell` depends on what `deps` lists.
fn index_into(
    direct: &mut Vec<(CellId, CellId)>,
    targets: &mut Vec<CellId>,
    ranges: &mut Vec<(RangeDescriptor, CellId)>,
    cell: &CellId,
    deps: &Vec<DependencyDescriptor>,
)
    requires
        indexes_wf(old(direct)@, old(targets)@),
    ensures
        indexes_wf(final(direct)@, final(targets)@),
        value_set(final(direct)@) == value_set(old(direct)@).union(direct_entries(views(deps@), cell@)),
        views(final(ranges)@) == views(old(ranges)@) + range_entries(views(deps@), cell@),
{
    let ghost dv = views(deps@);
    let ghost c = cell@;
    let ghost start_direct = value_set(direct@);
    let ghost start_ranges = views(ranges@);
    let mut k: usize = 0;
    assert(direct_entries(dv.subrange(0, 0), c) =~= Set::<(CellView, CellView)>::empty());
    assert(start_direct.union(Set::empty()) =~= start_direct);
    assert(range_entries(dv.subrange(0, 0), c) =~= Seq::<(RangeView, CellView)>::empty());
    assert(start_ranges + Seq::empty() =~= start_ranges);
    while k < deps.len()
        invariant
            indexes_wf(direct@, targets@),
            dv == views(deps@),
            c == cell@,
            k <= deps@.len(),
            value_set(direct@) == start_direct.union(direct_entries(dv.subrange(0, k as int), c)),
            views(ranges@) == start_ranges + range_entries(dv.subrange(0, k as int), c),
        decreases deps.len() - k,
    {
        let ghost before = dv.subrange(0, k as int);
        let ghost after = dv.subrange(0, k + 1);
        assert(after.drop_last() =~= before);
        assert(after.last() == deps@[k as int]@);
        let ghost prev_direct = value_set(direct@);
        match &deps[k] {
            DependencyDescriptor::Cell(t) | DependencyDescriptor::Selector(t) => {
                let ghost tv = t@;
                let ghost prev_targets = value_set(targets@);
                assert(forall|t2: CellView| prev_targets.contains(t2) <==> exists|d: CellView|
                    prev_direct.contains((t2, d)));
                insert_sorted(direct, (t.duplicate(), cell.duplicate()));
                insert_sorted(targets, t.duplicate());
                assert(value_set(direct@) == prev_direct.insert((tv, c)));
                assert(range_entries(after, c) =~= range_entries(before, c));
                assert forall|p: (CellView, CellView)| direct_entries(after, c).contains(p) <==> (direct_entries(
                    before,
                    c,
                ).contains(p) || p == (tv, c)) by {
                    if direct_entries(after, c).contains(p) {
                        let m = choose|m: int|
                            0 <= m < after.len() && (#[trigger] after[m] == DependencyView::Cell(p.0) || after[m]
                                == DependencyView::Selector(p.0));
                        if m < k {
                            assert(before[m] == after[m]);
                        }
                    }
                    if direct_entries(before, c).contains(p) {
                        let m = choose|m: int|
                            0 <= m < before.len() && (#[trigger] before[m] == DependencyView::Cell(p.0) || before[m]
                                == DependencyView::Selector(p.0));
                        assert(after[m] == before[m]);
                    }
                    if p == (tv, c) {
                        assert(after[k as int] == deps@[k as int]@);
                    }
                }
                assert(value_set(direct@) =~= start_direct.union(direct_entries(after, c)));
                assert(forall|t2: CellView|
                    value_set(targets@).contains(t2) <==> exists|d: CellView|
                        value_set(direct@).contains((t2, d))) by {
                    assert forall|t2: CellView| value_set(targets@).contains(t2) implies exists|d: CellView|
                        value_set(direct@).contains((t2, d)) by {
                        if t2 == tv {
                            assert(value_set(direct@).contains((tv, c)));
                        } else {
                            assert(prev_targets.contains(t2));
                            let d = choose|d: CellView| prev_direct.contains((t2, d));
                            assert(value_set(direct@).contains((t2, d)));
                        }
                    }
                }
            },
            DependencyDescriptor::Range(r) => {
                let ghost rv = r@;
                let ghost old_ranges = ranges@;
                ranges.push((r.duplicate(), cell.duplicate()));
                assert(views(ranges@) =~= views(old_ranges).push((rv, c)));
                assert(range_entries(after, c) =~= range_entries(before, c) + seq![(rv, c)]);
                assert(views(ranges@) =~= start_ranges + range_entries(after, c));
                assert forall|p: (CellView, CellView)| direct_entries(after, c).contains(p) <==> direct_entries(
                    before,
                    c,
                ).contains(p) by {
                    if direct_entries(after, c).contains(p) {
                        let m = choose|m: int|
                            0 <= m < after.len() && (#[trigger] after[m] == DependencyView::Cell(p.0) || after[m]
                                == DependencyView::Selector(p.0));
                        if m < k {
                            assert(before[m] == after[m]);
                        }
                    }
                    if direct_entries(before, c).contains(p) {
                        let m = choose|m: int|
                            0 <= m < before.len() && (#[trigger] before[m] == DependencyView::Cell(p.0) || before[m]
                                == DependencyView::Selector(p.0));
                        assert(after[m] == before[m]);
                    }
                }
                assert(direct_entries(after, c) =~= direct_entries(before, c));
            },
            _ => {
                assert(range_entries(after, c) =~= range_entries(before, c));
                assert forall|p: (CellView, CellView)| direct_entries(after, c).contains(p) <==> direct_entries(
                    before,
                    c,
                ).contains(p) by {
                    if direct_entries(after, c).contains(p) {
                        let m = choose|m: int|
                            0 <= m < after.len() && (#[trigger] after[m] == DependencyView::Cell(p.0) || after[m]
                                == DependencyView::Selector(p.0));
                        if m < k {
                            assert(before[m] == after[m]);
                        }
                    }
                    if direct_entries(before, c).contains(p) {
                        let m = choose|m: int|
                            0 <= m < before.len() && (#[trigger] before[m] == DependencyView::Cell(p.0) || before[m]
                                == DependencyView::Selector(p.0));
                        assert(after[m] == before[m]);
                    }
                }
                assert(direct_entries(after, c) =~= direct_entries(before, c));
            },
        }
        k = k + 1;
    }
    assert(dv.subrange(0, k as int) =~= dv);
}

/// Counts that describe the size of a model.
#[derive(Clone, Copy, Debug, Default, PartialEq, Eq)]
pub struct PocModelStats {
    pub formula_count: usize,
    pub defined_name_count: usize,
    pub symbolic_dependency_descriptor_count: usize,
    pub persistent_relation_count: usize,
    pub invalidation_index_count: usize,
    pub memory_state_bytes: usize,
    pub opaque_formula_count: usize,
}

/// The sizes, in bytes, of the entries a model stores, as the target machine
/// lays them out.
#[derive(Clone, Copy, Debug)]
pub struct EntrySizes {
    pub cell_entry: usize,
    pub formula_entry: usize,
    pub descriptor: usize,
    pub name_record: usize,
}

/// `n` clipped at the largest `usize`.
pub open spec fn clip(n: int) -> usize {
    if n > usize::MAX {
        usize::MAX
    } else if n < 0 {
        0
    } else {
        n as usize
    }
}

/// The number of dependencies in a list of formulas.
pub open spec fn dependency_total(fl: Seq<FormulaView>) -> nat
    decreases fl.len(),
{
    if fl.len() == 0 {
        0
    } else {
        dependency_total(fl.drop_last()) + fl.last().dependencies.len()
    }
}

/// The number of dependencies of one kind in a list.
pub open spec fn kind_count(deps: Seq<DependencyView>, range_kind: bool) -> nat
    decreases deps.len(),
{
    if deps.len() == 0 {
        0
    } else {
        kind_count(deps.drop_last(), range_kind) + if (range_kind && deps.last() is Range) || (!range_kind
            && deps.last() is Name) {
            1nat
        } else {
            0nat
        }
    }
}

/// The number of range (`true`) or name (`false`) dependencies of a list of formulas.
pub open spec fn formulas_kind_count(fl: Seq<FormulaView>, range_kind: bool) -> nat
    decreases fl.len(),
{
    if fl.len() == 0 {
        0
    } else {
        formulas_kind_count(fl.drop_last(), range_kind) + kind_count(fl.last().dependencies, range_kind)
    }
}

fn saturating_product(a: usize, b: usize) -> (r: usize)
    ensures
        r == clip(a * b),
{
    match a.checked_mul(b) {
        Some(v) => v,
        None => usize::MAX,
    }
}

/// A cell after inserting `count` rows before row `before` of `sheet`: at or
/// below the insertion it moves down (stopping at the last row).
pub open spec fn shifted_cell(c: CellView, sheet: Seq<char>, before: u32, count: u32) -> CellView {
    if c.sheet == sheet && c.row >= before {
        CellView { row: crate::address::sat_add_u32(c.row, count), ..c }
    } else {
        c
    }
}

/// The formulas after inserting rows: each moves with its cell and gets the
/// dependencies `names` give it there; where two land on one cell, the later
/// in the list wins.
pub open spec fn shifted_formulas(
    fl: Seq<FormulaView>,
    names: Map<crate::names::NameKeyView, crate::names::NameDefinitionRecord>,
    sheet: Seq<char>,
    before: u32,
    count: u32,
) -> Map<CellView, FormulaView>
    decreases fl.len(),
{
    if fl.len() == 0 {
        Map::empty()
    } else {
        let f = fl.last();
        let a = shifted_cell(f.address, sheet, before, count);
        shifted_formulas(fl.drop_last(), names, sheet, before, count).insert(
            a,
            FormulaView {
                address: a,
                dependencies: sorted_list::<DependencyDescriptor>(static_dependencies(names, a.sheet, f.ast)),
                ..f
            },
        )
    }
}

/// The spill areas after inserting rows: each anchor moves with its cell;
/// where two land on one cell, the later in the list wins.
pub open spec fn shifted_spills(
    sl: Seq<crate::address::SpillView>,
    sheet: Seq<char>,
    before: u32,
    count: u32,
) -> Map<CellView, crate::address::SpillView>
    decreases sl.len(),
{
    if sl.len() == 0 {
        Map::empty()
    } else {
        let sp = sl.last();
        let a = shifted_cell(sp.anchor, sheet, before, count);
        shifted_spills(sl.drop_last(), sheet, before, count).insert(
            a,
            crate::address::SpillView { anchor: a, ..sp },
        )
    }
}

fn shift_address(c: &CellId, sheet: &str, before: u32, count: u32) -> (r: CellId)
    ensures
        r@ == shifted_cell(c@, sheet@, before, count),
{
    if c.row >= before && crate::text::text_equal(c.sheet.as_str(), sheet) {
        CellId { sheet: c.sheet.clone(), row: c.row.saturating_add(count), col: c.col }
    } else {
        c.duplicate()
    }
}

/// The dependency state of the engine.
pub struct PocEngine {
    formulas: Vec<FormulaRecord>,
    direct_dependents: Vec<(CellId, CellId)>,
    direct_targets: Vec<CellId>,
    range_dependents: Vec<(RangeDescriptor, CellId)>,
    names: NameRegistry,
    spills: Vec<SpillRef>,
    dirty: Vec<CellId>,
    data_generation: u64,
    structural_generation: u64,
    recalc_epoch: u64,
    settings: EngineSettings,
    bulk_loading: bool,
    opaque_formula_count: usize,
}

impl PocEngine {
    /// The formula records, in address order.
    pub closed spec fn formula_list(&self) -> Seq<FormulaView> {
        views(self.formulas@)
    }

    /// The formula records by address.
    pub open spec fn formulas(&self) -> Map<CellView, FormulaView> {
        filed_map::<FormulaRecord>(self.formula_list())
    }

    /// The direct index: (target, dependent) pairs.
    pub closed spec fn direct_index(&self) -> Set<(CellView, CellView)> {
        value_set(self.direct_dependents@)
    }

    /// The range index: (range, dependent) pairs in the order they were added.
    pub closed spec fn range_index(&self) -> Seq<(RangeView, CellView)> {
        views(self.range_dependents@)
    }

    /// The cells awaiting evaluation.
    pub closed spec fn dirty_cells(&self) -> Set<CellView> {
        value_set(self.dirty@)
    }

    /// The defined names.
    pub closed spec fn name_registry(&self) -> NameRegistry {
        self.names
    }

    /// Whether the engine is between `begin_bulk_load` and `finish_bulk_load`.
    pub closed spec fn loading(&self) -> bool {
        self.bulk_loading
    }

    /// The settings.
    pub closed spec fn settings_view(&self) -> EngineSettings {
        self.settings
    }

    /// The data generation: one more for every change of data or definitions.
    pub closed spec fn data_generation_view(&self) -> u64 {
        self.data_generation
    }

    /// The structural generation: one more for every row insertion.
    pub closed spec fn structural_generation_view(&self) -> u64 {
        self.structural_generation
    }

    /// The number of recalculations begun.
    pub closed spec fn recalc_epoch_view(&self) -> u64 {
        self.recalc_epoch
    }

    /// The number of formulas that could not be parsed.
    pub closed spec fn opaque_count_view(&self) -> usize {
        self.opaque_formula_count
    }

    /// The spill areas, in anchor order.
    pub closed spec fn spill_list(&self) -> Seq<crate::address::SpillView> {
        views(self.spills@)
    }

    /// The spill areas by anchor.
    pub open spec fn spill_map(&self) -> Map<CellView, crate::address::SpillView> {
        filed_map::<SpillRef>(self.spill_list())
    }

    /// Everything but the dirty set is as in `other`.
    pub open spec fn same_but_dirty(&self, other: &PocEngine) -> bool {
        &&& self.formula_list() == other.formula_list()
        &&& self.direct_index() == other.direct_index()
        &&& self.range_index() == other.range_index()
        &&& self.name_registry() == other.name_registry()
        &&& self.loading() == other.loading()
        &&& self.settings_view() == other.settings_view()
        &&& self.data_generation_view() == other.data_generation_view()
        &&& self.structural_generation_view() == other.structural_generation_view()
        &&& self.recalc_epoch_view() == other.recalc_epoch_view()
        &&& self.opaque_count_view() == other.opaque_count_view()
        &&& self.spill_map() == other.spill_map()
    }

    pub closed spec fn wf(&self) -> bool {
        &&& filed_sorted::<FormulaRecord>(views(self.formulas@))
        &&& indexes_wf(self.direct_dependents@, self.direct_targets@)
        &&& filed_sorted::<SpillRef>(views(self.spills@))
        &&& sorted_by_key::<CellId>(views(self.dirty@))
        &&& self.names.wf()
    }

    /// Adds `cell` to the dirty set.
    fn mark_dirty(&mut self, cell: CellId)
        requires
            old(self).wf(),
        ensures
            final(self).wf(),
            final(self).dirty_cells() == old(self).dirty_cells().insert(cell@),
            final(self).same_but_dirty(&*old(self)),
    {
        insert_sorted(&mut self.dirty, cell);
        assert(filed_sorted::<FormulaRecord>(views(self.formulas@)));
        assert(indexes_wf(self.direct_dependents@, self.direct_targets@));
        assert(filed_sorted::<SpillRef>(views(self.spills@)));
        assert(self.names.wf());
    }

    /// Marks dirty every formula that `event` invalidates: for a change of a
    /// sheet's structure every formula, else every formula with a dependency
    /// the change reaches and, transitively, every cell the indexes list as
    /// depending on one of those.
    pub fn mark_event(&mut self, event: &ChangeEvent)
        requires
            old(self).wf(),
        ensures
            final(self).wf(),
            final(self).same_but_dirty(&*old(self)),
            event is SheetStructure ==> final(self).dirty_cells() == old(self).dirty_cells().union(
                old(self).formulas().dom(),
            ),
            !(event is SheetStructure) ==> final(self).dirty_cells() == old(self).dirty_cells().union(
                affected_cells(
                    old(self).formulas(),
                    old(self).direct_index(),
                    old(self).range_index(),
                    event@,
                ),
            ),
    {
        let ghost fl = self.formula_list();
        let ghost fm = self.formulas();
        let ghost di = self.direct_index();
        let ghost ri = self.range_index();
        let ghost start_dirty = self.dirty_cells();
        if matches!(event, ChangeEvent::SheetStructure(_)) {
            let mut i: usize = 0;
            while i < self.formulas.len()
                invariant
                    self.wf(),
                    i <= self.formulas@.len(),
                    fl == self.formula_list(),
                fm == self.formulas(),
                    di == self.direct_index(),
                    ri == self.range_index(),
                    self.same_but_dirty(&*old(self)),
                    self.dirty_cells() == start_dirty.union(addresses(fl).subrange(0, i as int).to_set()),
                decreases self.formulas.len() - i,
            {
                let c = self.formulas[i].address.duplicate();
                let ghost before = self.dirty_cells();
                self.mark_dirty(c);
                assert(addresses(fl).subrange(0, i + 1) =~= addresses(fl).subrange(0, i as int).push(fl[i as int].address));
                proof {
                    addresses(fl).subrange(0, i as int).lemma_push_to_set_commute(fl[i as int].address);
                }
                assert(self.dirty_cells() =~= start_dirty.union(addresses(fl).subrange(0, i + 1).to_set()));
                i = i + 1;
            }
            assert(addresses(fl).subrange(0, i as int) =~= addresses(fl));
            assert forall|c: CellView| fm.dom().contains(c) <==> addresses(fl).to_set().contains(c) by {
                if fm.dom().contains(c) {
                    let j = choose|j: int| 0 <= j < fl.len() && fl[j].address == c;
                    assert(addresses(fl)[j] == c);
                }
                if addresses(fl).to_set().contains(c) {
                    let j = choose|j: int| 0 <= j < addresses(fl).len() && addresses(fl)[j] == c;
                    assert(fl[j].address == c);
                }
            }
            assert(fm.dom() =~= addresses(fl).to_set());
            return;
        }
        let ghost e = event@;
        let ghost universe = addresses(fl) + views(self.direct_dependents@).map_values(
            |p: (CellView, CellView)| p.1,
        ) + ri.map_values(|p: (RangeView, CellView)| p.1);
        let ghost target = affected_cells(fm, di, ri, e);
        let mut affected: Vec<CellId> = Vec::new();
        let mut queue: Vec<CellId> = Vec::new();
        let mut i: usize = 0;
        while i < self.formulas.len()
            invariant
                self.wf(),
                fl == self.formula_list(),
                fm == self.formulas(),
                e == event@,
                di == self.direct_index(),
                ri == self.range_index(),
                target == affected_cells(fm, di, ri, e),
                i <= fl.len(),
                sorted_by_key::<CellId>(views(affected@)),
                views(queue@).to_set() == value_set(affected@),
                queue@.len() == affected@.len(),
                forall|c: CellView| value_set(affected@).contains(c) ==> target.contains(c),
                forall|c: CellView| value_set(affected@).contains(c) ==> universe.contains(c),
                forall|j: int, k: int|
                    0 <= j < i && 0 <= k < fl[j].dependencies.len() && matches_event(
                        #[trigger] fl[j].dependencies[k],
                        e,
                    ) ==> value_set(affected@).contains(fl[j].address),
                universe == addresses(fl) + views(self.direct_dependents@).map_values(
                    |p: (CellView, CellView)| p.1,
                ) + ri.map_values(|p: (RangeView, CellView)| p.1),
            decreases fl.len() - i,
        {
            let record = &self.formulas[i];
            let mut hit = false;
            let mut k: usize = 0;
            while k < record.static_dependencies.len()
                invariant
                    0 <= i < fl.len(),
                    record@ == fl[i as int],
                    k <= fl[i as int].dependencies.len(),
                    hit <==> exists|m: int| 0 <= m < k && matches_event(#[trigger] fl[i as int].dependencies[m], e),
                    e == event@,
                decreases record.static_dependencies.len() - k,
            {
                assert(fl[i as int].dependencies[k as int] == record.static_dependencies@[k as int]@);
                if dependency_matches_event(&record.static_dependencies[k], event) {
                    hit = true;
                }
                k = k + 1;
            }
            if hit {
                let c = record.address.duplicate();
                let ghost cv = c@;
                proof {
                    let m = choose|m: int| 0 <= m < k && matches_event(#[trigger] fl[i as int].dependencies[m], e);
                    lemma_filed_map_index::<FormulaRecord>(fl, i as int);
                    assert(fm[cv].dependencies[m] == fl[i as int].dependencies[m]);
                    assert(seeded(fm, e, cv));
                    lemma_affected_seed(fm, di, ri, e, cv);
                    assert(addresses(fl)[i as int] == cv);
                    assert(universe[i as int] == cv);
                }
                let ghost qv = views(queue@);
                let added = insert_sorted(&mut affected, c.duplicate());
                if added {
                    queue.push(c);
                    assert(views(queue@) =~= qv.push(cv));
                    proof {
                        qv.lemma_push_to_set_commute(cv);
                    }
                }
                assert(views(queue@).to_set() =~= value_set(affected@));
            }
            i = i + 1;
        }
        proof {
            lemma_sorted_within::<CellId>(views(affected@), universe);
            assert forall|c: CellView| seeded(fm, e, c) implies value_set(affected@).contains(c) by {
                let j = choose|j: int| 0 <= j < fl.len() && fl[j].address == c;
                lemma_filed_map_index::<FormulaRecord>(fl, j);
                let k = choose|k: int| 0 <= k < fm[c].dependencies.len() && matches_event(#[trigger] fm[c].dependencies[k], e);
                assert(matches_event(fl[j].dependencies[k], e));
            }
        }
        let mut head: usize = 0;
        while head < queue.len()
            invariant
                self.wf(),
                fl == self.formula_list(),
                fm == self.formulas(),
                di == self.direct_index(),
                ri == self.range_index(),
                e == event@,
                target == affected_cells(fm, di, ri, e),
                head <= queue@.len(),
                sorted_by_key::<CellId>(views(affected@)),
                views(queue@).to_set() == value_set(affected@),
                queue@.len() == affected@.len(),
                affected@.len() <= universe.len(),
                forall|c: CellView| value_set(affected@).contains(c) ==> target.contains(c),
                forall|c: CellView| value_set(affected@).contains(c) ==> universe.contains(c),
                forall|c: CellView| seeded(fm, e, c) ==> value_set(affected@).contains(c),
                forall|j: int, d: CellView|
                    0 <= j < head && #[trigger] feeds(di, ri, views(queue@)[j], d) ==> value_set(
                        affected@,
                    ).contains(d),
                universe == addresses(fl) + views(self.direct_dependents@).map_values(
                    |p: (CellView, CellView)| p.1,
                ) + ri.map_values(|p: (RangeView, CellView)| p.1),
            decreases universe.len() - head,
        {
            let changed = queue[head].duplicate();
            let ghost cv = changed@;
            assert(views(queue@)[head as int] == cv);
            assert(views(queue@).to_set().contains(cv));
            let ghost qhead = head;
            let mut j: usize = 0;
            while j < self.direct_dependents.len()
                invariant
                    self.wf(),
                    di == self.direct_index(),
                    ri == self.range_index(),
                    fl == self.formula_list(),
                fm == self.formulas(),
                    e == event@,
                    head == qhead,
                    cv == changed@,
                    target == affected_cells(fm, di, ri, e),
                    head < queue@.len(),
                    views(queue@)[head as int] == cv,
                    target.contains(cv),
                    j <= self.direct_dependents@.len(),
                    sorted_by_key::<CellId>(views(affected@)),
                    views(queue@).to_set() == value_set(affected@),
                    queue@.len() == affected@.len(),
                    affected@.len() <= universe.len(),
                    forall|c: CellView| value_set(affected@).contains(c) ==> target.contains(c),
                    forall|c: CellView| value_set(affected@).contains(c) ==> universe.contains(c),
                    forall|c: CellView| seeded(fm, e, c) ==> value_set(affected@).contains(c),
                    forall|jj: int, d: CellView|
                        0 <= jj < head && #[trigger] feeds(di, ri, views(queue@)[jj], d) ==> value_set(
                            affected@,
                        ).contains(d),
                    forall|m: int|
                        0 <= m < j && (#[trigger] views(self.direct_dependents@)[m]).0 == cv ==> value_set(
                            affected@,
                        ).contains(views(self.direct_dependents@)[m].1),
                    universe == addresses(fl) + views(self.direct_dependents@).map_values(
                        |p: (CellView, CellView)| p.1,
                    ) + ri.map_values(|p: (RangeView, CellView)| p.1),
                decreases self.direct_dependents.len() - j,
            {
                assert(self.direct_dependents@[j as int]@ == (self.direct_dependents@[j as int].0@, self.direct_dependents@[j as int].1@));
                if self.direct_dependents[j].0.same(&changed) {
                    let d = self.direct_dependents[j].1.duplicate();
                    let ghost dv = d@;
                    proof {
                        assert(self.direct_dependents@[j as int]@ == (self.direct_dependents@[j as int].0@, self.direct_dependents@[j as int].1@));
                        assert(views(self.direct_dependents@)[j as int] == (cv, dv));
                        assert(di.contains((cv, dv)));
                        lemma_affected_extend(fm, di, ri, e, cv, dv);
                        let base = addresses(fl).len() as int;
                        assert(universe[base + j] == dv);
                    }
                    let ghost qv = views(queue@);
                    let added = insert_sorted(&mut affected, d.duplicate());
                    if added {
                        queue.push(d);
                        assert(views(queue@) =~= qv.push(dv));
                        proof {
                            qv.lemma_push_to_set_commute(dv);
                        }
                        assert(views(queue@)[head as int] == cv);
                        assert forall|jj: int| 0 <= jj < head implies #[trigger] views(queue@)[jj] == qv[jj] by {}
                    }
                    assert(views(queue@).to_set() =~= value_set(affected@));
                    proof {
                        assert forall|x: CellView| views(affected@).contains(x) implies universe.contains(x) by {
                            assert(value_set(affected@).contains(x));
                        }
                        lemma_sorted_within::<CellId>(views(affected@), universe);
                    }
                }
                j = j + 1;
            }
            let mut j: usize = 0;
            while j < self.range_dependents.len()
                invariant
                    self.wf(),
                    di == self.direct_index(),
                    ri == self.range_index(),
                    fl == self.formula_list(),
                fm == self.formulas(),
                    e == event@,
                    head == qhead,
                    cv == changed@,
                    target == affected_cells(fm, di, ri, e),
                    head < queue@.len(),
                    views(queue@)[head as int] == cv,
                    target.contains(cv),
                    j <= ri.len(),
                    sorted_by_key::<CellId>(views(affected@)),
                    views(queue@).to_set() == value_set(affected@),
                    queue@.len() == affected@.len(),
                    affected@.len() <= universe.len(),
                    forall|c: CellView| value_set(affected@).contains(c) ==> target.contains(c),
                    forall|c: CellView| value_set(affected@).contains(c) ==> universe.contains(c),
                    forall|c: CellView| seeded(fm, e, c) ==> value_set(affected@).contains(c),
                    forall|jj: int, d: CellView|
                        0 <= jj < head && #[trigger] feeds(di, ri, views(queue@)[jj], d) ==> value_set(
                            affected@,
                        ).contains(d),
                    forall|d: CellView| di.contains((cv, d)) ==> value_set(affected@).contains(d),
                    forall|m: int|
                        0 <= m < j && range_contains(#[trigger] ri[m].0, cv) ==> value_set(affected@).contains(
                            ri[m].1,
                        ),
                    universe == addresses(fl) + views(self.direct_dependents@).map_values(
                        |p: (CellView, CellView)| p.1,
                    ) + ri.map_values(|p: (RangeView, CellView)| p.1),
                decreases self.range_dependents.len() - j,
            {
                assert(self.range_dependents@[j as int]@ == (self.range_dependents@[j as int].0@, self.range_dependents@[j as int].1@));
                if self.range_dependents[j].0.contains(&changed) {
                    let d = self.range_dependents[j].1.duplicate();
                    let ghost dv = d@;
                    proof {
                        assert(self.range_dependents@[j as int]@ == (self.range_dependents@[j as int].0@, self.range_dependents@[j as int].1@));
                        assert(ri[j as int] == (self.range_dependents@[j as int].0@, dv));
                        assert(range_contains(ri[j as int].0, cv));
                        assert(feeds(di, ri, cv, dv));
                        lemma_affected_extend(fm, di, ri, e, cv, dv);
                        let base = addresses(fl).len() + self.direct_dependents@.len();
                        assert(universe[base + j] == dv);
                    }
                    let ghost qv = views(queue@);
                    let added = insert_sorted(&mut affected, d.duplicate());
                    if added {
                        queue.push(d);
                        assert(views(queue@) =~= qv.push(dv));
                        proof {
                            qv.lemma_push_to_set_commute(dv);
                        }
                        assert(views(queue@)[head as int] == cv);
                        assert forall|jj: int| 0 <= jj < head implies #[trigger] views(queue@)[jj] == qv[jj] by {}
                    }
                    assert(views(queue@).to_set() =~= value_set(affected@));
                    proof {
                        assert forall|x: CellView| views(affected@).contains(x) implies universe.contains(x) by {
                            assert(value_set(affected@).contains(x));
                        }
                        lemma_sorted_within::<CellId>(views(affected@), universe);
                    }
                }
                j = j + 1;
            }
            proof {
                assert forall|d: CellView| feeds(di, ri, cv, d) implies value_set(affected@).contains(d) by {
                    if !di.contains((cv, d)) {
                        let m = choose|m: int| 0 <= m < ri.len() && ri[m].1 == d && range_contains(#[trigger] ri[m].0, cv);
                    }
                }
            }
            head = head + 1;
        }
        proof {
            let a = value_set(affected@);
            assert forall|c: CellView, d: CellView| a.contains(c) && feeds(di, ri, c, d) implies a.contains(d) by {
                assert(views(queue@).to_set().contains(c));
                let jj = choose|jj: int| 0 <= jj < views(queue@).len() && views(queue@)[jj] == c;
            }
            assert forall|d: CellView| target.contains(d) implies a.contains(d) by {
                let p = choose|p: Seq<CellView>|
                    p.len() > 0 && is_chain(di, ri, p) && seeded(fm, e, p[0]) && #[trigger] p.last() == d;
                lemma_closed_covers(fm, di, ri, e, a, p);
            }
            assert(a =~= target);
        }
        let mut m: usize = 0;
        while m < affected.len()
            invariant
                self.wf(),
                fl == self.formula_list(),
                fm == self.formulas(),
                di == self.direct_index(),
                ri == self.range_index(),
                self.same_but_dirty(&*old(self)),
                m <= affected@.len(),
                self.dirty_cells() == start_dirty.union(views(affected@).subrange(0, m as int).to_set()),
            decreases affected.len() - m,
        {
            let c = affected[m].duplicate();
            self.mark_dirty(c);
            assert(views(affected@).subrange(0, m + 1) =~= views(affected@).subrange(0, m as int).push(affected@[m as int]@));
            proof {
                views(affected@).subrange(0, m as int).lemma_push_to_set_commute(affected@[m as int]@);
            }
            assert(self.dirty_cells() =~= start_dirty.union(views(affected@).subrange(0, m + 1).to_set()));
            m = m + 1;
        }
        assert(views(affected@).subrange(0, m as int) =~= views(affected@));
    }

    /// An engine with no formulas, names or spills; iterative cycle solving
    /// with at most 32 passes, static cycle diagnostics on, no read tracking,
    /// and a diagnostic limit of 100000 records.
    pub fn new() -> (r: PocEngine)
        ensures
            r.wf(),
            r.formulas() == Map::<CellView, FormulaView>::empty(),
            r.formula_list() == Seq::<FormulaView>::empty(),
            r.direct_index() == Set::<(CellView, CellView)>::empty(),
            r.range_index() == Seq::<(RangeView, CellView)>::empty(),
            r.dirty_cells() == Set::<CellView>::empty(),
            r.name_registry().records().len() == 0,
            r.name_registry().records() == Map::<crate::names::NameKeyView, crate::names::NameDefinitionRecord>::empty(),
            r.spill_map() == Map::<CellView, crate::address::SpillView>::empty(),
            !r.loading(),
            r.settings_view() == (EngineSettings {
                max_iterations: 32,
                iterative: true,
                static_cycle_diagnostics: true,
                track_formula_reads: false,
                diagnostic_trace_limit: 100000,
            }),
            r.data_generation_view() == 0,
            r.structural_generation_view() == 0,
            r.recalc_epoch_view() == 0,
            r.opaque_count_view() == 0,
    {
        let r = PocEngine {
            formulas: Vec::new(),
            direct_dependents: Vec::new(),
            direct_targets: Vec::new(),
            range_dependents: Vec::new(),
            names: NameRegistry::new(),
            spills: Vec::new(),
            dirty: Vec::new(),
            data_generation: 0,
            structural_generation: 0,
            recalc_epoch: 0,
            settings: EngineSettings {
                max_iterations: 32,
                iterative: true,
                static_cycle_diagnostics: true,
                track_formula_reads: false,
                diagnostic_trace_limit: 100000,
            },
            bulk_loading: false,
            opaque_formula_count: 0,
        };
        assert(r.formulas() =~= Map::<CellView, FormulaView>::empty());
        assert(r.formula_list() =~= Seq::<FormulaView>::empty());
        assert(r.direct_index() =~= Set::<(CellView, CellView)>::empty());
        assert(r.range_index() =~= Seq::<(RangeView, CellView)>::empty());
        assert(r.dirty_cells() =~= Set::<CellView>::empty());
        assert(r.spill_map() =~= Map::<CellView, crate::address::SpillView>::empty());
        r
    }

    /// The current settings.
    pub fn settings(&self) -> (r: EngineSettings)
        ensures
            r == self.settings_view(),
    {
        self.settings
    }

    /// Iterative cycle solving with at most `max_iterations` passes (at least one).
    pub fn with_iteration(self, max_iterations: usize) -> (r: PocEngine)
        requires
            self.wf(),
        ensures
            r.wf(),
            r.settings_view() == (EngineSettings {
                max_iterations: if max_iterations < 1 { 1 } else { max_iterations },
                iterative: true,
                ..self.settings_view()
            }),
            r.dirty_cells() == self.dirty_cells(),
            r.same_but_settings(&self),
    {
        let mut r = self;
        r.settings.max_iterations = if max_iterations < 1 { 1 } else { max_iterations };
        r.settings.iterative = true;
        r
    }

    /// Cells on a cycle get a circular-reference error instead of iterating.
    pub fn with_cycle_error(self) -> (r: PocEngine)
        requires
            self.wf(),
        ensures
            r.wf(),
            r.settings_view() == (EngineSettings { iterative: false, ..self.settings_view() }),
            r.dirty_cells() == self.dirty_cells(),
            r.same_but_settings(&self),
    {
        let mut r = self;
        r.settings.iterative = false;
        r
    }

    /// Turns static cycle diagnostics on or off.
    pub fn with_static_cycle_diagnostics(self, enabled: bool) -> (r: PocEngine)
        requires
            self.wf(),
        ensures
            r.wf(),
            r.settings_view() == (EngineSettings { static_cycle_diagnostics: enabled, ..self.settings_view() }),
            r.dirty_cells() == self.dirty_cells(),
            r.same_but_settings(&self),
    {
        let mut r = self;
        r.settings.static_cycle_diagnostics = enabled;
        r
    }

    /// Turns per-formula read tracing on or off.
    pub fn with_formula_read_tracking(self, enabled: bool) -> (r: PocEngine)
        requires
            self.wf(),
        ensures
            r.wf(),
            r.settings_view() == (EngineSettings { track_formula_reads: enabled, ..self.settings_view() }),
            r.dirty_cells() == self.dirty_cells(),
            r.same_but_settings(&self),
    {
        let mut r = self;
        r.settings.track_formula_reads = enabled;
        r
    }

    /// Sets how many diagnostic records a trace keeps (at least one).
    pub fn with_diagnostic_trace_limit(self, limit: usize) -> (r: PocEngine)
        requires
            self.wf(),
        ensures
            r.wf(),
            r.settings_view() == (EngineSettings {
                diagnostic_trace_limit: if limit < 1 { 1 } else { limit },
                ..self.settings_view()
            }),
            r.dirty_cells() == self.dirty_cells(),
            r.same_but_settings(&self),
    {
        let mut r = self;
        r.settings.diagnostic_trace_limit = if limit < 1 { 1 } else { limit };
        r
    }

    /// Sets how many diagnostic records a trace keeps (at least one).
    pub fn set_diagnostic_trace_limit(&mut self, limit: usize)
        requires
            old(self).wf(),
        ensures
            final(self).wf(),
            final(self).settings_view() == (EngineSettings {
                diagnostic_trace_limit: if limit < 1 { 1 } else { limit },
                ..old(self).settings_view()
            }),
            final(self).dirty_cells() == old(self).dirty_cells(),
            final(self).same_but_settings(&*old(self)),
    {
        self.settings.diagnostic_trace_limit = if limit < 1 { 1 } else { limit };
    }

    /// Turns per-formula read tracing on.
    pub fn enable_formula_read_tracking(&mut self)
        requires
            old(self).wf(),
        ensures
            final(self).wf(),
            final(self).settings_view() == (EngineSettings { track_formula_reads: true, ..old(self).settings_view() }),
            final(self).dirty_cells() == old(self).dirty_cells(),
            final(self).same_but_settings(&*old(self)),
    {
        self.settings.track_formula_reads = true;
    }

    /// Everything but the settings and the dirty set is as in `other`.
    pub open spec fn same_but_settings(&self, other: &PocEngine) -> bool {
        &&& self.formula_list() == other.formula_list()
        &&& self.direct_index() == other.direct_index()
        &&& self.range_index() == other.range_index()
        &&& self.name_registry() == other.name_registry()
        &&& self.loading() == other.loading()
        &&& self.data_generation_view() == other.data_generation_view()
        &&& self.structural_generation_view() == other.structural_generation_view()
        &&& self.recalc_epoch_view() == other.recalc_epoch_view()
        &&& self.opaque_count_view() == other.opaque_count_view()
        &&& self.spill_map() == other.spill_map()
    }

    /// Everything but the two indexes is as in `other`.
    pub open spec fn same_but_indexes(&self, other: &PocEngine) -> bool {
        &&& self.formula_list() == other.formula_list()
        &&& self.dirty_cells() == other.dirty_cells()
        &&& self.name_registry() == other.name_registry()
        &&& self.loading() == other.loading()
        &&& self.settings_view() == other.settings_view()
        &&& self.data_generation_view() == other.data_generation_view()
        &&& self.structural_generation_view() == other.structural_generation_view()
        &&& self.recalc_epoch_view() == other.recalc_epoch_view()
        &&& self.opaque_count_view() == other.opaque_count_view()
        &&& self.spill_map() == other.spill_map()
    }

    /// Rebuilds both indexes from the formulas' static dependencies.
    pub fn rebuild_invalidation_indexes(&mut self)
        requires
            old(self).wf(),
        ensures
            final(self).wf(),
            final(self).same_but_indexes(&*old(self)),
            final(self).direct_index() == all_direct_entries(old(self).formula_list()),
            final(self).range_index() == all_range_entries(old(self).formula_list()),
    {
        let ghost fl = self.formula_list();
        self.direct_dependents = Vec::new();
        self.direct_targets = Vec::new();
        self.range_dependents = Vec::new();
        assert(self.direct_index() =~= Set::<(CellView, CellView)>::empty());
        assert(self.range_index() =~= Seq::<(RangeView, CellView)>::empty());
        assert(fl.subrange(0, 0) =~= Seq::<FormulaView>::empty());
        let mut i: usize = 0;
        while i < self.formulas.len()
            invariant
                self.wf(),
                self.same_but_indexes(&*old(self)),
                fl == self.formula_list(),
                i <= fl.len(),
                self.direct_index() == all_direct_entries(fl.subrange(0, i as int)),
                self.range_index() == all_range_entries(fl.subrange(0, i as int)),
            decreases fl.len() - i,
        {
            assert(fl.subrange(0, i + 1).drop_last() =~= fl.subrange(0, i as int));
            assert(fl.subrange(0, i + 1).last() == self.formulas@[i as int]@);
            index_into(
                &mut self.direct_dependents,
                &mut self.direct_targets,
                &mut self.range_dependents,
                &self.formulas[i].address,
                &self.formulas[i].static_dependencies,
            );
            i = i + 1;
        }
        assert(fl.subrange(0, i as int) =~= fl);
    }

    /// Starts loading: changes mark nothing dirty until the load finishes.
    pub fn begin_bulk_load(&mut self)
        requires
            old(self).wf(),
        ensures
            final(self).wf(),
            final(self).loading(),
            final(self).dirty_cells() == Set::<CellView>::empty(),
            final(self).formula_list() == old(self).formula_list(),
            final(self).direct_index() == old(self).direct_index(),
            final(self).range_index() == old(self).range_index(),
            final(self).name_registry() == old(self).name_registry(),
            final(self).settings_view() == old(self).settings_view(),
            final(self).data_generation_view() == old(self).data_generation_view(),
            final(self).structural_generation_view() == old(self).structural_generation_view(),
            final(self).recalc_epoch_view() == old(self).recalc_epoch_view(),
            final(self).opaque_count_view() == old(self).opaque_count_view(),
            final(self).spill_map() == old(self).spill_map(),
    {
        self.bulk_loading = true;
        self.dirty = Vec::new();
        assert(self.dirty_cells() =~= Set::<CellView>::empty());
    }

    /// Finishes loading: rebuilds the indexes and marks every formula dirty.
    pub fn finish_bulk_load(&mut self)
        requires
            old(self).wf(),
        ensures
            final(self).wf(),
            !final(self).loading(),
            final(self).dirty_cells() == old(self).dirty_cells().union(old(self).formulas().dom()),
            final(self).formula_list() == old(self).formula_list(),
            final(self).direct_index() == all_direct_entries(old(self).formula_list()),
            final(self).range_index() == all_range_entries(old(self).formula_list()),
            final(self).name_registry() == old(self).name_registry(),
            final(self).settings_view() == old(self).settings_view(),
            final(self).data_generation_view() == old(self).data_generation_view(),
            final(self).structural_generation_view() == old(self).structural_generation_view(),
            final(self).recalc_epoch_view() == old(self).recalc_epoch_view(),
            final(self).opaque_count_view() == old(self).opaque_count_view(),
            final(self).spill_map() == old(self).spill_map(),
    {
        self.bulk_loading = false;
        self.rebuild_invalidation_indexes();
        let ghost fl = self.formula_list();
        let ghost fm = self.formulas();
        let ghost start_dirty = self.dirty_cells();
        let ghost mid = *self;
        let mut i: usize = 0;
        while i < self.formulas.len()
            invariant
                self.wf(),
                self.same_but_dirty(&mid),
                fl == self.formula_list(),
                fm == self.formulas(),
                i <= fl.len(),
                self.dirty_cells() == start_dirty.union(addresses(fl).subrange(0, i as int).to_set()),
            decreases fl.len() - i,
        {
            let c = self.formulas[i].address.duplicate();
            self.mark_dirty(c);
            assert(addresses(fl).subrange(0, i + 1) =~= addresses(fl).subrange(0, i as int).push(fl[i as int].address));
            proof {
                addresses(fl).subrange(0, i as int).lemma_push_to_set_commute(fl[i as int].address);
            }
            assert(self.dirty_cells() =~= start_dirty.union(addresses(fl).subrange(0, i + 1).to_set()));
            i = i + 1;
        }
        assert(addresses(fl).subrange(0, i as int) =~= addresses(fl));
        assert forall|c: CellView| fm.dom().contains(c) <==> addresses(fl).to_set().contains(c) by {
            if fm.dom().contains(c) {
                let j = choose|j: int| 0 <= j < fl.len() && fl[j].address == c;
                assert(addresses(fl)[j] == c);
            }
            if addresses(fl).to_set().contains(c) {
                let j = choose|j: int| 0 <= j < addresses(fl).len() && addresses(fl)[j] == c;
                assert(fl[j].address == c);
            }
        }
        assert(fm.dom() =~= addresses(fl).to_set());
    }

    /// Whether some range of the range index covers `cell`.
    fn range_index_covers(&self, cell: &CellId) -> (r: bool)
        ensures
            r == exists|i: int| 0 <= i < self.range_index().len() && range_contains(#[trigger] self.range_index()[i].0, cell@),
    {
        let mut i: usize = 0;
        while i < self.range_dependents.len()
            invariant
                i <= self.range_dependents@.len(),
                forall|j: int| 0 <= j < i ==> !range_contains(#[trigger] self.range_index()[j].0, cell@),
            decreases self.range_dependents.len() - i,
        {
            assert(self.range_index()[i as int] == self.range_dependents@[i as int]@);
            assert(self.range_dependents@[i as int]@ == (self.range_dependents@[i as int].0@, self.range_dependents@[i as int].1@));
            if self.range_dependents[i].0.contains(cell) {
                assert(range_contains(self.range_index()[i as int].0, cell@));
                return true;
            }
            i = i + 1;
        }
        false
    }

    /// Whether a change of `cell` reaches something in the engine: a formula
    /// stored there, or an index entry for it.
    pub open spec fn change_reaches(&self, cell: CellView) -> bool {
        ||| self.formulas().contains_key(cell)
        ||| (exists|d: CellView| self.direct_index().contains((cell, d)))
        ||| (exists|i: int| 0 <= i < self.range_index().len() && range_contains(#[trigger] self.range_index()[i].0, cell))
    }

    /// Stores the formula written at (`sheet`, `row`, `col`) with its static
    /// dependencies and adds them to the indexes. Outside a bulk load, when the
    /// cell held a formula before or something depends on it, marks dirty what
    /// that change invalidates. Marks the cell itself dirty.
    pub fn set_formula(&mut self, sheet: String, row: u32, col: u32, source: &str, ast: FormulaAst) -> (cell: CellId)
        requires
            old(self).wf(),
            expansion_finishes(old(self).name_registry().records(), sheet@, ast),
        ensures
            final(self).wf(),
            cell@ == (CellView { sheet: sheet@, row, col }),
            final(self).data_generation_view() == sat_add_u64(old(self).data_generation_view(), 1),
            final(self).formulas() == old(self).formulas().insert(cell@, final(self).formulas()[cell@]),
            final(self).formulas()[cell@].address == cell@,
            final(self).formulas()[cell@].source == source@,
            final(self).formulas()[cell@].ast == ast,
            final(self).formulas()[cell@].generation == final(self).data_generation_view(),
            final(self).formulas()[cell@].dependencies == sorted_list::<DependencyDescriptor>(
                static_dependencies(old(self).name_registry().records(), sheet@, ast),
            ),
            final(self).direct_index() == old(self).direct_index().union(
                direct_entries(final(self).formulas()[cell@].dependencies, cell@),
            ),
            final(self).range_index() == old(self).range_index() + range_entries(
                final(self).formulas()[cell@].dependencies,
                cell@,
            ),
            final(self).dirty_cells() == (if !old(self).loading() && old(self).change_reaches(cell@) {
                old(self).dirty_cells().union(
                    affected_cells(
                        final(self).formulas(),
                        final(self).direct_index(),
                        final(self).range_index(),
                        ChangeView::Cell(cell@),
                    ),
                )
            } else {
                old(self).dirty_cells()
            }).insert(cell@),
            final(self).name_registry() == old(self).name_registry(),
            final(self).loading() == old(self).loading(),
            final(self).settings_view() == old(self).settings_view(),
            final(self).structural_generation_view() == old(self).structural_generation_view(),
            final(self).recalc_epoch_view() == old(self).recalc_epoch_view(),
            final(self).opaque_count_view() == old(self).opaque_count_view(),
            final(self).spill_map() == old(self).spill_map(),
    {
        let cell = CellId::new(sheet, row, col);
        assert(indexes_wf(self.direct_dependents@, self.direct_targets@));
        assert(value_set(self.direct_targets@).contains(cell@) <==> exists|d: CellView|
            value_set(self.direct_dependents@).contains((cell@, d)));
        assert((exists|d: CellView| value_set(self.direct_dependents@).contains((cell@, d))) <==> (exists|d: CellView|
            self.direct_index().contains((cell@, d)))) by {
            if exists|d: CellView| value_set(self.direct_dependents@).contains((cell@, d)) {
                let d = choose|d: CellView| value_set(self.direct_dependents@).contains((cell@, d));
                assert(self.direct_index().contains((cell@, d)));
            }
            if exists|d: CellView| self.direct_index().contains((cell@, d)) {
                let d = choose|d: CellView| self.direct_index().contains((cell@, d));
                assert(value_set(self.direct_dependents@).contains((cell@, d)));
            }
        }
        let had_existing = find_filed(&self.formulas, &cell).is_some();
        let mut had_direct = false;
        if !self.bulk_loading {
            had_direct = sorted_contains(&self.direct_targets, &cell);
        }
        assert(had_direct == (!self.bulk_loading && value_set(self.direct_targets@).contains(cell@)));
        let had_range = !self.bulk_loading && self.range_index_covers(&cell);
        assert(had_existing == self.formulas().contains_key(cell@));
        assert(had_direct == (!self.loading() && exists|d: CellView| self.direct_index().contains((cell@, d))));
        assert((!self.loading() && (had_existing || had_direct || had_range)) == (!self.loading()
            && self.change_reaches(cell@)));
        self.data_generation = self.data_generation.saturating_add(1);
        let deps = collect_invalidation_dependencies(&ast, cell.sheet.as_str(), &self.names);
        index_into(
            &mut self.direct_dependents,
            &mut self.direct_targets,
            &mut self.range_dependents,
            &cell,
            &deps,
        );
        let record = FormulaRecord {
            address: cell.duplicate(),
            source: string_of(source),
            ast,
            generation: self.data_generation,
            static_dependencies: deps,
        };
        let ghost rv = record@;
        file_item(&mut self.formulas, record);
        assert(self.formulas()[cell@] == rv);
        if !self.bulk_loading && (had_existing || had_direct || had_range) {
            self.mark_event(&ChangeEvent::Cell(cell.duplicate()));
        }
        self.mark_dirty(cell.duplicate());
        cell
    }

    /// The formula at `cell` is replaced by a value: the record goes, and
    /// outside a bulk load whatever the change of `cell` invalidates is marked
    /// dirty. Returns the cell.
    pub fn set_cell_value(&mut self, sheet: String, row: u32, col: u32) -> (cell: CellId)
        requires
            old(self).wf(),
        ensures
            final(self).wf(),
            cell@ == (CellView { sheet: sheet@, row, col }),
            final(self).data_generation_view() == sat_add_u64(old(self).data_generation_view(), 1),
            final(self).formulas() == old(self).formulas().remove(cell@),
            final(self).direct_index() == old(self).direct_index(),
            final(self).range_index() == old(self).range_index(),
            final(self).dirty_cells() == (if !old(self).loading() {
                old(self).dirty_cells().union(
                    affected_cells(
                        final(self).formulas(),
                        final(self).direct_index(),
                        final(self).range_index(),
                        ChangeView::Cell(cell@),
                    ),
                )
            } else {
                old(self).dirty_cells()
            }),
            final(self).name_registry() == old(self).name_registry(),
            final(self).loading() == old(self).loading(),
            final(self).settings_view() == old(self).settings_view(),
            final(self).structural_generation_view() == old(self).structural_generation_view(),
            final(self).recalc_epoch_view() == old(self).recalc_epoch_view(),
            final(self).opaque_count_view() == old(self).opaque_count_view(),
            final(self).spill_map() == old(self).spill_map(),
    {
        let cell = CellId::new(sheet, row, col);
        self.data_generation = self.data_generation.saturating_add(1);
        unfile(&mut self.formulas, &cell);
        if !self.bulk_loading {
            self.mark_event(&ChangeEvent::Cell(cell.duplicate()));
        }
        cell
    }

    /// Everything but the formula records' dependencies and generations, and
    /// the dirty set, is as in `other`.
    pub open spec fn same_but_records(&self, other: &PocEngine) -> bool {
        &&& self.direct_index() == other.direct_index()
        &&& self.range_index() == other.range_index()
        &&& self.loading() == other.loading()
        &&& self.settings_view() == other.settings_view()
        &&& self.structural_generation_view() == other.structural_generation_view()
        &&& self.recalc_epoch_view() == other.recalc_epoch_view()
        &&& self.opaque_count_view() == other.opaque_count_view()
        &&& self.spill_map() == other.spill_map()
    }

    /// Every formula of `before` is in `after` at the same place with the same
    /// text and expression, stamped with `generation`, and with the static
    /// dependencies that `names` gives it.
    pub open spec fn refreshed(
        before: Map<CellView, FormulaView>,
        after: Map<CellView, FormulaView>,
        names: Map<crate::names::NameKeyView, crate::names::NameDefinitionRecord>,
        generation: u64,
    ) -> bool {
        &&& after.dom() == before.dom()
        &&& forall|c: CellView|
            #![trigger after[c]]
            before.contains_key(c) ==> {
                &&& after[c].address == before[c].address
                &&& after[c].source == before[c].source
                &&& after[c].ast == before[c].ast
                &&& after[c].generation == generation
                &&& after[c].dependencies == sorted_list::<DependencyDescriptor>(
                    static_dependencies(names, c.sheet, before[c].ast),
                )
            }
    }

    /// Recomputes every formula's static dependencies with the current names.
    fn refresh_dependencies(&mut self)
        requires
            old(self).wf(),
            forall|c: CellView|
                old(self).formulas().contains_key(c) ==> expansion_finishes(
                    old(self).name_registry().records(),
                    c.sheet,
                    #[trigger] old(self).formulas()[c].ast,
                ),
        ensures
            final(self).wf(),
            final(self).same_but_records(&*old(self)),
            final(self).dirty_cells() == old(self).dirty_cells(),
            final(self).name_registry() == old(self).name_registry(),
            final(self).data_generation_view() == old(self).data_generation_view(),
            Self::refreshed(
                old(self).formulas(),
                final(self).formulas(),
                old(self).name_registry().records(),
                old(self).data_generation_view(),
            ),
    {
        let ghost fl = self.formula_list();
        let ghost fm = self.formulas();
        let ghost names = self.names.records();
        let ghost generation = self.data_generation;
        proof {
            assert forall|k: int| 0 <= k < fl.len() implies expansion_finishes(names, fl[k].address.sheet, #[trigger] fl[k].ast) by {
                lemma_filed_map_index::<FormulaRecord>(fl, k);
            }
        }
        let mut i: usize = 0;
        while i < self.formulas.len()
            invariant
                self.wf(),
                self.same_but_records(&*old(self)),
                self.dirty_cells() == old(self).dirty_cells(),
                self.name_registry() == old(self).name_registry(),
                names == self.names.records(),
                self.data_generation == generation,
                fl == old(self).formula_list(),
                filed_sorted::<FormulaRecord>(fl),
                self.formula_list().len() == fl.len(),
                i <= fl.len(),
                forall|k: int| 0 <= k < fl.len() ==> expansion_finishes(names, fl[k].address.sheet, #[trigger] fl[k].ast),
                forall|k: int|
                    #![trigger self.formula_list()[k]]
                    0 <= k < i ==> {
                        &&& self.formula_list()[k].address == fl[k].address
                        &&& self.formula_list()[k].source == fl[k].source
                        &&& self.formula_list()[k].ast == fl[k].ast
                        &&& self.formula_list()[k].generation == generation
                        &&& self.formula_list()[k].dependencies == sorted_list::<DependencyDescriptor>(
                            static_dependencies(names, fl[k].address.sheet, fl[k].ast),
                        )
                    },
                forall|k: int| #![trigger self.formula_list()[k]] i <= k < fl.len() ==> self.formula_list()[k] == fl[k],
            decreases fl.len() - i,
        {
            let mut record = FormulaRecord {
                address: CellId::new(String::new(), 0, 0),
                source: String::new(),
                ast: FormulaAst::Omitted,
                generation: 0,
                static_dependencies: Vec::new(),
            };
            let ghost before_list = self.formula_list();
            assert(self.formula_list()[i as int] == fl[i as int]);
            assert(self.formulas@[i as int]@ == fl[i as int]);
            self.formulas.set_and_swap(i, &mut record);
            assert(record@ == fl[i as int]);
            let deps = collect_invalidation_dependencies(&record.ast, record.address.sheet.as_str(), &self.names);
            record.static_dependencies = deps;
            record.generation = self.data_generation;
            let ghost rv = record@;
            self.formulas.set(i, record);
            assert(self.formula_list() =~= before_list.update(i as int, rv));
            assert forall|k: int| 0 <= k < fl.len() implies #[trigger] self.formula_list()[k].address == fl[k].address by {
                if k < i {
                } else if k > i {
                    assert(self.formula_list()[k] == before_list[k]);
                }
            }
            assert forall|a: int, b: int| 0 <= a < b < self.formula_list().len() implies crate::order::key_lt(
                CellId::sort_key(FormulaRecord::filed_under(self.formula_list()[a])),
                CellId::sort_key(FormulaRecord::filed_under(self.formula_list()[b])),
            ) by {
                assert(self.formula_list()[a].address == fl[a].address);
                assert(self.formula_list()[b].address == fl[b].address);
                assert(crate::order::key_lt(
                    CellId::sort_key(FormulaRecord::filed_under(fl[a])),
                    CellId::sort_key(FormulaRecord::filed_under(fl[b])),
                ));
            }
            i = i + 1;
        }
        proof {
            let nl = self.formula_list();
            let nm = self.formulas();
            assert forall|c: CellView| nm.dom().contains(c) <==> fm.dom().contains(c) by {
                if nm.dom().contains(c) {
                    let k = choose|k: int| 0 <= k < nl.len() && nl[k].address == c;
                    assert(fl[k].address == c);
                }
                if fm.dom().contains(c) {
                    let k = choose|k: int| 0 <= k < fl.len() && fl[k].address == c;
                    assert(nl[k].address == c);
                }
            }
            assert(nm.dom() =~= fm.dom());
            assert forall|c: CellView| #![trigger nm[c]] fm.contains_key(c) implies {
                &&& nm[c].address == fm[c].address
                &&& nm[c].source == fm[c].source
                &&& nm[c].ast == fm[c].ast
                &&& nm[c].generation == generation
                &&& nm[c].dependencies == sorted_list::<DependencyDescriptor>(
                    static_dependencies(names, c.sheet, fm[c].ast),
                )
            } by {
                let k = choose|k: int| 0 <= k < fl.len() && fl[k].address == c;
                lemma_filed_map_index::<FormulaRecord>(fl, k);
                lemma_filed_map_index::<FormulaRecord>(nl, k);
                assert(nl[k].address == c);
            }
        }
    }

    /// Defines (or redefines) a name, recomputes every formula's static
    /// dependencies with it, and marks dirty what the change of the name
    /// invalidates.
    pub fn define_name(
        &mut self,
        name: String,
        scope: NameScope,
        scope_sheet: Option<String>,
        definition: NameDefinition,
    ) -> (id: NameId)
        requires
            old(self).wf(),
            forall|c: CellView|
                old(self).formulas().contains_key(c) ==> expansion_finishes(
                    records_after_define(
                        old(self).name_registry().records(),
                        old(self).name_registry().next_id_value(),
                        name,
                        scope,
                        scope_sheet,
                        definition,
                    ),
                    c.sheet,
                    #[trigger] old(self).formulas()[c].ast,
                ),
        ensures
            final(self).wf(),
            final(self).name_registry().records() == records_after_define(
                old(self).name_registry().records(),
                old(self).name_registry().next_id_value(),
                name,
                scope,
                scope_sheet,
                definition,
            ),
            final(self).name_registry().records().contains_key(crate::names::name_key(scope, scope_sheet, name@)),
            id == final(self).name_registry().records()[crate::names::name_key(scope, scope_sheet, name@)].id,
            final(self).data_generation_view() == sat_add_u64(old(self).data_generation_view(), 1),
            Self::refreshed(
                old(self).formulas(),
                final(self).formulas(),
                final(self).name_registry().records(),
                final(self).data_generation_view(),
            ),
            final(self).same_but_records(&*old(self)),
            final(self).dirty_cells() == old(self).dirty_cells().union(
                affected_cells(
                    final(self).formulas(),
                    final(self).direct_index(),
                    final(self).range_index(),
                    ChangeView::Name(id.0),
                ),
            ),
    {
        let ghost after = records_after_define(
            self.names.records(),
            self.names.next_id_value(),
            name,
            scope,
            scope_sheet,
            definition,
        );
        let id = self.names.define(name, scope, scope_sheet, definition);
        self.data_generation = self.data_generation.saturating_add(1);
        assert(self.formulas() == old(self).formulas());
        assert(self.names.records() == after);
        assert forall|c: CellView| self.formulas().contains_key(c) implies expansion_finishes(
            self.names.records(),
            c.sheet,
            #[trigger] self.formulas()[c].ast,
        ) by {
            assert(old(self).formulas().contains_key(c));
        }
        self.refresh_dependencies();
        self.mark_event(&ChangeEvent::Name(id));
        id
    }

    /// Gives a spill area its shape: records it under its anchor, reshapes the
    /// names defined as that spill, and marks dirty what the change invalidates.
    pub fn set_spill(&mut self, spill: SpillRef)
        requires
            old(self).wf(),
        ensures
            final(self).wf(),
            final(self).spill_map() == old(self).spill_map().insert(spill.anchor@, spill@),
            final(self).name_registry().records() == old(self).name_registry().records().map_values(
                |r: crate::names::NameDefinitionRecord| crate::names::spill_record(r, spill),
            ),
            final(self).data_generation_view() == sat_add_u64(old(self).data_generation_view(), 1),
            final(self).formula_list() == old(self).formula_list(),
            final(self).direct_index() == old(self).direct_index(),
            final(self).range_index() == old(self).range_index(),
            final(self).loading() == old(self).loading(),
            final(self).settings_view() == old(self).settings_view(),
            final(self).structural_generation_view() == old(self).structural_generation_view(),
            final(self).recalc_epoch_view() == old(self).recalc_epoch_view(),
            final(self).opaque_count_view() == old(self).opaque_count_view(),
            final(self).dirty_cells() == old(self).dirty_cells().union(
                affected_cells(
                    old(self).formulas(),
                    old(self).direct_index(),
                    old(self).range_index(),
                    ChangeView::Spill(spill@),
                ),
            ),
    {
        file_item(&mut self.spills, spill.duplicate());
        self.names.update_spill(&spill);
        self.data_generation = self.data_generation.saturating_add(1);
        self.mark_event(&ChangeEvent::Spill(spill));
    }

    /// Marks dirty what a change of `effect` invalidates.
    pub fn invalidate_effect(&mut self, effect: EffectKey)
        requires
            old(self).wf(),
        ensures
            final(self).wf(),
            final(self).data_generation_view() == sat_add_u64(old(self).data_generation_view(), 1),
            final(self).formula_list() == old(self).formula_list(),
            final(self).direct_index() == old(self).direct_index(),
            final(self).range_index() == old(self).range_index(),
            final(self).name_registry() == old(self).name_registry(),
            final(self).loading() == old(self).loading(),
            final(self).settings_view() == old(self).settings_view(),
            final(self).structural_generation_view() == old(self).structural_generation_view(),
            final(self).recalc_epoch_view() == old(self).recalc_epoch_view(),
            final(self).opaque_count_view() == old(self).opaque_count_view(),
            final(self).spill_map() == old(self).spill_map(),
            final(self).dirty_cells() == old(self).dirty_cells().union(
                affected_cells(
                    old(self).formulas(),
                    old(self).direct_index(),
                    old(self).range_index(),
                    ChangeView::Effect(effect@),
                ),
            ),
    {
        self.data_generation = self.data_generation.saturating_add(1);
        self.mark_event(&ChangeEvent::Effect(effect));
    }

    /// Stores a formula that could not be parsed: its expression is the error
    /// literal, and it counts as opaque.
    pub fn set_formula_error(&mut self, sheet: String, row: u32, col: u32, source: &str, error: ErrorKind) -> (cell: CellId)
        requires
            old(self).wf(),
        ensures
            final(self).wf(),
            cell@ == (CellView { sheet: sheet@, row, col }),
            final(self).formulas().contains_key(cell@),
            final(self).formulas()[cell@].ast == FormulaAst::Literal(ScalarLiteral::Error(error)),
            final(self).formulas()[cell@].source == source@,
            final(self).formulas()[cell@].dependencies.len() == 0,
            final(self).formulas() == old(self).formulas().insert(cell@, final(self).formulas()[cell@]),
            final(self).opaque_count_view() == if old(self).opaque_count_view() == usize::MAX {
                usize::MAX
            } else {
                (old(self).opaque_count_view() + 1) as usize
            },
            final(self).data_generation_view() == sat_add_u64(old(self).data_generation_view(), 1),
            final(self).direct_index() == old(self).direct_index(),
            final(self).range_index() == old(self).range_index(),
            final(self).dirty_cells() == (if !old(self).loading() && old(self).change_reaches(cell@) {
                old(self).dirty_cells().union(
                    affected_cells(
                        final(self).formulas(),
                        final(self).direct_index(),
                        final(self).range_index(),
                        ChangeView::Cell(cell@),
                    ),
                )
            } else {
                old(self).dirty_cells()
            }).insert(cell@),
            final(self).name_registry() == old(self).name_registry(),
            final(self).loading() == old(self).loading(),
            final(self).settings_view() == old(self).settings_view(),
            final(self).structural_generation_view() == old(self).structural_generation_view(),
            final(self).recalc_epoch_view() == old(self).recalc_epoch_view(),
            final(self).spill_map() == old(self).spill_map(),
    {
        let ast = FormulaAst::Literal(ScalarLiteral::Error(error));
        proof {
            let names = self.names.records();
            assert(node_dependencies(names, sheet@, ast, DependencyRole::Normal, 0) == Some(Set::<DependencyView>::empty()));
            assert(static_dependencies(names, sheet@, ast) == Set::<DependencyView>::empty());
        }
        let cell = self.set_formula(sheet, row, col, source, ast);
        proof {
            let deps = self.formulas()[cell@].dependencies;
            crate::order::lemma_is_sorted_list::<DependencyDescriptor>(Seq::empty());
            assert(Seq::<DependencyView>::empty().to_set() =~= Set::<DependencyView>::empty());
            assert(deps == Seq::<DependencyView>::empty());
            assert(direct_entries(deps, cell@) =~= Set::<(CellView, CellView)>::empty());
            assert(old(self).direct_index().union(Set::empty()) =~= old(self).direct_index());
            assert(old(self).range_index() + Seq::empty() =~= old(self).range_index());
        }
        self.opaque_formula_count = self.opaque_formula_count.saturating_add(1);
        cell
    }

    /// The formula record at `cell`, if there is one.
    pub fn formula(&self, cell: &CellId) -> (r: Option<&FormulaRecord>)
        requires
            self.wf(),
        ensures
            r matches Some(x) ==> self.formulas().contains_key(cell@) && x@ == self.formulas()[cell@],
            r is None <==> !self.formulas().contains_key(cell@),
    {
        match find_filed(&self.formulas, cell) {
            Some(i) => Some(&self.formulas[i]),
            None => None,
        }
    }

    /// The defined names.
    pub fn names(&self) -> (r: &NameRegistry)
        ensures
            *r == self.name_registry(),
            self.wf() ==> r.wf(),
    {
        &self.names
    }

    proof fn lemma_formula_count(&self)
        requires
            self.wf(),
        ensures
            self.formulas().dom() == addresses(self.formula_list()).to_set(),
            self.formulas().dom().len() == self.formula_list().len(),
    {
        let fl = self.formula_list();
        let ad = addresses(fl);
        assert forall|c: CellView| self.formulas().dom().contains(c) <==> ad.to_set().contains(c) by {
            if self.formulas().dom().contains(c) {
                let j = choose|j: int| 0 <= j < fl.len() && fl[j].address == c;
                assert(ad[j] == c);
            }
            if ad.to_set().contains(c) {
                let j = choose|j: int| 0 <= j < ad.len() && ad[j] == c;
                assert(fl[j].address == c);
            }
        }
        assert(self.formulas().dom() =~= ad.to_set());
        assert forall|i: int, j: int| 0 <= i < j < ad.len() implies crate::order::key_lt(
            CellId::sort_key(ad[i]),
            CellId::sort_key(ad[j]),
        ) by {
            assert(crate::order::key_lt(
                CellId::sort_key(FormulaRecord::filed_under(fl[i])),
                CellId::sort_key(FormulaRecord::filed_under(fl[j])),
            ));
        }
        lemma_sorted_set_len::<CellId>(ad);
    }

    /// The number of formulas.
    pub fn formula_count(&self) -> (r: usize)
        requires
            self.wf(),
        ensures
            r == self.formulas().dom().len(),
    {
        proof {
            self.lemma_formula_count();
        }
        self.formulas.len()
    }

    /// The number of formulas stored as opaque errors.
    pub fn opaque_count(&self) -> (r: usize)
        ensures
            r == self.opaque_count_view(),
    {
        self.opaque_formula_count
    }

    /// The number of cells awaiting evaluation.
    pub fn dirty_count(&self) -> (r: usize)
        requires
            self.wf(),
        ensures
            r == self.dirty_cells().len(),
    {
        proof {
            lemma_sorted_set_len::<CellId>(views(self.dirty@));
        }
        self.dirty.len()
    }

    /// Whether `cell` awaits evaluation.
    pub fn is_dirty(&self, cell: &CellId) -> (r: bool)
        requires
            self.wf(),
        ensures
            r == self.dirty_cells().contains(cell@),
    {
        sorted_contains(&self.dirty, cell)
    }

    /// The cells awaiting evaluation, in order.
    pub fn dirty_list(&self) -> (r: &Vec<CellId>)
        requires
            self.wf(),
        ensures
            value_set(r@) == self.dirty_cells(),
            sorted_by_key::<CellId>(views(r@)),
    {
        &self.dirty
    }

    /// Marks `cell` dirty.
    pub fn mark_cell_dirty(&mut self, cell: &CellId)
        requires
            old(self).wf(),
        ensures
            final(self).wf(),
            final(self).dirty_cells() == old(self).dirty_cells().insert(cell@),
            final(self).same_but_dirty(&*old(self)),
    {
        self.mark_dirty(cell.duplicate());
    }

    /// `cell` no longer awaits evaluation.
    pub fn clear_dirty(&mut self, cell: &CellId)
        requires
            old(self).wf(),
        ensures
            final(self).wf(),
            final(self).dirty_cells() == old(self).dirty_cells().remove(cell@),
            final(self).same_but_dirty(&*old(self)),
    {
        remove_sorted(&mut self.dirty, cell);
    }

    /// Counts the start of a recalculation.
    pub fn advance_recalc_epoch(&mut self)
        requires
            old(self).wf(),
        ensures
            final(self).wf(),
            final(self).recalc_epoch_view() == sat_add_u64(old(self).recalc_epoch_view(), 1),
            final(self).dirty_cells() == old(self).dirty_cells(),
            final(self).formula_list() == old(self).formula_list(),
            final(self).direct_index() == old(self).direct_index(),
            final(self).range_index() == old(self).range_index(),
            final(self).name_registry() == old(self).name_registry(),
            final(self).loading() == old(self).loading(),
            final(self).settings_view() == old(self).settings_view(),
            final(self).data_generation_view() == old(self).data_generation_view(),
            final(self).structural_generation_view() == old(self).structural_generation_view(),
            final(self).opaque_count_view() == old(self).opaque_count_view(),
            final(self).spill_map() == old(self).spill_map(),
    {
        self.recalc_epoch = self.recalc_epoch.saturating_add(1);
    }

    /// The spill recorded at `anchor`, if any.
    pub fn spill_at(&self, anchor: &CellId) -> (r: Option<&SpillRef>)
        requires
            self.wf(),
        ensures
            r matches Some(x) ==> self.spill_map().contains_key(anchor@) && x@ == self.spill_map()[anchor@],
            r is None <==> !self.spill_map().contains_key(anchor@),
    {
        match find_filed(&self.spills, anchor) {
            Some(i) => Some(&self.spills[i]),
            None => None,
        }
    }

    /// The record an identity names in the registry, if any.
    pub open spec fn named_record(&self, id: u32) -> Option<crate::names::NameDefinitionRecord> {
        let names = self.name_registry();
        if names.ids().contains_key(id) && names.records().contains_key(names.ids()[id]) {
            Some(names.records()[names.ids()[id]])
        } else {
            None
        }
    }

    /// Whether dependency `d` of a formula leads to the formula at `t`: a cell
    /// or selector dependency on `t`, a range covering `t`, or a name defined
    /// as `t` or as a range or spill covering `t`.
    pub open spec fn leads_to(&self, d: DependencyView, t: CellView) -> bool {
        &&& self.formulas().contains_key(t)
        &&& match d {
            DependencyView::Cell(x) => x == t,
            DependencyView::Selector(x) => x == t,
            DependencyView::Range(r) => range_contains(r, t),
            DependencyView::Name(id) => match self.named_record(id) {
                Some(rec) => match rec.definition {
                    NameDefinition::Cell(c) => c@ == t,
                    NameDefinition::Range(r) => range_contains(r@, t),
                    NameDefinition::Spill(sp) => range_contains(spill_range(sp@), t),
                    _ => false,
                },
                None => false,
            },
            _ => false,
        }
    }

    /// The static graph among formulas: an edge from each formula to every
    /// formula one of its dependencies leads to.
    pub open spec fn static_edge_set(&self) -> Set<(CellView, CellView)> {
        Set::new(
            |p: (CellView, CellView)|
                self.formulas().contains_key(p.0) && exists|k: int|
                    0 <= k < self.formulas()[p.0].dependencies.len() && self.leads_to(
                        #[trigger] self.formulas()[p.0].dependencies[k],
                        p.1,
                    ),
        )
    }

    /// Adds an edge from `source` to every formula inside `range`.
    fn add_range_edges(&self, source: &CellId, range: &RangeDescriptor, edges: &mut Vec<(CellId, CellId)>)
        requires
            self.wf(),
            sorted_by_key::<(CellId, CellId)>(views(old(edges)@)),
        ensures
            sorted_by_key::<(CellId, CellId)>(views(final(edges)@)),
            value_set(final(edges)@) == value_set(old(edges)@).union(
                Set::new(|p: (CellView, CellView)| p.0 == source@ && self.formulas().contains_key(p.1) && range_contains(range@, p.1)),
            ),
    {
        let ghost fl = self.formula_list();
        let ghost fm = self.formulas();
        let ghost start = value_set(edges@);
        let ghost target = Set::new(|p: (CellView, CellView)| p.0 == source@ && fm.contains_key(p.1) && range_contains(range@, p.1));
        let mut i: usize = 0;
        while i < self.formulas.len()
            invariant
                self.wf(),
                fl == self.formula_list(),
                fm == self.formulas(),
                i <= fl.len(),
                sorted_by_key::<(CellId, CellId)>(views(edges@)),
                value_set(edges@) == start.union(
                    Set::new(|p: (CellView, CellView)| p.0 == source@ && range_contains(range@, p.1) && exists|j: int|
                        0 <= j < i && fl[j].address == p.1),
                ),
            decreases fl.len() - i,
        {
            let ghost before = value_set(edges@);
            assert(fl[i as int] == self.formulas@[i as int]@);
            if range.contains(&self.formulas[i].address) {
                insert_sorted(edges, (source.duplicate(), self.formulas[i].address.duplicate()));
            }
            assert(value_set(edges@) =~= start.union(
                Set::new(|p: (CellView, CellView)| p.0 == source@ && range_contains(range@, p.1) && exists|j: int|
                    0 <= j < i + 1 && fl[j].address == p.1),
            )) by {
                assert forall|p: (CellView, CellView)| (p.0 == source@ && range_contains(range@, p.1) && exists|j: int|
                    0 <= j < i + 1 && fl[j].address == p.1) implies value_set(edges@).contains(p) by {
                    let j = choose|j: int| 0 <= j < i + 1 && fl[j].address == p.1;
                    if j < i {
                        assert(before.contains(p));
                    }
                }
            }
            i = i + 1;
        }
        assert forall|p: (CellView, CellView)| (p.0 == source@ && range_contains(range@, p.1) && exists|j: int|
            0 <= j < i && fl[j].address == p.1) <==> target.contains(p) by {
            if target.contains(p) {
                let j = choose|j: int| 0 <= j < fl.len() && fl[j].address == p.1;
            }
        }
        assert(value_set(edges@) =~= start.union(target));
    }

    /// Adds the edges dependency `d` of the formula at `source` gives.
    fn add_dependency_edges(&self, source: &CellId, d: &DependencyDescriptor, edges: &mut Vec<(CellId, CellId)>)
        requires
            self.wf(),
            sorted_by_key::<(CellId, CellId)>(views(old(edges)@)),
        ensures
            sorted_by_key::<(CellId, CellId)>(views(final(edges)@)),
            value_set(final(edges)@) == value_set(old(edges)@).union(
                Set::new(|p: (CellView, CellView)| p.0 == source@ && self.leads_to(d@, p.1)),
            ),
    {
        let ghost start = value_set(edges@);
        let ghost target = Set::new(|p: (CellView, CellView)| p.0 == source@ && self.leads_to(d@, p.1));
        match d {
            DependencyDescriptor::Cell(t) | DependencyDescriptor::Selector(t) => {
                if find_filed(&self.formulas, t).is_some() {
                    insert_sorted(edges, (source.duplicate(), t.duplicate()));
                    assert(value_set(edges@) =~= start.union(target));
                } else {
                    assert(target =~= Set::empty());
                    assert(value_set(edges@) =~= start.union(target));
                }
            },
            DependencyDescriptor::Range(r) => {
                self.add_range_edges(source, r, edges);
                assert(value_set(edges@) =~= start.union(target));
            },
            DependencyDescriptor::Name(id) => {
                match self.names.get(id) {
                    Some(rec) => {
                        match &rec.definition {
                            NameDefinition::Cell(c) => {
                                if find_filed(&self.formulas, c).is_some() {
                                    insert_sorted(edges, (source.duplicate(), c.duplicate()));
                                    assert(value_set(edges@) =~= start.union(target));
                                } else {
                                    assert(target =~= Set::empty());
                                    assert(value_set(edges@) =~= start.union(target));
                                }
                            },
                            NameDefinition::Range(r) => {
                                self.add_range_edges(source, r, edges);
                                assert(value_set(edges@) =~= start.union(target));
                            },
                            NameDefinition::Spill(sp) => {
                                let r = sp.range();
                                self.add_range_edges(source, &r, edges);
                                assert(value_set(edges@) =~= start.union(target));
                            },
                            _ => {
                                assert(target =~= Set::empty());
                                assert(value_set(edges@) =~= start.union(target));
                            },
                        }
                    },
                    None => {
                        assert(target =~= Set::empty());
                        assert(value_set(edges@) =~= start.union(target));
                    },
                }
            },
            _ => {
                assert(target =~= Set::empty());
                assert(value_set(edges@) =~= start.union(target));
            },
        }
    }

    /// The static graph among formulas, as sorted pairs (source, target).
    pub fn static_edges(&self) -> (r: Vec<(CellId, CellId)>)
        requires
            self.wf(),
        ensures
            sorted_by_key::<(CellId, CellId)>(views(r@)),
            value_set(r@) == self.static_edge_set(),
    {
        let ghost fl = self.formula_list();
        let ghost fm = self.formulas();
        let mut edges: Vec<(CellId, CellId)> = Vec::new();
        assert(value_set(edges@) =~= Set::<(CellView, CellView)>::empty());
        let mut i: usize = 0;
        while i < self.formulas.len()
            invariant
                self.wf(),
                fl == self.formula_list(),
                fm == self.formulas(),
                i <= fl.len(),
                sorted_by_key::<(CellId, CellId)>(views(edges@)),
                value_set(edges@) == Set::new(|p: (CellView, CellView)| exists|j: int, k: int|
                    0 <= j < i && fl[j].address == p.0 && 0 <= k < fl[j].dependencies.len() && self.leads_to(
                        #[trigger] fl[j].dependencies[k],
                        p.1,
                    )),
            decreases fl.len() - i,
        {
            let record = &self.formulas[i];
            assert(fl[i as int] == record@);
            let ghost outer = value_set(edges@);
            let mut k: usize = 0;
            while k < record.static_dependencies.len()
                invariant
                    self.wf(),
                    fl == self.formula_list(),
                    i < fl.len(),
                    fl[i as int] == record@,
                    k <= record.static_dependencies@.len(),
                    sorted_by_key::<(CellId, CellId)>(views(edges@)),
                    outer == Set::new(|p: (CellView, CellView)| exists|j: int, k: int|
                        0 <= j < i && fl[j].address == p.0 && 0 <= k < fl[j].dependencies.len() && self.leads_to(
                            #[trigger] fl[j].dependencies[k],
                            p.1,
                        )),
                    value_set(edges@) == outer.union(Set::new(|p: (CellView, CellView)| exists|m: int|
                        0 <= m < k && fl[i as int].address == p.0 && self.leads_to(
                            #[trigger] fl[i as int].dependencies[m],
                            p.1,
                        ))),
                decreases record.static_dependencies.len() - k,
            {
                let ghost before = value_set(edges@);
                assert(fl[i as int].dependencies[k as int] == record.static_dependencies@[k as int]@);
                self.add_dependency_edges(&record.address, &record.static_dependencies[k], &mut edges);
                assert(value_set(edges@) =~= outer.union(Set::new(|p: (CellView, CellView)| exists|m: int|
                    0 <= m < k + 1 && fl[i as int].address == p.0 && self.leads_to(
                        #[trigger] fl[i as int].dependencies[m],
                        p.1,
                    )))) by {
                    assert forall|p: (CellView, CellView)| (exists|m: int|
                        0 <= m < k + 1 && fl[i as int].address == p.0 && self.leads_to(
                            #[trigger] fl[i as int].dependencies[m],
                            p.1,
                        )) implies value_set(edges@).contains(p) by {
                        let m = choose|m: int|
                            0 <= m < k + 1 && fl[i as int].address == p.0 && self.leads_to(
                                #[trigger] fl[i as int].dependencies[m],
                                p.1,
                            );
                        if m < k {
                            assert(before.contains(p));
                        }
                    }
                }
                k = k + 1;
            }
            assert(value_set(edges@) =~= Set::new(|p: (CellView, CellView)| exists|j: int, k: int|
                0 <= j < i + 1 && fl[j].address == p.0 && 0 <= k < fl[j].dependencies.len() && self.leads_to(
                    #[trigger] fl[j].dependencies[k],
                    p.1,
                ))) by {
                assert forall|p: (CellView, CellView)| (exists|j: int, k: int|
                    0 <= j < i + 1 && fl[j].address == p.0 && 0 <= k < fl[j].dependencies.len() && self.leads_to(
                        #[trigger] fl[j].dependencies[k],
                        p.1,
                    )) implies value_set(edges@).contains(p) by {
                    let (j, m) = choose|j: int, k: int|
                        0 <= j < i + 1 && fl[j].address == p.0 && 0 <= k < fl[j].dependencies.len() && self.leads_to(
                            #[trigger] fl[j].dependencies[k],
                            p.1,
                        );
                    if j < i {
                        assert(outer.contains(p));
                    } else {
                        assert(0 <= m < k && fl[i as int].address == p.0 && self.leads_to(fl[i as int].dependencies[m], p.1));
                    }
                }
            }
            i = i + 1;
        }
        proof {
            let target = self.static_edge_set();
            assert forall|p: (CellView, CellView)| value_set(edges@).contains(p) <==> target.contains(p) by {
                if value_set(edges@).contains(p) {
                    let (j, m) = choose|j: int, k: int|
                        0 <= j < i && fl[j].address == p.0 && 0 <= k < fl[j].dependencies.len() && self.leads_to(
                            #[trigger] fl[j].dependencies[k],
                            p.1,
                        );
                    lemma_filed_map_index::<FormulaRecord>(fl, j);
                    assert(fm[p.0].dependencies[m] == fl[j].dependencies[m]);
                }
                if target.contains(p) {
                    let j = choose|j: int| 0 <= j < fl.len() && fl[j].address == p.0;
                    lemma_filed_map_index::<FormulaRecord>(fl, j);
                    let m = choose|m: int| 0 <= m < fm[p.0].dependencies.len() && self.leads_to(
                        #[trigger] fm[p.0].dependencies[m],
                        p.1,
                    );
                    assert(self.leads_to(fl[j].dependencies[m], p.1));
                }
            }
            assert(value_set(edges@) =~= target);
        }
        edges
    }

    /// The number of edges of the static graph.
    pub fn static_edge_count(&self) -> (r: usize)
        requires
            self.wf(),
        ensures
            r == self.static_edge_set().len(),
    {
        let edges = self.static_edges();
        proof {
            lemma_sorted_set_len::<(CellId, CellId)>(views(edges@));
        }
        edges.len()
    }

    /// The formula addresses in order.
    pub(crate) fn formula_addresses(&self) -> (r: Vec<CellId>)
        requires
            self.wf(),
        ensures
            cells_view(r@) == addresses(self.formula_list()),
    {
        let ghost fl = self.formula_list();
        let mut out: Vec<CellId> = Vec::new();
        let mut i: usize = 0;
        while i < self.formulas.len()
            invariant
                fl == self.formula_list(),
                i <= fl.len(),
                cells_view(out@) == addresses(fl).subrange(0, i as int),
            decreases fl.len() - i,
        {
            let ghost prev = out@;
            let c = self.formulas[i].address.duplicate();
            out.push(c);
            assert(fl[i as int] == self.formulas@[i as int]@);
            assert(out@ == prev.push(c));
            assert(cells_view(out@) =~= cells_view(prev).push(c@));
            assert(addresses(fl).subrange(0, i + 1) =~= addresses(fl).subrange(0, i as int).push(fl[i as int].address));
            assert(cells_view(out@) =~= addresses(fl).subrange(0, i + 1));
            i = i + 1;
        }
        assert(addresses(fl).subrange(0, i as int) =~= addresses(fl));
        out
    }

    /// The cyclic strongly connected components of the static graph among
    /// formulas, each in cell order, ordered by first cell.
    pub fn static_cycle_components(&self) -> (r: Vec<Vec<CellId>>)
        requires
            self.wf(),
        ensures
            exists|es: Seq<(CellView, CellView)>|
                es.to_set() == self.static_edge_set() && cyclic_components_of(
                    addresses(self.formula_list()),
                    es,
                    cell_lists_view(r@),
                ),
    {
        let ghost fl = self.formula_list();
        let edges = self.static_edges();
        let nodes = self.formula_addresses();
        proof {
            let ad = addresses(fl);
            assert forall|i: int, j: int| 0 <= i < j < ad.len() implies crate::address::cell_lt(ad[i], ad[j]) by {
                assert(crate::order::key_lt(
                    CellId::sort_key(FormulaRecord::filed_under(fl[i])),
                    CellId::sort_key(FormulaRecord::filed_under(fl[j])),
                ));
                lemma_cell_key_order(ad[i], ad[j]);
            }
            assert(cells_sorted(ad));
            let ev = pairs_view(edges@);
            assert(ev =~= views(edges@));
            assert forall|k: int| 0 <= k < ev.len() implies ad.contains(#[trigger] ev[k].0) && ad.contains(ev[k].1) by {
                assert(value_set(edges@).contains(ev[k]));
                assert(self.static_edge_set().contains(ev[k]));
                let j0 = choose|j: int| 0 <= j < fl.len() && fl[j].address == ev[k].0;
                assert(ad[j0] == ev[k].0);
                let m = choose|m: int| 0 <= m < self.formulas()[ev[k].0].dependencies.len() && self.leads_to(
                    #[trigger] self.formulas()[ev[k].0].dependencies[m],
                    ev[k].1,
                );
                let j1 = choose|j: int| 0 <= j < fl.len() && fl[j].address == ev[k].1;
                assert(ad[j1] == ev[k].1);
            }
            assert(edges_within(ad, ev));
        }
        let r = cycle_components(&nodes, &edges);
        proof {
            assert(pairs_view(edges@).to_set() == self.static_edge_set()) by {
                assert(pairs_view(edges@) =~= views(edges@));
            }
        }
        r
    }

    /// Whether dependency `d` mentions `c`: as a cell or selector, or by a
    /// range covering it.
    pub open spec fn touches(d: DependencyView, c: CellView) -> bool {
        ||| d == DependencyView::Cell(c)
        ||| d == DependencyView::Selector(c)
        ||| (d matches DependencyView::Range(r) && range_contains(r, c))
    }

    /// A cell no formula is at and no formula's dependency mentions, outside `excluded`.
    pub open spec fn unrelated(&self, c: CellView, excluded: Seq<CellView>) -> bool {
        &&& !excluded.contains(c)
        &&& !self.formulas().contains_key(c)
        &&& forall|f: CellView, k: int|
            self.formulas().contains_key(f) && 0 <= k < self.formulas()[f].dependencies.len() ==> !Self::touches(
                #[trigger] self.formulas()[f].dependencies[k],
                c,
            )
    }

    /// The `n`-th cell of the search area of a sheet: rows 1 to 64, columns 1
    /// to 32, row by row.
    pub open spec fn search_cell(sheet: Seq<char>, n: int) -> CellView {
        CellView { sheet, row: (n / 32 + 1) as u32, col: (n % 32 + 1) as u32 }
    }

    fn dependency_touches(d: &DependencyDescriptor, c: &CellId) -> (r: bool)
        ensures
            r == Self::touches(d@, c@),
    {
        match d {
            DependencyDescriptor::Cell(x) => x.same(c),
            DependencyDescriptor::Selector(x) => x.same(c),
            DependencyDescriptor::Range(r) => r.contains(c),
            _ => false,
        }
    }

    /// Whether some formula's dependency mentions `c`.
    fn mentioned(&self, c: &CellId) -> (r: bool)
        requires
            self.wf(),
        ensures
            r == exists|f: CellView, k: int|
                self.formulas().contains_key(f) && 0 <= k < self.formulas()[f].dependencies.len() && Self::touches(
                    #[trigger] self.formulas()[f].dependencies[k],
                    c@,
                ),
    {
        let ghost fl = self.formula_list();
        let ghost fm = self.formulas();
        let mut i: usize = 0;
        while i < self.formulas.len()
            invariant
                self.wf(),
                fl == self.formula_list(),
                fm == self.formulas(),
                i <= fl.len(),
                forall|j: int, k: int|
                    0 <= j < i && 0 <= k < fl[j].dependencies.len() ==> !Self::touches(#[trigger] fl[j].dependencies[k], c@),
            decreases fl.len() - i,
        {
            let record = &self.formulas[i];
            assert(fl[i as int] == record@);
            let mut k: usize = 0;
            while k < record.static_dependencies.len()
                invariant
                    self.wf(),
                    fl == self.formula_list(),
                    fm == self.formulas(),
                    i < fl.len(),
                    fl[i as int] == record@,
                    k <= fl[i as int].dependencies.len(),
                    forall|m: int| 0 <= m < k ==> !Self::touches(#[trigger] fl[i as int].dependencies[m], c@),
                decreases record.static_dependencies.len() - k,
            {
                assert(fl[i as int].dependencies[k as int] == record.static_dependencies@[k as int]@);
                if Self::dependency_touches(&record.static_dependencies[k], c) {
                    proof {
                        lemma_filed_map_index::<FormulaRecord>(fl, i as int);
                        assert(fm[fl[i as int].address].dependencies[k as int] == fl[i as int].dependencies[k as int]);
                    }
                    return true;
                }
                k = k + 1;
            }
            i = i + 1;
        }
        proof {
            assert forall|f: CellView, k: int|
                fm.contains_key(f) && 0 <= k < fm[f].dependencies.len() implies !Self::touches(
                    #[trigger] fm[f].dependencies[k],
                    c@,
                ) by {
                let j = choose|j: int| 0 <= j < fl.len() && fl[j].address == f;
                lemma_filed_map_index::<FormulaRecord>(fl, j);
                assert(fl[j].dependencies[k] == fm[f].dependencies[k]);
            }
        }
        false
    }

    /// The first cell of `sheet`, row by row within rows 1 to 64 and columns
    /// 1 to 32, that is not excluded, holds no formula and is not mentioned by
    /// any formula's dependencies.
    pub fn find_unrelated_cell(&self, sheet: &str, excluded: &Vec<CellId>) -> (r: Option<CellId>)
        requires
            self.wf(),
        ensures
            r matches Some(c) ==> exists|n: int|
                0 <= n < 2048 && c@ == Self::search_cell(sheet@, n) && self.unrelated(c@, cells_view(excluded@))
                    && forall|m: int| 0 <= m < n ==> !self.unrelated(#[trigger] Self::search_cell(sheet@, m), cells_view(excluded@)),
            r is None ==> forall|n: int| 0 <= n < 2048 ==> !self.unrelated(#[trigger] Self::search_cell(sheet@, n), cells_view(excluded@)),
    {
        let ghost ex = cells_view(excluded@);
        let mut n: u32 = 0;
        while n < 2048
            invariant
                self.wf(),
                ex == cells_view(excluded@),
                n <= 2048,
                forall|m: int| 0 <= m < n ==> !self.unrelated(#[trigger] Self::search_cell(sheet@, m), ex),
            decreases 2048 - n,
        {
            let candidate = CellId::new(crate::text::string_of(sheet), n / 32 + 1, n % 32 + 1);
            assert(candidate@ == Self::search_cell(sheet@, n as int));
            let mut is_excluded = false;
            let mut j: usize = 0;
            while j < excluded.len()
                invariant
                    ex == cells_view(excluded@),
                    j <= excluded@.len(),
                    is_excluded == exists|m: int| 0 <= m < j && ex[m] == candidate@,
                decreases excluded.len() - j,
            {
                assert(ex[j as int] == excluded@[j as int]@);
                if excluded[j].same(&candidate) {
                    is_excluded = true;
                }
                j = j + 1;
            }
            assert(is_excluded == ex.contains(candidate@));
            if !is_excluded && find_filed(&self.formulas, &candidate).is_none() && !self.mentioned(&candidate) {
                return Some(candidate);
            }
            n = n + 1;
        }
        None
    }

    /// The cells the direct index lists dependents for.
    pub open spec fn index_targets(&self) -> Set<CellView> {
        Set::new(|t: CellView| exists|d: CellView| self.direct_index().contains((t, d)))
    }

    fn count_kind(deps: &Vec<DependencyDescriptor>, range_kind: bool, start: usize) -> (r: usize)
        ensures
            r == clip(start + kind_count(views(deps@), range_kind)),
    {
        let ghost dv = views(deps@);
        let mut total = start;
        let mut k: usize = 0;
        assert(dv.subrange(0, 0) =~= Seq::<DependencyView>::empty());
        while k < deps.len()
            invariant
                dv == views(deps@),
                k <= deps@.len(),
                total == clip(start + kind_count(dv.subrange(0, k as int), range_kind)),
            decreases deps.len() - k,
        {
            assert(dv.subrange(0, k + 1).drop_last() =~= dv.subrange(0, k as int));
            assert(dv.subrange(0, k + 1).last() == deps@[k as int]@);
            let hit = match &deps[k] {
                DependencyDescriptor::Range(_) => range_kind,
                DependencyDescriptor::Name(_) => !range_kind,
                _ => false,
            };
            if hit {
                total = total.saturating_add(1);
            }
            k = k + 1;
        }
        assert(dv.subrange(0, k as int) =~= dv);
        total
    }

    /// Counts describing the model: formulas, names, range descriptors,
    /// dependency records, index entries, the bytes they take given the entry
    /// sizes and the number of stored cells, and opaque formulas. Every sum
    /// saturates at the largest `usize`.
    pub fn model_stats(&self, cell_count: usize, sizes: EntrySizes) -> (r: PocModelStats)
        requires
            self.wf(),
        ensures
            r.formula_count == self.formulas().dom().len(),
            r.defined_name_count == self.name_registry().records().len(),
            r.symbolic_dependency_descriptor_count == clip(formulas_kind_count(self.formula_list(), true) as int),
            r.persistent_relation_count == clip(dependency_total(self.formula_list()) as int),
            r.invalidation_index_count == clip(
                clip((self.index_targets().len() + self.range_index().len()) as int) + clip(
                    formulas_kind_count(self.formula_list(), false) as int,
                ),
            ),
            r.memory_state_bytes == clip(
                clip(
                    clip(
                        clip(cell_count * sizes.cell_entry) + clip((self.formulas().dom().len() * sizes.formula_entry) as int),
                    ) + clip(r.persistent_relation_count * sizes.descriptor),
                ) + clip((self.name_registry().records().len() * sizes.name_record) as int),
            ),
            r.opaque_formula_count == self.opaque_count_view(),
    {
        let ghost fl = self.formula_list();
        let mut ranges: usize = 0;
        let mut names: usize = 0;
        let mut relations: usize = 0;
        let mut i: usize = 0;
        assert(fl.subrange(0, 0) =~= Seq::<FormulaView>::empty());
        while i < self.formulas.len()
            invariant
                fl == self.formula_list(),
                i <= fl.len(),
                ranges == clip(formulas_kind_count(fl.subrange(0, i as int), true) as int),
                names == clip(formulas_kind_count(fl.subrange(0, i as int), false) as int),
                relations == clip(dependency_total(fl.subrange(0, i as int)) as int),
            decreases fl.len() - i,
        {
            assert(fl.subrange(0, i + 1).drop_last() =~= fl.subrange(0, i as int));
            assert(fl.subrange(0, i + 1).last() == self.formulas@[i as int]@);
            let deps = &self.formulas[i].static_dependencies;
            relations = relations.saturating_add(deps.len());
            ranges = Self::count_kind(deps, true, ranges);
            names = Self::count_kind(deps, false, names);
            i = i + 1;
        }
        assert(fl.subrange(0, i as int) =~= fl);
        proof {
            self.lemma_formula_count();
            lemma_sorted_set_len::<CellId>(views(self.direct_targets@));
            assert(value_set(self.direct_targets@) =~= self.index_targets()) by {
                assert forall|t: CellView| value_set(self.direct_targets@).contains(t) <==> self.index_targets().contains(t) by {
                    if value_set(self.direct_targets@).contains(t) {
                        let d = choose|d: CellView| value_set(self.direct_dependents@).contains((t, d));
                        assert(self.direct_index().contains((t, d)));
                    }
                    if self.index_targets().contains(t) {
                        let d = choose|d: CellView| self.direct_index().contains((t, d));
                        assert(value_set(self.direct_dependents@).contains((t, d)));
                    }
                }
            }
        }
        let name_count = self.names.len();
        let formula_count = self.formulas.len();
        let index_count = self.direct_targets.len().saturating_add(self.range_dependents.len()).saturating_add(names);
        let memory = saturating_product(cell_count, sizes.cell_entry).saturating_add(
            saturating_product(formula_count, sizes.formula_entry),
        ).saturating_add(saturating_product(relations, sizes.descriptor)).saturating_add(
            saturating_product(name_count, sizes.name_record),
        );
        PocModelStats {
            formula_count,
            defined_name_count: name_count,
            symbolic_dependency_descriptor_count: ranges,
            persistent_relation_count: relations,
            invalidation_index_count: index_count,
            memory_state_bytes: memory,
            opaque_formula_count: self.opaque_formula_count,
        }
    }

    /// The static dependencies of the formula at `cell` (none if there is no formula).
    pub fn static_dependencies(&self, cell: &CellId) -> (r: &[DependencyDescriptor])
        requires
            self.wf(),
        ensures
            self.formulas().contains_key(cell@) ==> views(r@) == self.formulas()[cell@].dependencies,
            !self.formulas().contains_key(cell@) ==> r@.len() == 0,
    {
        match find_filed(&self.formulas, cell) {
            Some(i) => self.formulas[i].static_dependencies.as_slice(),
            None => &[],
        }
    }

    /// Inserts `count` rows before row `before` of `sheet`: formulas and spill
    /// anchors at or below move down, formulas get their dependencies anew,
    /// names move, the structural and data generations count one more, and
    /// every formula is marked dirty. Inserting no rows changes nothing.
    pub fn insert_rows(&mut self, sheet: &str, before: u32, count: u32)
        requires
            old(self).wf(),
            forall|c: CellView|
                old(self).formulas().contains_key(c) ==> expansion_finishes(
                    old(self).name_registry().records(),
                    c.sheet,
                    #[trigger] old(self).formulas()[c].ast,
                ),
        ensures
            final(self).wf(),
            count == 0 ==> *final(self) == *old(self),
            count > 0 ==> {
                &&& final(self).formulas() == shifted_formulas(
                    old(self).formula_list(),
                    old(self).name_registry().records(),
                    sheet@,
                    before,
                    count,
                )
                &&& final(self).spill_map() == shifted_spills(old(self).spill_list(), sheet@, before, count)
                &&& final(self).name_registry().records() == old(self).name_registry().records().map_values(
                    |r: crate::names::NameDefinitionRecord| crate::names::shift_record(r, sheet@, before, count),
                )
                &&& final(self).structural_generation_view() == sat_add_u64(old(self).structural_generation_view(), 1)
                &&& final(self).data_generation_view() == sat_add_u64(old(self).data_generation_view(), 1)
                &&& final(self).dirty_cells() == old(self).dirty_cells().union(final(self).formulas().dom())
                &&& final(self).direct_index() == old(self).direct_index()
                &&& final(self).range_index() == old(self).range_index()
                &&& final(self).loading() == old(self).loading()
                &&& final(self).settings_view() == old(self).settings_view()
                &&& final(self).recalc_epoch_view() == old(self).recalc_epoch_view()
                &&& final(self).opaque_count_view() == old(self).opaque_count_view()
            },
    {
        if count == 0 {
            return;
        }
        let ghost fl = self.formula_list();
        let ghost sl = self.spill_list();
        let ghost names = self.names.records();
        let ghost start = *self;
        proof {
            assert forall|k: int| 0 <= k < fl.len() implies expansion_finishes(names, fl[k].address.sheet, #[trigger] fl[k].ast) by {
                lemma_filed_map_index::<FormulaRecord>(fl, k);
                assert(start.formulas().contains_key(fl[k].address));
                assert(start.formulas()[fl[k].address] == fl[k]);
            }
        }
        let mut taken: Vec<FormulaRecord> = Vec::new();
        std::mem::swap(&mut taken, &mut self.formulas);
        assert(views(taken@) == fl);
        assert(self.formulas() =~= Map::<CellView, FormulaView>::empty());
        assert(fl.subrange(0, 0) =~= Seq::<FormulaView>::empty());
        let mut i: usize = 0;
        while i < taken.len()
            invariant
                self.wf(),
                names == self.names.records(),
                self.name_registry() == start.name_registry(),
                self.spill_list() == sl,
                self.direct_index() == start.direct_index(),
                self.range_index() == start.range_index(),
                self.dirty_cells() == start.dirty_cells(),
                self.loading() == start.loading(),
                self.settings_view() == start.settings_view(),
                self.data_generation_view() == start.data_generation_view(),
                self.structural_generation_view() == start.structural_generation_view(),
                self.recalc_epoch_view() == start.recalc_epoch_view(),
                self.opaque_count_view() == start.opaque_count_view(),
                taken@.len() == fl.len(),
                i <= fl.len(),
                forall|k: int| #![trigger taken@[k]] i <= k < fl.len() ==> taken@[k]@ == fl[k],
                forall|k: int| 0 <= k < fl.len() ==> expansion_finishes(names, fl[k].address.sheet, #[trigger] fl[k].ast),
                self.formulas() == shifted_formulas(fl.subrange(0, i as int), names, sheet@, before, count),
            decreases fl.len() - i,
        {
            let mut record = FormulaRecord {
                address: CellId::new(String::new(), 0, 0),
                source: String::new(),
                ast: FormulaAst::Omitted,
                generation: 0,
                static_dependencies: Vec::new(),
            };
            assert(taken@[i as int]@ == fl[i as int]);
            taken.set_and_swap(i, &mut record);
            assert(record@ == fl[i as int]);
            let shifted = shift_address(&record.address, sheet, before, count);
            assert(shifted@.sheet == fl[i as int].address.sheet);
            assert(expansion_finishes(names, fl[i as int].address.sheet, fl[i as int].ast));
            assert(record.ast == fl[i as int].ast);
            let deps = collect_invalidation_dependencies(&record.ast, shifted.sheet.as_str(), &self.names);
            record.address = shifted;
            record.static_dependencies = deps;
            let ghost rv = record@;
            file_item(&mut self.formulas, record);
            assert(fl.subrange(0, i + 1).drop_last() =~= fl.subrange(0, i as int));
            assert(fl.subrange(0, i + 1).last() == fl[i as int]);
            assert(self.formulas() =~= shifted_formulas(fl.subrange(0, i + 1), names, sheet@, before, count));
            i = i + 1;
        }
        assert(fl.subrange(0, i as int) =~= fl);
        let mut old_spills: Vec<SpillRef> = Vec::new();
        std::mem::swap(&mut old_spills, &mut self.spills);
        assert(views(old_spills@) == sl);
        assert(sl.subrange(0, 0) =~= Seq::<crate::address::SpillView>::empty());
        assert(self.spill_map() =~= Map::<CellView, crate::address::SpillView>::empty());
        let mut j: usize = 0;
        while j < old_spills.len()
            invariant
                self.wf(),
                views(old_spills@) == sl,
                self.name_registry() == start.name_registry(),
                self.formulas() == shifted_formulas(fl, names, sheet@, before, count),
                self.direct_index() == start.direct_index(),
                self.range_index() == start.range_index(),
                self.dirty_cells() == start.dirty_cells(),
                self.loading() == start.loading(),
                self.settings_view() == start.settings_view(),
                self.data_generation_view() == start.data_generation_view(),
                self.structural_generation_view() == start.structural_generation_view(),
                self.recalc_epoch_view() == start.recalc_epoch_view(),
                self.opaque_count_view() == start.opaque_count_view(),
                j <= sl.len(),
                self.spill_map() == shifted_spills(sl.subrange(0, j as int), sheet@, before, count),
            decreases sl.len() - j,
        {
            let anchor = shift_address(&old_spills[j].anchor, sheet, before, count);
            let moved = SpillRef { anchor, rows: old_spills[j].rows, cols: old_spills[j].cols };
            assert(sl[j as int] == old_spills@[j as int]@);
            file_item(&mut self.spills, moved);
            assert(sl.subrange(0, j + 1).drop_last() =~= sl.subrange(0, j as int));
            assert(sl.subrange(0, j + 1).last() == sl[j as int]);
            assert(self.spill_map() =~= shifted_spills(sl.subrange(0, j + 1), sheet@, before, count));
            j = j + 1;
        }
        assert(sl.subrange(0, j as int) =~= sl);
        self.names.shift_rows(sheet, before, count);
        self.structural_generation = self.structural_generation.saturating_add(1);
        self.data_generation = self.data_generation.saturating_add(1);
        self.mark_event(&ChangeEvent::SheetStructure(crate::text::string_of(sheet)));
    }
}

} // verus!
