//! A model of a workbook's formulas and names that keeps only the static
//! dependency descriptors, for measuring how many relations an analysis
//! has to keep.
use vstd::prelude::*;
use crate::address::{CellId, CellView};
use crate::collect::{collect_invalidation_dependencies, expansion_finishes, static_dependencies};
use crate::dependency::{DependencyDescriptor, DependencyView};
use crate::engine::{FormulaRecord, FormulaView, clip, dependency_total};
use crate::formula::FormulaAst;
use crate::keys::{Filed, file_item, filed_map, filed_sorted, find_filed, lemma_filed_map_index};
use crate::names::{NameDefinition, NameRegistry, NameScope, records_after_define};
use crate::order::{SortKey, insert_sorted, lemma_sorted_set_len, sorted_by_key, sorted_list, value_set, views};
use crate::text::string_of;

verus! {

/// The descriptor kinds the metrics count apart.
#[derive(Clone, Copy, Debug, PartialEq, Eq)]
pub enum DescriptorKind {
    Cell,
    Range,
    Name,
    Selector,
    /// Sheet structure, spill shape and effect descriptors.
    Surface,
}

/// The kind a descriptor counts under.
pub open spec fn descriptor_kind(d: DependencyView) -> DescriptorKind {
    match d {
        DependencyView::Cell(_) => DescriptorKind::Cell,
        DependencyView::Range(_) => DescriptorKind::Range,
        DependencyView::Name(_) => DescriptorKind::Name,
        DependencyView::Selector(_) => DescriptorKind::Selector,
        _ => DescriptorKind::Surface,
    }
}

/// The number of descriptors of a kind in a list.
pub open spec fn kind_total(deps: Seq<DependencyView>, kind: DescriptorKind) -> nat
    decreases deps.len(),
{
    if deps.len() == 0 {
        0
    } else {
        kind_total(deps.drop_last(), kind) + if descriptor_kind(deps.last()) == kind {
            1nat
        } else {
            0nat
        }
    }
}

/// The number of descriptors of a kind over a list of formulas.
pub open spec fn formulas_kind_total(fl: Seq<FormulaView>, kind: DescriptorKind) -> nat
    decreases fl.len(),
{
    if fl.len() == 0 {
        0
    } else {
        formulas_kind_total(fl.drop_last(), kind) + kind_total(fl.last().dependencies, kind)
    }
}

/// The counts of a model with the formulas `fl`.
pub open spec fn shadow_counts(fl: Seq<FormulaView>, formula_count: nat, name_count: nat, read_count: nat) -> ShadowCounts {
    ShadowCounts {
        formula_vertices: formula_count as usize,
        name_definition_count: name_count as usize,
        symbolic_range_descriptor_count: clip(formulas_kind_total(fl, DescriptorKind::Range) as int),
        selector_descriptor_count: clip(formulas_kind_total(fl, DescriptorKind::Selector) as int),
        invalidation_dependency_count: clip(dependency_total(fl) as int),
        direct_static_edge_count: clip(formulas_kind_total(fl, DescriptorKind::Cell) as int),
        legacy_runtime_read_edge_count: read_count as usize,
        effect_descriptor_count: clip(formulas_kind_total(fl, DescriptorKind::Surface) as int),
    }
}

/// The counts a shadow model reports.
#[derive(Clone, Copy, Debug, Default, PartialEq, Eq)]
pub struct ShadowCounts {
    pub formula_vertices: usize,
    pub name_definition_count: usize,
    pub symbolic_range_descriptor_count: usize,
    pub selector_descriptor_count: usize,
    pub invalidation_dependency_count: usize,
    pub direct_static_edge_count: usize,
    pub legacy_runtime_read_edge_count: usize,
    pub effect_descriptor_count: usize,
}

/// Formulas with their static dependencies, the defined names, and the
/// runtime reads recorded by an earlier evaluator.
pub struct ShadowModel {
    formulas: Vec<FormulaRecord>,
    names: NameRegistry,
    runtime_reads: Vec<(CellId, CellId)>,
}

impl ShadowModel {
    /// The formula records, in address order.
    pub closed spec fn formula_list(&self) -> Seq<FormulaView> {
        views(self.formulas@)
    }

    /// The formula records by address.
    pub open spec fn formulas(&self) -> Map<CellView, FormulaView> {
        filed_map::<FormulaRecord>(self.formula_list())
    }

    pub closed spec fn name_registry(&self) -> NameRegistry {
        self.names
    }

    /// The (reader, target) runtime reads.
    pub closed spec fn runtime_read_set(&self) -> Set<(CellView, CellView)> {
        value_set(self.runtime_reads@)
    }

    pub closed spec fn wf(&self) -> bool {
        &&& filed_sorted::<FormulaRecord>(views(self.formulas@))
        &&& self.names.wf()
        &&& sorted_by_key::<(CellId, CellId)>(views(self.runtime_reads@))
    }

    /// An empty model.
    pub fn new() -> (r: ShadowModel)
        ensures
            r.wf(),
            r.formulas() == Map::<CellView, FormulaView>::empty(),
            r.name_registry().records() == Map::<crate::names::NameKeyView, crate::names::NameDefinitionRecord>::empty(),
            r.name_registry().ids() == Map::<u32, crate::names::NameKeyView>::empty(),
            r.name_registry().next_id_value() == 0,
            r.runtime_read_set() == Set::<(CellView, CellView)>::empty(),
    {
        let r = ShadowModel { formulas: Vec::new(), names: NameRegistry::new(), runtime_reads: Vec::new() };
        assert(r.formulas() =~= Map::<CellView, FormulaView>::empty());
        assert(r.runtime_read_set() =~= Set::<(CellView, CellView)>::empty());
        r
    }

    /// Stores the formula at (`sheet`, `row`, `col`) with generation 1 and its
    /// static dependencies under the current names; returns the cell.
    pub fn add_formula(&mut self, sheet: String, row: u32, col: u32, source: &str, ast: FormulaAst) -> (cell: CellId)
        requires
            old(self).wf(),
            expansion_finishes(old(self).name_registry().records(), sheet@, ast),
        ensures
            final(self).wf(),
            cell@ == (CellView { sheet: sheet@, row, col }),
            final(self).formulas() == old(self).formulas().insert(
                cell@,
                FormulaView {
                    address: cell@,
                    source: source@,
                    ast,
                    generation: 1,
                    dependencies: sorted_list::<DependencyDescriptor>(
                        static_dependencies(old(self).name_registry().records(), sheet@, ast),
                    ),
                },
            ),
            final(self).name_registry() == old(self).name_registry(),
            final(self).runtime_read_set() == old(self).runtime_read_set(),
    {
        let cell = CellId::new(sheet, row, col);
        let deps = collect_invalidation_dependencies(&ast, cell.sheet.as_str(), &self.names);
        let record = FormulaRecord {
            address: cell.duplicate(),
            source: string_of(source),
            ast,
            generation: 1,
            static_dependencies: deps,
        };
        file_item(&mut self.formulas, record);
        cell
    }

    /// Records that `reader` read `target` at run time.
    pub fn record_runtime_read(&mut self, reader: CellId, target: CellId)
        requires
            old(self).wf(),
        ensures
            final(self).wf(),
            final(self).runtime_read_set() == old(self).runtime_read_set().insert((reader@, target@)),
            final(self).formulas() == old(self).formulas(),
            final(self).name_registry() == old(self).name_registry(),
    {
        insert_sorted(&mut self.runtime_reads, (reader, target));
    }

    /// The number of formulas.
    pub fn formula_count(&self) -> (r: usize)
        requires
            self.wf(),
        ensures
            r == self.formulas().dom().len(),
    {
        proof {
            self.lemma_formula_count();
        }
        self.formulas.len()
    }

    /// The number of defined names.
    pub fn name_count(&self) -> (r: usize)
        requires
            self.wf(),
        ensures
            r == self.name_registry().records().len(),
    {
        self.names.len()
    }

    /// The formula at `address`, if there is one.
    pub fn formula(&self, address: &CellId) -> (r: Option<&FormulaRecord>)
        requires
            self.wf(),
        ensures
            r matches Some(f) ==> self.formulas().contains_key(address@) && self.formulas()[address@] == f@,
            r is None ==> !self.formulas().contains_key(address@),
    {
        match find_filed(&self.formulas, address) {
            Some(i) => Some(&self.formulas[i]),
            None => None,
        }
    }

    /// Defines (or redefines) a name and recomputes every formula's static
    /// dependencies with it; nothing else of the formulas changes.
    pub fn define_name(&mut self, name: String, scope: NameScope, scope_sheet: Option<String>, definition: NameDefinition)
        requires
            old(self).wf(),
            forall|c: CellView|
                old(self).formulas().contains_key(c) ==> expansion_finishes(
                    records_after_define(
                        old(self).name_registry().records(),
                        old(self).name_registry().next_id_value(),
                        name,
                        scope,
                        scope_sheet,
                        definition,
                    ),
                    c.sheet,
                    #[trigger] old(self).formulas()[c].ast,
                ),
        ensures
            final(self).wf(),
            final(self).name_registry().records() == records_after_define(
                old(self).name_registry().records(),
                old(self).name_registry().next_id_value(),
                name,
                scope,
                scope_sheet,
                definition,
            ),
            final(self).formulas().dom() == old(self).formulas().dom(),
            forall|c: CellView|
                #![trigger final(self).formulas()[c]]
                old(self).formulas().contains_key(c) ==> final(self).formulas()[c] == (FormulaView {
                    dependencies: sorted_list::<DependencyDescriptor>(
                        static_dependencies(final(self).name_registry().records(), c.sheet, old(self).formulas()[c].ast),
                    ),
                    ..old(self).formulas()[c]
                }),
            final(self).runtime_read_set() == old(self).runtime_read_set(),
    {
        self.names.define(name, scope, scope_sheet, definition);
        let ghost fl = self.formula_list();
        let ghost fm = self.formulas();
        let ghost names = self.names.records();
        proof {
            assert forall|k: int| 0 <= k < fl.len() implies expansion_finishes(names, fl[k].address.sheet, #[trigger] fl[k].ast) by {
                lemma_filed_map_index::<FormulaRecord>(fl, k);
            }
        }
        let mut i: usize = 0;
        while i < self.formulas.len()
            invariant
                self.names.wf(),
                names == self.names.records(),
                sorted_by_key::<(CellId, CellId)>(views(self.runtime_reads@)),
                self.runtime_reads@ == old(self).runtime_reads@,
                fl == views(old(self).formulas@),
                filed_sorted::<FormulaRecord>(fl),
                self.formulas@.len() == fl.len(),
                i <= fl.len(),
                forall|k: int| 0 <= k < fl.len() ==> expansion_finishes(names, fl[k].address.sheet, #[trigger] fl[k].ast),
                forall|k: int|
                    #![trigger self.formulas@[k]]
                    0 <= k < i ==> self.formulas@[k]@ == (FormulaView {
                        dependencies: sorted_list::<DependencyDescriptor>(
                            static_dependencies(names, fl[k].address.sheet, fl[k].ast),
                        ),
                        ..fl[k]
                    }),
                forall|k: int| #![trigger self.formulas@[k]] i <= k < fl.len() ==> self.formulas@[k]@ == fl[k],
            decreases fl.len() - i,
        {
            let mut record = FormulaRecord {
                address: CellId::new(String::new(), 0, 0),
                source: String::new(),
                ast: FormulaAst::Omitted,
                generation: 0,
                static_dependencies: Vec::new(),
            };
            let ghost before = self.formulas@;
            assert(self.formulas@[i as int]@ == fl[i as int]);
            self.formulas.set_and_swap(i, &mut record);
            assert(record@ == fl[i as int]);
            let deps = collect_invalidation_dependencies(&record.ast, record.address.sheet.as_str(), &self.names);
            record.static_dependencies = deps;
            self.formulas.set(i, record);
            assert forall|k: int| #![trigger self.formulas@[k]] 0 <= k < fl.len() && k != i implies self.formulas@[k] == before[k] by {}
            i = i + 1;
        }
        proof {
            let nl = views(self.formulas@);
            assert forall|k: int| 0 <= k < nl.len() implies #[trigger] nl[k].address == fl[k].address by {
                assert(self.formulas@[k]@ == nl[k]);
            }
            assert forall|a: int, b: int| 0 <= a < b < nl.len() implies crate::order::key_lt(
                CellId::sort_key(FormulaRecord::filed_under(nl[a])),
                CellId::sort_key(FormulaRecord::filed_under(nl[b])),
            ) by {
                assert(nl[a].address == fl[a].address);
                assert(nl[b].address == fl[b].address);
                assert(crate::order::key_lt(
                    CellId::sort_key(FormulaRecord::filed_under(fl[a])),
                    CellId::sort_key(FormulaRecord::filed_under(fl[b])),
                ));
            }
            let nm = self.formulas();
            assert forall|c: CellView| nm.dom().contains(c) <==> fm.dom().contains(c) by {
                if nm.dom().contains(c) {
                    let k = choose|k: int| 0 <= k < nl.len() && nl[k].address == c;
                    assert(fl[k].address == c);
                }
                if fm.dom().contains(c) {
                    let k = choose|k: int| 0 <= k < fl.len() && fl[k].address == c;
                    assert(nl[k].address == c);
                }
            }
            assert(nm.dom() =~= fm.dom());
            assert forall|c: CellView| #![trigger nm[c]] fm.contains_key(c) implies nm[c] == (FormulaView {
                dependencies: sorted_list::<DependencyDescriptor>(static_dependencies(names, c.sheet, fm[c].ast)),
                ..fm[c]
            }) by {
                let k = choose|k: int| 0 <= k < fl.len() && fl[k].address == c;
                lemma_filed_map_index::<FormulaRecord>(fl, k);
                lemma_filed_map_index::<FormulaRecord>(nl, k);
                assert(nl[k].address == c);
                assert(self.formulas@[k]@ == nl[k]);
            }
        }
    }

    /// The counts of the model: formulas, names, descriptors by kind (each
    /// count saturating at the largest `usize`), and recorded runtime reads.
    pub fn build_metrics(&self) -> (r: ShadowCounts)
        requires
            self.wf(),
        ensures
            r == shadow_counts(
                self.formula_list(),
                self.formulas().dom().len(),
                self.name_registry().records().len(),
                self.runtime_read_set().len(),
            ),
    {
        let ghost fl = self.formula_list();
        let mut direct: usize = 0;
        let mut ranges: usize = 0;
        let mut selectors: usize = 0;
        let mut surfaces: usize = 0;
        let mut records: usize = 0;
        let mut i: usize = 0;
        while i < self.formulas.len()
            invariant
                fl == self.formula_list(),
                i <= fl.len(),
                direct == clip(formulas_kind_total(fl.subrange(0, i as int), DescriptorKind::Cell) as int),
                ranges == clip(formulas_kind_total(fl.subrange(0, i as int), DescriptorKind::Range) as int),
                selectors == clip(formulas_kind_total(fl.subrange(0, i as int), DescriptorKind::Selector) as int),
                surfaces == clip(formulas_kind_total(fl.subrange(0, i as int), DescriptorKind::Surface) as int),
                records == clip(dependency_total(fl.subrange(0, i as int)) as int),
            decreases fl.len() - i,
        {
            let ghost pre = fl.subrange(0, i as int);
            let ghost post = fl.subrange(0, i + 1);
            assert(post.drop_last() =~= pre);
            assert(post.last() == fl[i as int]);
            let deps = &self.formulas[i].static_dependencies;
            let ghost dv = views(deps@);
            assert(dv == fl[i as int].dependencies);
            records = records.saturating_add(deps.len());
            let mut j: usize = 0;
            let ghost d0 = formulas_kind_total(pre, DescriptorKind::Cell);
            let ghost r0 = formulas_kind_total(pre, DescriptorKind::Range);
            let ghost s0 = formulas_kind_total(pre, DescriptorKind::Selector);
            let ghost e0 = formulas_kind_total(pre, DescriptorKind::Surface);
            while j < deps.len()
                invariant
                    dv == views(deps@),
                    j <= dv.len(),
                    direct == clip((d0 + kind_total(dv.subrange(0, j as int), DescriptorKind::Cell)) as int),
                    ranges == clip((r0 + kind_total(dv.subrange(0, j as int), DescriptorKind::Range)) as int),
                    selectors == clip((s0 + kind_total(dv.subrange(0, j as int), DescriptorKind::Selector)) as int),
                    surfaces == clip((e0 + kind_total(dv.subrange(0, j as int), DescriptorKind::Surface)) as int),
                decreases dv.len() - j,
            {
                assert(dv.subrange(0, j + 1).drop_last() =~= dv.subrange(0, j as int));
                assert(dv.subrange(0, j + 1).last() == deps@[j as int]@);
                match &deps[j] {
                    DependencyDescriptor::Cell(_) => direct = direct.saturating_add(1),
                    DependencyDescriptor::Range(_) => ranges = ranges.saturating_add(1),
                    DependencyDescriptor::Name(_) => {},
                    DependencyDescriptor::Selector(_) => selectors = selectors.saturating_add(1),
                    _ => surfaces = surfaces.saturating_add(1),
                }
                j = j + 1;
            }
            assert(dv.subrange(0, j as int) =~= dv);
            i = i + 1;
        }
        assert(fl.subrange(0, i as int) =~= fl);
        proof {
            self.lemma_formula_count();
        }
        ShadowCounts {
            formula_vertices: self.formulas.len(),
            name_definition_count: self.names.len(),
            symbolic_range_descriptor_count: ranges,
            selector_descriptor_count: selectors,
            invalidation_dependency_count: records,
            direct_static_edge_count: direct,
            legacy_runtime_read_edge_count: self.read_count(),
            effect_descriptor_count: surfaces,
        }
    }

    fn read_count(&self) -> (r: usize)
        requires
            self.wf(),
        ensures
            r == self.runtime_read_set().len(),
    {
        proof {
            lemma_sorted_set_len::<(CellId, CellId)>(views(self.runtime_reads@));
        }
        self.runtime_reads.len()
    }

    proof fn lemma_formula_count(&self)
        requires
            self.wf(),
        ensures
            self.formulas().dom().len() == self.formula_list().len(),
    {
        let fl = self.formula_list();
        let ad = fl.map_values(|f: FormulaView| f.address);
        assert forall|c: CellView| self.formulas().dom().contains(c) <==> ad.to_set().contains(c) by {
            if self.formulas().dom().contains(c) {
                let j = choose|j: int| 0 <= j < fl.len() && fl[j].address == c;
                assert(ad[j] == c);
            }
            if ad.to_set().contains(c) {
                let j = choose|j: int| 0 <= j < ad.len() && ad[j] == c;
                assert(fl[j].address == c);
            }
        }
        assert(self.formulas().dom() =~= ad.to_set());
        assert forall|i: int, j: int| 0 <= i < j < ad.len() implies crate::order::key_lt(
            CellId::sort_key(ad[i]),
            CellId::sort_key(ad[j]),
        ) by {
            assert(crate::order::key_lt(
                CellId::sort_key(FormulaRecord::filed_under(fl[i])),
                CellId::sort_key(FormulaRecord::filed_under(fl[j])),
            ));
        }
        lemma_sorted_set_len::<CellId>(ad);
    }
}

} // verus!
