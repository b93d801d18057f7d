//! What an evaluation read: every read, the runtime edges between formulas,
//! cycles met on the evaluation stack, and (when tracking is on) per-formula
//! read traces. Sets are kept as sorted lists without repetition; records
//! beyond the diagnostic limit are counted but not kept.
use vstd::prelude::*;
use crate::address::{CellId, CellView, RangeDescriptor, RangeView, ReferenceValue, ReferenceView, SpillRef, SpillView, TableDescriptor, TableView};
use crate::dependency::{DependencyDescriptor, DependencyView, EffectKey, EffectView};
use crate::keys::{Filed, cell_key, file_item, filed_map, filed_sorted, find_filed, lemma_cell_key_split, lemma_range_key_split_with, lemma_reference_key_split_with, lemma_spill_key_split_with, lemma_table_key_split_with, lemma_tag_split, lemma_whole_cell_key, push_cell_key, push_range_key, push_reference_key, push_spill_key, push_table_key, push_word, range_key, reference_key, spill_key, table_key, unfile};
use crate::names::NameId;
use crate::order::{SortKey, insert_sorted, key_view, lemma_sorted_set_len, sorted_by_key, value_set, views};

verus! {

/// One read made while evaluating a formula.
#[derive(Clone, Debug, Eq, PartialEq, Ord, PartialOrd, Hash)]
pub enum ExecutionRead {
    Cell(CellId),
    Range(RangeDescriptor),
    Name(NameId),
    Spill(SpillRef),
    Dynamic { selector: Option<CellId>, target: ReferenceValue },
    Table(TableDescriptor),
}

/// The mathematical value of an [`ExecutionRead`].
pub enum ReadView {
    Cell(CellView),
    Range(RangeView),
    Name(NameId),
    Spill(SpillView),
    Dynamic { selector: Option<CellView>, target: ReferenceView },
    Table(TableView),
}

impl View for ExecutionRead {
    type V = ReadView;

    open spec fn view(&self) -> ReadView {
        match self {
            ExecutionRead::Cell(c) => ReadView::Cell(c@),
            ExecutionRead::Range(r) => ReadView::Range(r@),
            ExecutionRead::Name(n) => ReadView::Name(*n),
            ExecutionRead::Spill(s) => ReadView::Spill(s@),
            ExecutionRead::Dynamic { selector, target } => ReadView::Dynamic {
                selector: match selector {
                    Some(c) => Some(c@),
                    None => None,
                },
                target: target@,
            },
            ExecutionRead::Table(t) => ReadView::Table(t@),
        }
    }
}

/// The sort key of an optional cell: absent first.
pub open spec fn optional_cell_key(c: Option<CellView>) -> Seq<int> {
    match c {
        None => seq![0],
        Some(c) => seq![1] + cell_key(c),
    }
}

/// The sort key of a read: its kind, then its fields.
pub open spec fn read_key(r: ReadView) -> Seq<int> {
    match r {
        ReadView::Cell(c) => seq![0] + cell_key(c),
        ReadView::Range(g) => seq![1] + range_key(g),
        ReadView::Name(n) => seq![2, n.0 as int],
        ReadView::Spill(s) => seq![3] + spill_key(s),
        ReadView::Dynamic { selector, target } => seq![4] + optional_cell_key(selector) + reference_key(target),
        ReadView::Table(t) => seq![5] + table_key(t),
    }
}

proof fn lemma_optional_cell_key_split(a: Option<CellView>, b: Option<CellView>, x: Seq<int>, y: Seq<int>)
    requires
        optional_cell_key(a) + x == optional_cell_key(b) + y,
    ensures
        a == b,
        x == y,
{
    let ka = optional_cell_key(a) + x;
    let kb = optional_cell_key(b) + y;
    assert(ka[0] == kb[0]);
    match (a, b) {
        (None, None) => {
            lemma_tag_split(0, 0, x, y);
        },
        (Some(c), Some(d)) => {
            assert(ka =~= seq![1] + (cell_key(c) + x));
            assert(kb =~= seq![1] + (cell_key(d) + y));
            lemma_tag_split(1, 1, cell_key(c) + x, cell_key(d) + y);
            lemma_cell_key_split(c, d, x, y);
        },
        _ => {},
    }
}

proof fn lemma_read_key_injective(a: ReadView, b: ReadView)
    requires
        read_key(a) == read_key(b),
    ensures
        a == b,
{
    let ka = read_key(a);
    let kb = read_key(b);
    let e = Seq::<int>::empty();
    assert(ka[0] == kb[0]);
    match (a, b) {
        (ReadView::Cell(c), ReadView::Cell(d)) => {
            lemma_tag_split(0, 0, cell_key(c), cell_key(d));
            lemma_whole_cell_key(c, d);
        },
        (ReadView::Range(c), ReadView::Range(d)) => {
            lemma_tag_split(1, 1, range_key(c), range_key(d));
            assert(range_key(c) + e =~= range_key(c));
            assert(range_key(d) + e =~= range_key(d));
            lemma_range_key_split_with(c, d, e, e);
        },
        (ReadView::Name(c), ReadView::Name(d)) => {
            assert(ka[1] == kb[1]);
        },
        (ReadView::Spill(c), ReadView::Spill(d)) => {
            lemma_tag_split(3, 3, spill_key(c), spill_key(d));
            assert(spill_key(c) + e =~= spill_key(c));
            assert(spill_key(d) + e =~= spill_key(d));
            lemma_spill_key_split_with(c, d, e, e);
        },
        (ReadView::Dynamic { selector: s1, target: t1 }, ReadView::Dynamic { selector: s2, target: t2 }) => {
            assert(ka =~= seq![4] + (optional_cell_key(s1) + reference_key(t1)));
            assert(kb =~= seq![4] + (optional_cell_key(s2) + reference_key(t2)));
            lemma_tag_split(4, 4, optional_cell_key(s1) + reference_key(t1), optional_cell_key(s2) + reference_key(t2));
            lemma_optional_cell_key_split(s1, s2, reference_key(t1), reference_key(t2));
            assert(reference_key(t1) + e =~= reference_key(t1));
            assert(reference_key(t2) + e =~= reference_key(t2));
            lemma_reference_key_split_with(t1, t2, e, e);
        },
        (ReadView::Table(c), ReadView::Table(d)) => {
            lemma_tag_split(5, 5, table_key(c), table_key(d));
            assert(table_key(c) + e =~= table_key(c));
            assert(table_key(d) + e =~= table_key(d));
            lemma_table_key_split_with(c, d, e, e);
        },
        _ => {},
    }
}

impl SortKey for ExecutionRead {
    open spec fn sort_key(v: ReadView) -> Seq<int> {
        read_key(v)
    }

    proof fn lemma_sort_key_injective(a: ReadView, b: ReadView) {
        lemma_read_key_injective(a, b);
    }

    fn key_words(&self) -> (k: Vec<u64>) {
        let mut k: Vec<u64> = Vec::new();
        assert(key_view(k@) =~= Seq::<int>::empty());
        match self {
            ExecutionRead::Cell(c) => {
                push_word(&mut k, 0);
                push_cell_key(&mut k, c);
            },
            ExecutionRead::Range(g) => {
                push_word(&mut k, 1);
                push_range_key(&mut k, g);
            },
            ExecutionRead::Name(n) => {
                push_word(&mut k, 2);
                push_word(&mut k, n.0 as u64);
            },
            ExecutionRead::Spill(s) => {
                push_word(&mut k, 3);
                push_spill_key(&mut k, s);
            },
            ExecutionRead::Dynamic { selector, target } => {
                push_word(&mut k, 4);
                match selector {
                    None => push_word(&mut k, 0),
                    Some(c) => {
                        push_word(&mut k, 1);
                        push_cell_key(&mut k, c);
                    },
                }
                push_reference_key(&mut k, target);
            },
            ExecutionRead::Table(t) => {
                push_word(&mut k, 5);
                push_table_key(&mut k, t);
            },
        }
        assert(key_view(k@) =~= read_key(self@));
        k
    }
}

/// A value filed under a cell.
impl Filed for (CellId, String) {
    type Key = CellId;

    open spec fn filed_under(v: (CellView, Seq<char>)) -> CellView {
        v.0
    }

    fn filing_key(&self) -> (k: &CellId) {
        &self.0
    }
}

/// A count filed under a cell.
impl Filed for (CellId, usize) {
    type Key = CellId;

    open spec fn filed_under(v: (CellView, usize)) -> CellView {
        v.0
    }

    fn filing_key(&self) -> (k: &CellId) {
        &self.0
    }
}

/// A count filed under a range.
impl Filed for (RangeDescriptor, usize) {
    type Key = RangeDescriptor;

    open spec fn filed_under(v: (RangeView, usize)) -> RangeView {
        v.0
    }

    fn filing_key(&self) -> (k: &RangeDescriptor) {
        &self.0
    }
}

/// The second parts of a filed map's entries.
pub open spec fn seconds<K, A, B>(m: Map<K, (A, B)>) -> Map<K, B> {
    m.map_values(|p: (A, B)| p.1)
}

/// What one formula read during an evaluation.
pub struct FormulaReadTrace {
    pub cell_reads: Vec<CellId>,
    pub cell_read_values: Vec<(CellId, String)>,
    pub formula_reads: Vec<CellId>,
    pub range_reads: Vec<RangeDescriptor>,
    pub range_cells_read: usize,
    pub range_cell_counts: Vec<(RangeDescriptor, usize)>,
    pub name_resolutions: Vec<NameId>,
    pub selected_references: Vec<ReferenceValue>,
    pub runtime_edges: Vec<(CellId, CellId)>,
    pub unsupported_functions: Vec<String>,
}

/// The mathematical value of a [`FormulaReadTrace`].
#[verifier::ext_equal]
pub struct FormulaTraceView {
    pub cell_reads: Set<CellView>,
    pub cell_read_values: Map<CellView, Seq<char>>,
    pub formula_reads: Set<CellView>,
    pub range_reads: Set<RangeView>,
    pub range_cells_read: usize,
    pub range_cell_counts: Map<RangeView, usize>,
    pub name_resolutions: Set<NameId>,
    pub selected_references: Set<ReferenceView>,
    pub runtime_edges: Set<(CellView, CellView)>,
    pub unsupported_functions: Set<Seq<char>>,
}

impl View for FormulaReadTrace {
    type V = FormulaTraceView;

    open spec fn view(&self) -> FormulaTraceView {
        FormulaTraceView {
            cell_reads: value_set(self.cell_reads@),
            cell_read_values: seconds(filed_map::<(CellId, String)>(views(self.cell_read_values@))),
            formula_reads: value_set(self.formula_reads@),
            range_reads: value_set(self.range_reads@),
            range_cells_read: self.range_cells_read,
            range_cell_counts: seconds(filed_map::<(RangeDescriptor, usize)>(views(self.range_cell_counts@))),
            name_resolutions: value_set(self.name_resolutions@),
            selected_references: value_set(self.selected_references@),
            runtime_edges: value_set(self.runtime_edges@),
            unsupported_functions: value_set(self.unsupported_functions@),
        }
    }
}

/// The trace of a formula that has read nothing yet.
pub open spec fn empty_trace() -> FormulaTraceView {
    FormulaTraceView {
        cell_reads: Set::empty(),
        cell_read_values: Map::empty(),
        formula_reads: Set::empty(),
        range_reads: Set::empty(),
        range_cells_read: 0,
        range_cell_counts: Map::empty(),
        name_resolutions: Set::empty(),
        selected_references: Set::empty(),
        runtime_edges: Set::empty(),
        unsupported_functions: Set::empty(),
    }
}

impl FormulaReadTrace {
    /// Every list is sorted and without repetition.
    pub open spec fn wf(&self) -> bool {
        &&& sorted_by_key::<CellId>(views(self.cell_reads@))
        &&& filed_sorted::<(CellId, String)>(views(self.cell_read_values@))
        &&& sorted_by_key::<CellId>(views(self.formula_reads@))
        &&& sorted_by_key::<RangeDescriptor>(views(self.range_reads@))
        &&& filed_sorted::<(RangeDescriptor, usize)>(views(self.range_cell_counts@))
        &&& sorted_by_key::<NameId>(views(self.name_resolutions@))
        &&& sorted_by_key::<ReferenceValue>(views(self.selected_references@))
        &&& sorted_by_key::<(CellId, CellId)>(views(self.runtime_edges@))
        &&& sorted_by_key::<String>(views(self.unsupported_functions@))
    }

    /// A trace that has read nothing.
    pub fn new() -> (r: FormulaReadTrace)
        ensures
            r.wf(),
            r@ == empty_trace(),
    {
        let r = FormulaReadTrace {
            cell_reads: Vec::new(),
            cell_read_values: Vec::new(),
            formula_reads: Vec::new(),
            range_reads: Vec::new(),
            range_cells_read: 0,
            range_cell_counts: Vec::new(),
            name_resolutions: Vec::new(),
            selected_references: Vec::new(),
            runtime_edges: Vec::new(),
            unsupported_functions: Vec::new(),
        };
        assert(r@.cell_reads =~= Set::<CellView>::empty());
        assert(r@.cell_read_values =~= Map::<CellView, Seq<char>>::empty());
        assert(r@.formula_reads =~= Set::<CellView>::empty());
        assert(r@.range_reads =~= Set::<RangeView>::empty());
        assert(r@.range_cell_counts =~= Map::<RangeView, usize>::empty());
        assert(r@.name_resolutions =~= Set::<NameId>::empty());
        assert(r@.selected_references =~= Set::<ReferenceView>::empty());
        assert(r@.runtime_edges =~= Set::<(CellView, CellView)>::empty());
        assert(r@.unsupported_functions =~= Set::<Seq<char>>::empty());
        r
    }
}

/// A formula's read trace filed under the formula's cell.
impl Filed for (CellId, FormulaReadTrace) {
    type Key = CellId;

    open spec fn filed_under(v: (CellView, FormulaTraceView)) -> CellView {
        v.0
    }

    fn filing_key(&self) -> (k: &CellId) {
        &self.0
    }
}

/// What an evaluation pass read and found.
pub struct TraceReport {
    pub execution_reads: Vec<ExecutionRead>,
    pub runtime_edges: Vec<(CellId, CellId)>,
    pub runtime_formula_edges: Vec<(CellId, CellId)>,
    pub runtime_cycle_edges: Vec<(CellId, CellId)>,
    pub execution_read_count: usize,
    pub runtime_edge_count: usize,
    pub runtime_formula_edge_events: usize,
    pub runtime_formula_edges_processed: usize,
    pub call_stack_back_edges: usize,
    pub diagnostic_edge_records_dropped: usize,
    pub execution_reads_truncated: bool,
    pub runtime_edges_truncated: bool,
    pub formula_read_traces: Vec<(CellId, FormulaReadTrace)>,
    pub track_formula_reads: bool,
    pub diagnostic_record_limit: usize,
    pub runtime_cycle_members: Vec<CellId>,
    pub runtime_cycle_paths: Vec<Vec<CellId>>,
    pub invalidation_dependencies: Vec<DependencyDescriptor>,
    pub effects: Vec<EffectKey>,
    pub evaluation_counts: Vec<(CellId, usize)>,
    pub range_cells_read: usize,
    pub name_reads: usize,
    pub dynamic_reads: usize,
    pub unsupported_formula_count: usize,
    pub schedule_steps: usize,
    pub solver_passes: usize,
}

/// The mathematical value of a [`TraceReport`].
#[verifier::ext_equal]
pub struct TraceSummary {
    pub execution_reads: Set<ReadView>,
    pub runtime_edges: Set<(CellView, CellView)>,
    pub runtime_formula_edges: Set<(CellView, CellView)>,
    pub runtime_cycle_edges: Set<(CellView, CellView)>,
    pub execution_read_count: usize,
    pub runtime_edge_count: usize,
    pub runtime_formula_edge_events: usize,
    pub runtime_formula_edges_processed: usize,
    pub call_stack_back_edges: usize,
    pub diagnostic_edge_records_dropped: usize,
    pub execution_reads_truncated: bool,
    pub runtime_edges_truncated: bool,
    pub traces: Map<CellView, FormulaTraceView>,
    pub track_formula_reads: bool,
    pub diagnostic_record_limit: usize,
    pub runtime_cycle_members: Set<CellView>,
    pub runtime_cycle_paths: Seq<Seq<CellView>>,
    pub invalidation_dependencies: Set<DependencyView>,
    pub effects: Set<EffectView>,
    pub evaluation_counts: Map<CellView, usize>,
    pub range_cells_read: usize,
    pub name_reads: usize,
    pub dynamic_reads: usize,
    pub unsupported_formula_count: usize,
    pub schedule_steps: usize,
    pub solver_passes: usize,
}

/// The most records a trace keeps when no limit is set.
pub const MAX_RECORDED_READS: usize = 100000;

/// `a + b`, or the largest `usize` if that is larger.
pub open spec fn sat_add(a: usize, b: usize) -> usize {
    if a + b > usize::MAX {
        usize::MAX
    } else {
        (a + b) as usize
    }
}

/// The records kept of `reader`'s trace, read from a map of traces.
pub open spec fn trace_of(traces: Map<CellView, FormulaTraceView>, reader: CellView) -> FormulaTraceView {
    if traces.contains_key(reader) {
        traces[reader]
    } else {
        empty_trace()
    }
}

/// The limit on kept reads a trace summary was made with.
pub open spec fn summary_limit(o: TraceSummary) -> usize {
    if o.diagnostic_record_limit == 0 {
        MAX_RECORDED_READS
    } else {
        o.diagnostic_record_limit
    }
}

/// A trace after one more read: counted (as a name or dynamic read where it
/// is one), kept while fewer than the limit are kept, else noted as
/// truncated.
pub open spec fn after_read(o: TraceSummary, read: ReadView) -> TraceSummary {
    let kept = o.execution_reads.len() < summary_limit(o);
    TraceSummary {
        name_reads: if read is Name { sat_add(o.name_reads, 1) } else { o.name_reads },
        dynamic_reads: if read is Dynamic { sat_add(o.dynamic_reads, 1) } else { o.dynamic_reads },
        execution_read_count: sat_add(o.execution_read_count, 1),
        execution_reads: if kept { o.execution_reads.insert(read) } else { o.execution_reads },
        execution_reads_truncated: if kept { o.execution_reads_truncated } else { true },
        ..o
    }
}

/// A trace after `reader` read `range`: the read, and when tracking the
/// range in the reader's trace.
pub open spec fn after_range_read(o: TraceSummary, reader: CellView, range: RangeView) -> TraceSummary {
    let a = after_read(o, ReadView::Range(range));
    let t = trace_of(o.traces, reader);
    TraceSummary {
        traces: if o.track_formula_reads {
            o.traces.insert(reader, FormulaTraceView { range_reads: t.range_reads.insert(range), ..t })
        } else {
            o.traces
        },
        ..a
    }
}

/// A trace after `reader` resolved the name `name`: the read, and when
/// tracking the name in the reader's trace.
pub open spec fn after_name_read(o: TraceSummary, reader: CellView, name: NameId) -> TraceSummary {
    let a = after_read(o, ReadView::Name(name));
    let t = trace_of(o.traces, reader);
    TraceSummary {
        traces: if o.track_formula_reads {
            o.traces.insert(reader, FormulaTraceView { name_resolutions: t.name_resolutions.insert(name), ..t })
        } else {
            o.traces
        },
        ..a
    }
}

impl TraceReport {
    pub open spec fn wf(&self) -> bool {
        &&& sorted_by_key::<ExecutionRead>(views(self.execution_reads@))
        &&& sorted_by_key::<(CellId, CellId)>(views(self.runtime_edges@))
        &&& sorted_by_key::<(CellId, CellId)>(views(self.runtime_formula_edges@))
        &&& sorted_by_key::<(CellId, CellId)>(views(self.runtime_cycle_edges@))
        &&& filed_sorted::<(CellId, FormulaReadTrace)>(views(self.formula_read_traces@))
        &&& forall|i: int|
            0 <= i < self.formula_read_traces@.len() ==> (#[trigger] self.formula_read_traces@[i]).1.wf()
        &&& sorted_by_key::<CellId>(views(self.runtime_cycle_members@))
        &&& sorted_by_key::<DependencyDescriptor>(views(self.invalidation_dependencies@))
        &&& sorted_by_key::<EffectKey>(views(self.effects@))
        &&& filed_sorted::<(CellId, usize)>(views(self.evaluation_counts@))
    }

    /// The per-formula traces by formula cell.
    pub open spec fn traces(&self) -> Map<CellView, FormulaTraceView> {
        seconds(filed_map::<(CellId, FormulaReadTrace)>(views(self.formula_read_traces@)))
    }

    pub open spec fn summary(&self) -> TraceSummary {
        TraceSummary {
            execution_reads: value_set(self.execution_reads@),
            runtime_edges: value_set(self.runtime_edges@),
            runtime_formula_edges: value_set(self.runtime_formula_edges@),
            runtime_cycle_edges: value_set(self.runtime_cycle_edges@),
            execution_read_count: self.execution_read_count,
            runtime_edge_count: self.runtime_edge_count,
            runtime_formula_edge_events: self.runtime_formula_edge_events,
            runtime_formula_edges_processed: self.runtime_formula_edges_processed,
            call_stack_back_edges: self.call_stack_back_edges,
            diagnostic_edge_records_dropped: self.diagnostic_edge_records_dropped,
            execution_reads_truncated: self.execution_reads_truncated,
            runtime_edges_truncated: self.runtime_edges_truncated,
            traces: self.traces(),
            track_formula_reads: self.track_formula_reads,
            diagnostic_record_limit: self.diagnostic_record_limit,
            runtime_cycle_members: value_set(self.runtime_cycle_members@),
            runtime_cycle_paths: self.runtime_cycle_paths@.map_values(|p: Vec<CellId>| views(p@)),
            invalidation_dependencies: value_set(self.invalidation_dependencies@),
            effects: value_set(self.effects@),
            evaluation_counts: seconds(filed_map::<(CellId, usize)>(views(self.evaluation_counts@))),
            range_cells_read: self.range_cells_read,
            name_reads: self.name_reads,
            dynamic_reads: self.dynamic_reads,
            unsupported_formula_count: self.unsupported_formula_count,
            schedule_steps: self.schedule_steps,
            solver_passes: self.solver_passes,
        }
    }

    /// The limit on kept records: the set limit, or [`MAX_RECORDED_READS`] when it is 0.
    pub open spec fn limit(&self) -> usize {
        if self.diagnostic_record_limit == 0 {
            MAX_RECORDED_READS
        } else {
            self.diagnostic_record_limit
        }
    }

    /// An empty trace: nothing read, no limit set, no per-formula tracking.
    pub fn new() -> (r: TraceReport)
        ensures
            r.wf(),
            r.summary() == (TraceSummary {
                execution_reads: Set::empty(),
                runtime_edges: Set::empty(),
                runtime_formula_edges: Set::empty(),
                runtime_cycle_edges: Set::empty(),
                execution_read_count: 0,
                runtime_edge_count: 0,
                runtime_formula_edge_events: 0,
                runtime_formula_edges_processed: 0,
                call_stack_back_edges: 0,
                diagnostic_edge_records_dropped: 0,
                execution_reads_truncated: false,
                runtime_edges_truncated: false,
                traces: Map::empty(),
                track_formula_reads: false,
                diagnostic_record_limit: 0,
                runtime_cycle_members: Set::empty(),
                runtime_cycle_paths: Seq::empty(),
                invalidation_dependencies: Set::empty(),
                effects: Set::empty(),
                evaluation_counts: Map::empty(),
                range_cells_read: 0,
                name_reads: 0,
                dynamic_reads: 0,
                unsupported_formula_count: 0,
                schedule_steps: 0,
                solver_passes: 0,
            }),
    {
        let r = TraceReport {
            execution_reads: Vec::new(),
            runtime_edges: Vec::new(),
            runtime_formula_edges: Vec::new(),
            runtime_cycle_edges: Vec::new(),
            execution_read_count: 0,
            runtime_edge_count: 0,
            runtime_formula_edge_events: 0,
            runtime_formula_edges_processed: 0,
            call_stack_back_edges: 0,
            diagnostic_edge_records_dropped: 0,
            execution_reads_truncated: false,
            runtime_edges_truncated: false,
            formula_read_traces: Vec::new(),
            track_formula_reads: false,
            diagnostic_record_limit: 0,
            runtime_cycle_members: Vec::new(),
            runtime_cycle_paths: Vec::new(),
            invalidation_dependencies: Vec::new(),
            effects: Vec::new(),
            evaluation_counts: Vec::new(),
            range_cells_read: 0,
            name_reads: 0,
            dynamic_reads: 0,
            unsupported_formula_count: 0,
            schedule_steps: 0,
            solver_passes: 0,
        };
        let ghost s = r.summary();
        assert(s.execution_reads =~= Set::<ReadView>::empty());
        assert(s.runtime_edges =~= Set::<(CellView, CellView)>::empty());
        assert(s.runtime_formula_edges =~= Set::<(CellView, CellView)>::empty());
        assert(s.runtime_cycle_edges =~= Set::<(CellView, CellView)>::empty());
        assert(s.traces =~= Map::<CellView, FormulaTraceView>::empty());
        assert(s.runtime_cycle_members =~= Set::<CellView>::empty());
        assert(s.runtime_cycle_paths =~= Seq::<Seq<CellView>>::empty());
        assert(s.invalidation_dependencies =~= Set::<DependencyView>::empty());
        assert(s.effects =~= Set::<EffectView>::empty());
        assert(s.evaluation_counts =~= Map::<CellView, usize>::empty());
        r
    }

    /// Turns per-formula tracking on.
    pub fn enable_formula_read_tracking(&mut self)
        requires
            old(self).wf(),
        ensures
            final(self).wf(),
            final(self).summary() == (TraceSummary { track_formula_reads: true, ..old(self).summary() }),
    {
        self.track_formula_reads = true;
    }

    /// The limit on kept records.
    pub fn diagnostic_limit(&self) -> (r: usize)
        ensures
            r == self.limit(),
    {
        if self.diagnostic_record_limit == 0 {
            MAX_RECORDED_READS
        } else {
            self.diagnostic_record_limit
        }
    }

    /// Takes `reader`'s trace out (an empty one if there is none).
    fn take_trace(&mut self, reader: &CellId) -> (t: FormulaReadTrace)
        requires
            old(self).wf(),
        ensures
            final(self).wf(),
            t.wf(),
            t@ == trace_of(old(self).traces(), reader@),
            final(self).summary() == (TraceSummary {
                traces: old(self).traces().remove(reader@),
                ..old(self).summary()
            }),
    {
        let ghost before = self.formula_read_traces@;
        let removed = unfile(&mut self.formula_read_traces, reader);
        assert forall|i: int| 0 <= i < self.formula_read_traces@.len() implies (
        #[trigger] self.formula_read_traces@[i]).1.wf() by {
            let j = choose|j: int| 0 <= j < before.len() && before[j] == self.formula_read_traces@[i];
            assert(before[j].1.wf());
        }
        assert(self.traces() =~= old(self).traces().remove(reader@));
        match removed {
            Some(entry) => {
                proof {
                    let j = choose|j: int| 0 <= j < before.len() && before[j] == entry;
                    assert(before[j].1.wf());
                }
                entry.1
            },
            None => FormulaReadTrace::new(),
        }
    }

    /// Files `t` as `reader`'s trace.
    fn put_trace(&mut self, reader: CellId, t: FormulaReadTrace)
        requires
            old(self).wf(),
            t.wf(),
        ensures
            final(self).wf(),
            final(self).summary() == (TraceSummary {
                traces: old(self).traces().insert(reader@, t@),
                ..old(self).summary()
            }),
    {
        let ghost before = self.formula_read_traces@;
        let ghost entry = (reader, t);
        file_item(&mut self.formula_read_traces, (reader, t));
        assert forall|i: int| 0 <= i < self.formula_read_traces@.len() implies (
        #[trigger] self.formula_read_traces@[i]).1.wf() by {
            if self.formula_read_traces@[i] != entry {
                let j = choose|j: int| 0 <= j < before.len() && before[j] == self.formula_read_traces@[i];
                assert(before[j].1.wf());
            }
        }
        assert(self.traces() =~= old(self).traces().insert(reader@, t@));
    }

    /// Records a read: counts it, counts name and dynamic reads, and keeps it
    /// while fewer than the limit are kept (else notes the truncation).
    pub fn record_read(&mut self, read: ExecutionRead)
        requires
            old(self).wf(),
        ensures
            final(self).wf(),
            final(self).summary() == after_read(old(self).summary(), read@),
            final(self).summary() == (TraceSummary {
                name_reads: if read is Name { sat_add(old(self).name_reads, 1) } else { old(self).name_reads },
                dynamic_reads: if read is Dynamic { sat_add(old(self).dynamic_reads, 1) } else { old(self).dynamic_reads },
                execution_read_count: sat_add(old(self).execution_read_count, 1),
                execution_reads: if old(self).execution_reads@.len() < old(self).limit() {
                    old(self).summary().execution_reads.insert(read@)
                } else {
                    old(self).summary().execution_reads
                },
                execution_reads_truncated: if old(self).execution_reads@.len() < old(self).limit() {
                    old(self).execution_reads_truncated
                } else {
                    true
                },
                ..old(self).summary()
            }),
    {
        proof {
            lemma_sorted_set_len::<ExecutionRead>(views(self.execution_reads@));
        }
        if matches!(read, ExecutionRead::Name(_)) {
            self.name_reads = self.name_reads.saturating_add(1);
        }
        if matches!(read, ExecutionRead::Dynamic { .. }) {
            self.dynamic_reads = self.dynamic_reads.saturating_add(1);
        }
        self.execution_read_count = self.execution_read_count.saturating_add(1);
        if self.execution_reads.len() < self.diagnostic_limit() {
            insert_sorted(&mut self.execution_reads, read);
        } else {
            self.execution_reads_truncated = true;
        }
    }

    /// Records that `reader` read the cell `target` holding the value written
    /// `value`: a read and a runtime edge (each kept up to the limit, dropped
    /// edges counted), and, when tracking, the cell and its value in the
    /// reader's trace.
    pub fn record_cell_read(&mut self, reader: &CellId, target: &CellId, value: String)
        requires
            old(self).wf(),
        ensures
            final(self).wf(),
            ({
                let o = old(self).summary();
                let t = trace_of(o.traces, reader@);
                final(self).summary() == (TraceSummary {
                    execution_read_count: sat_add(o.execution_read_count, 1),
                    execution_reads: if old(self).execution_reads@.len() < old(self).limit() {
                        o.execution_reads.insert(ReadView::Cell(target@))
                    } else {
                        o.execution_reads
                    },
                    execution_reads_truncated: if old(self).execution_reads@.len() < old(self).limit() {
                        o.execution_reads_truncated
                    } else {
                        true
                    },
                    runtime_edge_count: sat_add(o.runtime_edge_count, 1),
                    runtime_edges: if old(self).runtime_edges@.len() < old(self).limit() {
                        o.runtime_edges.insert((reader@, target@))
                    } else {
                        o.runtime_edges
                    },
                    runtime_edges_truncated: if old(self).runtime_edges@.len() < old(self).limit() {
                        o.runtime_edges_truncated
                    } else {
                        true
                    },
                    diagnostic_edge_records_dropped: if old(self).runtime_edges@.len() < old(self).limit() {
                        o.diagnostic_edge_records_dropped
                    } else {
                        sat_add(o.diagnostic_edge_records_dropped, 1)
                    },
                    traces: if o.track_formula_reads {
                        o.traces.insert(
                            reader@,
                            FormulaTraceView {
                                cell_reads: t.cell_reads.insert(target@),
                                cell_read_values: t.cell_read_values.insert(target@, value@),
                                ..t
                            },
                        )
                    } else {
                        o.traces
                    },
                    ..o
                })
            }),
    {
        self.execution_read_count = self.execution_read_count.saturating_add(1);
        if self.execution_reads.len() < self.diagnostic_limit() {
            insert_sorted(&mut self.execution_reads, ExecutionRead::Cell(target.duplicate()));
        } else {
            self.execution_reads_truncated = true;
        }
        self.runtime_edge_count = self.runtime_edge_count.saturating_add(1);
        if self.runtime_edges.len() < self.diagnostic_limit() {
            insert_sorted(&mut self.runtime_edges, (reader.duplicate(), target.duplicate()));
        } else {
            self.runtime_edges_truncated = true;
            self.diagnostic_edge_records_dropped = self.diagnostic_edge_records_dropped.saturating_add(1);
        }
        if self.track_formula_reads {
            let mut t = self.take_trace(reader);
            let ghost tv = t@;
            insert_sorted(&mut t.cell_reads, target.duplicate());
            let ghost cv = t.cell_read_values@;
            file_item(&mut t.cell_read_values, (target.duplicate(), value));
            assert(t@.cell_read_values =~= tv.cell_read_values.insert(target@, value@));
            self.put_trace(reader.duplicate(), t);
        }
    }

    /// When tracking, records the value written `value` as what `reader` read at `target`.
    pub fn update_cell_read_value(&mut self, reader: &CellId, target: &CellId, value: String)
        requires
            old(self).wf(),
        ensures
            final(self).wf(),
            ({
                let o = old(self).summary();
                let t = trace_of(o.traces, reader@);
                final(self).summary() == (TraceSummary {
                    traces: if o.track_formula_reads {
                        o.traces.insert(
                            reader@,
                            FormulaTraceView { cell_read_values: t.cell_read_values.insert(target@, value@), ..t },
                        )
                    } else {
                        o.traces
                    },
                    ..o
                })
            }),
    {
        if self.track_formula_reads {
            let mut t = self.take_trace(reader);
            let ghost tv = t@;
            file_item(&mut t.cell_read_values, (target.duplicate(), value));
            assert(t@.cell_read_values =~= tv.cell_read_values.insert(target@, value@));
            self.put_trace(reader.duplicate(), t);
        }
    }

    /// Records that formula `reader` read formula `target`: counts the event,
    /// keeps the edge, and when tracking notes it in the reader's trace.
    pub fn record_runtime_formula_edge(&mut self, reader: &CellId, target: &CellId)
        requires
            old(self).wf(),
        ensures
            final(self).wf(),
            ({
                let o = old(self).summary();
                let t = trace_of(o.traces, reader@);
                final(self).summary() == (TraceSummary {
                    runtime_formula_edge_events: sat_add(o.runtime_formula_edge_events, 1),
                    runtime_formula_edges: o.runtime_formula_edges.insert((reader@, target@)),
                    traces: if o.track_formula_reads {
                        o.traces.insert(
                            reader@,
                            FormulaTraceView {
                                formula_reads: t.formula_reads.insert(target@),
                                runtime_edges: t.runtime_edges.insert((reader@, target@)),
                                ..t
                            },
                        )
                    } else {
                        o.traces
                    },
                    ..o
                })
            }),
    {
        self.runtime_formula_edge_events = self.runtime_formula_edge_events.saturating_add(1);
        insert_sorted(&mut self.runtime_formula_edges, (reader.duplicate(), target.duplicate()));
        if self.track_formula_reads {
            let mut t = self.take_trace(reader);
            insert_sorted(&mut t.formula_reads, target.duplicate());
            insert_sorted(&mut t.runtime_edges, (reader.duplicate(), target.duplicate()));
            self.put_trace(reader.duplicate(), t);
        }
    }

    /// Records that `reader` read `range`: a range read, and when tracking the
    /// range in the reader's trace.
    pub fn record_range_read(&mut self, reader: &CellId, range: RangeDescriptor)
        requires
            old(self).wf(),
        ensures
            final(self).wf(),
            final(self).summary() == after_range_read(old(self).summary(), reader@, range@),
            ({
                let o = old(self).summary();
                let t = trace_of(o.traces, reader@);
                final(self).summary() == (TraceSummary {
                    execution_read_count: sat_add(o.execution_read_count, 1),
                    execution_reads: if old(self).execution_reads@.len() < old(self).limit() {
                        o.execution_reads.insert(ReadView::Range(range@))
                    } else {
                        o.execution_reads
                    },
                    execution_reads_truncated: if old(self).execution_reads@.len() < old(self).limit() {
                        o.execution_reads_truncated
                    } else {
                        true
                    },
                    traces: if o.track_formula_reads {
                        o.traces.insert(reader@, FormulaTraceView { range_reads: t.range_reads.insert(range@), ..t })
                    } else {
                        o.traces
                    },
                    ..o
                })
            }),
    {
        self.record_read(ExecutionRead::Range(range.duplicate()));
        if self.track_formula_reads {
            let mut t = self.take_trace(reader);
            insert_sorted(&mut t.range_reads, range);
            self.put_trace(reader.duplicate(), t);
        }
    }

    /// When tracking, adds `count` cells read from `range` to the reader's
    /// totals, overall and for that range.
    pub fn record_range_cells_read(&mut self, reader: &CellId, range: &RangeDescriptor, count: usize)
        requires
            old(self).wf(),
        ensures
            final(self).wf(),
            ({
                let o = old(self).summary();
                let t = trace_of(o.traces, reader@);
                final(self).summary() == (TraceSummary {
                    traces: if o.track_formula_reads {
                        o.traces.insert(
                            reader@,
                            FormulaTraceView {
                                range_cells_read: sat_add(t.range_cells_read, count),
                                range_cell_counts: t.range_cell_counts.insert(
                                    range@,
                                    if t.range_cell_counts.contains_key(range@) {
                                        sat_add(t.range_cell_counts[range@], count)
                                    } else {
                                        count
                                    },
                                ),
                                ..t
                            },
                        )
                    } else {
                        o.traces
                    },
                    ..o
                })
            }),
    {
        if self.track_formula_reads {
            let mut t = self.take_trace(reader);
            let ghost tv = t@;
            t.range_cells_read = t.range_cells_read.saturating_add(count);
            let previous = match find_filed(&t.range_cell_counts, range) {
                Some(i) => Some(t.range_cell_counts[i].1),
                None => None,
            };
            let updated = match previous {
                Some(v) => v.saturating_add(count),
                None => count,
            };
            file_item(&mut t.range_cell_counts, (range.duplicate(), updated));
            assert(t@.range_cell_counts =~= tv.range_cell_counts.insert(range@, updated));
            self.put_trace(reader.duplicate(), t);
        }
    }

    /// Counts `count` reads of empty cells (not kept); notes the truncation
    /// if the kept reads are at the limit and there were some.
    pub fn record_empty_cell_reads(&mut self, count: usize)
        requires
            old(self).wf(),
        ensures
            final(self).wf(),
            final(self).summary() == (TraceSummary {
                execution_read_count: sat_add(old(self).execution_read_count, count),
                execution_reads_truncated: if old(self).execution_reads@.len() >= old(self).limit() && count > 0 {
                    true
                } else {
                    old(self).execution_reads_truncated
                },
                ..old(self).summary()
            }),
    {
        self.execution_read_count = self.execution_read_count.saturating_add(count);
        if self.execution_reads.len() >= self.diagnostic_limit() && count > 0 {
            self.execution_reads_truncated = true;
        }
    }

    /// Records that `reader` resolved the name `name`.
    pub fn record_name_read(&mut self, reader: &CellId, name: NameId)
        requires
            old(self).wf(),
        ensures
            final(self).wf(),
            final(self).summary() == after_name_read(old(self).summary(), reader@, name),
            ({
                let o = old(self).summary();
                let t = trace_of(o.traces, reader@);
                final(self).summary() == (TraceSummary {
                    name_reads: sat_add(o.name_reads, 1),
                    execution_read_count: sat_add(o.execution_read_count, 1),
                    execution_reads: if old(self).execution_reads@.len() < old(self).limit() {
                        o.execution_reads.insert(ReadView::Name(name))
                    } else {
                        o.execution_reads
                    },
                    execution_reads_truncated: if old(self).execution_reads@.len() < old(self).limit() {
                        o.execution_reads_truncated
                    } else {
                        true
                    },
                    traces: if o.track_formula_reads {
                        o.traces.insert(
                            reader@,
                            FormulaTraceView { name_resolutions: t.name_resolutions.insert(name), ..t },
                        )
                    } else {
                        o.traces
                    },
                    ..o
                })
            }),
    {
        self.record_read(ExecutionRead::Name(name));
        if self.track_formula_reads {
            let mut t = self.take_trace(reader);
            insert_sorted(&mut t.name_resolutions, name);
            self.put_trace(reader.duplicate(), t);
        }
    }

    /// Counts one more solver pass over the cycle workspaces.
    pub fn count_solver_pass(&mut self)
        requires
            old(self).wf(),
        ensures
            final(self).wf(),
            final(self).summary() == (TraceSummary {
                solver_passes: sat_add(old(self).solver_passes, 1),
                ..old(self).summary()
            }),
    {
        self.solver_passes = self.solver_passes.saturating_add(1);
    }

    /// Records something the evaluation depended on.
    pub fn record_effect(&mut self, effect: EffectKey)
        requires
            old(self).wf(),
        ensures
            final(self).wf(),
            final(self).summary() == (TraceSummary {
                effects: old(self).summary().effects.insert(effect@),
                ..old(self).summary()
            }),
    {
        insert_sorted(&mut self.effects, effect);
    }

    /// When tracking, records the reference `reader` selected.
    pub fn record_selected_reference(&mut self, reader: &CellId, reference: ReferenceValue)
        requires
            old(self).wf(),
        ensures
            final(self).wf(),
            ({
                let o = old(self).summary();
                let t = trace_of(o.traces, reader@);
                final(self).summary() == (TraceSummary {
                    traces: if o.track_formula_reads {
                        o.traces.insert(
                            reader@,
                            FormulaTraceView { selected_references: t.selected_references.insert(reference@), ..t },
                        )
                    } else {
                        o.traces
                    },
                    ..o
                })
            }),
    {
        if self.track_formula_reads {
            let mut t = self.take_trace(reader);
            insert_sorted(&mut t.selected_references, reference);
            self.put_trace(reader.duplicate(), t);
        }
    }

    /// When tracking, records that `reader` called the unsupported function `name`.
    pub fn record_unsupported_function(&mut self, reader: &CellId, name: &str)
        requires
            old(self).wf(),
        ensures
            final(self).wf(),
            ({
                let o = old(self).summary();
                let t = trace_of(o.traces, reader@);
                final(self).summary() == (TraceSummary {
                    traces: if o.track_formula_reads {
                        o.traces.insert(
                            reader@,
                            FormulaTraceView { unsupported_functions: t.unsupported_functions.insert(name@), ..t },
                        )
                    } else {
                        o.traces
                    },
                    ..o
                })
            }),
    {
        if self.track_formula_reads {
            let mut t = self.take_trace(reader);
            insert_sorted(&mut t.unsupported_functions, crate::text::string_of(name));
            self.put_trace(reader.duplicate(), t);
        }
    }
}

/// The consecutive pairs of a path.
pub open spec fn path_steps(p: Seq<CellView>) -> Set<(CellView, CellView)> {
    Set::new(|e: (CellView, CellView)| exists|i: int| 0 <= i < p.len() - 1 && #[trigger] p[i] == e.0 && p[i + 1] == e.1)
}

impl TraceReport {
    /// Records a cycle met on the evaluation stack: the back edge and every
    /// step of the path become cycle edges, the path's cells become cycle
    /// members, and a nonempty path is kept.
    pub fn record_cycle(&mut self, edge: (CellId, CellId), path: Vec<CellId>)
        requires
            old(self).wf(),
        ensures
            final(self).wf(),
            ({
                let o = old(self).summary();
                let p = views(path@);
                final(self).summary() == (TraceSummary {
                    call_stack_back_edges: sat_add(o.call_stack_back_edges, 1),
                    runtime_cycle_edges: o.runtime_cycle_edges.insert(edge@).union(path_steps(p)),
                    runtime_cycle_members: o.runtime_cycle_members.union(p.to_set()),
                    runtime_cycle_paths: if p.len() > 0 { o.runtime_cycle_paths.push(p) } else { o.runtime_cycle_paths },
                    ..o
                })
            }),
    {
        let ghost p = views(path@);
        self.call_stack_back_edges = self.call_stack_back_edges.saturating_add(1);
        insert_sorted(&mut self.runtime_cycle_edges, edge);
        let ghost start_edges = value_set(self.runtime_cycle_edges@);
        let ghost mid = self.summary();
        if path.len() > 0 {
            let mut k: usize = 1;
            assert(path_steps(p.subrange(0, 1)) =~= Set::<(CellView, CellView)>::empty());
            assert(start_edges.union(Set::empty()) =~= start_edges);
            while k < path.len()
                invariant
                    self.wf(),
                    p == views(path@),
                    1 <= k <= path@.len(),
                    value_set(self.runtime_cycle_edges@) == start_edges.union(path_steps(p.subrange(0, k as int))),
                    self.summary() == (TraceSummary { runtime_cycle_edges: value_set(self.runtime_cycle_edges@), ..mid }),
                decreases path.len() - k,
            {
                let ghost before = p.subrange(0, k as int);
                let ghost after = p.subrange(0, k + 1);
                insert_sorted(&mut self.runtime_cycle_edges, (path[k - 1].duplicate(), path[k].duplicate()));
                assert(path_steps(after) =~= path_steps(before).insert((p[k - 1], p[k as int]))) by {
                    assert forall|e: (CellView, CellView)| path_steps(after).contains(e) implies path_steps(before).insert(
                        (p[k - 1], p[k as int]),
                    ).contains(e) by {
                        let m = choose|m: int| 0 <= m < after.len() - 1 && #[trigger] after[m] == e.0 && after[m + 1] == e.1;
                        if m < k - 1 {
                            assert(before[m] == e.0 && before[m + 1] == e.1);
                        }
                    }
                    assert forall|e: (CellView, CellView)| path_steps(before).insert((p[k - 1], p[k as int])).contains(e) implies path_steps(
                        after,
                    ).contains(e) by {
                        if e != (p[k - 1], p[k as int]) {
                            let m = choose|m: int| 0 <= m < before.len() - 1 && #[trigger] before[m] == e.0 && before[m + 1] == e.1;
                            assert(after[m] == e.0 && after[m + 1] == e.1);
                        } else {
                            assert(after[k - 1] == e.0 && after[k as int] == e.1);
                        }
                    }
                }
                assert(value_set(self.runtime_cycle_edges@) =~= start_edges.union(path_steps(after)));
                k = k + 1;
            }
            assert(p.subrange(0, k as int) =~= p);
        } else {
            assert(path_steps(p) =~= Set::<(CellView, CellView)>::empty());
            assert(start_edges.union(Set::empty()) =~= start_edges);
        }
        let ghost start_members = value_set(self.runtime_cycle_members@);
        let ghost mid2 = self.summary();
        let mut j: usize = 0;
        assert(p.subrange(0, 0).to_set() =~= Set::<CellView>::empty());
        assert(start_members.union(Set::empty()) =~= start_members);
        while j < path.len()
            invariant
                self.wf(),
                p == views(path@),
                j <= path@.len(),
                value_set(self.runtime_cycle_members@) == start_members.union(p.subrange(0, j as int).to_set()),
                self.summary() == (TraceSummary { runtime_cycle_members: value_set(self.runtime_cycle_members@), ..mid2 }),
            decreases path.len() - j,
        {
            insert_sorted(&mut self.runtime_cycle_members, path[j].duplicate());
            assert(p.subrange(0, j + 1) =~= p.subrange(0, j as int).push(p[j as int]));
            proof {
                p.subrange(0, j as int).lemma_push_to_set_commute(p[j as int]);
            }
            assert(value_set(self.runtime_cycle_members@) =~= start_members.union(p.subrange(0, j + 1).to_set()));
            j = j + 1;
        }
        assert(p.subrange(0, j as int) =~= p);
        if path.len() > 0 {
            let ghost paths = self.runtime_cycle_paths@;
            self.runtime_cycle_paths.push(path);
            assert(self.runtime_cycle_paths@.map_values(|q: Vec<CellId>| views(q@)) =~= paths.map_values(
                |q: Vec<CellId>| views(q@),
            ).push(p));
        }
    }
}

} // verus!
