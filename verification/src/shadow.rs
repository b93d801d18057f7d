//! Audits of a recalculation against expected dependencies: whether an
//! expected edge between two formulas was read and why not, which branch a
//! conditional witness took, and the counts kept in checked-in edge dumps.
use vstd::prelude::*;
use crate::address::{CellId, CellView, RangeDescriptor, RangeView, ReferenceValue, ReferenceView, cell_text, cells_view, range_text};
use crate::formula::ScalarLiteral;
use crate::engine::{FormulaView, PocEngine};
use crate::keys::{Filed, find_filed, lemma_filed_map_index};
use crate::names::{NameId, NameRegistry};
use crate::order::{SortKey, lemma_is_sorted_list, lemma_sorted_set_len, sorted_contains, sorted_list, views};
use crate::reference::{reference_text, reference_to_string};
use crate::text::{decimal_spec, push_decimal, push_str, string_of, text_equal};
use crate::trace::{FormulaReadTrace, FormulaTraceView, TraceReport, trace_of};

verus! {

/// How a shadow dependency relates one cell to another.
#[derive(Clone, Copy, Debug, Eq, PartialEq, Ord, PartialOrd, Hash)]
pub enum ShadowRelation {
    DirectCell,
    SymbolicRange,
    NameDefinition,
    Selector,
    Shape,
    DynamicEffect,
    LegacyRuntimeRead,
}

/// What one witness cell read and produced.
#[derive(Clone, Debug, Default, PartialEq)]
pub struct WitnessCellAudit {
    pub address: String,
    pub formula: String,
    pub evaluation_status: String,
    pub result_or_error: String,
    pub branch_selected: String,
    pub unsupported_functions: Vec<String>,
    pub exact_cell_reads: Vec<String>,
    pub exact_cell_read_values: Vec<String>,
    pub exact_cell_read_formulas: Vec<String>,
    pub exact_formula_reads: Vec<String>,
    pub range_reads: Vec<String>,
    pub range_cells_read: usize,
    pub name_resolutions: Vec<String>,
    pub selected_references: Vec<String>,
    pub emitted_runtime_formula_edges: Vec<String>,
}

/// One step of a value's way through a chain of formulas.
#[derive(Clone, Debug, Default, PartialEq, Eq)]
pub struct ValuePipelineStage {
    pub label: String,
    pub result_type: String,
    pub result_value: String,
    pub error: Option<String>,
    pub reference_identity: Option<String>,
}

/// Whether an expected edge between two formulas was read, and why not.
#[derive(Clone, Debug, Default, PartialEq, Eq)]
pub struct WitnessEdgeAudit {
    pub from: String,
    pub to: String,
    pub present: bool,
    pub reason: String,
}

/// The audit of a heavy workbook's witness cycle.
#[derive(Clone, Debug, Default, PartialEq)]
pub struct HeavyWitnessAudit {
    pub path: String,
    pub source: String,
    pub workbook_available: bool,
    pub f7_state: String,
    pub cells: Vec<WitnessCellAudit>,
    pub edges: Vec<WitnessEdgeAudit>,
    pub runtime_formula_edges_generated: usize,
    pub runtime_formula_edges_processed: usize,
    pub runtime_formula_edges_retained: usize,
    pub diagnostic_edge_records_stored: usize,
    pub diagnostic_edge_records_dropped: usize,
    pub call_stack_back_edges: usize,
    pub runtime_graph_cyclic_scc_count: usize,
    pub largest_runtime_graph_cyclic_scc: usize,
    pub largest_runtime_graph_cyclic_scc_members: Vec<String>,
    pub j23_required_range: String,
    pub j23_required_range_consumed_cells: usize,
    pub j23_edate_min_supported: bool,
    pub j11_selected_target: Option<String>,
    pub diagnostic_limit_control_passed: bool,
    pub diagnostic_limit_control_default_cycle_count: usize,
    pub diagnostic_limit_control_reduced_cycle_count: usize,
    pub diagnostic_limit_control_default_edge_count: usize,
    pub diagnostic_limit_control_reduced_edge_count: usize,
    pub diagnostic_limit_control_reduced_records_stored: usize,
    pub diagnostic_limit_control_reduced_records_dropped: usize,
    pub j11_value_pipeline: Vec<ValuePipelineStage>,
    pub j9_value_pipeline: Vec<ValuePipelineStage>,
    pub j9: WitnessCellAudit,
    pub witness_chain: Vec<WitnessCellAudit>,
    pub j23_upstream_audits: Vec<WitnessCellAudit>,
    pub j23_value_pipeline: Vec<ValuePipelineStage>,
    pub first_value_divergence: String,
}

/// The texts joined with `sep` between them.
pub open spec fn joined(parts: Seq<Seq<char>>, sep: Seq<char>) -> Seq<char>
    decreases parts.len(),
{
    if parts.len() == 0 {
        Seq::empty()
    } else if parts.len() == 1 {
        parts[0]
    } else {
        joined(parts.drop_last(), sep) + sep + parts.last()
    }
}

/// Joins texts with `sep` between them.
pub fn join_texts(parts: &Vec<String>, sep: &str) -> (r: String)
    ensures
        r@ == joined(views(parts@), sep@),
{
    let ghost pv = views(parts@);
    let mut out = String::new();
    let mut i: usize = 0;
    assert(pv.subrange(0, 0) =~= Seq::<Seq<char>>::empty());
    while i < parts.len()
        invariant
            pv == views(parts@),
            i <= parts@.len(),
            out@ == joined(pv.subrange(0, i as int), sep@),
        decreases parts.len() - i,
    {
        if i > 0 {
            push_str(&mut out, sep);
        }
        push_str(&mut out, parts[i].as_str());
        assert(pv.subrange(0, i + 1).drop_last() =~= pv.subrange(0, i as int));
        assert(pv.subrange(0, i + 1).last() == parts@[i as int]@);
        if i == 0 {
            assert(pv.subrange(0, 0) =~= Seq::<Seq<char>>::empty());
        }
        i = i + 1;
    }
    assert(pv.subrange(0, i as int) =~= pv);
    out
}

/// The reason text for an edge that was not read.
pub open spec fn not_read_text(from: CellView, to: CellView) -> Seq<char> {
    "target "@ + cell_text(to) + " was not an exact formula read by "@ + cell_text(from)
}

/// The cell whose INDEX selection the heavy witness audit explains.
pub open spec fn is_index_witness(c: CellView) -> bool {
    c.sheet == "CashFlow Engine"@ && c.row == 11 && c.col == 10
}

/// Why the edge from `from` to `to` is present or not, given a trace.
pub open spec fn edge_reason(
    present: bool,
    traces: Map<CellView, FormulaTraceView>,
    evaluated: bool,
    from: CellView,
    to: CellView,
) -> Seq<char> {
    if present {
        "present in complete exact runtime formula graph"@
    } else if traces.contains_key(from) {
        let t = traces[from];
        if t.unsupported_functions.len() > 0 {
            "source evaluated with unsupported function(s): "@ + joined(
                sorted_list::<String>(t.unsupported_functions),
                ", "@,
            )
        } else if !evaluated {
            "source formula was not evaluated"@
        } else if is_index_witness(from) {
            "INDEX selected a different target: "@ + joined(
                sorted_list::<ReferenceValue>(t.selected_references).map_values(|r: ReferenceView| reference_text(r)),
                ", "@,
            )
        } else {
            not_read_text(from, to)
        }
    } else if !evaluated {
        "source formula was not evaluated"@
    } else {
        not_read_text(from, to)
    }
}

/// Whether the edge from `from` to `to` is in the runtime formula graph of
/// `trace`, and why not if it is not: unsupported functions in the source,
/// a source that was not evaluated, INDEX at the witness cell selecting
/// another target, or a target that was simply not read.
pub fn witness_edge_audit(trace: &TraceReport, from: &CellId, to: &CellId) -> (r: WitnessEdgeAudit)
    requires
        trace.wf(),
    ensures
        r.from@ == cell_text(from@),
        r.to@ == cell_text(to@),
        r.present == trace.summary().runtime_formula_edges.contains((from@, to@)),
        r.reason@ == edge_reason(
            r.present,
            trace.traces(),
            trace.summary().evaluation_counts.contains_key(from@),
            from@,
            to@,
        ),
{
    let present = sorted_contains(&trace.runtime_formula_edges, &(from.duplicate(), to.duplicate()));
    let evaluated = find_filed(&trace.evaluation_counts, from).is_some();
    let ghost traces = trace.traces();
    proof {
        if evaluated {
            assert(trace.summary().evaluation_counts.contains_key(from@));
        } else {
            assert(!trace.summary().evaluation_counts.contains_key(from@));
        }
    }
    let reason = if present {
        string_of("present in complete exact runtime formula graph")
    } else {
        match find_filed(&trace.formula_read_traces, from) {
            Some(i) => {
                let t = &trace.formula_read_traces[i].1;
                assert(trace.formula_read_traces@[i as int].1.wf());
                assert(traces[from@] == t@);
                proof {
                    lemma_trace_lists(*t);
                }
                if t.unsupported_functions.len() > 0 {
                    let mut s = string_of("source evaluated with unsupported function(s): ");
                    let names = join_texts(&t.unsupported_functions, ", ");
                    push_str(&mut s, names.as_str());
                    s
                } else if !evaluated {
                    string_of("source formula was not evaluated")
                } else if from.row == 11 && from.col == 10 && text_equal(from.sheet.as_str(), "CashFlow Engine") {
                    let mut texts: Vec<String> = Vec::new();
                    let mut k: usize = 0;
                    while k < t.selected_references.len()
                        invariant
                            k <= t.selected_references@.len(),
                            views(texts@) == views(t.selected_references@).subrange(0, k as int).map_values(
                                |r: ReferenceView| reference_text(r),
                            ),
                        decreases t.selected_references.len() - k,
                    {
                        let text = reference_to_string(&t.selected_references[k]);
                        let ghost before = views(texts@);
                        texts.push(text);
                        assert(views(texts@) =~= before.push(text@));
                        assert(views(t.selected_references@).subrange(0, k + 1).map_values(
                            |r: ReferenceView| reference_text(r),
                        ) =~= views(t.selected_references@).subrange(0, k as int).map_values(
                            |r: ReferenceView| reference_text(r),
                        ).push(reference_text(t.selected_references@[k as int]@)));
                        k = k + 1;
                    }
                    assert(views(t.selected_references@).subrange(0, k as int) =~= views(t.selected_references@));
                    let mut s = string_of("INDEX selected a different target: ");
                    let joined_text = join_texts(&texts, ", ");
                    push_str(&mut s, joined_text.as_str());
                    s
                } else {
                    not_read(from, to)
                }
            },
            None => {
                if !evaluated {
                    string_of("source formula was not evaluated")
                } else {
                    not_read(from, to)
                }
            },
        }
    };
    WitnessEdgeAudit { from: from.to_a1_string(), to: to.to_a1_string(), present, reason }
}

/// The ordered lists of a well-formed trace are the sorted lists of its sets.
proof fn lemma_trace_lists(t: FormulaReadTrace)
    requires
        t.wf(),
    ensures
        t@.unsupported_functions.len() == t.unsupported_functions@.len(),
        sorted_list::<String>(t@.unsupported_functions) == views(t.unsupported_functions@),
        sorted_list::<ReferenceValue>(t@.selected_references) == views(t.selected_references@),
{
    lemma_sorted_set_len::<String>(views(t.unsupported_functions@));
    lemma_is_sorted_list::<String>(views(t.unsupported_functions@));
    lemma_is_sorted_list::<ReferenceValue>(views(t.selected_references@));
}

fn not_read(from: &CellId, to: &CellId) -> (r: String)
    ensures
        r@ == not_read_text(from@, to@),
{
    let mut s = string_of("target ");
    push_str(&mut s, to.to_a1_string().as_str());
    push_str(&mut s, " was not an exact formula read by ");
    push_str(&mut s, from.to_a1_string().as_str());
    s
}

/// Which branch of its IF a conditional witness cell took, judged by the
/// value it produced.
pub open spec fn branch_text(c: CellView, v: ScalarLiteral) -> Seq<char> {
    if c.sheet == "CashFlow Engine"@ && c.row == 65 && c.col == 9 {
        if v is Error {
            "IF branch not selected: AND condition returned an error"@
        } else if v matches ScalarLiteral::Text(t) && t@ == "Yes"@ {
            "IF true branch: Yes"@
        } else {
            "IF false branch: No"@
        }
    } else if c.sheet == "CashFlow Engine"@ && c.row == 65 && c.col == 11 {
        if v is Error {
            "IF branch not selected: I65 condition returned an error"@
        } else if v is Empty || (v matches ScalarLiteral::Text(t) && t@.len() == 0) {
            "IF false branch: blank"@
        } else {
            "IF true branch: K64-1"@
        }
    } else {
        "not a conditional witness cell"@
    }
}

/// Which branch of its IF a conditional witness cell took (see [`branch_text`]).
pub fn branch_selection(cell: &CellId, value: &ScalarLiteral) -> (r: String)
    ensures
        r@ == branch_text(cell@, *value),
{
    let error = matches!(value, ScalarLiteral::Error(_));
    let engine = text_equal(cell.sheet.as_str(), "CashFlow Engine");
    if engine && cell.row == 65 && cell.col == 9 {
        if error {
            string_of("IF branch not selected: AND condition returned an error")
        } else {
            let yes = match value {
                ScalarLiteral::Text(t) => text_equal(t.as_str(), "Yes"),
                _ => false,
            };
            if yes {
                string_of("IF true branch: Yes")
            } else {
                string_of("IF false branch: No")
            }
        }
    } else if engine && cell.row == 65 && cell.col == 11 {
        if error {
            string_of("IF branch not selected: I65 condition returned an error")
        } else {
            let blank = match value {
                ScalarLiteral::Empty => true,
                ScalarLiteral::Text(t) => t.as_str().is_empty(),
                _ => false,
            };
            if blank {
                string_of("IF false branch: blank")
            } else {
                string_of("IF true branch: K64-1")
            }
        }
    } else {
        string_of("not a conditional witness cell")
    }
}

/// How a name's identity prints: `NameId(n)`.
pub open spec fn name_id_text(id: NameId) -> Seq<char> {
    "NameId("@ + decimal_spec(id.0 as nat) + ")"@
}

/// How a name resolution is listed: the name and its identity, or the
/// identity alone when the name is no longer defined.
pub open spec fn name_resolution_text(names: NameRegistry, id: NameId) -> Seq<char> {
    if names.ids().contains_key(id.0) && names.records().contains_key(names.ids()[id.0]) {
        names.records()[names.ids()[id.0]].display_name@ + " ("@ + name_id_text(id) + ")"@
    } else {
        name_id_text(id)
    }
}

/// The `cell=formula` texts of the cells that hold formulas, in order.
pub open spec fn formula_read_texts(formulas: Map<CellView, FormulaView>, cells: Seq<CellView>) -> Seq<Seq<char>>
    decreases cells.len(),
{
    if cells.len() == 0 {
        Seq::empty()
    } else {
        let rest = formula_read_texts(formulas, cells.drop_last());
        let c = cells.last();
        if formulas.contains_key(c) {
            rest.push(cell_text(c) + "="@ + formulas[c].source)
        } else {
            rest
        }
    }
}

/// The audit of one witness cell: what it read, resolved and selected as
/// its trace records it, with the result it produced as `result` (and as
/// `result_text` printed).
pub open spec fn witness_cell_audit_of(
    engine: PocEngine,
    trace: TraceReport,
    cell: CellView,
    result: ScalarLiteral,
    result_text: Seq<char>,
    a: WitnessCellAudit,
) -> bool {
    let t = trace_of(trace.traces(), cell);
    let counts = trace.summary().evaluation_counts;
    let evaluations = if counts.contains_key(cell) { counts[cell] } else { 0 };
    let fm = engine.formulas();
    &&& a.address@ == cell_text(cell)
    &&& a.formula@ == if fm.contains_key(cell) { fm[cell].source } else { "<not a formula>"@ }
    &&& a.evaluation_status@ == if evaluations == 0 {
        "not_evaluated"@
    } else if result is Error {
        "evaluated_error"@
    } else {
        "evaluated"@
    }
    &&& a.result_or_error@ == result_text
    &&& a.branch_selected@ == branch_text(cell, result)
    &&& views(a.unsupported_functions@) == sorted_list::<String>(t.unsupported_functions)
    &&& views(a.exact_cell_reads@) == sorted_list::<CellId>(t.cell_reads).map_values(|c: CellView| cell_text(c))
    &&& views(a.exact_cell_read_values@) == sorted_list::<CellId>(t.cell_read_values.dom()).map_values(
        |c: CellView| cell_text(c) + "="@ + t.cell_read_values[c],
    )
    &&& views(a.exact_cell_read_formulas@) == formula_read_texts(fm, sorted_list::<CellId>(t.cell_reads))
    &&& views(a.exact_formula_reads@) == sorted_list::<CellId>(t.formula_reads).map_values(|c: CellView| cell_text(c))
    &&& views(a.range_reads@) == sorted_list::<RangeDescriptor>(t.range_reads).map_values(|r: RangeView| range_text(r))
    &&& a.range_cells_read == t.range_cells_read
    &&& views(a.name_resolutions@) == sorted_list::<NameId>(t.name_resolutions).map_values(
        |id: NameId| name_resolution_text(engine.name_registry(), id),
    )
    &&& views(a.selected_references@) == sorted_list::<ReferenceValue>(t.selected_references).map_values(
        |r: ReferenceView| reference_text(r),
    )
    &&& views(a.emitted_runtime_formula_edges@) == sorted_list::<(CellId, CellId)>(t.runtime_edges).map_values(
        |e: (CellView, CellView)| cell_text(e.0) + " -> "@ + cell_text(e.1),
    )
}

fn cell_texts(v: &Vec<CellId>) -> (r: Vec<String>)
    ensures
        views(r@) == cells_view(v@).map_values(|c: CellView| cell_text(c)),
{
    let mut out: Vec<String> = Vec::new();
    let mut i: usize = 0;
    while i < v.len()
        invariant
            i <= v@.len(),
            views(out@) == cells_view(v@).subrange(0, i as int).map_values(|c: CellView| cell_text(c)),
        decreases v.len() - i,
    {
        let ghost before = views(out@);
        let text = v[i].to_a1_string();
        out.push(text);
        assert(views(out@) =~= before.push(text@));
        assert(cells_view(v@)[i as int] == v@[i as int]@);
        assert(views(out@) =~= cells_view(v@).subrange(0, i + 1).map_values(|c: CellView| cell_text(c)));
        i = i + 1;
    }
    assert(cells_view(v@).subrange(0, i as int) =~= cells_view(v@));
    out
}

fn cell_value_texts(v: &Vec<(CellId, String)>) -> (r: Vec<String>)
    ensures
        views(r@) == views(v@).map_values(|p: (CellView, Seq<char>)| cell_text(p.0) + "="@ + p.1),
{
    let mut out: Vec<String> = Vec::new();
    let mut i: usize = 0;
    while i < v.len()
        invariant
            i <= v@.len(),
            views(out@) == views(v@).subrange(0, i as int).map_values(|p: (CellView, Seq<char>)| cell_text(p.0) + "="@ + p.1),
        decreases v.len() - i,
    {
        let mut s = v[i].0.to_a1_string();
        push_str(&mut s, "=");
        push_str(&mut s, v[i].1.as_str());
        let ghost before = views(out@);
        out.push(s);
        assert(views(out@) =~= before.push(s@));
        assert(views(v@)[i as int] == v@[i as int]@);
        assert(views(out@) =~= views(v@).subrange(0, i + 1).map_values(|p: (CellView, Seq<char>)| cell_text(p.0) + "="@ + p.1));
        i = i + 1;
    }
    assert(views(v@).subrange(0, i as int) =~= views(v@));
    out
}

fn cell_formula_texts(engine: &PocEngine, v: &Vec<CellId>) -> (r: Vec<String>)
    requires
        engine.wf(),
    ensures
        views(r@) == formula_read_texts(engine.formulas(), cells_view(v@)),
{
    let mut out: Vec<String> = Vec::new();
    let mut i: usize = 0;
    while i < v.len()
        invariant
            engine.wf(),
            i <= v@.len(),
            views(out@) == formula_read_texts(engine.formulas(), cells_view(v@).subrange(0, i as int)),
        decreases v.len() - i,
    {
        assert(cells_view(v@).subrange(0, i + 1).drop_last() =~= cells_view(v@).subrange(0, i as int));
        assert(cells_view(v@).subrange(0, i + 1).last() == v@[i as int]@);
        match engine.formula(&v[i]) {
            Some(record) => {
                let mut s = v[i].to_a1_string();
                push_str(&mut s, "=");
                push_str(&mut s, record.source.as_str());
                let ghost before = views(out@);
                out.push(s);
                assert(views(out@) =~= before.push(s@));
            },
            None => {},
        }
        i = i + 1;
    }
    assert(cells_view(v@).subrange(0, i as int) =~= cells_view(v@));
    out
}

fn range_texts(v: &Vec<RangeDescriptor>) -> (r: Vec<String>)
    ensures
        views(r@) == views(v@).map_values(|x: RangeView| range_text(x)),
{
    let mut out: Vec<String> = Vec::new();
    let mut i: usize = 0;
    while i < v.len()
        invariant
            i <= v@.len(),
            views(out@) == views(v@).subrange(0, i as int).map_values(|x: RangeView| range_text(x)),
        decreases v.len() - i,
    {
        let ghost before = views(out@);
        let text = v[i].to_a1_string();
        out.push(text);
        assert(views(out@) =~= before.push(text@));
        assert(views(v@)[i as int] == v@[i as int]@);
        assert(views(out@) =~= views(v@).subrange(0, i + 1).map_values(|x: RangeView| range_text(x)));
        i = i + 1;
    }
    assert(views(v@).subrange(0, i as int) =~= views(v@));
    out
}

fn reference_texts(v: &Vec<ReferenceValue>) -> (r: Vec<String>)
    ensures
        views(r@) == views(v@).map_values(|x: ReferenceView| reference_text(x)),
{
    let mut out: Vec<String> = Vec::new();
    let mut i: usize = 0;
    while i < v.len()
        invariant
            i <= v@.len(),
            views(out@) == views(v@).subrange(0, i as int).map_values(|x: ReferenceView| reference_text(x)),
        decreases v.len() - i,
    {
        let ghost before = views(out@);
        let text = reference_to_string(&v[i]);
        out.push(text);
        assert(views(out@) =~= before.push(text@));
        assert(views(v@)[i as int] == v@[i as int]@);
        assert(views(out@) =~= views(v@).subrange(0, i + 1).map_values(|x: ReferenceView| reference_text(x)));
        i = i + 1;
    }
    assert(views(v@).subrange(0, i as int) =~= views(v@));
    out
}

fn edge_texts(v: &Vec<(CellId, CellId)>) -> (r: Vec<String>)
    ensures
        views(r@) == views(v@).map_values(|e: (CellView, CellView)| cell_text(e.0) + " -> "@ + cell_text(e.1)),
{
    let mut out: Vec<String> = Vec::new();
    let mut i: usize = 0;
    while i < v.len()
        invariant
            i <= v@.len(),
            views(out@) == views(v@).subrange(0, i as int).map_values(
                |e: (CellView, CellView)| cell_text(e.0) + " -> "@ + cell_text(e.1),
            ),
        decreases v.len() - i,
    {
        let mut s = v[i].0.to_a1_string();
        push_str(&mut s, " -> ");
        push_str(&mut s, v[i].1.to_a1_string().as_str());
        let ghost before = views(out@);
        out.push(s);
        assert(views(out@) =~= before.push(s@));
        assert(views(v@)[i as int] == v@[i as int]@);
        assert(views(out@) =~= views(v@).subrange(0, i + 1).map_values(
            |e: (CellView, CellView)| cell_text(e.0) + " -> "@ + cell_text(e.1),
        ));
        i = i + 1;
    }
    assert(views(v@).subrange(0, i as int) =~= views(v@));
    out
}

fn name_texts(names: &NameRegistry, v: &Vec<NameId>) -> (r: Vec<String>)
    requires
        names.wf(),
    ensures
        views(r@) == views(v@).map_values(|id: NameId| name_resolution_text(*names, id)),
{
    let mut out: Vec<String> = Vec::new();
    let mut i: usize = 0;
    while i < v.len()
        invariant
            names.wf(),
            i <= v@.len(),
            views(out@) == views(v@).subrange(0, i as int).map_values(|id: NameId| name_resolution_text(*names, id)),
        decreases v.len() - i,
    {
        let id = v[i];
        let mut s = String::new();
        match names.get(&id) {
            Some(record) => {
                push_str(&mut s, record.display_name.as_str());
                push_str(&mut s, " (");
                push_str(&mut s, "NameId(");
                push_decimal(&mut s, id.0 as u64);
                push_str(&mut s, "))");
            },
            None => {
                push_str(&mut s, "NameId(");
                push_decimal(&mut s, id.0 as u64);
                push_str(&mut s, ")");
            },
        }
        proof {
            reveal_strlit(" (");
            reveal_strlit("NameId(");
            reveal_strlit("))");
            reveal_strlit(")");
        }
        assert(s@ == name_resolution_text(*names, id));
        let ghost before = views(out@);
        out.push(s);
        assert(views(out@) =~= before.push(s@));
        assert(views(v@)[i as int] == v@[i as int]@);
        assert(views(out@) =~= views(v@).subrange(0, i + 1).map_values(|id: NameId| name_resolution_text(*names, id)));
        i = i + 1;
    }
    assert(views(v@).subrange(0, i as int) =~= views(v@));
    out
}

/// A copy of a list of texts.
fn copy_texts(v: &Vec<String>) -> (r: Vec<String>)
    ensures
        views(r@) == views(v@),
{
    let mut out: Vec<String> = Vec::new();
    let mut i: usize = 0;
    while i < v.len()
        invariant
            i <= v@.len(),
            views(out@) == views(v@).subrange(0, i as int),
        decreases v.len() - i,
    {
        let ghost before = views(out@);
        let text = v[i].clone();
        out.push(text);
        assert(views(out@) =~= before.push(text@));
        assert(views(out@) =~= views(v@).subrange(0, i + 1));
        i = i + 1;
    }
    assert(views(v@).subrange(0, i as int) =~= views(v@));
    out
}

proof fn lemma_value_list(t: FormulaReadTrace)
    requires
        t.wf(),
    ensures
        views(t.cell_read_values@).map_values(|p: (CellView, Seq<char>)| cell_text(p.0) + "="@ + p.1)
            == sorted_list::<CellId>(t@.cell_read_values.dom()).map_values(
            |c: CellView| cell_text(c) + "="@ + t@.cell_read_values[c],
        ),
{
    let l = views(t.cell_read_values@);
    let m = t@.cell_read_values;
    let keys = l.map_values(|p: (CellView, Seq<char>)| p.0);
    assert forall|i: int, j: int| 0 <= i < j < keys.len() implies crate::order::key_lt(
        CellId::sort_key(keys[i]),
        CellId::sort_key(keys[j]),
    ) by {
        assert(crate::order::key_lt(
            CellId::sort_key(<(CellId, String)>::filed_under(l[i])),
            CellId::sort_key(<(CellId, String)>::filed_under(l[j])),
        ));
    }
    assert forall|c: CellView| keys.to_set().contains(c) <==> m.dom().contains(c) by {
        if keys.to_set().contains(c) {
            let k = choose|k: int| 0 <= k < keys.len() && keys[k] == c;
            lemma_filed_map_index::<(CellId, String)>(l, k);
        }
        if m.dom().contains(c) {
            let k = choose|k: int| 0 <= k < l.len() && <(CellId, String)>::filed_under(l[k]) == c;
            assert(keys[k] == c);
        }
    }
    assert(keys.to_set() =~= m.dom());
    lemma_is_sorted_list::<CellId>(keys);
    assert forall|k: int| 0 <= k < l.len() implies #[trigger] m[keys[k]] == l[k].1 by {
        lemma_filed_map_index::<(CellId, String)>(l, k);
    }
}

proof fn lemma_trace_sorted(t: FormulaReadTrace)
    requires
        t.wf(),
    ensures
        views(t.cell_reads@) == sorted_list::<CellId>(t@.cell_reads),
        views(t.formula_reads@) == sorted_list::<CellId>(t@.formula_reads),
        views(t.range_reads@) == sorted_list::<RangeDescriptor>(t@.range_reads),
        views(t.name_resolutions@) == sorted_list::<NameId>(t@.name_resolutions),
        views(t.selected_references@) == sorted_list::<ReferenceValue>(t@.selected_references),
        views(t.runtime_edges@) == sorted_list::<(CellId, CellId)>(t@.runtime_edges),
        views(t.unsupported_functions@) == sorted_list::<String>(t@.unsupported_functions),
        cells_view(t.cell_reads@) == views(t.cell_reads@),
        cells_view(t.formula_reads@) == views(t.formula_reads@),
{
    lemma_is_sorted_list::<CellId>(views(t.cell_reads@));
    lemma_is_sorted_list::<CellId>(views(t.formula_reads@));
    lemma_is_sorted_list::<RangeDescriptor>(views(t.range_reads@));
    lemma_is_sorted_list::<NameId>(views(t.name_resolutions@));
    lemma_is_sorted_list::<ReferenceValue>(views(t.selected_references@));
    lemma_is_sorted_list::<(CellId, CellId)>(views(t.runtime_edges@));
    lemma_is_sorted_list::<String>(views(t.unsupported_functions@));
    assert(cells_view(t.cell_reads@) =~= views(t.cell_reads@));
    assert(cells_view(t.formula_reads@) =~= views(t.formula_reads@));
}

fn audit_from_trace(
    engine: &PocEngine,
    t: &FormulaReadTrace,
    cell: &CellId,
    result: &ScalarLiteral,
    result_text: String,
    evaluations: usize,
) -> (a: WitnessCellAudit)
    requires
        engine.wf(),
        t.wf(),
    ensures
        a.address@ == cell_text(cell@),
        a.formula@ == if engine.formulas().contains_key(cell@) { engine.formulas()[cell@].source } else { "<not a formula>"@ },
        a.evaluation_status@ == if evaluations == 0 {
            "not_evaluated"@
        } else if *result is Error {
            "evaluated_error"@
        } else {
            "evaluated"@
        },
        a.result_or_error@ == result_text@,
        a.branch_selected@ == branch_text(cell@, *result),
        views(a.unsupported_functions@) == sorted_list::<String>(t@.unsupported_functions),
        views(a.exact_cell_reads@) == sorted_list::<CellId>(t@.cell_reads).map_values(|c: CellView| cell_text(c)),
        views(a.exact_cell_read_values@) == sorted_list::<CellId>(t@.cell_read_values.dom()).map_values(
            |c: CellView| cell_text(c) + "="@ + t@.cell_read_values[c],
        ),
        views(a.exact_cell_read_formulas@) == formula_read_texts(engine.formulas(), sorted_list::<CellId>(t@.cell_reads)),
        views(a.exact_formula_reads@) == sorted_list::<CellId>(t@.formula_reads).map_values(|c: CellView| cell_text(c)),
        views(a.range_reads@) == sorted_list::<RangeDescriptor>(t@.range_reads).map_values(|r: RangeView| range_text(r)),
        a.range_cells_read == t@.range_cells_read,
        views(a.name_resolutions@) == sorted_list::<NameId>(t@.name_resolutions).map_values(
            |id: NameId| name_resolution_text(engine.name_registry(), id),
        ),
        views(a.selected_references@) == sorted_list::<ReferenceValue>(t@.selected_references).map_values(
            |r: ReferenceView| reference_text(r),
        ),
        views(a.emitted_runtime_formula_edges@) == sorted_list::<(CellId, CellId)>(t@.runtime_edges).map_values(
            |e: (CellView, CellView)| cell_text(e.0) + " -> "@ + cell_text(e.1),
        ),
{
    proof {
        lemma_trace_sorted(*t);
        lemma_value_list(*t);
    }
    let formula = match engine.formula(cell) {
        Some(record) => record.source.clone(),
        None => string_of("<not a formula>"),
    };
    let evaluation_status = if evaluations == 0 {
        string_of("not_evaluated")
    } else if matches!(result, ScalarLiteral::Error(_)) {
        string_of("evaluated_error")
    } else {
        string_of("evaluated")
    };
    WitnessCellAudit {
        address: cell.to_a1_string(),
        formula,
        evaluation_status,
        result_or_error: result_text,
        branch_selected: branch_selection(cell, result),
        unsupported_functions: copy_texts(&t.unsupported_functions),
        exact_cell_reads: cell_texts(&t.cell_reads),
        exact_cell_read_values: cell_value_texts(&t.cell_read_values),
        exact_cell_read_formulas: cell_formula_texts(engine, &t.cell_reads),
        exact_formula_reads: cell_texts(&t.formula_reads),
        range_reads: range_texts(&t.range_reads),
        range_cells_read: t.range_cells_read,
        name_resolutions: name_texts(engine.names(), &t.name_resolutions),
        selected_references: reference_texts(&t.selected_references),
        emitted_runtime_formula_edges: edge_texts(&t.runtime_edges),
    }
}

/// The audit of one witness cell (see [`witness_cell_audit_of`]); `result`
/// is the value the cell produced and `result_text` how it prints.
pub fn witness_cell_audit(
    engine: &PocEngine,
    trace: &TraceReport,
    cell: &CellId,
    result: &ScalarLiteral,
    result_text: String,
) -> (a: WitnessCellAudit)
    requires
        engine.wf(),
        trace.wf(),
    ensures
        witness_cell_audit_of(*engine, *trace, cell@, *result, result_text@, a),
{
    let evaluations = match find_filed(&trace.evaluation_counts, cell) {
        Some(i) => trace.evaluation_counts[i].1,
        None => 0,
    };
    match find_filed(&trace.formula_read_traces, cell) {
        Some(i) => {
            let t = &trace.formula_read_traces[i].1;
            assert(trace.formula_read_traces@[i as int].1.wf());
            assert(trace_of(trace.traces(), cell@) == t@);
            audit_from_trace(engine, t, cell, result, result_text, evaluations)
        },
        None => {
            let t = FormulaReadTrace::new();
            assert(trace_of(trace.traces(), cell@) == t@);
            audit_from_trace(engine, &t, cell, result, result_text, evaluations)
        },
    }
}

} // verus!
