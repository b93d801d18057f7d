//! What a recalculation reports, and the cycles found among the formulas
//! that read one another while it ran.
use vstd::prelude::*;
use crate::address::{CellId, CellView, cell_lt, cells_view};
use crate::cycles::{cell_lists_view, cycle_components, cyclic_components_of, pairs_view};
use crate::keys::lemma_cell_key_order;
use crate::dependency::{EffectKey, EffectView};
use crate::engine::{PocEngine, addresses};
use crate::names::sat_add_u64;
use crate::order::{SortKey, insert_sorted, key_lt, lemma_is_sorted_list, lemma_sorted_set_len, sorted_by_key, sorted_list, value_set, views};
use crate::address::{ReferenceValue, ReferenceView};
use crate::formula::ErrorKind;
use crate::trace::{ExecutionRead, ReadView, TraceReport, TraceSummary, sat_add};

verus! {

/// The cells at either end of some arc.
pub open spec fn endpoints(edges: Seq<(CellView, CellView)>) -> Set<CellView> {
    Set::new(|c: CellView| exists|k: int| 0 <= k < edges.len() && (#[trigger] edges[k].0 == c || edges[k].1 == c))
}

/// The cyclic strongly connected components of the graph the arcs `edges`
/// form among their endpoints; each in cell order, ordered by first cell.
pub fn runtime_cycle_components(edges: &Vec<(CellId, CellId)>) -> (r: Vec<Vec<CellId>>)
    ensures
        cyclic_components_of(
            sorted_list::<CellId>(endpoints(pairs_view(edges@))),
            pairs_view(edges@),
            cell_lists_view(r@),
        ),
{
    let ghost ev = pairs_view(edges@);
    let mut nodes: Vec<CellId> = Vec::new();
    let mut k: usize = 0;
    assert(value_set(nodes@) =~= endpoints(ev.subrange(0, 0)));
    while k < edges.len()
        invariant
            ev == pairs_view(edges@),
            k <= edges@.len(),
            sorted_by_key::<CellId>(views(nodes@)),
            value_set(nodes@) == endpoints(ev.subrange(0, k as int)),
        decreases edges.len() - k,
    {
        let ghost before = ev.subrange(0, k as int);
        let ghost after = ev.subrange(0, k + 1);
        insert_sorted(&mut nodes, edges[k].0.duplicate());
        insert_sorted(&mut nodes, edges[k].1.duplicate());
        assert(ev[k as int] == (edges@[k as int].0@, edges@[k as int].1@));
        assert(before.len() == k && after.len() == k + 1);
        assert forall|m: int| 0 <= m < k implies #[trigger] after[m] == before[m] by {}
        assert(after[k as int] == ev[k as int]);
        assert forall|c: CellView| endpoints(after).contains(c) <==> endpoints(before).insert(ev[k as int].0).insert(
            ev[k as int].1,
        ).contains(c) by {
            if endpoints(after).contains(c) {
                let m = choose|m: int| 0 <= m < after.len() && (#[trigger] after[m].0 == c || after[m].1 == c);
                if m < k {
                    assert(before[m] == after[m]);
                }
            }
            if endpoints(before).contains(c) {
                let m = choose|m: int| 0 <= m < before.len() && (#[trigger] before[m].0 == c || before[m].1 == c);
                assert(after[m] == before[m]);
                assert(after[m].0 == c || after[m].1 == c);
            }
            if c == ev[k as int].0 || c == ev[k as int].1 {
                assert(after[k as int] == ev[k as int]);
            }
        }
        assert(value_set(nodes@) =~= endpoints(after));
        k = k + 1;
    }
    let ghost nv = views(nodes@);
    proof {
        assert(ev.subrange(0, k as int) =~= ev);
        lemma_is_sorted_list::<CellId>(nv);
        assert(cells_view(nodes@) =~= nv);
        assert forall|i: int, j: int| 0 <= i < j < nv.len() implies cell_lt(#[trigger] nv[i], #[trigger] nv[j]) by {
            assert(key_lt(CellId::sort_key(nv[i]), CellId::sort_key(nv[j])));
            lemma_cell_key_order(nv[i], nv[j]);
        }
        assert forall|m: int| 0 <= m < ev.len() implies nv.contains(#[trigger] ev[m].0) && nv.contains(ev[m].1) by {
            assert(endpoints(ev).contains(ev[m].0));
            assert(endpoints(ev).contains(ev[m].1));
            assert(value_set(nodes@).contains(ev[m].0));
            assert(value_set(nodes@).contains(ev[m].1));
        }
    }
    cycle_components(&nodes, edges)
}

/// What one recalculation did: the cells asked for, the dirty counts
/// before and after, the evaluations, the cycles found and the trace.
pub struct ScheduleReport {
    pub requested_count: usize,
    pub requested_cells: Vec<CellId>,
    pub dirty_before: usize,
    pub dirty_after: usize,
    pub evaluated_cells: usize,
    pub evaluation_count: usize,
    pub static_cycle_count: usize,
    pub static_cycle_members: Vec<CellId>,
    pub runtime_cycle_count: usize,
    pub runtime_cycle_members: Vec<CellId>,
    pub cyclic_workspaces: Vec<Vec<CellId>>,
    pub solver_passes: usize,
    pub unsupported_formula_count: usize,
    pub elapsed_ns: u128,
    pub trace: TraceReport,
}

/// Every cell of some list.
pub open spec fn members_of(lists: Seq<Seq<CellView>>) -> Set<CellView> {
    Set::new(|c: CellView| exists|i: int| 0 <= i < lists.len() && #[trigger] lists[i].contains(c))
}

/// The trace a recalculation starts from: nothing read, the recalculation
/// epoch as its only effect, and the engine's limit and tracking setting.
pub open spec fn fresh_trace(limit: usize, track: bool) -> TraceSummary {
    TraceSummary {
        execution_reads: Set::empty(),
        runtime_edges: Set::empty(),
        runtime_formula_edges: Set::empty(),
        runtime_cycle_edges: Set::empty(),
        execution_read_count: 0,
        runtime_edge_count: 0,
        runtime_formula_edge_events: 0,
        runtime_formula_edges_processed: 0,
        call_stack_back_edges: 0,
        diagnostic_edge_records_dropped: 0,
        execution_reads_truncated: false,
        runtime_edges_truncated: false,
        traces: Map::empty(),
        track_formula_reads: track,
        diagnostic_record_limit: limit,
        runtime_cycle_members: Set::empty(),
        runtime_cycle_paths: Seq::empty(),
        invalidation_dependencies: Set::empty(),
        effects: set![EffectView::RecalcEpoch],
        evaluation_counts: Map::empty(),
        range_cells_read: 0,
        name_reads: 0,
        dynamic_reads: 0,
        unsupported_formula_count: 0,
        schedule_steps: 0,
        solver_passes: 0,
    }
}

impl ScheduleReport {
    pub open spec fn wf(&self) -> bool {
        &&& sorted_by_key::<CellId>(views(self.static_cycle_members@))
        &&& sorted_by_key::<CellId>(views(self.runtime_cycle_members@))
        &&& self.trace.wf()
    }
}

/// The sorted list of every cell of the lists.
fn all_members(lists: &Vec<Vec<CellId>>) -> (r: Vec<CellId>)
    ensures
        sorted_by_key::<CellId>(views(r@)),
        value_set(r@) == members_of(cell_lists_view(lists@)),
{
    let ghost lv = cell_lists_view(lists@);
    let mut out: Vec<CellId> = Vec::new();
    let mut i: usize = 0;
    assert(value_set(out@) =~= members_of(lv.subrange(0, 0)));
    while i < lists.len()
        invariant
            lv == cell_lists_view(lists@),
            i <= lists@.len(),
            sorted_by_key::<CellId>(views(out@)),
            value_set(out@) == members_of(lv.subrange(0, i as int)),
        decreases lists.len() - i,
    {
        let ghost before = value_set(out@);
        let list = &lists[i];
        assert(lv[i as int] == cells_view(list@));
        let mut j: usize = 0;
        while j < list.len()
            invariant
                lv == cell_lists_view(lists@),
                i < lists@.len(),
                list == lists@[i as int],
                j <= list@.len(),
                sorted_by_key::<CellId>(views(out@)),
                value_set(out@) == before + cells_view(list@).subrange(0, j as int).to_set(),
            decreases list.len() - j,
        {
            insert_sorted(&mut out, list[j].duplicate());
            assert(cells_view(list@).subrange(0, j + 1).to_set() =~= cells_view(list@).subrange(0, j as int).to_set().insert(
                list@[j as int]@,
            )) by {
                assert(cells_view(list@).subrange(0, j + 1) =~= cells_view(list@).subrange(0, j as int).push(
                    list@[j as int]@,
                ));
                cells_view(list@).subrange(0, j as int).lemma_push_to_set_commute(list@[j as int]@);
            }
            assert(value_set(out@) =~= before + cells_view(list@).subrange(0, j + 1).to_set());
            j = j + 1;
        }
        assert(cells_view(list@).subrange(0, j as int) =~= cells_view(list@));
        assert(value_set(out@) =~= members_of(lv.subrange(0, i + 1))) by {
            let pre = lv.subrange(0, i as int);
            let post = lv.subrange(0, i + 1);
            assert forall|c: CellView| members_of(post).contains(c) <==> value_set(out@).contains(c) by {
                if members_of(post).contains(c) {
                    let k = choose|k: int| 0 <= k < post.len() && #[trigger] post[k].contains(c);
                    if k < i {
                        assert(pre[k] == post[k]);
                        assert(members_of(pre).contains(c));
                    } else {
                        assert(post[k] == cells_view(list@));
                        assert(cells_view(list@).to_set().contains(c));
                    }
                }
                if before.contains(c) {
                    let k = choose|k: int| 0 <= k < pre.len() && #[trigger] pre[k].contains(c);
                    assert(post[k] == pre[k]);
                }
                if cells_view(list@).to_set().contains(c) {
                    assert(post[i as int] == cells_view(list@));
                    assert(post[i as int].contains(c));
                }
            }
        }
        i = i + 1;
    }
    assert(lv.subrange(0, i as int) =~= lv);
    out
}

impl PocEngine {
    /// Starts a recalculation: advances the epoch, takes the requested cells
    /// (every formula cell when none are given), counts the dirty cells,
    /// finds the static cycles when those diagnostics are on, and opens a
    /// fresh trace with the engine's limit and tracking setting.
    pub fn begin_schedule(&mut self, requested: &Vec<CellId>) -> (r: ScheduleReport)
        requires
            old(self).wf(),
        ensures
            final(self).wf(),
            final(self).recalc_epoch_view() == sat_add_u64(old(self).recalc_epoch_view(), 1),
            final(self).dirty_cells() == old(self).dirty_cells(),
            final(self).formula_list() == old(self).formula_list(),
            final(self).direct_index() == old(self).direct_index(),
            final(self).range_index() == old(self).range_index(),
            final(self).name_registry() == old(self).name_registry(),
            final(self).settings_view() == old(self).settings_view(),
            final(self).spill_map() == old(self).spill_map(),
            r.wf(),
            cells_view(r.requested_cells@) == if requested@.len() == 0 {
                addresses(old(self).formula_list())
            } else {
                cells_view(requested@)
            },
            r.requested_count == r.requested_cells@.len(),
            r.dirty_before == old(self).dirty_cells().len(),
            old(self).settings_view().static_cycle_diagnostics ==> exists|es: Seq<(CellView, CellView)>, comps: Seq<Seq<CellView>>|
                es.to_set() == old(self).static_edge_set() && cyclic_components_of(
                    addresses(old(self).formula_list()),
                    es,
                    comps,
                ) && r.static_cycle_count == comps.len() && value_set(r.static_cycle_members@)
                    == members_of(comps),
            !old(self).settings_view().static_cycle_diagnostics ==> r.static_cycle_count == 0
                && r.static_cycle_members@.len() == 0,
            r.trace.summary() == fresh_trace(
                old(self).settings_view().diagnostic_trace_limit,
                old(self).settings_view().track_formula_reads,
            ),
            r.dirty_after == 0,
            r.evaluated_cells == 0,
            r.evaluation_count == 0,
            r.runtime_cycle_count == 0,
            r.runtime_cycle_members@.len() == 0,
            r.cyclic_workspaces@.len() == 0,
            r.solver_passes == 0,
            r.unsupported_formula_count == 0,
            r.elapsed_ns == 0,
    {
        let ghost start = *self;
        self.advance_recalc_epoch();
        let settings = self.settings();
        let mut trace = TraceReport::new();
        trace.diagnostic_record_limit = settings.diagnostic_trace_limit;
        trace.track_formula_reads = settings.track_formula_reads;
        assert(trace.effects@.len() == 0) by {
            if trace.effects@.len() > 0 {
                assert(value_set(trace.effects@).contains(views(trace.effects@)[0]));
            }
        }
        trace.effects.push(EffectKey::RecalcEpoch);
        assert(views(trace.effects@) =~= seq![EffectView::RecalcEpoch]);
        assert(value_set(trace.effects@) =~= set![EffectView::RecalcEpoch]) by {
            assert(seq![EffectView::RecalcEpoch].to_set() =~= set![EffectView::RecalcEpoch]) by {
                assert(seq![EffectView::RecalcEpoch][0] == EffectView::RecalcEpoch);
            }
        }
        assert(trace.summary() =~= fresh_trace(settings.diagnostic_trace_limit, settings.track_formula_reads));
        let requested_cells = if requested.len() == 0 {
            self.formula_addresses()
        } else {
            let mut out: Vec<CellId> = Vec::new();
            let mut i: usize = 0;
            while i < requested.len()
                invariant
                    i <= requested@.len(),
                    cells_view(out@) == cells_view(requested@).subrange(0, i as int),
                decreases requested.len() - i,
            {
                let ghost prev = out@;
                out.push(requested[i].duplicate());
                assert(out@ == prev.push(requested@[i as int]));
                assert(cells_view(out@) =~= cells_view(prev).push(requested@[i as int]@));
                assert(cells_view(requested@).subrange(0, i + 1) =~= cells_view(requested@).subrange(0, i as int).push(
                    requested@[i as int]@,
                ));
                i = i + 1;
            }
            assert(cells_view(requested@).subrange(0, i as int) =~= cells_view(requested@));
            out
        };
        let dirty_before = self.dirty_count();
        let (static_cycle_count, static_cycle_members) = if settings.static_cycle_diagnostics {
            let comps = self.static_cycle_components();
            let members = all_members(&comps);
            (comps.len(), members)
        } else {
            (0, Vec::new())
        };
        ScheduleReport {
            requested_count: requested_cells.len(),
            requested_cells,
            dirty_before,
            dirty_after: 0,
            evaluated_cells: 0,
            evaluation_count: 0,
            static_cycle_count,
            static_cycle_members,
            runtime_cycle_count: 0,
            runtime_cycle_members: Vec::new(),
            cyclic_workspaces: Vec::new(),
            solver_passes: 0,
            unsupported_formula_count: 0,
            elapsed_ns: 0,
            trace,
        }
    }
}

/// The spill anchored at `anchor` as a reference, with the read of it
/// recorded in the trace; a `#REF!` error, with nothing recorded, when no
/// spill is anchored there.
pub fn resolve_spill_reference(engine: &PocEngine, trace: &mut TraceReport, anchor: &CellId) -> (r: Result<
    ReferenceValue,
    ErrorKind,
>)
    requires
        engine.wf(),
        old(trace).wf(),
    ensures
        final(trace).wf(),
        !engine.spill_map().contains_key(anchor@) ==> r == Err::<ReferenceValue, ErrorKind>(ErrorKind::Ref)
            && final(trace).summary() == old(trace).summary(),
        engine.spill_map().contains_key(anchor@) ==> ({
            let spill = engine.spill_map()[anchor@];
            let o = old(trace).summary();
            let kept = old(trace).execution_reads@.len() < old(trace).limit();
            &&& r matches Ok(v) && v@ == ReferenceView::Spill(spill)
            &&& final(trace).summary() == (TraceSummary {
                execution_read_count: sat_add(o.execution_read_count, 1),
                execution_reads: if kept {
                    o.execution_reads.insert(ReadView::Spill(spill))
                } else {
                    o.execution_reads
                },
                execution_reads_truncated: if kept {
                    o.execution_reads_truncated
                } else {
                    true
                },
                ..o
            })
        }),
{
    match engine.spill_at(anchor) {
        Some(spill) => {
            trace.record_read(ExecutionRead::Spill(spill.duplicate()));
            Ok(ReferenceValue::Spill(spill.duplicate()))
        },
        None => Err(ErrorKind::Ref),
    }
}

/// The sum of a list of evaluation counts.
pub open spec fn count_total(l: Seq<(CellView, usize)>) -> nat
    decreases l.len(),
{
    if l.len() == 0 {
        0
    } else {
        count_total(l.drop_last()) + l.last().1 as nat
    }
}

/// A copy of a list of cells.
fn copy_cells(v: &Vec<CellId>) -> (r: Vec<CellId>)
    ensures
        r@ == v@,
{
    let mut out: Vec<CellId> = Vec::new();
    let mut i: usize = 0;
    while i < v.len()
        invariant
            i <= v@.len(),
            out@ == v@.subrange(0, i as int),
        decreases v.len() - i,
    {
        out.push(v[i].duplicate());
        assert(out@ =~= v@.subrange(0, i + 1));
        i = i + 1;
    }
    assert(v@.subrange(0, i as int) =~= v@);
    out
}

impl PocEngine {
    /// Ends a recalculation: the runtime cycle workspaces' cells join the
    /// trace's cycle members, the trace counts its formula edges as
    /// processed, and the report takes the counts of evaluated cells and
    /// evaluations, the workspaces, the solver passes, the unsupported
    /// formulas (opaque ones included, saturating), the dirty cells left,
    /// and the trace.
    pub fn finish_schedule(
        &self,
        report: &mut ScheduleReport,
        trace: TraceReport,
        evaluated_cells: usize,
        workspaces: Vec<Vec<CellId>>,
    )
        requires
            self.wf(),
            old(report).wf(),
            trace.wf(),
            count_total(views(trace.evaluation_counts@)) <= usize::MAX,
        ensures
            final(report).wf(),
            final(report).trace.summary() == (TraceSummary {
                runtime_cycle_members: trace.summary().runtime_cycle_members.union(members_of(cell_lists_view(workspaces@))),
                runtime_formula_edges_processed: trace.summary().runtime_formula_edges.len() as usize,
                ..trace.summary()
            }),
            final(report).evaluated_cells == evaluated_cells,
            final(report).evaluation_count == count_total(views(trace.evaluation_counts@)),
            final(report).runtime_cycle_count == workspaces@.len(),
            value_set(final(report).runtime_cycle_members@) == final(report).trace.summary().runtime_cycle_members,
            cell_lists_view(final(report).cyclic_workspaces@) == cell_lists_view(workspaces@),
            final(report).solver_passes == trace.solver_passes,
            final(report).unsupported_formula_count == sat_add(self.opaque_count_view(), trace.unsupported_formula_count),
            final(report).dirty_after == self.dirty_cells().len(),
            final(report).requested_count == old(report).requested_count,
            final(report).requested_cells@ == old(report).requested_cells@,
            final(report).dirty_before == old(report).dirty_before,
            final(report).static_cycle_count == old(report).static_cycle_count,
            final(report).static_cycle_members@ == old(report).static_cycle_members@,
            final(report).elapsed_ns == old(report).elapsed_ns,
    {
        let ghost counts0 = views(trace.evaluation_counts@);
        let mut trace = trace;
        let ghost start = trace.summary();
        let ghost wv = cell_lists_view(workspaces@);
        let mut i: usize = 0;
        assert(members_of(wv.subrange(0, 0)) =~= Set::<CellView>::empty());
        assert(start.runtime_cycle_members.union(members_of(wv.subrange(0, 0))) =~= start.runtime_cycle_members);
        while i < workspaces.len()
            invariant
                wv == cell_lists_view(workspaces@),
                i <= wv.len(),
                trace.wf(),
                views(trace.evaluation_counts@) == counts0,
                count_total(counts0) <= usize::MAX,
                trace.summary() == (TraceSummary {
                    runtime_cycle_members: start.runtime_cycle_members.union(members_of(wv.subrange(0, i as int))),
                    ..start
                }),
            decreases workspaces.len() - i,
        {
            let ghost before = value_set(trace.runtime_cycle_members@);
            let list = &workspaces[i];
            assert(wv[i as int] == cells_view(list@));
            let mut j: usize = 0;
            while j < list.len()
                invariant
                    wv == cell_lists_view(workspaces@),
                    i < wv.len(),
                    list == workspaces@[i as int],
                    j <= list@.len(),
                    trace.wf(),
                    views(trace.evaluation_counts@) == counts0,
                    value_set(trace.runtime_cycle_members@) == before + cells_view(list@).subrange(0, j as int).to_set(),
                    trace.summary() == (TraceSummary { runtime_cycle_members: value_set(trace.runtime_cycle_members@), ..start }),
                decreases list.len() - j,
            {
                insert_sorted(&mut trace.runtime_cycle_members, list[j].duplicate());
                assert(cells_view(list@).subrange(0, j + 1) =~= cells_view(list@).subrange(0, j as int).push(list@[j as int]@));
                proof {
                    cells_view(list@).subrange(0, j as int).lemma_push_to_set_commute(list@[j as int]@);
                }
                assert(value_set(trace.runtime_cycle_members@) =~= before + cells_view(list@).subrange(0, j + 1).to_set());
                assert(trace.summary() =~= (TraceSummary { runtime_cycle_members: value_set(trace.runtime_cycle_members@), ..start }));
                j = j + 1;
            }
            assert(cells_view(list@).subrange(0, j as int) =~= cells_view(list@));
            assert(members_of(wv.subrange(0, i + 1)) =~= members_of(wv.subrange(0, i as int)) + cells_view(list@).to_set()) by {
                let pre = wv.subrange(0, i as int);
                let post = wv.subrange(0, i + 1);
                assert forall|c: CellView| members_of(post).contains(c) <==> (members_of(pre).contains(c) || cells_view(list@).to_set().contains(c)) by {
                    if members_of(post).contains(c) {
                        let k = choose|k: int| 0 <= k < post.len() && #[trigger] post[k].contains(c);
                        if k < i {
                            assert(pre[k] == post[k]);
                        } else {
                            assert(post[k] == cells_view(list@));
                        }
                    }
                    if members_of(pre).contains(c) {
                        let k = choose|k: int| 0 <= k < pre.len() && #[trigger] pre[k].contains(c);
                        assert(post[k] == pre[k]);
                    }
                    if cells_view(list@).to_set().contains(c) {
                        assert(post[i as int] == cells_view(list@));
                        assert(post[i as int].contains(c));
                    }
                }
            }
            assert(trace.summary() =~= (TraceSummary {
                runtime_cycle_members: start.runtime_cycle_members.union(members_of(wv.subrange(0, i + 1))),
                ..start
            }));
            i = i + 1;
        }
        assert(wv.subrange(0, i as int) =~= wv);
        proof {
            lemma_sorted_set_len::<(CellId, CellId)>(views(trace.runtime_formula_edges@));
        }
        trace.runtime_formula_edges_processed = trace.runtime_formula_edges.len();
        let ghost cl = views(trace.evaluation_counts@);
        assert(cl == counts0);
        let mut total: usize = 0;
        let mut k: usize = 0;
        while k < trace.evaluation_counts.len()
            invariant
                cl == views(trace.evaluation_counts@),
                k <= cl.len(),
                count_total(cl) <= usize::MAX,
                total == count_total(cl.subrange(0, k as int)),
            decreases cl.len() - k,
        {
            assert(cl.subrange(0, k + 1).drop_last() =~= cl.subrange(0, k as int));
            proof {
                lemma_count_total_prefix(cl, k as int + 1);
            }
            total = total + trace.evaluation_counts[k].1;
            k = k + 1;
        }
        assert(cl.subrange(0, k as int) =~= cl);
        report.evaluated_cells = evaluated_cells;
        report.evaluation_count = total;
        report.runtime_cycle_count = workspaces.len();
        report.runtime_cycle_members = copy_cells(&trace.runtime_cycle_members);
        report.cyclic_workspaces = workspaces;
        report.solver_passes = trace.solver_passes;
        report.unsupported_formula_count = self.opaque_count().saturating_add(trace.unsupported_formula_count);
        report.dirty_after = self.dirty_count();
        report.trace = trace;
    }
}

proof fn lemma_count_total_prefix(l: Seq<(CellView, usize)>, n: int)
    requires
        0 <= n <= l.len(),
    ensures
        count_total(l.subrange(0, n)) <= count_total(l),
    decreases l.len(),
{
    if n < l.len() {
        assert(l.drop_last().subrange(0, n) =~= l.subrange(0, n));
        lemma_count_total_prefix(l.drop_last(), n);
    } else {
        assert(l.subrange(0, n) =~= l);
    }
}


/// What a recalculation does next about the runtime cycles it found.
pub enum CycleAction {
    /// Nothing more: no cycle was found, or the iteration has settled or
    /// used up its passes.
    Done,
    /// Evaluate every cell of the cycle workspaces once more.
    RunPass,
    /// Not iterating: these cells (every cell of the workspaces, in cell
    /// order) take the circular-reference error.
    MarkCircular(Vec<CellId>),
}

/// Whether the iteration over the cycles goes on after `passes_done` passes:
/// always before the first, and afterwards while the last pass changed a
/// value and fewer than `max_iterations` passes have run.
pub open spec fn runs_another_pass(passes_done: usize, changed: bool, max_iterations: usize) -> bool {
    passes_done == 0 || (changed && passes_done < max_iterations)
}

/// The next step of the cycle phase of a recalculation that found the cycle
/// workspaces `workspaces`: nothing when there are none; when not
/// iterating, the cells to mark circular; when iterating, another solver
/// pass or the end of the iteration (see [`runs_another_pass`]).
pub fn cycle_step(
    workspaces: &Vec<Vec<CellId>>,
    iterative: bool,
    passes_done: usize,
    changed: bool,
    max_iterations: usize,
) -> (r: CycleAction)
    ensures
        workspaces@.len() == 0 ==> r is Done,
        workspaces@.len() > 0 && !iterative ==> r is MarkCircular && sorted_by_key::<CellId>(
            views(r->MarkCircular_0@),
        ) && value_set(r->MarkCircular_0@) == members_of(cell_lists_view(workspaces@)),
        workspaces@.len() > 0 && iterative ==> if runs_another_pass(passes_done, changed, max_iterations) {
            r is RunPass
        } else {
            r is Done
        },
{
    if workspaces.len() == 0 {
        CycleAction::Done
    } else if !iterative {
        CycleAction::MarkCircular(all_members(workspaces))
    } else if passes_done == 0 || (changed && passes_done < max_iterations) {
        CycleAction::RunPass
    } else {
        CycleAction::Done
    }
}

} // verus!
