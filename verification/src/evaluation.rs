//! The evaluator's call-stack decisions: whether a requested cell is
//! evaluated or keeps its current value, and what a read of another cell
//! does while some cells are being evaluated (the "active" stack).
use vstd::prelude::*;
use crate::address::{CellId, CellView, cells_view};
use crate::engine::{FormulaView, PocEngine};

verus! {

/// What a request to evaluate a cell does.
#[derive(Clone, Copy, Debug, PartialEq, Eq)]
pub enum EvaluationStep {
    /// The cell keeps and returns its current value.
    CurrentValue,
    /// The cell's formula is evaluated and its value stored.
    Evaluate,
}

/// A cell is evaluated when it is not already being evaluated, has a
/// formula, and is either forced or dirty.
pub open spec fn evaluation_step_of(
    formulas: Map<CellView, FormulaView>,
    dirty: Set<CellView>,
    cell: CellView,
    force: bool,
    active: Seq<CellView>,
) -> EvaluationStep {
    if active.contains(cell) || !formulas.contains_key(cell) || (!force && !dirty.contains(cell)) {
        EvaluationStep::CurrentValue
    } else {
        EvaluationStep::Evaluate
    }
}

/// What a formula cell's read of another cell does.
#[derive(Clone, Debug, PartialEq, Eq)]
pub enum ReadStep {
    /// The target is being evaluated: the read closes a cycle along `path`
    /// (the active cells from the target on, then the target again) and
    /// takes the target's stored value.
    CycleBack { path: Vec<CellId> },
    /// The target has a formula: it is evaluated if dirty, and its value read.
    Evaluate,
    /// The target holds a plain value, which is read.
    Stored,
}

/// The cells of `active` from the first occurrence of `target` on, then
/// `target`; empty when `target` is not in `active`.
pub open spec fn cycle_path(active: Seq<CellView>, target: CellView) -> Seq<CellView>
    decreases active.len(),
{
    if active.len() == 0 {
        Seq::empty()
    } else if active[0] == target {
        active.push(target)
    } else {
        cycle_path(active.drop_first(), target)
    }
}

/// A cycle path closes: when `target` is being evaluated, the path runs
/// from `target` back to `target`, through active cells only.
pub proof fn lemma_cycle_path_closes(active: Seq<CellView>, target: CellView)
    requires
        active.contains(target),
    ensures
        cycle_path(active, target).len() >= 2,
        cycle_path(active, target)[0] == target,
        cycle_path(active, target).last() == target,
        forall|k: int|
            0 <= k < cycle_path(active, target).len() ==> active.contains(#[trigger] cycle_path(active, target)[k]),
    decreases active.len(),
{
    let p = cycle_path(active, target);
    if active[0] == target {
        assert forall|k: int| 0 <= k < p.len() implies active.contains(#[trigger] p[k]) by {
            if k < active.len() {
                assert(p[k] == active[k]);
            }
        }
    } else {
        let rest = active.drop_first();
        let j = choose|j: int| 0 <= j < active.len() && active[j] == target;
        assert(rest[j - 1] == target);
        lemma_cycle_path_closes(rest, target);
        assert forall|k: int| 0 <= k < p.len() implies active.contains(#[trigger] p[k]) by {
            assert(rest.contains(p[k]));
            let i = choose|i: int| 0 <= i < rest.len() && rest[i] == p[k];
            assert(active[i + 1] == p[k]);
        }
    }
}

/// The position of the first occurrence of `target` in `active`.
fn first_position(active: &Vec<CellId>, target: &CellId) -> (r: Option<usize>)
    ensures
        r matches Some(p) ==> p < active@.len() && cells_view(active@)[p as int] == target@ && cycle_path(
            cells_view(active@),
            target@,
        ) == cycle_path(cells_view(active@).subrange(p as int, active@.len() as int), target@),
        r is None <==> !cells_view(active@).contains(target@),
{
    let ghost s = cells_view(active@);
    assert(s.subrange(0, s.len() as int) =~= s);
    let mut i: usize = 0;
    while i < active.len()
        invariant
            s == cells_view(active@),
            i <= active@.len(),
            forall|j: int| 0 <= j < i ==> s[j] != target@,
            cycle_path(s, target@) == cycle_path(s.subrange(i as int, s.len() as int), target@),
        decreases active.len() - i,
    {
        if active[i].same(target) {
            return Some(i);
        }
        assert(s.subrange(i as int, s.len() as int).drop_first() =~= s.subrange(i + 1, s.len() as int));
        i = i + 1;
    }
    assert forall|j: int| 0 <= j < s.len() implies s[j] != target@ by {}
    None
}

/// Whether a request to evaluate `cell` evaluates it, while the cells of
/// `active` are being evaluated (see [`evaluation_step_of`]).
pub fn evaluation_step(engine: &PocEngine, cell: &CellId, force: bool, active: &Vec<CellId>) -> (r: EvaluationStep)
    requires
        engine.wf(),
    ensures
        r == evaluation_step_of(engine.formulas(), engine.dirty_cells(), cell@, force, cells_view(active@)),
{
    if first_position(active, cell).is_some() {
        return EvaluationStep::CurrentValue;
    }
    if engine.formula(cell).is_none() {
        return EvaluationStep::CurrentValue;
    }
    if !force && !engine.is_dirty(cell) {
        return EvaluationStep::CurrentValue;
    }
    EvaluationStep::Evaluate
}

/// What a read of `target` does while the cells of `active` are being
/// evaluated: a cycle back along [`cycle_path`] when `target` is active,
/// else an evaluation when it has a formula, else a read of its value.
pub fn read_step(engine: &PocEngine, target: &CellId, active: &Vec<CellId>) -> (r: ReadStep)
    requires
        engine.wf(),
    ensures
        cells_view(active@).contains(target@) ==> (r matches ReadStep::CycleBack { path } && cells_view(path@)
            == cycle_path(cells_view(active@), target@)),
        !cells_view(active@).contains(target@) && engine.formulas().contains_key(target@) ==> r is Evaluate,
        !cells_view(active@).contains(target@) && !engine.formulas().contains_key(target@) ==> r is Stored,
{
    match first_position(active, target) {
        Some(p) => {
            let ghost s = cells_view(active@);
            let mut path: Vec<CellId> = Vec::new();
            let mut i: usize = p;
            while i < active.len()
                invariant
                    s == cells_view(active@),
                    p <= i <= active@.len(),
                    cells_view(path@) == s.subrange(p as int, i as int),
                decreases active.len() - i,
            {
                path.push(active[i].duplicate());
                assert(s.subrange(p as int, i + 1) =~= s.subrange(p as int, i as int).push(s[i as int]));
                assert(cells_view(path@) =~= s.subrange(p as int, i as int).push(s[i as int]));
                i = i + 1;
            }
            let ghost before = path@;
            path.push(target.duplicate());
            proof {
                let t = s.subrange(p as int, s.len() as int);
                assert(t.len() > 0 && t[0] == target@);
                assert(cells_view(path@) =~= cells_view(before).push(target@));
                assert(cycle_path(t, target@) == t.push(target@));
            }
            ReadStep::CycleBack { path }
        },
        None => {
            if engine.formula(target).is_some() {
                ReadStep::Evaluate
            } else {
                ReadStep::Stored
            }
        },
    }
}

} // verus!
