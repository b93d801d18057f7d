use formualizer_engine_v2_poc::address::{CellId, RangeDescriptor, ReferenceValue};
use formualizer_engine_v2_poc::reference::index_range_reference;
use formualizer_engine_v2_poc::schedule::{cycle_step, CycleAction};
use formualizer_engine_v2_poc::trace::TraceReport;

fn c(row: u32, col: u32) -> CellId {
    CellId::new("Sheet1".to_string(), row, col)
}

#[test]
fn no_workspaces_means_no_cycle_work() {
    assert!(matches!(cycle_step(&Vec::new(), true, 0, true, 10), CycleAction::Done));
    assert!(matches!(cycle_step(&Vec::new(), false, 0, true, 10), CycleAction::Done));
}

#[test]
fn without_iteration_every_workspace_cell_is_marked_circular() {
    let workspaces = vec![vec![c(1, 2), c(1, 1)], vec![c(3, 1)]];
    match cycle_step(&workspaces, false, 0, false, 10) {
        CycleAction::MarkCircular(cells) => assert_eq!(cells, vec![c(1, 1), c(1, 2), c(3, 1)]),
        _ => panic!("the cells were to be marked"),
    }
}

#[test]
fn iteration_runs_until_settled_or_out_of_passes() {
    let workspaces = vec![vec![c(1, 1), c(1, 2)]];
    assert!(matches!(cycle_step(&workspaces, true, 0, false, 4), CycleAction::RunPass));
    assert!(matches!(cycle_step(&workspaces, true, 1, true, 4), CycleAction::RunPass));
    assert!(matches!(cycle_step(&workspaces, true, 1, false, 4), CycleAction::Done));
    assert!(matches!(cycle_step(&workspaces, true, 3, true, 4), CycleAction::RunPass));
    assert!(matches!(cycle_step(&workspaces, true, 4, true, 4), CycleAction::Done));
    assert!(matches!(cycle_step(&workspaces, true, 0, true, 0), CycleAction::RunPass));
    assert!(matches!(cycle_step(&workspaces, true, 1, true, 0), CycleAction::Done));
}

#[test]
fn solver_passes_are_counted() {
    let mut trace = TraceReport::new();
    trace.count_solver_pass();
    trace.count_solver_pass();
    assert_eq!(trace.solver_passes, 2);
}

#[test]
fn index_past_the_range_counts_from_its_corner() {
    let range = RangeDescriptor::new("Sheet1".to_string(), 2, 2, 3, 3);
    assert_eq!(index_range_reference(range.clone(), 5, 1), ReferenceValue::Cell(c(6, 2)));
    assert_eq!(
        index_range_reference(range, 0, 4),
        ReferenceValue::Range(RangeDescriptor::new("Sheet1".to_string(), 2, 5, 3, 5))
    );
}
