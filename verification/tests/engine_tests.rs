use formualizer_engine_v2_poc::address::{CellId, RangeDescriptor, SpillRef};
use formualizer_engine_v2_poc::dependency::{dependency_matches_event, ChangeEvent, DependencyDescriptor, EffectKey};
use formualizer_engine_v2_poc::engine::{EntrySizes, PocEngine};
use formualizer_engine_v2_poc::formula::{ErrorKind, FormulaAst, ReferenceTarget, ScalarLiteral};
use formualizer_engine_v2_poc::names::{NameDefinition, NameId, NameScope};
use formualizer_engine_v2_poc::schedule::{resolve_spill_reference, runtime_cycle_components};
use formualizer_engine_v2_poc::trace::TraceReport;

fn cell(sheet: &str, row: u32, col: u32) -> CellId {
    CellId::new(sheet.to_string(), row, col)
}

fn cell_ref(row: u32, col: u32) -> FormulaAst {
    FormulaAst::Reference(ReferenceTarget::Cell { sheet: None, row, col })
}

fn sum_of_column(col: u32, first: u32, last: u32) -> FormulaAst {
    FormulaAst::Function {
        name: "SUM".to_string(),
        args: vec![FormulaAst::Reference(ReferenceTarget::Range {
            sheet: None,
            start_row: Some(first),
            start_col: Some(col),
            end_row: Some(last),
            end_col: Some(col),
        })],
    }
}

fn name_ref(name: &str) -> FormulaAst {
    FormulaAst::Reference(ReferenceTarget::NamedRange(name.to_string()))
}

fn clear_all(engine: &mut PocEngine) {
    let dirty: Vec<CellId> = engine.dirty_list().clone();
    for c in &dirty {
        engine.clear_dirty(c);
    }
    assert_eq!(engine.dirty_count(), 0);
}

#[test]
fn setting_a_formula_marks_it_and_its_dependents_dirty() {
    let mut engine = PocEngine::new();
    let a1 = engine.set_formula("S".to_string(), 1, 1, "=B1", cell_ref(1, 2));
    assert!(engine.is_dirty(&a1));
    clear_all(&mut engine);
    let b1 = engine.set_formula("S".to_string(), 1, 2, "=1", FormulaAst::Literal(ScalarLiteral::Int(1)));
    assert!(engine.is_dirty(&b1));
    assert!(engine.is_dirty(&a1));
    assert_eq!(engine.formula_count(), 2);
    assert_eq!(engine.formula(&a1).unwrap().source, "=B1");
}

#[test]
fn value_edits_invalidate_through_cells_and_ranges_only() {
    let mut engine = PocEngine::new();
    let total = engine.set_formula("S".to_string(), 10, 1, "=SUM(B1:B3)", sum_of_column(2, 1, 3));
    let user = engine.set_formula("S".to_string(), 11, 1, "=A10", cell_ref(10, 1));
    clear_all(&mut engine);
    engine.set_cell_value("S".to_string(), 5, 5);
    assert_eq!(engine.dirty_count(), 0);
    engine.set_cell_value("S".to_string(), 2, 2);
    assert!(engine.is_dirty(&total));
    assert!(engine.is_dirty(&user));
    assert_eq!(engine.dirty_count(), 2);
}

#[test]
fn unrelated_cell_is_found_outside_every_dependency() {
    let mut engine = PocEngine::new();
    engine.set_formula("S".to_string(), 1, 1, "=B1", cell_ref(1, 2));
    let found = engine.find_unrelated_cell("S", &vec![cell("S", 1, 3)]).unwrap();
    assert_eq!(found, cell("S", 1, 4));
    clear_all(&mut engine);
    engine.set_cell_value("S".to_string(), found.row, found.col);
    assert_eq!(engine.dirty_count(), 0);
}

#[test]
fn defining_a_name_invalidates_its_users() {
    let mut engine = PocEngine::new();
    let user = engine.set_formula("S".to_string(), 1, 1, "=Data", name_ref("Data"));
    let other = engine.set_formula("S".to_string(), 2, 1, "=B2", cell_ref(2, 2));
    clear_all(&mut engine);
    let id = engine.define_name(
        "Data".to_string(),
        NameScope::Workbook,
        None,
        NameDefinition::Cell(cell("Inputs", 1, 1)),
    );
    assert!(engine.is_dirty(&user));
    assert!(!engine.is_dirty(&other));
    assert_eq!(engine.names().get(&id).unwrap().definition_generation, 1);
    let deps = engine.static_dependencies(&user);
    assert!(deps.contains(&DependencyDescriptor::Name(id)));
    assert!(deps.contains(&DependencyDescriptor::Range(RangeDescriptor::from_cell(&cell("Inputs", 1, 1)))));
    clear_all(&mut engine);
    engine.set_cell_value("Inputs".to_string(), 1, 1);
    assert!(engine.is_dirty(&user));
}

#[test]
fn mutual_references_form_one_static_cycle() {
    let mut engine = PocEngine::new();
    engine.set_formula("S".to_string(), 1, 1, "=A2", cell_ref(2, 1));
    engine.set_formula("S".to_string(), 2, 1, "=A1", cell_ref(1, 1));
    engine.set_formula("S".to_string(), 3, 1, "=A1", cell_ref(1, 1));
    assert_eq!(engine.static_edge_count(), 3);
    let cycles = engine.static_cycle_components();
    assert_eq!(cycles, vec![vec![cell("S", 1, 1), cell("S", 2, 1)]]);
    let report = engine.begin_schedule(&Vec::new());
    assert_eq!(report.static_cycle_count, 1);
    assert_eq!(report.static_cycle_members, vec![cell("S", 1, 1), cell("S", 2, 1)]);
    assert_eq!(report.requested_count, 3);
    assert_eq!(report.dirty_before, 3);
    assert_eq!(report.trace.effects, vec![EffectKey::RecalcEpoch]);
}

#[test]
fn runtime_cycles_come_from_the_edges_read() {
    let edges = vec![
        (cell("S", 1, 1), cell("S", 2, 1)),
        (cell("S", 2, 1), cell("S", 1, 1)),
        (cell("S", 3, 1), cell("S", 3, 1)),
        (cell("S", 4, 1), cell("S", 1, 1)),
    ];
    let cycles = runtime_cycle_components(&edges);
    assert_eq!(cycles, vec![vec![cell("S", 1, 1), cell("S", 2, 1)], vec![cell("S", 3, 1)]]);
}

#[test]
fn inserting_rows_moves_formulas_and_marks_everything_dirty() {
    let mut engine = PocEngine::new();
    engine.set_formula("S".to_string(), 5, 1, "=B1", cell_ref(1, 2));
    engine.set_formula("T".to_string(), 5, 1, "=1", FormulaAst::Literal(ScalarLiteral::Int(1)));
    clear_all(&mut engine);
    engine.insert_rows("S", 3, 2);
    assert!(engine.formula(&cell("S", 5, 1)).is_none());
    assert!(engine.formula(&cell("S", 7, 1)).is_some());
    assert!(engine.formula(&cell("T", 5, 1)).is_some());
    assert_eq!(engine.dirty_count(), 2);
}

#[test]
fn spills_resolve_and_record_the_read() {
    let mut engine = PocEngine::new();
    let spill = SpillRef { anchor: cell("S", 1, 1), rows: 3, cols: 1 };
    engine.set_spill(spill.clone());
    let mut trace = TraceReport::new();
    let found = resolve_spill_reference(&engine, &mut trace, &cell("S", 1, 1));
    assert_eq!(found, Ok(formualizer_engine_v2_poc::address::ReferenceValue::Spill(spill)));
    assert_eq!(trace.execution_read_count, 1);
    assert_eq!(resolve_spill_reference(&engine, &mut trace, &cell("S", 9, 9)), Err(ErrorKind::Ref));
    assert_eq!(trace.execution_read_count, 1);
}

#[test]
fn dependencies_match_the_events_that_touch_them() {
    let range = DependencyDescriptor::Range(RangeDescriptor::new("S".to_string(), 1, 1, 3, 3));
    assert!(dependency_matches_event(&range, &ChangeEvent::Cell(cell("S", 2, 2))));
    assert!(!dependency_matches_event(&range, &ChangeEvent::Cell(cell("S", 4, 2))));
    let name = DependencyDescriptor::Name(NameId(3));
    assert!(dependency_matches_event(&name, &ChangeEvent::Name(NameId(3))));
    assert!(!dependency_matches_event(&name, &ChangeEvent::Name(NameId(4))));
    let any_selector = DependencyDescriptor::Effect(EffectKey::DynamicSelector(cell("S", 0, 0)));
    assert!(dependency_matches_event(
        &any_selector,
        &ChangeEvent::Effect(EffectKey::DynamicSelector(cell("T", 5, 5)))
    ));
}

#[test]
fn model_stats_count_formulas_names_and_descriptors() {
    let mut engine = PocEngine::new();
    engine.set_formula("S".to_string(), 10, 1, "=SUM(B1:B3)", sum_of_column(2, 1, 3));
    engine.set_formula("S".to_string(), 11, 1, "=A10", cell_ref(10, 1));
    engine.set_formula_error("S".to_string(), 12, 1, "=FOO()", ErrorKind::Name);
    let stats = engine.model_stats(5, EntrySizes { cell_entry: 10, formula_entry: 100, descriptor: 8, name_record: 50 });
    assert_eq!(stats.formula_count, 3);
    assert_eq!(stats.defined_name_count, 0);
    assert_eq!(stats.symbolic_dependency_descriptor_count, 1);
    assert_eq!(stats.persistent_relation_count, 2);
    assert_eq!(stats.opaque_formula_count, 1);
}
