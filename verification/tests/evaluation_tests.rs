use formualizer_engine_v2_poc::address::CellId;
use formualizer_engine_v2_poc::engine::PocEngine;
use formualizer_engine_v2_poc::evaluation::{evaluation_step, read_step, EvaluationStep, ReadStep};
use formualizer_engine_v2_poc::formula::{FormulaAst, ReferenceTarget};

fn cell(row: u32, col: u32) -> CellId {
    CellId::new("S".to_string(), row, col)
}

fn cell_ref(row: u32, col: u32) -> FormulaAst {
    FormulaAst::Reference(ReferenceTarget::Cell { sheet: None, row, col })
}

#[test]
fn dirty_formula_cells_are_evaluated() {
    let mut engine = PocEngine::new();
    let a1 = engine.set_formula("S".to_string(), 1, 1, "=B1", cell_ref(1, 2));
    assert_eq!(evaluation_step(&engine, &a1, false, &Vec::new()), EvaluationStep::Evaluate);
    engine.clear_dirty(&a1);
    assert_eq!(evaluation_step(&engine, &a1, false, &Vec::new()), EvaluationStep::CurrentValue);
    assert_eq!(evaluation_step(&engine, &a1, true, &Vec::new()), EvaluationStep::Evaluate);
}

#[test]
fn active_or_plain_cells_keep_their_value() {
    let mut engine = PocEngine::new();
    let a1 = engine.set_formula("S".to_string(), 1, 1, "=B1", cell_ref(1, 2));
    assert_eq!(evaluation_step(&engine, &a1, true, &vec![cell(9, 9), a1.clone()]), EvaluationStep::CurrentValue);
    assert_eq!(evaluation_step(&engine, &cell(1, 2), true, &Vec::new()), EvaluationStep::CurrentValue);
}

#[test]
fn reads_of_active_cells_close_a_cycle() {
    let mut engine = PocEngine::new();
    let a1 = engine.set_formula("S".to_string(), 1, 1, "=B1", cell_ref(1, 2));
    let b1 = engine.set_formula("S".to_string(), 1, 2, "=C1", cell_ref(1, 3));
    let c1 = engine.set_formula("S".to_string(), 1, 3, "=B1", cell_ref(1, 2));
    let active = vec![a1.clone(), b1.clone(), c1.clone()];
    assert_eq!(read_step(&engine, &b1, &active), ReadStep::CycleBack { path: vec![b1.clone(), c1.clone(), b1.clone()] });
    assert_eq!(read_step(&engine, &a1, &vec![a1.clone()]), ReadStep::CycleBack { path: vec![a1.clone(), a1.clone()] });
    assert_eq!(read_step(&engine, &c1, &vec![a1.clone()]), ReadStep::Evaluate);
    assert_eq!(read_step(&engine, &cell(4, 4), &active), ReadStep::Stored);
}
