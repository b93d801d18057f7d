use formualizer_engine_v2_poc::address::{CellId, RangeDescriptor, ReferenceValue, SpillRef};
use formualizer_engine_v2_poc::dependency::EffectKey;
use formualizer_engine_v2_poc::formula::{ErrorKind, EvalError, FormulaAst, ReferenceTarget, ScalarLiteral};
use formualizer_engine_v2_poc::names::{NameDefinition, NameRegistry, NameScope};
use formualizer_engine_v2_poc::resolve::{
    dynamic_reference, name_resolution, range_reference, resolve_ast_reference, resolve_name_reference,
    ResolvedReference,
};
use formualizer_engine_v2_poc::trace::{ExecutionRead, TraceReport};

fn reader() -> CellId {
    CellId::new("Calc".to_string(), 1, 1)
}

fn registry() -> NameRegistry {
    let mut names = NameRegistry::new();
    names.define("Rate".to_string(), NameScope::Workbook, None, NameDefinition::Constant(ScalarLiteral::Int(7)));
    names.define(
        "Inputs".to_string(),
        NameScope::Workbook,
        None,
        NameDefinition::Range(RangeDescriptor::new("Data".to_string(), 1, 1, 3, 2)),
    );
    names.define(
        "Anchor".to_string(),
        NameScope::Workbook,
        None,
        NameDefinition::Cell(CellId::new("Data".to_string(), 5, 5)),
    );
    names.define(
        "Spilled".to_string(),
        NameScope::Workbook,
        None,
        NameDefinition::Spill(SpillRef {
            anchor: CellId::new("Data".to_string(), 2, 2),
            rows: 3,
            cols: 1,
        }),
    );
    names.define(
        "Twice".to_string(),
        NameScope::Workbook,
        None,
        NameDefinition::Formula { ast: FormulaAst::Literal(ScalarLiteral::Int(2)) },
    );
    names.define(
        "Pick".to_string(),
        NameScope::Workbook,
        None,
        NameDefinition::DynamicFormula { ast: FormulaAst::Omitted },
    );
    names
}

#[test]
fn undefined_name_is_a_name_error_and_records_nothing() {
    let names = registry();
    let mut trace = TraceReport::new();
    let r = name_resolution(&names, &mut trace, &reader(), "Missing", "Calc");
    assert!(matches!(r, Err(ErrorKind::Name)));
    assert_eq!(trace.name_reads, 0);
    assert_eq!(trace.execution_read_count, 0);
}

#[test]
fn constant_name_resolves_to_its_value_and_counts_a_name_read() {
    let names = registry();
    let mut trace = TraceReport::new();
    let r = name_resolution(&names, &mut trace, &reader(), "rate", "Calc");
    assert!(matches!(r, Ok(ResolvedReference::Constant(ScalarLiteral::Int(7)))));
    assert_eq!(trace.name_reads, 1);
    assert_eq!(trace.execution_read_count, 1);
    assert_eq!(trace.execution_reads.len(), 1);
}

#[test]
fn range_name_records_the_name_and_the_range_read() {
    let names = registry();
    let mut trace = TraceReport::new();
    trace.enable_formula_read_tracking();
    let r = name_resolution(&names, &mut trace, &reader(), "INPUTS", "Calc");
    let expected = RangeDescriptor::new("Data".to_string(), 1, 1, 3, 2);
    match r {
        Ok(ResolvedReference::Reference(ReferenceValue::Range(range))) => assert_eq!(range, expected),
        _ => panic!("a range reference was expected"),
    }
    assert_eq!(trace.name_reads, 1);
    assert_eq!(trace.execution_read_count, 2);
    assert!(trace.execution_reads.contains(&ExecutionRead::Range(expected.clone())));
    assert_eq!(trace.formula_read_traces.len(), 1);
    assert_eq!(trace.formula_read_traces[0].1.range_reads, vec![expected]);
    assert_eq!(trace.formula_read_traces[0].1.name_resolutions.len(), 1);
}

#[test]
fn cell_spill_and_formula_names_resolve_to_their_definitions() {
    let names = registry();
    let mut trace = TraceReport::new();
    let cell = name_resolution(&names, &mut trace, &reader(), "Anchor", "Calc");
    match cell {
        Ok(ResolvedReference::Reference(ReferenceValue::Cell(c))) => {
            assert_eq!(c, CellId::new("Data".to_string(), 5, 5))
        },
        _ => panic!("a cell reference was expected"),
    }
    let spill = name_resolution(&names, &mut trace, &reader(), "Spilled", "Calc");
    assert!(matches!(spill, Ok(ResolvedReference::Reference(ReferenceValue::Spill(_)))));
    let formula = name_resolution(&names, &mut trace, &reader(), "Twice", "Calc");
    assert!(matches!(formula, Ok(ResolvedReference::Formula(FormulaAst::Literal(ScalarLiteral::Int(2))))));
    let dynamic = name_resolution(&names, &mut trace, &reader(), "Pick", "Calc");
    assert!(matches!(dynamic, Ok(ResolvedReference::DynamicFormula(FormulaAst::Omitted))));
    assert_eq!(trace.name_reads, 4);
    assert_eq!(trace.execution_read_count, 5);
}

#[test]
fn name_reference_refuses_constants_and_formulas() {
    let names = registry();
    let mut trace = TraceReport::new();
    assert!(matches!(resolve_name_reference(&names, &mut trace, &reader(), "Rate", "Calc"), Err(ErrorKind::Value)));
    assert!(matches!(resolve_name_reference(&names, &mut trace, &reader(), "Twice", "Calc"), Err(ErrorKind::Value)));
    assert!(matches!(resolve_name_reference(&names, &mut trace, &reader(), "Nope", "Calc"), Err(ErrorKind::Name)));
    let anchor = resolve_name_reference(&names, &mut trace, &reader(), "Anchor", "Calc");
    assert_eq!(anchor, Ok(ReferenceValue::Cell(CellId::new("Data".to_string(), 5, 5))));
}

#[test]
fn range_reference_defaults_missing_bounds() {
    let names = registry();
    let mut trace = TraceReport::new();
    let target = ReferenceTarget::Range {
        sheet: None,
        start_row: Some(4),
        start_col: None,
        end_row: None,
        end_col: Some(3),
    };
    let r = resolve_ast_reference(&names, &mut trace, &reader(), &target, "Calc");
    match r {
        Ok(ResolvedReference::Reference(ReferenceValue::Range(range))) => {
            assert_eq!(range, RangeDescriptor::new("Calc".to_string(), 4, 1, 4, 3))
        },
        _ => panic!("a range reference was expected"),
    }
    assert_eq!(trace.execution_read_count, 1);
}

#[test]
fn cell_reference_uses_the_named_sheet_or_the_current_one() {
    let names = registry();
    let mut trace = TraceReport::new();
    let own = ReferenceTarget::Cell { sheet: None, row: 2, col: 3 };
    let other = ReferenceTarget::Cell { sheet: Some("Data".to_string()), row: 9, col: 1 };
    let a = resolve_ast_reference(&names, &mut trace, &reader(), &own, "Calc");
    let b = resolve_ast_reference(&names, &mut trace, &reader(), &other, "Calc");
    match (a, b) {
        (
            Ok(ResolvedReference::Reference(ReferenceValue::Cell(x))),
            Ok(ResolvedReference::Reference(ReferenceValue::Cell(y))),
        ) => {
            assert_eq!(x, CellId::new("Calc".to_string(), 2, 3));
            assert_eq!(y, CellId::new("Data".to_string(), 9, 1));
        },
        _ => panic!("cell references were expected"),
    }
    assert_eq!(trace.execution_read_count, 0);
}

#[test]
fn table_and_external_references_are_not_implemented() {
    let names = registry();
    let mut trace = TraceReport::new();
    let external = "external or 3D reference unsupported in POC";
    for (target, message) in [
        (ReferenceTarget::Table("Sales".to_string()), "table reference unsupported in POC: Sales"),
        (ReferenceTarget::Cell3D, external),
        (ReferenceTarget::Range3D, external),
        (ReferenceTarget::External("[Book2]Sheet1!A1".to_string()), external),
    ] {
        let r = resolve_ast_reference(&names, &mut trace, &reader(), &target, "Calc");
        match r {
            Err(e) => assert_eq!(e, EvalError { kind: ErrorKind::NImpl, message: Some(message.to_string()) }),
            Ok(_) => panic!("an error was expected"),
        }
    }
    assert_eq!(trace.execution_read_count, 0);
}

#[test]
fn named_reference_in_a_formula_goes_through_name_resolution() {
    let names = registry();
    let mut trace = TraceReport::new();
    let r = resolve_ast_reference(&names, &mut trace, &reader(), &ReferenceTarget::NamedRange("rate".to_string()), "Calc");
    assert!(matches!(r, Ok(ResolvedReference::Constant(ScalarLiteral::Int(7)))));
    assert_eq!(trace.name_reads, 1);
}

#[test]
fn dynamic_reference_records_selector_target_and_read() {
    let mut trace = TraceReport::new();
    let selector = CellId::new("Calc".to_string(), 1, 2);
    let target = ReferenceValue::Cell(CellId::new("Data".to_string(), 3, 3));
    let r = dynamic_reference(&mut trace, Some(selector.clone()), target.clone());
    assert_eq!(r, target);
    assert!(trace.effects.contains(&EffectKey::DynamicSelector(selector)));
    assert!(trace.effects.contains(&EffectKey::DynamicTarget(CellId::new("Data".to_string(), 3, 3))));
    assert_eq!(trace.dynamic_reads, 1);
    assert_eq!(trace.effects.len(), 2);
}

#[test]
fn literal_dynamic_choice_uses_the_marker_selector() {
    let mut trace = TraceReport::new();
    let target = ReferenceValue::Range(RangeDescriptor::new("Data".to_string(), 1, 1, 2, 2));
    dynamic_reference(&mut trace, None, target);
    assert_eq!(trace.effects, vec![EffectKey::DynamicSelector(CellId::new("<literal>".to_string(), 0, 0))]);
    assert_eq!(trace.dynamic_reads, 1);
}

#[test]
fn range_reference_records_a_range_read() {
    let mut trace = TraceReport::new();
    let range = RangeDescriptor::new("Data".to_string(), 2, 2, 1, 1);
    let r = range_reference(&mut trace, &reader(), range.clone());
    assert_eq!(r, ReferenceValue::Range(range.clone()));
    assert_eq!(trace.execution_reads, vec![ExecutionRead::Range(range)]);
}

#[test]
fn kept_reads_stop_at_the_limit() {
    let mut trace = TraceReport::new();
    trace.diagnostic_record_limit = 2;
    for row in 1..=4u32 {
        trace.record_read(ExecutionRead::Cell(CellId::new("Data".to_string(), row, 1)));
    }
    assert_eq!(trace.execution_reads.len(), 2);
    assert_eq!(trace.execution_read_count, 4);
    assert!(trace.execution_reads_truncated);
}

#[test]
fn undefined_name_in_a_formula_is_a_name_error_without_reason() {
    let names = registry();
    let mut trace = TraceReport::new();
    let target = ReferenceTarget::NamedRange("Nope".to_string());
    match resolve_ast_reference(&names, &mut trace, &reader(), &target, "Calc") {
        Err(e) => assert_eq!(e, EvalError { kind: ErrorKind::Name, message: None }),
        Ok(_) => panic!("an error was expected"),
    }
    assert_eq!(trace.execution_read_count, 0);
}
