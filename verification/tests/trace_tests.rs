use formualizer_engine_v2_poc::address::{CellId, RangeDescriptor, ReferenceValue};
use formualizer_engine_v2_poc::engine::PocEngine;
use formualizer_engine_v2_poc::formula::{ErrorKind, FormulaAst, ReferenceTarget, ScalarLiteral};
use formualizer_engine_v2_poc::names::NameId;
use formualizer_engine_v2_poc::shadow::{branch_selection, join_texts, witness_cell_audit, witness_edge_audit};
use formualizer_engine_v2_poc::trace::{ExecutionRead, TraceReport};

fn cell(sheet: &str, row: u32, col: u32) -> CellId {
    CellId::new(sheet.to_string(), row, col)
}

#[test]
fn reads_past_the_limit_are_counted_but_not_kept() {
    let mut trace = TraceReport::new();
    trace.diagnostic_record_limit = 1;
    trace.record_read(ExecutionRead::Cell(cell("S", 1, 1)));
    trace.record_read(ExecutionRead::Cell(cell("S", 2, 1)));
    trace.record_read(ExecutionRead::Name(NameId(0)));
    assert_eq!(trace.execution_read_count, 3);
    assert_eq!(trace.execution_reads, vec![ExecutionRead::Cell(cell("S", 1, 1))]);
    assert!(trace.execution_reads_truncated);
    assert_eq!(trace.name_reads, 1);
    assert_eq!(trace.diagnostic_limit(), 1);
    trace.diagnostic_record_limit = 0;
    assert_eq!(trace.diagnostic_limit(), 100000);
}

#[test]
fn the_limit_does_not_change_the_formula_edge_graph() {
    let run = |limit: usize| {
        let mut trace = TraceReport::new();
        trace.diagnostic_record_limit = limit;
        for row in 1..=5u32 {
            trace.record_cell_read(&cell("S", row, 1), &cell("S", row + 1, 1), "1".to_string());
            trace.record_runtime_formula_edge(&cell("S", row, 1), &cell("S", row + 1, 1));
        }
        trace
    };
    let full = run(0);
    let reduced = run(2);
    assert_eq!(full.runtime_formula_edges, reduced.runtime_formula_edges);
    assert_eq!(full.runtime_formula_edges.len(), 5);
    assert!(reduced.runtime_edges_truncated);
    assert!(reduced.diagnostic_edge_records_dropped > 0);
    assert!(!full.runtime_edges_truncated);
}

#[test]
fn formula_traces_are_kept_only_when_tracking() {
    let mut trace = TraceReport::new();
    trace.record_runtime_formula_edge(&cell("S", 1, 1), &cell("S", 2, 1));
    assert!(trace.formula_read_traces.is_empty());
    trace.enable_formula_read_tracking();
    trace.record_runtime_formula_edge(&cell("S", 1, 1), &cell("S", 2, 1));
    trace.record_unsupported_function(&cell("S", 1, 1), "FOO");
    assert_eq!(trace.formula_read_traces.len(), 1);
    let t = &trace.formula_read_traces[0].1;
    assert_eq!(t.formula_reads, vec![cell("S", 2, 1)]);
    assert_eq!(t.unsupported_functions, vec!["FOO".to_string()]);
}

#[test]
fn edge_audit_explains_missing_edges() {
    let mut trace = TraceReport::new();
    trace.enable_formula_read_tracking();
    let a = cell("S", 1, 1);
    let b = cell("S", 2, 1);
    let c = cell("S", 3, 1);
    trace.record_runtime_formula_edge(&a, &b);
    let present = witness_edge_audit(&trace, &a, &b);
    assert!(present.present);
    assert_eq!(present.reason, "present in complete exact runtime formula graph");
    assert_eq!(present.from, "S!A1");
    let missing = witness_edge_audit(&trace, &a, &c);
    assert!(!missing.present);
    assert_eq!(missing.reason, "source formula was not evaluated");
    let unknown = witness_edge_audit(&trace, &c, &a);
    assert_eq!(unknown.reason, "source formula was not evaluated");
    trace.record_unsupported_function(&a, "XLOOKUP");
    trace.record_unsupported_function(&a, "LET");
    assert_eq!(
        witness_edge_audit(&trace, &a, &c).reason,
        "source evaluated with unsupported function(s): LET, XLOOKUP"
    );
    trace.evaluation_counts.push((c.clone(), 1));
    assert_eq!(witness_edge_audit(&trace, &c, &a).reason, "target S!A1 was not an exact formula read by S!A3");
}

#[test]
fn edge_audit_names_the_index_selection_at_the_witness_cell() {
    let mut trace = TraceReport::new();
    trace.enable_formula_read_tracking();
    let j11 = cell("CashFlow Engine", 11, 10);
    let j9 = cell("CashFlow Engine", 9, 10);
    trace.record_selected_reference(&j11, ReferenceValue::Cell(cell("CashFlow Engine", 8, 10)));
    trace.evaluation_counts.push((j11.clone(), 1));
    assert_eq!(
        witness_edge_audit(&trace, &j11, &j9).reason,
        "INDEX selected a different target: CashFlow Engine!J8"
    );
}

#[test]
fn branch_selection_reads_the_if_result() {
    let i65 = cell("CashFlow Engine", 65, 9);
    let k65 = cell("CashFlow Engine", 65, 11);
    assert_eq!(branch_selection(&i65, &ScalarLiteral::Text("Yes".to_string())), "IF true branch: Yes");
    assert_eq!(branch_selection(&i65, &ScalarLiteral::Text("No".to_string())), "IF false branch: No");
    assert_eq!(
        branch_selection(&i65, &ScalarLiteral::Error(ErrorKind::Value)),
        "IF branch not selected: AND condition returned an error"
    );
    assert_eq!(branch_selection(&k65, &ScalarLiteral::Empty), "IF false branch: blank");
    assert_eq!(branch_selection(&k65, &ScalarLiteral::Text(String::new())), "IF false branch: blank");
    assert_eq!(branch_selection(&k65, &ScalarLiteral::Int(3)), "IF true branch: K64-1");
    assert_eq!(
        branch_selection(&k65, &ScalarLiteral::Error(ErrorKind::Ref)),
        "IF branch not selected: I65 condition returned an error"
    );
    assert_eq!(branch_selection(&cell("Other", 65, 9), &ScalarLiteral::Empty), "not a conditional witness cell");
}

#[test]
fn texts_join_with_the_separator_between() {
    assert_eq!(join_texts(&vec![], ", "), "");
    assert_eq!(join_texts(&vec!["a".to_string()], ", "), "a");
    assert_eq!(join_texts(&vec!["a".to_string(), "b".to_string(), "c".to_string()], "; "), "a; b; c");
}

#[test]
fn cell_audit_lists_reads_in_order() {
    let mut engine = PocEngine::new();
    let reader = engine.set_formula(
        "S".to_string(),
        1,
        1,
        "=B1+B2",
        FormulaAst::BinaryOp {
            op: "+".to_string(),
            left: Box::new(FormulaAst::Reference(ReferenceTarget::Cell { sheet: None, row: 1, col: 2 })),
            right: Box::new(FormulaAst::Reference(ReferenceTarget::Cell { sheet: None, row: 2, col: 2 })),
        },
    );
    engine.set_formula("S".to_string(), 2, 2, "=7", FormulaAst::Literal(ScalarLiteral::Int(7)));
    let mut trace = TraceReport::new();
    trace.enable_formula_read_tracking();
    trace.record_cell_read(&reader, &cell("S", 2, 2), "7".to_string());
    trace.record_cell_read(&reader, &cell("S", 1, 2), "1".to_string());
    trace.record_range_read(&reader, RangeDescriptor::new("S".to_string(), 1, 3, 2, 3));
    trace.evaluation_counts.push((reader.clone(), 2));
    let audit = witness_cell_audit(&engine, &trace, &reader, &ScalarLiteral::Int(8), "Int(8)".to_string());
    assert_eq!(audit.address, "S!A1");
    assert_eq!(audit.formula, "=B1+B2");
    assert_eq!(audit.evaluation_status, "evaluated");
    assert_eq!(audit.result_or_error, "Int(8)");
    assert_eq!(audit.branch_selected, "not a conditional witness cell");
    assert_eq!(audit.exact_cell_reads, vec!["S!B1".to_string(), "S!B2".to_string()]);
    assert_eq!(audit.exact_cell_read_values, vec!["S!B1=1".to_string(), "S!B2=7".to_string()]);
    assert_eq!(audit.exact_cell_read_formulas, vec!["S!B2==7".to_string()]);
    assert_eq!(audit.range_reads, vec!["S!C1:C2".to_string()]);
    let unread = witness_cell_audit(&engine, &trace, &cell("S", 9, 9), &ScalarLiteral::Empty, "Empty".to_string());
    assert_eq!(unread.formula, "<not a formula>");
    assert_eq!(unread.evaluation_status, "not_evaluated");
    assert!(unread.exact_cell_reads.is_empty());
}
