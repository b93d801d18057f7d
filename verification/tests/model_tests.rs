use formualizer_engine_v2_poc::address::{
    column_label, column_letters, column_name, CellId, RangeDescriptor, ReferenceValue, SpillRef, TableDescriptor,
};
use formualizer_engine_v2_poc::formula::{FormulaAst, ReferenceTarget, ScalarLiteral};
use formualizer_engine_v2_poc::names::{NameDefinition, NameRegistry, NameScope, ResolvedKind};
use formualizer_engine_v2_poc::reference::{
    combine_reference, index_range_reference, index_selection, reference_dimensions, reference_to_string,
    shift_reference,
};
use formualizer_engine_v2_poc::formula::ErrorKind;
use formualizer_engine_v2_poc::shadow_model::ShadowModel;
use formualizer_engine_v2_poc::text::substitute_instance;

fn number(value: f64) -> FormulaAst {
    FormulaAst::Literal(ScalarLiteral::NumberBits(value.to_bits()))
}

fn index_of_data() -> FormulaAst {
    FormulaAst::Function {
        name: "INDEX".to_string(),
        args: vec![
            FormulaAst::Reference(ReferenceTarget::NamedRange("Data".to_string())),
            number(1.0),
            number(1.0),
        ],
    }
}

#[test]
fn selected_index_relations_scale_with_consumers_not_source_area() {
    let mut model = ShadowModel::new();
    for row in 1..=200 {
        model.add_formula("Output".to_string(), row, 1, "=INDEX(Data,1,1)", index_of_data());
    }
    model.define_name(
        "Data".to_string(),
        NameScope::Workbook,
        None,
        NameDefinition::Range(RangeDescriptor::new("Inputs".to_string(), 1, 1, 10_000, 1)),
    );
    let metrics = model.build_metrics();
    assert_eq!(metrics.formula_vertices, 200);
    assert_eq!(metrics.symbolic_range_descriptor_count, 200);
    assert_eq!(metrics.selector_descriptor_count, 0);
    assert!(metrics.invalidation_dependency_count < 1_000);
    assert_eq!(model.name_count(), 1);
    assert_eq!(model.formula_count(), 200);
}

#[test]
fn shadow_model_counts_runtime_reads_once() {
    let mut model = ShadowModel::new();
    model.record_runtime_read(CellId::new("S".to_string(), 1, 1), CellId::new("S".to_string(), 2, 1));
    model.record_runtime_read(CellId::new("S".to_string(), 1, 1), CellId::new("S".to_string(), 2, 1));
    model.record_runtime_read(CellId::new("S".to_string(), 2, 1), CellId::new("S".to_string(), 1, 1));
    assert_eq!(model.build_metrics().legacy_runtime_read_edge_count, 2);
    assert!(model.formula(&CellId::new("S".to_string(), 1, 1)).is_none());
}

#[test]
fn cell_addresses_print_in_a1_form() {
    assert_eq!(CellId::new("Sheet1".to_string(), 7, 28).to_a1_string(), "Sheet1!AB7");
    assert_eq!(column_name(0), "?");
    assert_eq!(column_name(1), "A");
    assert_eq!(column_name(26), "Z");
    assert_eq!(column_name(27), "AA");
    assert_eq!(column_name(702), "ZZ");
    assert_eq!(column_name(703), "AAA");
    assert_eq!(column_label(0), "");
    assert_eq!(column_letters(52), "AZ");
}

#[test]
fn ranges_normalize_their_corners() {
    let a = RangeDescriptor::new("S".to_string(), 5, 4, 2, 1);
    let b = RangeDescriptor::new("S".to_string(), 2, 1, 5, 4);
    assert_eq!(a, b);
    assert_eq!((a.start_row, a.start_col, a.end_row, a.end_col), (2, 1, 5, 4));
    assert_eq!(a.area(), 16);
    assert!(a.contains(&CellId::new("S".to_string(), 3, 2)));
    assert!(!a.contains(&CellId::new("S".to_string(), 6, 2)));
    assert!(!a.contains(&CellId::new("T".to_string(), 3, 2)));
    let cells = RangeDescriptor::new("S".to_string(), 1, 1, 2, 2).cells();
    assert_eq!(
        cells,
        vec![
            CellId::new("S".to_string(), 1, 1),
            CellId::new("S".to_string(), 1, 2),
            CellId::new("S".to_string(), 2, 1),
            CellId::new("S".to_string(), 2, 2),
        ]
    );
    let single = RangeDescriptor::from_cell(&CellId::new("S".to_string(), 3, 3));
    assert_eq!(single.area(), 1);
    assert_eq!(single.to_a1_string(), "S!C3:C3");
}

#[test]
fn spill_range_covers_its_block() {
    let spill = SpillRef { anchor: CellId::new("S".to_string(), 2, 3), rows: 3, cols: 2 };
    let range = spill.range();
    assert_eq!((range.start_row, range.start_col, range.end_row, range.end_col), (2, 3, 4, 4));
}

#[test]
fn references_print_with_their_kind() {
    let cell = ReferenceValue::Cell(CellId::new("S".to_string(), 1, 1));
    assert_eq!(reference_to_string(&cell), "S!A1");
    let range = ReferenceValue::Range(RangeDescriptor::new("S".to_string(), 1, 1, 2, 3));
    assert_eq!(reference_to_string(&range), "S!A1:C2");
    let spill = ReferenceValue::Spill(SpillRef { anchor: CellId::new("S".to_string(), 1, 1), rows: 2, cols: 1 });
    assert_eq!(reference_to_string(&spill), "spill:S!A1:A2");
    let table = ReferenceValue::Table(TableDescriptor {
        name: "Sales".to_string(),
        range: RangeDescriptor::new("S".to_string(), 1, 1, 1, 1),
        generation: 0,
    });
    assert_eq!(reference_to_string(&table), "table:Sales");
}

#[test]
fn index_selects_cells_rows_and_columns_of_a_range() {
    let data = RangeDescriptor::new("S".to_string(), 2, 2, 4, 3);
    assert_eq!(index_range_reference(data.clone(), 2, 1), ReferenceValue::Cell(CellId::new("S".to_string(), 3, 2)));
    assert_eq!(
        index_range_reference(data.clone(), 0, 2),
        ReferenceValue::Range(RangeDescriptor::new("S".to_string(), 2, 3, 4, 3))
    );
    assert_eq!(
        index_range_reference(data.clone(), 3, 0),
        ReferenceValue::Range(RangeDescriptor::new("S".to_string(), 4, 2, 4, 3))
    );
    assert_eq!(index_range_reference(data.clone(), 0, 0), ReferenceValue::Range(data.clone()));
    let source = ReferenceValue::Range(data.clone());
    assert_eq!(index_selection(source.clone(), 4, 1), Err(ErrorKind::Ref));
    assert_eq!(index_selection(source.clone(), 1, 3), Err(ErrorKind::Ref));
    assert_eq!(index_selection(source, 3, 2), Ok(ReferenceValue::Cell(CellId::new("S".to_string(), 4, 3))));
    let cell = ReferenceValue::Cell(CellId::new("S".to_string(), 9, 9));
    assert_eq!(index_selection(cell.clone(), 1, 1), Ok(cell.clone()));
    assert_eq!(index_selection(cell.clone(), 0, 1), Ok(cell.clone()));
    assert_eq!(index_selection(cell, 2, 1), Err(ErrorKind::Ref));
    assert_eq!(reference_dimensions(&ReferenceValue::Range(data)), (3, 2));
}

#[test]
fn combining_references_spans_them_on_one_sheet_only() {
    let a = ReferenceValue::Cell(CellId::new("S".to_string(), 5, 1));
    let b = ReferenceValue::Cell(CellId::new("S".to_string(), 2, 3));
    match combine_reference(a.clone(), b) {
        Ok(ReferenceValue::Range(r)) => assert_eq!(r, RangeDescriptor::new("S".to_string(), 2, 1, 5, 3)),
        other => panic!("unexpected {other:?}"),
    }
    let other_sheet = ReferenceValue::Cell(CellId::new("T".to_string(), 1, 1));
    assert!(matches!(combine_reference(a, other_sheet), Err(ErrorKind::Ref)));
}

#[test]
fn offset_moves_and_resizes_and_clamps_at_the_first_row() {
    let base = ReferenceValue::Cell(CellId::new("S".to_string(), 3, 3));
    match shift_reference(base.clone(), 1, -1, 2, 2) {
        Ok(ReferenceValue::Range(r)) => assert_eq!(r, RangeDescriptor::new("S".to_string(), 4, 2, 5, 3)),
        other => panic!("unexpected {other:?}"),
    }
    match shift_reference(base, -10, 0, 1, 1) {
        Ok(ReferenceValue::Range(r)) => assert_eq!(r, RangeDescriptor::new("S".to_string(), 1, 3, 1, 3)),
        other => panic!("unexpected {other:?}"),
    }
}

#[test]
fn substitute_replaces_the_requested_instance_only() {
    assert_eq!(substitute_instance("a-b-c", "-", "+", 2), "a-b+c");
    assert_eq!(substitute_instance("a-b-c", "-", "+", 1), "a+b-c");
    assert_eq!(substitute_instance("a-b-c", "-", "+", 3), "a-b-c");
    assert_eq!(substitute_instance("a-b-c", "-", "+", 0), "a-b-c");
    assert_eq!(substitute_instance("a-b-c", "", "+", 1), "a-b-c");
    assert_eq!(substitute_instance("aaaa", "aa", "b", 2), "aab");
    assert_eq!(substitute_instance("xyz", "y", "y", 1), "xyz");
}

#[test]
fn names_resolve_local_before_global_and_ignore_case() {
    let mut names = NameRegistry::new();
    let global = names.define(
        "Rate".to_string(),
        NameScope::Workbook,
        None,
        NameDefinition::Cell(CellId::new("Inputs".to_string(), 1, 1)),
    );
    let local = names.define(
        "RATE".to_string(),
        NameScope::Sheet,
        Some("Sheet2".to_string()),
        NameDefinition::Range(RangeDescriptor::new("Sheet2".to_string(), 1, 1, 3, 1)),
    );
    assert_ne!(global, local);
    assert_eq!(names.resolve("rate", "Sheet1").unwrap().id, global);
    assert_eq!(names.resolve("rate", "Sheet2").unwrap().id, local);
    assert!(names.resolve("missing", "Sheet1").is_none());
    assert_eq!(names.resolve("Rate", "Sheet2").unwrap().resolved_kind, ResolvedKind::RangeReference);
    assert_eq!(names.len(), 2);
}

#[test]
fn redefining_a_name_keeps_its_identity_and_counts_generations() {
    let mut names = NameRegistry::new();
    let first = names.define("X".to_string(), NameScope::Workbook, None, NameDefinition::Constant(ScalarLiteral::Int(1)));
    assert_eq!(names.get(&first).unwrap().definition_generation, 1);
    let second = names.define("x".to_string(), NameScope::Workbook, None, NameDefinition::Constant(ScalarLiteral::Int(2)));
    assert_eq!(first, second);
    let record = names.get(&first).unwrap();
    assert_eq!(record.definition_generation, 2);
    assert_eq!(record.display_name, "x");
    assert_eq!(names.len(), 1);
}

#[test]
fn inserting_rows_shifts_name_targets_on_the_sheet() {
    let mut names = NameRegistry::new();
    let id = names.define(
        "Total".to_string(),
        NameScope::Workbook,
        None,
        NameDefinition::Cell(CellId::new("S".to_string(), 5, 1)),
    );
    names.shift_rows("S", 3, 2);
    match &names.get(&id).unwrap().definition {
        NameDefinition::Cell(c) => assert_eq!(c, &CellId::new("S".to_string(), 7, 1)),
        other => panic!("unexpected {other:?}"),
    }
    names.shift_rows("Other", 1, 10);
    match &names.get(&id).unwrap().definition {
        NameDefinition::Cell(c) => assert_eq!(c.row, 7),
        other => panic!("unexpected {other:?}"),
    }
}

#[test]
fn defining_new_names_counts_them_and_gets_them_back_by_identity() {
    let mut names = NameRegistry::new();
    let a = names.define("A".to_string(), NameScope::Workbook, None, NameDefinition::Constant(ScalarLiteral::Int(1)));
    assert_eq!(names.len(), 1);
    let b = names.define(
        "A".to_string(),
        NameScope::Sheet,
        Some("S".to_string()),
        NameDefinition::Formula { ast: FormulaAst::Omitted },
    );
    assert_eq!(names.len(), 2);
    assert_ne!(a, b);
    assert_eq!(names.get(&b).unwrap().resolved_kind, ResolvedKind::Formula);
    let again = names.define("a".to_string(), NameScope::Workbook, None, NameDefinition::Constant(ScalarLiteral::Int(3)));
    assert_eq!(again, a);
    assert_eq!(names.len(), 2);
    assert_eq!(names.get(&a).unwrap().definition_generation, 2);
    assert_eq!(names.get(&a).unwrap().structural_generation, 0);
}
