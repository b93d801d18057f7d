use formualizer_engine_v2_poc::compatibility::{classify_values, tally_comparisons, CompatibilityClass, ComparedCell};

fn err(text: &str) -> Option<String> {
    Some(text.to_string())
}

fn cell(sheet: &str, source: (&str, Option<String>), computed: (&str, Option<String>), values_match: bool) -> ComparedCell {
    ComparedCell {
        sheet: sheet.to_string(),
        source_kind: source.0.to_string(),
        source_error: source.1,
        computed_kind: computed.0.to_string(),
        computed_error: computed.1,
        values_match,
    }
}

fn count(list: &[(String, u64)], key: &str) -> Option<u64> {
    list.iter().find(|(k, _)| k == key).map(|(_, n)| *n)
}

#[test]
fn classify_values_covers_every_class() {
    assert_eq!(classify_values(&err("#DIV/0!"), &err("#DIV/0!"), false), CompatibilityClass::SameError);
    assert_eq!(classify_values(&err("#DIV/0!"), &err("#VALUE!"), true), CompatibilityClass::DifferentErrorKind);
    assert_eq!(classify_values(&None, &err("#NAME?"), true), CompatibilityClass::FormualizerOnlyError);
    assert_eq!(classify_values(&err("#N/A"), &None, true), CompatibilityClass::ExcelErrorFormualizerValue);
    assert_eq!(classify_values(&None, &None, true), CompatibilityClass::Match);
    assert_eq!(classify_values(&None, &None, false), CompatibilityClass::ValueMismatch);
}

#[test]
fn class_labels_are_the_report_names() {
    assert_eq!(CompatibilityClass::Match.label(), "match");
    assert_eq!(CompatibilityClass::ValueMismatch.label(), "value_mismatch");
    assert_eq!(CompatibilityClass::SameError.label(), "same_error");
    assert_eq!(CompatibilityClass::DifferentErrorKind.label(), "different_error_kind");
    assert_eq!(CompatibilityClass::FormualizerOnlyError.label(), "formualizer_only_error");
    assert_eq!(CompatibilityClass::ExcelErrorFormualizerValue.label(), "excel_error_formualizer_value");
}

#[test]
fn tally_counts_classes_transitions_sheets_and_errors() {
    let cells = vec![
        cell("A", ("number", None), ("number", None), true),
        cell("A", ("number", None), ("number", None), false),
        cell("B", ("number", None), ("error", err("#NAME?")), false),
        cell("B", ("error", err("#DIV/0!")), ("error", err("#DIV/0!")), false),
        cell("A", ("number", None), ("error", err("#NAME?")), false),
    ];
    let t = tally_comparisons(&cells, 10);
    assert_eq!(count(&t.classes, "match"), Some(1));
    assert_eq!(count(&t.classes, "value_mismatch"), Some(1));
    assert_eq!(count(&t.classes, "formualizer_only_error"), Some(2));
    assert_eq!(count(&t.classes, "same_error"), Some(1));
    assert_eq!(t.classes.len(), 4);
    assert_eq!(t.classes.iter().map(|(_, n)| *n).sum::<u64>(), cells.len() as u64);
    assert_eq!(count(&t.transitions, "number -> number"), Some(2));
    assert_eq!(count(&t.transitions, "number -> #NAME?"), Some(2));
    assert_eq!(count(&t.transitions, "#DIV/0! -> #DIV/0!"), Some(1));
    assert_eq!(count(&t.formualizer_errors, "#NAME?"), Some(2));
    assert_eq!(count(&t.formualizer_errors, "#DIV/0!"), Some(1));
    assert_eq!(t.by_sheet.len(), 2);
    assert_eq!(t.by_sheet[0].0, "A");
    assert_eq!(count(&t.by_sheet[0].1, "match"), Some(1));
    assert_eq!(count(&t.by_sheet[0].1, "formualizer_only_error"), Some(1));
    assert_eq!(t.by_sheet[1].0, "B");
    assert_eq!(count(&t.by_sheet[1].1, "same_error"), Some(1));
    assert_eq!(t.examples, vec![false, true, true, true, true]);
}

#[test]
fn examples_stop_at_the_limit_per_class() {
    let cells = vec![
        cell("S", ("number", None), ("number", None), false),
        cell("S", ("number", None), ("number", None), false),
        cell("S", ("number", None), ("error", err("#REF!")), false),
        cell("S", ("number", None), ("number", None), false),
        cell("S", ("number", None), ("number", None), true),
    ];
    let t = tally_comparisons(&cells, 2);
    assert_eq!(t.examples, vec![true, true, true, false, false]);
    assert_eq!(count(&t.classes, "value_mismatch"), Some(3));
}

#[test]
fn empty_comparison_counts_nothing() {
    let t = tally_comparisons(&Vec::new(), 5);
    assert!(t.classes.is_empty());
    assert!(t.transitions.is_empty());
    assert!(t.by_sheet.is_empty());
    assert!(t.formualizer_errors.is_empty());
    assert!(t.examples.is_empty());
}

#[test]
fn error_classes_preserve_direction_and_kind() {
    let value: Option<String> = None;
    let reference_error = err("#REF!");
    let name_error = err("#NAME?");
    assert_eq!(classify_values(&reference_error, &reference_error, false).label(), "same_error");
    assert_eq!(classify_values(&reference_error, &name_error, false).label(), "different_error_kind");
    assert_eq!(classify_values(&value, &name_error, false).label(), "formualizer_only_error");
    assert_eq!(classify_values(&reference_error, &value, false).label(), "excel_error_formualizer_value");
}
