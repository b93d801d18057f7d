use formualizer_engine_v2_poc::archive::{runtime_dump_archive_stats, static_dump_archive_stats};
use formualizer_engine_v2_poc::artifacts::{artifact_counts, ArtifactError};
use formualizer_engine_v2_poc::inputs::{
    changed_member_addresses, contains_text, in_ablation_group, mismatch_items, AblationGroup,
};
use formualizer_engine_v2_poc::json::{labelled_u64_at, strings_at};
use std::io::{Cursor, Write};
use zip::write::SimpleFileOptions;
use zip::{CompressionMethod, ZipWriter};

fn archive_of(text: &str) -> Vec<u8> {
    let mut writer = ZipWriter::new(Cursor::new(Vec::new()));
    let options = SimpleFileOptions::default().compression_method(CompressionMethod::Deflated);
    writer.start_file("dump.tsv", options).unwrap();
    writer.write_all(text.as_bytes()).unwrap();
    writer.finish().unwrap().into_inner()
}

const DUMP: &str = "kind\tindex\n\
                    M\t0\t-\tSheet1!A1\n\
                    M\t1\t-\tSheet1!B1\n\
                    S\t0\t1\t1\n\
                    S\t1\t0\t4\n";

const GRAPH: &str = r#"{"baseline": {
    "static_graph": {"edge_count": 120, "largest_scc": 40},
    "runtime_observed_graph": {"edge_count": 90, "largest_scc": 35, "original_static_members_retained": 30}
}}"#;

const COMPARISON: &str = r#"{
    "performance_ms": {"latest": {"no_op_median": 12.5}},
    "latest_phase_metrics": {"no_op_median": {"scc_member_evaluations": 77}}
}"#;

const LIGHT: &str = r#"{"templates": {
    "heavy": {"phases": [
        {"label": "load", "dirty": {"dirty_after_iterative_redirty": 1}},
        {"label": "noop", "dirty": {"dirty_after_iterative_redirty": 812}}
    ]},
    "light": {"phases": [
        {"label": "noop", "wall_ms": 3.25, "dirty": {"dirty_at_request_start": 5}, "recalc": {"scc_member_evaluations": 9}},
        {"label": "noop", "dirty": {"dirty_at_request_start": 6}}
    ]}
}}"#;

#[test]
fn artifact_counts_read_each_pointer() {
    let archive = archive_of(DUMP);
    let counts = artifact_counts("{}", COMPARISON, GRAPH, LIGHT, &archive, &archive).ok().unwrap();
    assert_eq!(counts.legacy_static_edge_count, Some(120));
    assert_eq!(counts.legacy_runtime_read_edge_count, Some(90));
    assert_eq!(counts.static_cycle_candidate_size, Some(40));
    assert_eq!(counts.legacy_runtime_cycle_size, Some(35));
    assert_eq!(counts.legacy_runtime_cycle_members, Some(30));
    assert_eq!(counts.heavy_dirty_closure, Some(812));
    assert_eq!(counts.heavy_no_op_evaluations, Some(77));
    assert_eq!(counts.light_dirty_closure, Some(5));
    assert_eq!(counts.light_no_op_evaluations, Some(9));
    assert_eq!(counts.static_stats, static_dump_archive_stats(&archive).unwrap());
    assert_eq!(counts.runtime_stats, runtime_dump_archive_stats(&archive).unwrap());
}

#[test]
fn artifact_counts_leave_missing_values_out() {
    let archive = archive_of(DUMP);
    let counts = artifact_counts("[]", "{}", "{\"baseline\": {}}", "{}", &archive, &archive).ok().unwrap();
    assert_eq!(counts.legacy_static_edge_count, None);
    assert_eq!(counts.heavy_dirty_closure, None);
    assert_eq!(counts.heavy_no_op_evaluations, None);
    assert_eq!(counts.light_no_op_evaluations, None);
}

#[test]
fn artifact_counts_report_the_first_unreadable_input() {
    let archive = archive_of(DUMP);
    let bad = b"not a zip".to_vec();
    let err = |b: &str, c: &str, g: &str, l: &str, s: &Vec<u8>, r: &Vec<u8>| artifact_counts(b, c, g, l, s, r).err();
    assert_eq!(err("{", "{", "{", "{", &bad, &bad), Some(ArtifactError::BaselineJson));
    assert_eq!(err("{}", "nope", "{", "{", &bad, &bad), Some(ArtifactError::ComparisonJson));
    assert_eq!(err("{}", "{}", "", "{", &bad, &bad), Some(ArtifactError::GraphJson));
    assert_eq!(err("{}", "{}", "{}", "{\"a\":", &bad, &bad), Some(ArtifactError::LightJson));
    assert_eq!(err("{}", "{}", "{}", "{}", &bad, &archive), Some(ArtifactError::StaticArchive));
    assert_eq!(err("{}", "{}", "{}", "{}", &archive, &bad), Some(ArtifactError::RuntimeArchive));
}

#[test]
fn labelled_lookup_takes_the_first_matching_item() {
    let light = "/templates/light/phases";
    assert_eq!(labelled_u64_at(LIGHT, light, "noop", "/dirty/dirty_at_request_start"), Some(5));
    assert_eq!(labelled_u64_at(LIGHT, light, "load", "/dirty/dirty_at_request_start"), None);
    assert_eq!(labelled_u64_at(LIGHT, "/templates/heavy/phases", "load", "/dirty/dirty_after_iterative_redirty"), Some(1));
    assert_eq!(labelled_u64_at(LIGHT, "/templates", "noop", "/x"), None);
}

#[test]
fn strings_at_skips_what_is_not_text() {
    let text = r#"{"a": ["x", 1, "y", null, "z"]}"#;
    assert_eq!(strings_at(text, "/a"), vec!["x".to_string(), "y".to_string(), "z".to_string()]);
    assert_eq!(strings_at(text, "/b"), Vec::<String>::new());
}

#[test]
fn changed_member_addresses_of_the_first_pass() {
    let baseline = r#"{"steps": [{"main_passes": [{"changed_member_addresses": ["Inputs!F7", "Calc!B2", 3]}, {"changed_member_addresses": ["X!A1"]}]}]}"#;
    assert_eq!(
        changed_member_addresses(baseline),
        Some(vec!["Inputs!F7".to_string(), "Calc!B2".to_string()])
    );
    assert_eq!(changed_member_addresses("{}"), Some(Vec::new()));
    assert_eq!(changed_member_addresses("{\"steps\": "), None);
}

#[test]
fn mismatch_items_read_each_field() {
    let inventory = r#"{"main_scc_mismatches": [
        {"address": "Calc!B2", "formula_features": ["IF", 7], "category": "numeric_to_error", "formualizer": {"error_kind": "NImpl"}},
        {"category": 5}
    ]}"#;
    let items = mismatch_items(inventory).unwrap();
    assert_eq!(items.len(), 2);
    assert_eq!(items[0].address, Some("Calc!B2".to_string()));
    assert_eq!(items[0].formula_features, Some(vec!["IF".to_string(), "\u{0}non-text".to_string()]));
    assert_eq!(items[0].category, Some("numeric_to_error".to_string()));
    assert_eq!(items[0].error_kind, Some("NImpl".to_string()));
    assert_eq!(items[1].address, None);
    assert_eq!(items[1].formula_features, None);
    assert_eq!(items[1].category, None);
    assert_eq!(items[1].error_kind, None);
    assert_eq!(mismatch_items("{}").unwrap().len(), 0);
    assert!(mismatch_items("[1,").is_none());
}

#[test]
fn text_containment() {
    assert!(contains_text("static_graph_without_range", "without_"));
    assert!(contains_text("abc", ""));
    assert!(contains_text("abc", "abc"));
    assert!(!contains_text("ab", "abc"));
    assert!(!contains_text("without", "without_"));
}

#[test]
fn ablation_groups_go_by_name() {
    assert!(in_ablation_group("static_graph_without_mismatch_members", AblationGroup::Mismatch));
    assert!(in_ablation_group("runtime_observed_without_unsupported", AblationGroup::Mismatch));
    assert!(in_ablation_group("static_graph_without_range", AblationGroup::DependencyFamily));
    assert!(in_ablation_group("static_graph_direct_exact", AblationGroup::DependencyFamily));
    assert!(!in_ablation_group("static_graph_direct_exact", AblationGroup::Mismatch));
    assert!(in_ablation_group("a+b", AblationGroup::Cross));
    assert!(!in_ablation_group("static_graph_without_range", AblationGroup::Cross));
}
