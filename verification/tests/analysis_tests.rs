use formualizer_engine_v2_poc::analysis::{increment, normalize_address, sheet_of};
use formualizer_engine_v2_poc::dump::{parse_runtime_dump, parse_static_dump, DumpStats};

#[test]
fn normalize_address_strips_quotes_dollars_and_case() {
    assert_eq!(normalize_address("'Cash''s Flow'!$a$1"), "CASH'S FLOW!A1");
    assert_eq!(normalize_address("$b$12"), "B12");
    assert_eq!(normalize_address("Sheet1!c3"), "SHEET1!C3");
}

#[test]
fn sheet_of_takes_the_part_before_the_first_bang() {
    assert_eq!(sheet_of("CashFlow Inputs!F7"), Some("CASHFLOW INPUTS".to_string()));
    assert_eq!(sheet_of("'a'!b!c"), Some("'A'".to_string()));
    assert_eq!(sheet_of("F7"), None);
}

#[test]
fn increment_counts_labels() {
    let mut counts: Vec<(String, u64)> = Vec::new();
    increment(&mut counts, "match");
    increment(&mut counts, "value_mismatch");
    increment(&mut counts, "match");
    assert_eq!(counts, vec![("match".to_string(), 2), ("value_mismatch".to_string(), 1)]);
}

#[test]
fn static_dump_counts_members_and_edge_families() {
    let text = "kind\tindex\tx\taddress\n\
                M\t0\t-\tSheet1!A1\n\
                M\t1\t-\tMyName\n\
                M\t1\t-\tSheet1!B1\n\
                S\t0\t1\t3\n\
                S\t0\t1\t16\n\
                S\t1\t0\n\
                S\t1\t1\t64\n\
                X\tignored\n";
    let stats = parse_static_dump(text);
    assert_eq!(
        stats,
        DumpStats {
            member_count: 2,
            cell_member_count: 2,
            name_member_count: 0,
            direct_pairs: 2,
            range_sources: 1,
            name_sources: 1,
            dynamic_sources: 1,
        }
    );
}

#[test]
fn runtime_dump_counts_only_members() {
    let text = "header\r\nM\t3\tx\tSheet!A1\r\nM\t4\tx\tName\r\nS\t3\t4\t1\r\nM\tbad\tx\tOther";
    let stats = parse_runtime_dump(text);
    assert_eq!(stats.member_count, 3);
    assert_eq!(stats.cell_member_count, 1);
    assert_eq!(stats.name_member_count, 2);
    assert_eq!(stats.direct_pairs, 0);
}

#[test]
fn static_dump_mask_defaults_and_header_only() {
    assert_eq!(parse_static_dump(""), DumpStats::default());
    assert_eq!(parse_static_dump("only a header\n"), DumpStats::default());
    let stats = parse_static_dump("h\nS\t+5\t7\tnot-a-number\n");
    assert_eq!(stats.direct_pairs, 1);
    assert_eq!(stats.range_sources, 0);
}

use formualizer_engine_v2_poc::analysis::{
    addresses_in_family, indices_of_addresses, normalized_sheet_addresses, origin_counts, MismatchFamily, MismatchItem,
};
use formualizer_engine_v2_poc::dump::summarize_dumps;
use formualizer_engine_v2_poc::edge_dump::{load_edge_dumps, DumpError};
use formualizer_engine_v2_poc::graph::Edge;

#[test]
fn edge_dumps_load_members_in_index_order_and_merge_static_edges() {
    let dump = "kind\tindex\tx\taddress\tdynamic\tvolatile\tformula\n\
                M\t2\t-\t'Cash Flow'!$B$2\ttrue\tfalse\t=A1\n\
                M\t0\t-\tSheet1!a1\tfalse\ttrue\t\n\
                R\t0\t2\t1\n\
                M\t1\t-\tName\tfalse\tfalse\t=X\n";
    let static_dump = "h\nS\t0\t2\t2\nS\t2\t0\nS\t0\t2\t16\nS\t1\t1\tbad\n";
    let loaded = load_edge_dumps(dump, static_dump).unwrap();
    let indices: Vec<usize> = loaded.members.iter().map(|m| m.member_index).collect();
    assert_eq!(indices, vec![0, 1, 2]);
    assert_eq!(loaded.members[0].normalized, "SHEET1!A1");
    assert_eq!(loaded.members[0].sheet, Some("SHEET1".to_string()));
    assert!(loaded.members[0].volatile);
    assert_eq!(loaded.members[1].sheet, None);
    assert_eq!(loaded.members[2].normalized, "CASH FLOW!B2");
    assert!(loaded.members[2].dynamic);
    assert_eq!(loaded.members[2].formula_debug, "=A1");
    assert_eq!(loaded.runtime_edges, vec![Edge { source: 0, target: 2, mask: 1 }]);
    assert_eq!(
        loaded.static_edges,
        vec![
            Edge { source: 0, target: 2, mask: 18 },
            Edge { source: 2, target: 0, mask: 1 },
            Edge { source: 1, target: 1, mask: 1 },
        ]
    );
}

#[test]
fn edge_dumps_report_bad_numbers_and_missing_members() {
    assert_eq!(load_edge_dumps("h\nM\tx\t-\tA1\tfalse\tfalse\t\n", "").err(), Some(DumpError::BadNumber));
    assert_eq!(load_edge_dumps("h\nR\t1\t2\t70000\n", "").err(), Some(DumpError::BadNumber));
    assert_eq!(load_edge_dumps("h\nM\t1\t-\tA1\tfalse\tfalse\t\n", "h\nS\t1\n").is_ok(), true);
    assert_eq!(load_edge_dumps("h\nM\t1\t-\tA1\tfalse\tfalse\t\n", "h\nS\t1\tz\n").err(), Some(DumpError::BadNumber));
    assert_eq!(load_edge_dumps("h\n", "h\n").err(), Some(DumpError::NoMembers));
}

#[test]
fn dump_summary_derives_descriptor_counts() {
    let stats = parse_static_dump("h\nM\t0\t-\tS!A1\nS\t0\t1\t3\nS\t1\t0\t80\n");
    let runtime = parse_runtime_dump("h\n");
    let summary = summarize_dumps(&stats, &runtime);
    assert_eq!(summary.formula_vertices, Some(1));
    assert_eq!(summary.name_definition_count, None);
    assert_eq!(summary.symbolic_range_descriptor_count, 1);
    assert_eq!(summary.selector_descriptor_count, 1);
    assert_eq!(summary.invalidation_dependency_count, 4);
    assert_eq!(summary.direct_static_edge_count, 1);
    assert!(summary.missing_members);
}

fn item(address: &str, features: &[&str], category: &str, error_kind: Option<&str>) -> MismatchItem {
    MismatchItem {
        address: Some(address.to_string()),
        formula_features: Some(features.iter().map(|f| f.to_string()).collect()),
        category: Some(category.to_string()),
        error_kind: error_kind.map(|k| k.to_string()),
    }
}

#[test]
fn mismatch_families_pick_their_addresses() {
    let items = vec![
        item("S!$A$1", &["conditional"], "excel_numeric_formualizer_error", None),
        item("S!b2", &["unsupported_or_xlfn"], "value_mismatch", None),
        item("S!C3", &[], "other", Some("NImpl")),
        MismatchItem { address: None, formula_features: None, category: None, error_kind: None },
    ];
    assert_eq!(addresses_in_family(&items, MismatchFamily::Any), vec!["S!A1", "S!B2", "S!C3"]);
    assert_eq!(addresses_in_family(&items, MismatchFamily::UnsupportedOrName), vec!["S!B2", "S!C3"]);
    assert_eq!(addresses_in_family(&items, MismatchFamily::NumericToError), vec!["S!A1"]);
    assert_eq!(addresses_in_family(&items, MismatchFamily::Conditional), vec!["S!A1"]);
    let sheet_addresses = normalized_sheet_addresses(&vec!["x!$a$1".to_string(), "NoSheet".to_string(), "X!A1".to_string()]);
    assert_eq!(sheet_addresses, vec!["X!A1"]);
}

#[test]
fn addresses_map_to_the_last_member_with_them_and_masks_count_per_family() {
    let (members, _) = {
        let loaded = load_edge_dumps(
            "h\nM\t0\t-\tS!A1\tfalse\tfalse\t\nM\t1\t-\tS!B1\tfalse\tfalse\t\nM\t2\t-\ts!a1\tfalse\tfalse\t\n",
            "h\n",
        )
        .unwrap();
        (loaded.members, loaded.runtime_edges)
    };
    assert_eq!(indices_of_addresses(&members, &vec!["S!A1".to_string(), "Z!Z9".to_string()]), vec![2]);
    let edges = vec![Edge { source: 0, target: 1, mask: 3 }, Edge { source: 1, target: 0, mask: 2 }];
    assert_eq!(origin_counts(&edges, 3), vec![1, 2, 0]);
}

#[test]
fn members_with_equal_indices_keep_their_listed_order() {
    let dump = "h\n\
                M\t1\t-\tB1\tfalse\tfalse\t\n\
                M\t0\t-\tFirst!A1\tfalse\tfalse\t\n\
                M\t1\t-\tC1\tfalse\tfalse\t\n\
                M\t0\t-\tSecond!A1\tfalse\tfalse\t\n";
    let loaded = load_edge_dumps(dump, "").unwrap();
    let addresses: Vec<&str> = loaded.members.iter().map(|m| m.address.as_str()).collect();
    assert_eq!(addresses, vec!["First!A1", "Second!A1", "B1", "C1"]);
}
