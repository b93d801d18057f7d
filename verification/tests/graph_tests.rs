use formualizer_engine_v2_poc::analysis::{graph_metrics, variants, witnesses, Member};
use formualizer_engine_v2_poc::graph::{components, first_pass_order, path_between, Edge};

fn edge(source: usize, target: usize, mask: u16) -> Edge {
    Edge { source, target, mask }
}

fn member(index: usize, address: &str, sheet: Option<&str>) -> Member {
    Member {
        member_index: index,
        address: address.to_string(),
        normalized: address.to_ascii_uppercase(),
        sheet: sheet.map(|s| s.to_string()),
        dynamic: false,
        volatile: false,
        formula_debug: if index == 0 { String::new() } else { format!("=F{index}") },
    }
}

#[test]
fn depth_first_order_finishes_children_first() {
    let adjacency = vec![vec![1, 2], vec![2], vec![], vec![0]];
    assert_eq!(first_pass_order(&adjacency), vec![2, 1, 0, 3]);
}

#[test]
fn components_group_mutually_reachable_nodes() {
    let edges = vec![edge(0, 1, 1), edge(1, 0, 1), edge(1, 2, 1), edge(3, 3, 1)];
    let keep = vec![true, true, true, true];
    let (mut comps, kept) = components(4, &edges, &keep);
    comps.sort();
    assert_eq!(comps, vec![vec![0, 1], vec![2], vec![3]]);
    assert_eq!(kept, 4);
    let drop_back = vec![true, false, true, true];
    let (mut comps, kept) = components(4, &edges, &drop_back);
    comps.sort();
    assert_eq!(comps, vec![vec![0], vec![1], vec![2], vec![3]]);
    assert_eq!(kept, 3);
}

#[test]
fn shortest_path_reaches_the_nearest_goal() {
    let edges = vec![edge(0, 1, 1), edge(1, 2, 1), edge(0, 3, 1), edge(3, 2, 1), edge(2, 4, 1)];
    let goal = vec![false, false, false, false, true];
    assert_eq!(path_between(5, &edges, 0, &goal), Some(vec![0, 1, 2, 4]));
    let unreachable = vec![true, false, false, false, false];
    assert_eq!(path_between(5, &edges, 0, &unreachable), None);
}

fn sample() -> (Vec<Member>, Vec<Edge>) {
    let members = vec![
        member(0, "CashFlow Inputs!F7", Some("CASHFLOW INPUTS")),
        member(1, "CashFlow Engine!J9", Some("CASHFLOW ENGINE")),
        member(2, "CashFlow Engine!J11", Some("CASHFLOW ENGINE")),
        member(3, "Name", None),
    ];
    let edges = vec![edge(0, 1, 1), edge(1, 2, 2), edge(2, 0, 16), edge(3, 3, 64)];
    (members, edges)
}

#[test]
fn metrics_measure_the_largest_cycle() {
    let (members, edges) = sample();
    let original = vec!["CASHFLOW ENGINE!J9".to_string()];
    let mismatches = vec!["CASHFLOW INPUTS!F7".to_string(), "OTHER!A1".to_string()];
    let m = graph_metrics(&members, &edges, &original, &mismatches);
    assert_eq!(m.largest_scc, 3);
    assert_eq!(m.cyclic_scc_count, 2);
    assert_eq!(m.original_static_members_retained, 1);
    assert_eq!(m.main_component_mismatch_members, 1);
    assert_eq!(m.cashflow_inputs_members, 1);
    assert_eq!(m.cashflow_engine_members, 2);
    assert!(m.cross_sheet_cycle);
    assert_eq!(m.edge_count, 4);
}

#[test]
fn witnesses_walk_between_the_cash_flow_sheets() {
    let (members, edges) = sample();
    let found = witnesses(&members, &edges);
    assert_eq!(found.len(), 2);
    assert_eq!(found[0].direction, "CashFlow Inputs -> CashFlow Engine");
    assert_eq!(found[0].member_indices, vec![0, 1]);
    assert_eq!(found[0].addresses, vec!["CashFlow Inputs!F7".to_string(), "CashFlow Engine!J9".to_string()]);
    assert_eq!(found[0].formulas, vec![None, Some("=F1".to_string())]);
    assert_eq!(found[1].direction, "CashFlow Engine -> CashFlow Inputs");
    assert_eq!(found[1].member_indices, vec![1, 2, 0]);
    let none = witnesses(&members, &vec![edge(3, 3, 1)]);
    assert!(none.is_empty());
}

#[test]
fn variants_drop_families_and_sources() {
    let (members, edges) = sample();
    let families: Vec<String> = ["direct_cell", "range", "whole_row", "whole_column", "named_range"]
        .iter()
        .map(|s| s.to_string())
        .collect();
    let out = variants(
        "g",
        &edges,
        2,
        &families,
        &members,
        &Vec::new(),
        &Vec::new(),
        &vec![2],
        &Vec::new(),
        &Vec::new(),
        &Vec::new(),
    );
    let names: Vec<&str> = out.iter().map(|v| v.name.as_str()).collect();
    assert_eq!(
        names,
        vec![
            "g_all",
            "g_direct_exact_cell_only",
            "g_without_direct_cell_origin",
            "g_without_range_origin",
            "g_without_known_mismatch_source_edges",
            "g_without_unsupported_or_name_source_edges",
            "g_without_excel_numeric_to_error_source_edges",
            "g_without_conditional_mismatch_source_edges",
            "g_mismatch_sources_plus_named_origins",
            "g_unsupported_sources_plus_range_origins",
        ]
    );
    assert_eq!(out[0].removed_edges, 0);
    assert_eq!(out[0].metrics.largest_scc, 3);
    assert_eq!(out[1].removed_edges, 3);
    assert_eq!(out[1].metrics.largest_scc, 1);
    assert_eq!(out[3].removed_edges, 1);
    assert_eq!(out[4].removed_edges, 1);
    assert_eq!(out[4].metrics.cyclic_scc_count, 1);
    assert_eq!(out[8].removed_edges, 1);
    assert_eq!(out[9].removed_edges, 1);
}

#[test]
fn path_between_finds_a_shortest_path() {
    let edges = vec![edge(0, 1, 1), edge(1, 2, 1), edge(2, 3, 1), edge(0, 4, 1), edge(4, 3, 1), edge(2, 5, 1)];
    let goal = vec![false, false, false, true, false, true];
    assert_eq!(path_between(6, &edges, 0, &goal), Some(vec![0, 4, 3]));
    let only_far = vec![false, false, false, false, false, true];
    assert_eq!(path_between(6, &edges, 0, &only_far), Some(vec![0, 1, 2, 5]));
}

#[test]
fn components_come_in_topological_order() {
    let edges = vec![edge(2, 1, 1), edge(1, 0, 1), edge(3, 2, 1), edge(2, 3, 1)];
    let keep = vec![true, true, true, true];
    let (comps, _) = components(4, &edges, &keep);
    assert_eq!(comps, vec![vec![2, 3], vec![1], vec![0]]);
}

#[test]
fn unrelated_components_come_from_the_latest_finished_first() {
    let edges = vec![edge(0, 1, 1), edge(1, 0, 1), edge(2, 3, 1), edge(3, 2, 1)];
    let keep = vec![true, true, true, true];
    assert_eq!(first_pass_order(&vec![vec![1], vec![0], vec![3], vec![2]]), vec![1, 0, 3, 2]);
    let (comps, _) = components(4, &edges, &keep);
    assert_eq!(comps, vec![vec![2, 3], vec![0, 1]]);
}
