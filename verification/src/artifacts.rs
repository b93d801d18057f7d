//! The counts of the artifact-backed shadow report: what the checked-in JSON
//! summaries record of the earlier graph and no-op recalculations, and the
//! counts of the two compressed edge dumps.
use vstd::prelude::*;
use crate::archive::{first_entry_text, runtime_dump_archive_stats, static_dump_archive_stats};
use crate::dump::{DumpStats, dump_records, dump_stats};
use crate::json::{json_parses, json_u64_at, json_u64_at_pointer, json_well_formed, labelled_u64, labelled_u64_at};

verus! {

/// The whole-number counts the report takes from its inputs.
pub struct ArtifactCounts {
    /// Edges of the earlier static graph.
    pub legacy_static_edge_count: Option<u64>,
    /// Edges of the earlier runtime-observed graph.
    pub legacy_runtime_read_edge_count: Option<u64>,
    /// The largest cycle class of the earlier static graph.
    pub static_cycle_candidate_size: Option<u64>,
    /// The largest cycle class of the earlier runtime-observed graph.
    pub legacy_runtime_cycle_size: Option<u64>,
    /// Members of that class that the static graph also had.
    pub legacy_runtime_cycle_members: Option<u64>,
    /// Cells dirty after the heavy template's no-op recalculation.
    pub heavy_dirty_closure: Option<u64>,
    /// Cycle-member evaluations of the latest no-op recalculation (median).
    pub heavy_no_op_evaluations: Option<u64>,
    /// Cells dirty when the light template's no-op recalculation began.
    pub light_dirty_closure: Option<u64>,
    /// Cycle-member evaluations of the light template's no-op recalculation.
    pub light_no_op_evaluations: Option<u64>,
    /// The counts of the static edge dump.
    pub static_stats: DumpStats,
    /// The counts of the runtime edge dump.
    pub runtime_stats: DumpStats,
}

/// Which input could not be read: a JSON text that does not parse, or an
/// archive whose first entry cannot be read.
#[derive(Clone, Copy, Debug, PartialEq, Eq)]
pub enum ArtifactError {
    BaselineJson,
    ComparisonJson,
    GraphJson,
    LightJson,
    StaticArchive,
    RuntimeArchive,
}

/// The counts of the report from the baseline, comparison, graph and
/// light-template JSON texts and the two edge-dump archives, checked in
/// that order (the first that cannot be read is the error).
pub fn artifact_counts(
    baseline: &str,
    comparison: &str,
    graph: &str,
    light: &str,
    static_archive: &Vec<u8>,
    runtime_archive: &Vec<u8>,
) -> (r: Result<ArtifactCounts, ArtifactError>)
    ensures
        !json_well_formed(baseline@) ==> r == Err::<ArtifactCounts, ArtifactError>(ArtifactError::BaselineJson),
        json_well_formed(baseline@) && !json_well_formed(comparison@) ==> r == Err::<ArtifactCounts, ArtifactError>(
            ArtifactError::ComparisonJson,
        ),
        json_well_formed(baseline@) && json_well_formed(comparison@) && !json_well_formed(graph@) ==> r == Err::<
            ArtifactCounts,
            ArtifactError,
        >(ArtifactError::GraphJson),
        json_well_formed(baseline@) && json_well_formed(comparison@) && json_well_formed(graph@) && !json_well_formed(
            light@,
        ) ==> r == Err::<ArtifactCounts, ArtifactError>(ArtifactError::LightJson),
        json_well_formed(baseline@) && json_well_formed(comparison@) && json_well_formed(graph@) && json_well_formed(light@)
            ==> {
            &&& first_entry_text(static_archive@) is None ==> r == Err::<ArtifactCounts, ArtifactError>(
                ArtifactError::StaticArchive,
            )
            &&& first_entry_text(static_archive@) is Some && first_entry_text(runtime_archive@) is None ==> r == Err::<
                ArtifactCounts,
                ArtifactError,
            >(ArtifactError::RuntimeArchive)
            &&& first_entry_text(static_archive@) is Some && first_entry_text(runtime_archive@) is Some ==> {
                &&& r is Ok
                &&& r->Ok_0.legacy_static_edge_count == json_u64_at(graph@, "/baseline/static_graph/edge_count"@)
                &&& r->Ok_0.legacy_runtime_read_edge_count == json_u64_at(
                    graph@,
                    "/baseline/runtime_observed_graph/edge_count"@,
                )
                &&& r->Ok_0.static_cycle_candidate_size == json_u64_at(graph@, "/baseline/static_graph/largest_scc"@)
                &&& r->Ok_0.legacy_runtime_cycle_size == json_u64_at(
                    graph@,
                    "/baseline/runtime_observed_graph/largest_scc"@,
                )
                &&& r->Ok_0.legacy_runtime_cycle_members == json_u64_at(
                    graph@,
                    "/baseline/runtime_observed_graph/original_static_members_retained"@,
                )
                &&& r->Ok_0.heavy_dirty_closure == labelled_u64(
                    light@,
                    "/templates/heavy/phases"@,
                    "noop"@,
                    "/dirty/dirty_after_iterative_redirty"@,
                )
                &&& r->Ok_0.heavy_no_op_evaluations == json_u64_at(
                    comparison@,
                    "/latest_phase_metrics/no_op_median/scc_member_evaluations"@,
                )
                &&& r->Ok_0.light_dirty_closure == labelled_u64(
                    light@,
                    "/templates/light/phases"@,
                    "noop"@,
                    "/dirty/dirty_at_request_start"@,
                )
                &&& r->Ok_0.light_no_op_evaluations == labelled_u64(
                    light@,
                    "/templates/light/phases"@,
                    "noop"@,
                    "/recalc/scc_member_evaluations"@,
                )
                &&& r->Ok_0.static_stats == dump_stats(dump_records(first_entry_text(static_archive@)->0, true))
                &&& r->Ok_0.runtime_stats == dump_stats(dump_records(first_entry_text(runtime_archive@)->0, false))
            }
        },
{
    if !json_parses(baseline) {
        return Err(ArtifactError::BaselineJson);
    }
    if !json_parses(comparison) {
        return Err(ArtifactError::ComparisonJson);
    }
    if !json_parses(graph) {
        return Err(ArtifactError::GraphJson);
    }
    if !json_parses(light) {
        return Err(ArtifactError::LightJson);
    }
    let static_stats = match static_dump_archive_stats(static_archive) {
        Some(s) => s,
        None => {
            return Err(ArtifactError::StaticArchive);
        },
    };
    let runtime_stats = match runtime_dump_archive_stats(runtime_archive) {
        Some(s) => s,
        None => {
            return Err(ArtifactError::RuntimeArchive);
        },
    };
    Ok(
        ArtifactCounts {
            legacy_static_edge_count: json_u64_at_pointer(graph, "/baseline/static_graph/edge_count"),
            legacy_runtime_read_edge_count: json_u64_at_pointer(graph, "/baseline/runtime_observed_graph/edge_count"),
            static_cycle_candidate_size: json_u64_at_pointer(graph, "/baseline/static_graph/largest_scc"),
            legacy_runtime_cycle_size: json_u64_at_pointer(graph, "/baseline/runtime_observed_graph/largest_scc"),
            legacy_runtime_cycle_members: json_u64_at_pointer(
                graph,
                "/baseline/runtime_observed_graph/original_static_members_retained",
            ),
            heavy_dirty_closure: labelled_u64_at(
                light,
                "/templates/heavy/phases",
                "noop",
                "/dirty/dirty_after_iterative_redirty",
            ),
            heavy_no_op_evaluations: json_u64_at_pointer(
                comparison,
                "/latest_phase_metrics/no_op_median/scc_member_evaluations",
            ),
            light_dirty_closure: labelled_u64_at(light, "/templates/light/phases", "noop", "/dirty/dirty_at_request_start"),
            light_no_op_evaluations: labelled_u64_at(
                light,
                "/templates/light/phases",
                "noop",
                "/recalc/scc_member_evaluations",
            ),
            static_stats,
            runtime_stats,
        },
    )
}

} // verus!
