use solver_core::hotspot_profile::{
    duration_ns, install_recorder, peek_snapshot, shape_bucket_index, take_snapshot,
    GraphCanonPurpose, HotspotRecorder, PropagationPhase, SparsePassCause, SparseProfile,
};
use solver_core::problem::{invert_mapping, TerminalMapping};
use solver_core::reachability::spread;
use solver_core::search::{add_duration_ns, increment, merge_stats, ProfileSearchStats};

#[test]
fn recording_is_ignored_until_installed_and_cleared_when_taken() {
    let mut recorder = HotspotRecorder::new();
    recorder.record_snapshot(40);
    assert_eq!(peek_snapshot(&recorder).snapshot_ns, 0);
    install_recorder(&mut recorder);
    assert!(recorder.recorder_enabled());
    recorder.record_snapshot(40);
    recorder.record_reachability(2);
    recorder.record_scc_canonicalize(5);
    recorder.record_witness_leaf();
    let live = peek_snapshot(&recorder);
    assert_eq!(live.snapshot_ns, 40);
    assert_eq!(live.scc_canonicalize_calls, 1);
    assert_eq!(live.witness_leaves, 1);
    assert_eq!(live.accounted_ns(), 47);
    let taken = take_snapshot(&mut recorder);
    assert_eq!(taken, live);
    assert!(!recorder.recorder_enabled());
    assert_eq!(peek_snapshot(&recorder).snapshot_ns, 0);
}

#[test]
fn accounted_time_saturates_and_durations_saturate() {
    let mut recorder = HotspotRecorder::new();
    install_recorder(&mut recorder);
    recorder.record_snapshot(u128::MAX);
    recorder.record_apply_decision(10);
    assert_eq!(peek_snapshot(&recorder).snapshot_ns, u64::MAX);
    assert_eq!(peek_snapshot(&recorder).accounted_ns(), u64::MAX);
    assert_eq!(duration_ns(u128::from(u64::MAX) + 1), u64::MAX);
    // Accumulators wrap like atomic fetch-add.
    recorder.record_snapshot(1);
    assert_eq!(peek_snapshot(&recorder).snapshot_ns, 0);
}

#[test]
fn phases_purposes_and_sparse_shapes_reach_their_buckets() {
    let mut recorder = HotspotRecorder::new();
    install_recorder(&mut recorder);
    recorder.record_propagation_phase(3, PropagationPhase::Bounds);
    recorder.record_graph_canon(7, GraphCanonPurpose::MarkedLink);
    recorder.record_sparse_profile(
        &SparseProfile {
            total_ns: 100,
            preparation_ns: 1,
            forward_ns: 2,
            back_reduction_ns: 3,
            deductions_ns: 4,
            input_rows: 10,
            active_rows: 20,
            variable_count: 60,
            nonzero_terms: 64,
        },
        SparsePassCause::RatioDeductions,
    );
    let s = peek_snapshot(&recorder);
    assert_eq!(s.propagation_bounds_ns, 3);
    assert_eq!((s.graph_canon_ns, s.graph_canon_calls), (7, 1));
    assert_eq!((s.marked_link_graph_canon_ns, s.marked_link_graph_canon_calls), (7, 1));
    assert_eq!(s.propagation_sparse_cause_calls, [0, 0, 1, 0]);
    assert_eq!(s.propagation_sparse_row_bucket_ns, [0, 100, 0, 0]);
    assert_eq!(s.propagation_sparse_variable_bucket_calls, [0, 0, 0, 1]);
    assert_eq!(s.propagation_sparse_term_bucket_calls, [0, 1, 0, 0]);
    assert_eq!(s.propagation_sparse_active_rows, 20);
    assert_eq!(shape_bucket_index(15, [16, 32, 48]), 0);
    assert_eq!(shape_bucket_index(48, [16, 32, 48]), 3);
}

#[test]
fn terminal_mappings_invert_each_other() {
    assert_eq!(invert_mapping(&vec![1, 0, 2]), vec![1, 0, 2]);
    assert_eq!(invert_mapping(&vec![2, 0, 1]), vec![1, 2, 0]);
    let mapping = TerminalMapping::from_orders(vec![1, 0, 2], vec![2, 0, 1]);
    assert_eq!(mapping.normalized_inputs_to_original(), &[1, 0, 2]);
    assert_eq!(mapping.normalized_outputs_to_original(), &[2, 0, 1]);
    assert_eq!(mapping.normalized_input(0), Some(1));
    assert_eq!(mapping.normalized_input(2), Some(2));
    assert_eq!(mapping.normalized_output(1), Some(2));
    assert_eq!(mapping.original_output(0), Some(2));
    assert_eq!(mapping.original_input(3), None);
}

#[test]
fn spread_marks_exactly_the_nodes_reachable_from_roots() {
    let adjacency = vec![vec![1], vec![2], vec![], vec![0, 4], vec![]];
    assert_eq!(spread(&adjacency, &vec![true, false, false, false, false]), vec![true, true, true, false, false]);
    assert_eq!(spread(&adjacency, &vec![false, false, false, true, false]), vec![true, true, true, true, true]);
    let cycle = vec![vec![1], vec![0]];
    assert_eq!(spread(&cycle, &vec![false, true]), vec![true, true]);
    assert_eq!(spread(&cycle, &vec![false, false]), vec![false, false]);
}

#[test]
fn merged_stats_add_counts_and_keep_peaks() {
    let mut total = ProfileSearchStats::default();
    let mut child = ProfileSearchStats::default();
    child.instrumentation.scc_solves = 3;
    child.instrumentation.peak_memory_bytes = 10;
    child.complete_topologies = u64::MAX;
    merge_stats(&mut total, &child);
    child.instrumentation.peak_memory_bytes = 4;
    merge_stats(&mut total, &child);
    assert_eq!(total.instrumentation.scc_solves, 6);
    assert_eq!(total.instrumentation.peak_memory_bytes, 10);
    assert_eq!(total.complete_topologies, u64::MAX);
    let mut counter = u64::MAX - 1;
    increment(&mut counter);
    increment(&mut counter);
    assert_eq!(counter, u64::MAX);
    let mut time = 5;
    add_duration_ns(&mut time, 7);
    assert_eq!(time, 12);
}
