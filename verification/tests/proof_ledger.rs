use solver_core::profile::NodeProfile;
use solver_core::proof_ledger::{
    FoldedProfileResult, ParentProofStatus, PartitionFailure, PartitionResult, ProofLedger,
    ProofLedgerError,
};
use solver_core::search::{
    IncompleteReason, ProfileSearchError, ProfileSearchResult, ProfileSearchStats, ProfileWitness,
};

fn profile(splitter2: u32, merger2: u32) -> NodeProfile {
    NodeProfile { splitter2, splitter3: 0, merger2, merger3: 0 }
}

fn witness(key: u8) -> ProfileWitness {
    ProfileWitness { canonical_graph_key: vec![key] }
}

fn unsat() -> PartitionResult {
    PartitionResult::Unsat { exhaustion: ProfileSearchStats::default() }
}

fn ledger_with_two_profiles() -> ProofLedger {
    let mut ledger = ProofLedger::default();
    ledger.begin_node(2).unwrap();
    ledger.register_link_group(2, 5, vec![profile(1, 1), profile(0, 2)]).unwrap();
    ledger.register_profile_partitions(2, 5, profile(1, 1), vec![0, 1]).unwrap();
    ledger.register_profile_partitions(2, 5, profile(0, 2), vec![0]).unwrap();
    ledger
}

#[test]
fn unsat_parent_requires_every_registered_leaf_to_be_unsat() {
    let mut ledger = ledger_with_two_profiles();
    ledger.record_partition(2, 5, profile(1, 1), 0, unsat()).unwrap();
    assert_eq!(ledger.link_group_status(2, 5), ParentProofStatus::Pending);
    ledger.record_partition(2, 5, profile(1, 1), 1, unsat()).unwrap();
    assert_eq!(ledger.link_group_status(2, 5), ParentProofStatus::Pending);
    ledger.record_partition(2, 5, profile(0, 2), 0, unsat()).unwrap();
    assert_eq!(ledger.link_group_status(2, 5), ParentProofStatus::Unsat);
}

#[test]
fn incomplete_leaf_prevents_sat_or_unsat_parent() {
    let mut ledger = ledger_with_two_profiles();
    for (fixed_profile, partition) in [(profile(1, 1), 0), (profile(0, 2), 0)] {
        ledger.record_partition(2, 5, fixed_profile, partition, unsat()).unwrap();
    }
    ledger
        .record_partition(
            2,
            5,
            profile(1, 1),
            1,
            PartitionResult::Incomplete {
                reason: IncompleteReason::Cancelled,
                best_witness: None,
                progress: ProfileSearchStats::default(),
            },
        )
        .unwrap();
    assert_eq!(
        ledger.link_group_status(2, 5),
        ParentProofStatus::Incomplete { reason: IncompleteReason::Cancelled }
    );
}

#[test]
fn incomplete_profile_retains_the_best_witness_without_becoming_sat() {
    let mut ledger = ledger_with_two_profiles();
    ledger
        .record_partition(
            2,
            5,
            profile(1, 1),
            0,
            PartitionResult::Sat { best_witness: witness(9), exhaustion: ProfileSearchStats::default() },
        )
        .unwrap();
    ledger
        .record_partition(
            2,
            5,
            profile(1, 1),
            1,
            PartitionResult::Incomplete {
                reason: IncompleteReason::Cancelled,
                best_witness: Some(witness(2)),
                progress: ProfileSearchStats::default(),
            },
        )
        .unwrap();

    let Some(FoldedProfileResult::Search(result)) = ledger.fold_profile(2, 5, profile(1, 1)).unwrap()
    else {
        panic!("the fully recorded profile must fold");
    };
    let ProfileSearchResult::Incomplete { reason, best_witness: Some(best_witness), .. } = *result
    else {
        panic!("an incomplete leaf must prevent a SAT proof");
    };
    assert_eq!(reason, IncompleteReason::Cancelled);
    assert_eq!(best_witness.canonical_graph_key, vec![2]);
    assert_eq!(
        ledger.link_group_status(2, 5),
        ParentProofStatus::Incomplete { reason: IncompleteReason::Cancelled }
    );
}

#[test]
fn failed_leaf_prevents_parent_proof_even_when_every_sibling_is_unsat() {
    let mut ledger = ledger_with_two_profiles();
    for (fixed_profile, partition) in [(profile(1, 1), 0), (profile(0, 2), 0)] {
        ledger.record_partition(2, 5, fixed_profile, partition, unsat()).unwrap();
    }
    ledger
        .record_partition(
            2,
            5,
            profile(1, 1),
            1,
            PartitionResult::Failed {
                error: PartitionFailure::Search(ProfileSearchError::MissingAppliedLink),
                progress: ProfileSearchStats::default(),
            },
        )
        .unwrap();
    assert_eq!(
        ledger.link_group_status(2, 5),
        ParentProofStatus::Failed {
            error: PartitionFailure::Search(ProfileSearchError::MissingAppliedLink)
        }
    );
}

#[test]
fn complete_sat_group_selects_the_smallest_witness_key() {
    let mut ledger = ledger_with_two_profiles();
    for (fixed_profile, partition, key) in
        [(profile(1, 1), 0, Some(9)), (profile(1, 1), 1, Some(2)), (profile(0, 2), 0, None)]
    {
        let result = key.map_or_else(unsat, |key| PartitionResult::Sat {
            best_witness: witness(key),
            exhaustion: ProfileSearchStats::default(),
        });
        ledger.record_partition(2, 5, fixed_profile, partition, result).unwrap();
    }
    let ParentProofStatus::Sat { best_witness } = ledger.link_group_status(2, 5) else {
        panic!("all leaves completed and at least one was SAT");
    };
    assert_eq!(best_witness.canonical_graph_key, vec![2]);
}

#[test]
fn node_fold_stops_at_the_first_non_unsat_link_group() {
    let mut ledger = ProofLedger::default();
    ledger.begin_node(0).unwrap();
    ledger.register_link_group(0, 1, vec![profile(0, 0)]).unwrap();
    ledger.register_profile_partitions(0, 1, profile(0, 0), vec![0]).unwrap();
    ledger.register_link_group(0, 2, vec![profile(1, 1)]).unwrap();
    ledger.register_profile_partitions(0, 2, profile(1, 1), vec![0]).unwrap();
    ledger.record_partition(0, 1, profile(0, 0), 0, unsat()).unwrap();
    assert_eq!(ledger.node_status(0), ParentProofStatus::Pending);
    ledger
        .record_partition(
            0,
            2,
            profile(1, 1),
            0,
            PartitionResult::Sat { best_witness: witness(1), exhaustion: ProfileSearchStats::default() },
        )
        .unwrap();
    assert!(matches!(ledger.node_status(0), ParentProofStatus::Sat { .. }));
}

#[test]
fn registration_errors_name_what_was_refused() {
    let mut ledger = ProofLedger::new();
    assert_eq!(
        ledger.register_link_group(3, 1, vec![profile(1, 0)]),
        Err(ProofLedgerError::UnknownNode { node_count: 3 })
    );
    ledger.begin_node(3).unwrap();
    assert_eq!(ledger.begin_node(3), Err(ProofLedgerError::DuplicateNode { node_count: 3 }));
    ledger.register_link_group(3, 1, vec![profile(1, 0), profile(1, 0)]).unwrap();
    assert_eq!(
        ledger.register_link_group(3, 1, vec![]),
        Err(ProofLedgerError::DuplicateLinkGroup { node_count: 3, link_count: 1 })
    );
    assert_eq!(
        ledger.register_profile_partitions(3, 1, profile(0, 1), vec![0]),
        Err(ProofLedgerError::UnknownProfile { node_count: 3, link_count: 1, profile: profile(0, 1) })
    );
    assert_eq!(
        ledger.register_profile_partitions(3, 1, profile(1, 0), vec![]),
        Err(ProofLedgerError::EmptyPartitionPlan { node_count: 3, link_count: 1, profile: profile(1, 0) })
    );
    assert_eq!(
        ledger.record_partition(3, 1, profile(1, 0), 0, unsat()),
        Err(ProofLedgerError::UnknownPartition {
            node_count: 3,
            link_count: 1,
            profile: profile(1, 0),
            partition: 0
        })
    );
    assert_eq!(
        ledger.fold_profile(3, 1, profile(1, 0)),
        Err(ProofLedgerError::UnknownProfile { node_count: 3, link_count: 1, profile: profile(1, 0) })
    );
    ledger.register_profile_partitions(3, 1, profile(1, 0), vec![4, 2, 4]).unwrap();
    assert_eq!(
        ledger.register_profile_partitions(3, 1, profile(1, 0), vec![1]),
        Err(ProofLedgerError::DuplicatePartitionPlan {
            node_count: 3,
            link_count: 1,
            profile: profile(1, 0)
        })
    );
    assert_eq!(
        ledger.record_partition(3, 1, profile(1, 0), 3, unsat()),
        Err(ProofLedgerError::UnknownPartition {
            node_count: 3,
            link_count: 1,
            profile: profile(1, 0),
            partition: 3
        })
    );
}

#[test]
fn a_profile_folds_only_once_every_partition_reported_and_reports_twice_are_refused() {
    let mut ledger = ProofLedger::new();
    ledger.begin_node(1).unwrap();
    ledger.register_link_group(1, 2, vec![profile(1, 0)]).unwrap();
    ledger.register_profile_partitions(1, 2, profile(1, 0), vec![7, 3]).unwrap();
    ledger.record_partition(1, 2, profile(1, 0), 7, unsat()).unwrap();
    assert_eq!(ledger.fold_profile(1, 2, profile(1, 0)), Ok(None));
    ledger.record_partition(1, 2, profile(1, 0), 3, unsat()).unwrap();
    let folded = ledger.fold_profile(1, 2, profile(1, 0)).unwrap().unwrap();
    assert!(matches!(
        folded,
        FoldedProfileResult::Search(ref result)
            if matches!(**result, ProfileSearchResult::Exhausted { best_witness: None, .. })
    ));
    let again = ledger.record_partition(
        1,
        2,
        profile(1, 0),
        3,
        PartitionResult::Failed { error: PartitionFailure::WorkerPanicked, progress: ProfileSearchStats::default() },
    );
    assert_eq!(
        again,
        Err(ProofLedgerError::DuplicatePartitionResult {
            node_count: 1,
            link_count: 2,
            profile: profile(1, 0),
            partition: 3
        })
    );
    let kept = ledger.fold_profile(1, 2, profile(1, 0)).unwrap().unwrap();
    assert!(matches!(
        kept,
        FoldedProfileResult::Search(ref result)
            if matches!(**result, ProfileSearchResult::Exhausted { best_witness: None, .. })
    ));
    assert_eq!(ledger.node_status(9), ParentProofStatus::Pending);
    assert_eq!(ledger.link_group_status(1, 9), ParentProofStatus::Pending);
}

#[test]
fn folded_counters_merge_every_leaf() {
    let mut ledger = ProofLedger::new();
    ledger.begin_node(1).unwrap();
    ledger.register_link_group(1, 2, vec![profile(1, 0)]).unwrap();
    ledger.register_profile_partitions(1, 2, profile(1, 0), vec![0, 1]).unwrap();
    for (partition, hits) in [(0u32, 3u64), (1, 4)] {
        let mut stats = ProfileSearchStats::default();
        stats.state_cache_hits = hits;
        stats.instrumentation.wall_time_ms = hits * 10;
        ledger
            .record_partition(1, 2, profile(1, 0), partition, PartitionResult::Unsat { exhaustion: stats })
            .unwrap();
    }
    let Some(FoldedProfileResult::Search(result)) = ledger.fold_profile(1, 2, profile(1, 0)).unwrap()
    else {
        panic!("the profile reported fully");
    };
    let ProfileSearchResult::Exhausted { stats, .. } = *result else {
        panic!("every leaf was UNSAT");
    };
    assert_eq!(stats.state_cache_hits, 7);
    assert_eq!(stats.instrumentation.wall_time_ms, 40);
}

#[test]
fn a_search_result_records_as_its_leaf() {
    let sat = PartitionResult::from(ProfileSearchResult::Exhausted {
        best_witness: Some(witness(4)),
        witnesses: vec![witness(4)],
        stats: ProfileSearchStats::default(),
    });
    assert!(matches!(sat, PartitionResult::Sat { .. }));
    let none = PartitionResult::from(ProfileSearchResult::Exhausted {
        best_witness: None,
        witnesses: Vec::new(),
        stats: ProfileSearchStats::default(),
    });
    assert_eq!(none, unsat());
    let failed = PartitionResult::from(ProfileSearchResult::Failed {
        error: ProfileSearchError::TerminalCountOverflow,
        stats: ProfileSearchStats::default(),
    });
    assert!(matches!(
        failed,
        PartitionResult::Failed { error: PartitionFailure::Search(ProfileSearchError::TerminalCountOverflow), .. }
    ));
}
