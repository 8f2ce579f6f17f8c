use solver_core::search::{
    order_by_key, plan_root_partitions, plan_root_partitions_of, refine_step, select_refinement_leaf,
    DecisionOutcome, ProfileSearchError, RefinementLeaf, RootPartitionId, RootPlanning,
};
use solver_core::search::{
    cached_outcome, fold_result, search_step, CacheUpdate, DfsResult, FramePhase, SearchAction, SearchEvent,
    SearchFrame, StateStatus,
};
use solver_core::search::{complete_step, CompleteAction, CompleteEvent, CompletePhase, ExpectedCounts, ValidatedCounts};

#[test]
fn a_root_without_first_decisions_is_one_terminal_partition() {
    let parts = plan_root_partitions::<u32>(Vec::new()).unwrap();
    assert_eq!(parts.len(), 1);
    assert_eq!(parts[0].id, RootPartitionId(0));
    assert_eq!(parts[0].stable_key, vec![0]);
    assert!(parts[0].path.is_empty());
}

#[test]
fn root_partitions_are_ordered_by_key_and_keep_the_first_of_each_key() {
    let candidates = vec![
        (vec![1, 7], vec![30u32]),
        (vec![1, 2, 9], vec![10]),
        (vec![1, 7], vec![31]),
        (vec![1, 2], vec![20]),
    ];
    let parts = plan_root_partitions(candidates).unwrap();
    let keys: Vec<Vec<u8>> = parts.iter().map(|part| part.stable_key.clone()).collect();
    assert_eq!(keys, vec![vec![1, 2], vec![1, 2, 9], vec![1, 7]]);
    let paths: Vec<Vec<u32>> = parts.iter().map(|part| part.path.clone()).collect();
    assert_eq!(paths, vec![vec![20], vec![10], vec![30]]);
    let ids: Vec<RootPartitionId> = parts.iter().map(|part| part.id).collect();
    assert_eq!(ids, vec![RootPartitionId(0), RootPartitionId(1), RootPartitionId(2)]);
}


#[test]
fn the_leaf_with_most_decisions_is_refined_first_and_the_earliest_wins_ties() {
    assert_eq!(select_refinement_leaf(&vec![0, 3, 1, 3]), Some(1));
    assert_eq!(select_refinement_leaf(&vec![2, 0, 5]), Some(2));
    assert_eq!(select_refinement_leaf(&vec![0, 0]), None);
    assert_eq!(select_refinement_leaf(&Vec::new()), None);
}


fn leaf(key: &[u8], path: Vec<u32>, decisions: Vec<u32>) -> (Vec<u8>, RefinementLeaf<u32, u8>) {
    (key.to_vec(), RefinementLeaf { path, decisions, state: 0 })
}

#[test]
fn planning_the_same_candidates_twice_gives_the_same_plan() {
    let candidates = || vec![(vec![3u8], vec![1u32]), (vec![1], vec![2]), (vec![3], vec![4])];
    assert_eq!(plan_root_partitions(candidates()), plan_root_partitions(candidates()));
}

#[test]
fn ordering_by_key_keeps_the_first_item_of_each_key() {
    let ordered = order_by_key(vec![(vec![2u8], 'a'), (vec![1], 'b'), (vec![2], 'c'), (vec![], 'd')]);
    assert_eq!(ordered, vec![(vec![], 'd'), (vec![1], 'b'), (vec![2], 'a')]);
}

#[test]
fn a_parent_without_live_children_stays_as_a_dead_leaf() {
    let leaves = vec![leaf(&[1], vec![7], vec![8, 9]), leaf(&[2], vec![5], vec![6])];
    let next = refine_step(leaves, 0, Vec::new());
    assert_eq!(next.len(), 2);
    assert_eq!(next[0].0, vec![1]);
    assert_eq!(next[0].1.path, vec![7]);
    assert!(next[0].1.decisions.is_empty());
    assert_eq!(next[1].0, vec![2]);
    assert_eq!(next[1].1.decisions, vec![6]);
}

#[test]
fn children_replace_their_parent_in_key_order_without_repeated_keys() {
    let leaves = vec![leaf(&[1], vec![7], vec![8, 9]), leaf(&[4], vec![5], vec![6])];
    let children = vec![leaf(&[4], vec![7, 8], Vec::new()), leaf(&[0, 1], vec![7, 9], vec![3])];
    let next = refine_step(leaves, 0, children);
    let keys: Vec<Vec<u8>> = next.iter().map(|(key, _)| key.clone()).collect();
    assert_eq!(keys, vec![vec![0, 1], vec![4]]);
    assert_eq!(next[0].1.path, vec![7, 9]);
    assert_eq!(next[1].1.path, vec![5]);
}

fn keyed(key: Vec<u8>, decision: u32) -> DecisionOutcome<u32> {
    DecisionOutcome::Keyed { key, path: vec![decision] }
}

#[test]
fn a_complete_root_is_one_terminal_partition_whatever_its_decisions() {
    match plan_root_partitions_of(true, vec![keyed(vec![3], 1), DecisionOutcome::Cancelled]) {
        RootPlanning::Partitions(parts) => {
            assert_eq!(parts.len(), 1);
            assert_eq!(parts[0].stable_key, vec![0]);
            assert!(parts[0].path.is_empty());
        }
        _ => panic!("a complete root is one terminal partition"),
    }
}

#[test]
fn the_first_unkeyed_decision_decides_for_the_whole_root() {
    let outcomes = vec![
        keyed(vec![2], 1),
        DecisionOutcome::Refused("port already used".to_string()),
        DecisionOutcome::Cancelled,
    ];
    match plan_root_partitions_of(false, outcomes) {
        RootPlanning::Failed(ProfileSearchError::Topology(reason)) => assert_eq!(reason, "port already used"),
        _ => panic!("the refusal comes first"),
    }
    assert!(matches!(
        plan_root_partitions_of(false, vec![keyed(vec![2], 1), DecisionOutcome::Cancelled, DecisionOutcome::MissingLink]),
        RootPlanning::Cancelled
    ));
    assert!(matches!(
        plan_root_partitions_of(false, vec![DecisionOutcome::<u32>::MissingLink]),
        RootPlanning::Failed(ProfileSearchError::MissingAppliedLink)
    ));
}

#[test]
fn keyed_first_decisions_become_ordered_distinct_partitions() {
    let outcomes = vec![keyed(vec![5], 1), keyed(vec![1, 9], 2), keyed(vec![5], 3)];
    match plan_root_partitions_of(false, outcomes) {
        RootPlanning::Partitions(parts) => {
            assert_eq!(parts.len(), 2);
            assert_eq!((parts[0].id, parts[0].stable_key.clone(), parts[0].path.clone()), (RootPartitionId(0), vec![1, 9], vec![2]));
            assert_eq!((parts[1].id, parts[1].stable_key.clone(), parts[1].path.clone()), (RootPartitionId(1), vec![5], vec![1]));
        }
        _ => panic!("every decision was keyed"),
    }
    match plan_root_partitions_of::<u32>(false, Vec::new()) {
        RootPlanning::Partitions(parts) => assert_eq!(parts[0].stable_key, vec![0]),
        _ => panic!("a root with no decisions is terminal"),
    }
}

fn finish_of(action: SearchAction) -> (DfsResult, CacheUpdate) {
    match action {
        SearchAction::Finish { result, update } => (result, update),
        other => panic!("expected the frame to finish, got {other:?}"),
    }
}

#[test]
fn cached_states_answer_from_their_status() {
    assert_eq!(cached_outcome(StateStatus::InProgress), DfsResult::Failed(ProfileSearchError::ReentrantCanonicalState));
    assert_eq!(cached_outcome(StateStatus::ProvenDead), DfsResult::Exhausted(None));
    assert_eq!(cached_outcome(StateStatus::Exhausted), DfsResult::Exhausted(None));
    assert_eq!(cached_outcome(StateStatus::SatWitness(vec![4, 2])), DfsResult::Exhausted(Some(vec![4, 2])));
}

#[test]
fn folding_keeps_failures_then_stops_then_the_smallest_witness() {
    let failed = DfsResult::Failed(ProfileSearchError::MissingAppliedLink);
    assert_eq!(fold_result(failed.clone(), DfsResult::Incomplete), failed);
    assert_eq!(fold_result(DfsResult::Incomplete, failed.clone()), failed);
    assert_eq!(fold_result(DfsResult::Exhausted(Some(vec![1])), DfsResult::Incomplete), DfsResult::Incomplete);
    assert_eq!(
        fold_result(DfsResult::Exhausted(Some(vec![2, 1])), DfsResult::Exhausted(Some(vec![1, 9]))),
        DfsResult::Exhausted(Some(vec![1, 9]))
    );
    assert_eq!(
        fold_result(DfsResult::Exhausted(Some(vec![1])), DfsResult::Exhausted(None)),
        DfsResult::Exhausted(Some(vec![1]))
    );
}

#[test]
fn a_frame_prunes_past_the_link_count_and_answers_known_states_without_the_cache() {
    let (frame, action) = SearchFrame::start(Some(3));
    assert_eq!(action, SearchAction::TakeSnapshot);
    let (_, action) = search_step(frame.clone(), SearchEvent::Snapshot { operator_links: 4 });
    assert_eq!(finish_of(action), (DfsResult::Exhausted(None), CacheUpdate::Untouched));
    let (frame, action) = search_step(frame, SearchEvent::Snapshot { operator_links: 3 });
    assert_eq!(action, SearchAction::LookUpState);
    let (_, action) = search_step(frame.clone(), SearchEvent::Known(StateStatus::SatWitness(vec![7])));
    assert_eq!(finish_of(action), (DfsResult::Exhausted(Some(vec![7])), CacheUpdate::Untouched));
    let (_, action) = search_step(frame, SearchEvent::Unknown { complete: true });
    assert_eq!(action, SearchAction::EvaluateComplete);
}

#[test]
fn a_frame_searches_children_in_order_and_stops_at_the_first_unexhausted_one() {
    let (frame, _) = SearchFrame::start(None);
    let (frame, _) = search_step(frame, SearchEvent::Snapshot { operator_links: 9 });
    let (frame, action) = search_step(frame, SearchEvent::Unknown { complete: false });
    assert_eq!(action, SearchAction::ListDecisions);
    let (dead, action) = search_step(frame.clone(), SearchEvent::Decisions { count: 0 });
    assert_eq!(dead.phase, FramePhase::Done);
    assert_eq!(finish_of(action), (DfsResult::Exhausted(None), CacheUpdate::Settle(StateStatus::ProvenDead)));

    let (frame, action) = search_step(frame, SearchEvent::Decisions { count: 3 });
    assert_eq!(action, SearchAction::SearchChild(0));
    let (frame, action) = search_step(frame, SearchEvent::Child(DfsResult::Exhausted(Some(vec![5]))));
    assert_eq!(action, SearchAction::SearchChild(1));
    let (stopped, action) = search_step(frame.clone(), SearchEvent::Child(DfsResult::Incomplete));
    assert_eq!(stopped.phase, FramePhase::Done);
    assert_eq!(finish_of(action), (DfsResult::Incomplete, CacheUpdate::Forget));
    let (frame, action) = search_step(frame, SearchEvent::Child(DfsResult::Exhausted(Some(vec![3]))));
    assert_eq!(action, SearchAction::SearchChild(2));
    let (_, action) = search_step(frame, SearchEvent::Child(DfsResult::Exhausted(None)));
    assert_eq!(finish_of(action), (DfsResult::Exhausted(Some(vec![3])), CacheUpdate::SettleWitness));
}

#[test]
fn cancelling_an_entered_state_forgets_it() {
    let (frame, _) = SearchFrame::start(None);
    let (frame, _) = search_step(frame, SearchEvent::Snapshot { operator_links: 0 });
    let (frame, _) = search_step(frame, SearchEvent::Unknown { complete: false });
    let (_, action) = search_step(frame.clone(), SearchEvent::Cancelled);
    assert_eq!(finish_of(action), (DfsResult::Incomplete, CacheUpdate::Forget));
    let (frame, _) = search_step(frame, SearchEvent::Decisions { count: 1 });
    let (_, action) = search_step(frame, SearchEvent::Child(DfsResult::Exhausted(None)));
    assert_eq!(finish_of(action), (DfsResult::Exhausted(None), CacheUpdate::Settle(StateStatus::Exhausted)));
}

fn expected() -> ExpectedCounts {
    ExpectedCounts { nodes: 2, links: Some(1), physical_links: 5, discard_links: 0 }
}

#[test]
fn a_complete_topology_outside_the_link_group_or_rejected_is_dead() {
    let dead = CompleteAction::Finish {
        result: DfsResult::Exhausted(None),
        update: CacheUpdate::Settle(StateStatus::ProvenDead),
    };
    assert_eq!(complete_step(CompletePhase::Solving, expected(), CompleteEvent::Rejected).1, dead);
    assert_eq!(complete_step(CompletePhase::Solving, expected(), CompleteEvent::Solved { operator_links: 2 }).1, dead);
    assert_eq!(
        complete_step(CompletePhase::Solving, expected(), CompleteEvent::Solved { operator_links: 1 }),
        (CompletePhase::Canonicalizing, CompleteAction::Canonicalize)
    );
}

#[test]
fn a_validated_witness_settles_only_when_every_count_agrees() {
    let validating = CompletePhase::Validating { key: vec![9] };
    let good = ValidatedCounts { nodes: 2, links: 1, physical_links: 5, discard_links: 0 };
    assert_eq!(
        complete_step(validating.clone(), expected(), CompleteEvent::Validated(good)).1,
        CompleteAction::Finish { result: DfsResult::Exhausted(Some(vec![9])), update: CacheUpdate::SettleWitness }
    );
    let wrong_nodes = ValidatedCounts { nodes: 3, ..good };
    match complete_step(validating.clone(), expected(), CompleteEvent::Validated(wrong_nodes)).1 {
        CompleteAction::Finish {
            result: DfsResult::Failed(ProfileSearchError::ValidationCountMismatch { expected_nodes: 2, actual_nodes: 3, .. }),
            update: CacheUpdate::Forget,
        } => {}
        other => panic!("expected a count mismatch, got {other:?}"),
    }
    assert_eq!(
        complete_step(CompletePhase::Canonicalizing, expected(), CompleteEvent::Cancelled).1,
        CompleteAction::Finish { result: DfsResult::Incomplete, update: CacheUpdate::Forget }
    );
}
