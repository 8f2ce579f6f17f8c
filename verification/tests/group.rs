use solver_core::failure::Failure;
use solver_core::leaf::{Completion, Counts, SolveMode};
use solver_core::planner::group::Group;
use solver_core::planner::roots::ProofSummary;
use solver_core::planner::LeafId;
use solver_core::profile::{AccountedProfile, AccountedProfileGroup, NodeProfile, ProfileLinkAccounting};

fn task(splitter2: u32) -> AccountedProfile {
    AccountedProfile {
        profile: NodeProfile { splitter2, splitter3: 0, merger2: 0, merger3: 0 },
        accounting: ProfileLinkAccounting { link_count: 3, discard_link_count: 0, physical_link_count: 5 },
    }
}

fn profiles(tasks: Vec<AccountedProfile>) -> AccountedProfileGroup {
    AccountedProfileGroup { link_count: 3, profiles: tasks }
}

fn id(index: usize) -> LeafId {
    LeafId { group: 7, index }
}

#[test]
fn single_worker_group_runs_each_profile_once_and_reports_its_cover() {
    let proof_before = ProofSummary { root_partitions_exhausted: 0, profiles_exhausted: 4 };
    let mut group = Group::new(
        7,
        2,
        profiles(vec![task(1), task(2)]),
        &[false, true],
        1,
        1,
        SolveMode::OneMinNL,
        1,
        Counts::Boolean,
        &proof_before,
    )
    .unwrap();
    let mut proof = proof_before;
    let first = group.dispatch();
    assert_eq!(first.len(), 1);
    assert_eq!(first[0].id, id(0));
    assert_eq!(first[0].root.source, None);
    assert_eq!(first[0].spec.profile, task(1));
    assert!(group.dispatch().is_empty());
    group.retire(id(0), Ok(Completion::Exhausted), false, &mut proof).unwrap();
    assert_eq!(proof.root_partitions_exhausted, 1);
    assert!(!group.profile_count_matches(&proof));
    let second = group.dispatch();
    assert_eq!(second.len(), 1);
    assert_eq!(second[0].id, id(1));
    assert!(second[0].root.impossible);
    assert!(!group.covered());
    group.retire(id(1), Ok(Completion::Exhausted), false, &mut proof).unwrap();
    assert!(group.covered());
    assert!(group.profile_count_matches(&proof));
    assert_eq!(proof.profiles_exhausted, 6);
    assert!(group.dispatch().is_empty());
    let evidence = group.evidence();
    assert_eq!((evidence.group, evidence.nodes, evidence.links), (7, 2, 3));
    assert!(!evidence.adaptive);
    assert!(evidence.jobs.iter().all(|job| job.committed && job.child_count == 0));
}

#[test]
fn shared_profiles_are_split_by_producer_in_descending_order() {
    let group_profiles = profiles(vec![task(2)]);
    let mut group = Group::new(
        1,
        2,
        group_profiles,
        &[false],
        1,
        1,
        SolveMode::AllMinN,
        8,
        Counts::Sparse,
        &ProofSummary::default(),
    )
    .unwrap();
    let sources: Vec<Option<usize>> = group.dispatch().iter().map(|task| task.root.source).collect();
    assert_eq!(sources, vec![Some(2), Some(1), Some(0)]);
    assert_eq!(group.active(), 3);
}

#[test]
fn producer_count_overflow_is_a_worker_failure() {
    let result = Group::new(
        0,
        1,
        profiles(vec![task(1)]),
        &[false],
        usize::MAX,
        1,
        SolveMode::OneMinNL,
        2,
        Counts::Boolean,
        &ProofSummary::default(),
    );
    assert!(matches!(result, Err(Failure::Worker(_))));
}

#[test]
fn stale_events_and_unexpected_outcomes_are_rejected() {
    let mut group = Group::new(
        7,
        1,
        profiles(vec![task(1)]),
        &[false],
        0,
        1,
        SolveMode::OneMinNL,
        1,
        Counts::Boolean,
        &ProofSummary::default(),
    )
    .unwrap();
    let mut proof = ProofSummary::default();
    assert!(group.require_running(id(0)).is_err());
    assert!(group.witness(id(0), 3).is_err());
    group.dispatch();
    assert!(group.require_running(LeafId { group: 8, index: 0 }).is_err());
    group.require_running(id(0)).unwrap();
    let early = group.retire(id(0), Ok(Completion::Optimum), false, &mut proof);
    assert!(matches!(early, Err(Failure::Worker(_))));
    assert!(group.retire(id(0), Ok(Completion::Exhausted), false, &mut proof).is_err());
    assert_eq!(proof, ProofSummary::default());
}

#[test]
fn a_witnessed_single_optimum_ends_the_group() {
    let mut group = Group::new(
        7,
        1,
        profiles(vec![task(1)]),
        &[false],
        0,
        1,
        SolveMode::OneMinNL,
        1,
        Counts::Boolean,
        &ProofSummary::default(),
    )
    .unwrap();
    let mut proof = ProofSummary::default();
    group.dispatch();
    group.witness(id(0), 12).unwrap();
    group.retire(id(0), Ok(Completion::Optimum), false, &mut proof).unwrap();
    assert!(group.optimum());
    assert_eq!(group.active(), 0);
    assert!(group.dispatch().is_empty());
}

#[test]
fn cancellation_is_accepted_only_while_stopping() {
    for stopping in [false, true] {
        let mut group = Group::new(
            7,
            1,
            profiles(vec![task(1)]),
            &[false],
            0,
            1,
            SolveMode::AllMinN,
            1,
            Counts::Boolean,
            &ProofSummary::default(),
        )
        .unwrap();
        let mut proof = ProofSummary::default();
        group.dispatch();
        let outcome = group.retire(id(0), Err(Failure::Cancelled), stopping, &mut proof);
        assert_eq!(outcome.is_ok(), stopping);
        let worker = group.retire(id(0), Err(Failure::Worker("lost".to_owned())), true, &mut proof);
        assert!(worker.is_err());
    }
}

#[test]
fn adaptive_roots_split_after_a_witness_and_children_follow_parents() {
    let mut group = Group::new(
        7,
        1,
        profiles(vec![task(1)]),
        &[false],
        1,
        2,
        SolveMode::AllMinNL,
        2,
        Counts::Boolean,
        &ProofSummary::default(),
    )
    .unwrap();
    let mut proof = ProofSummary::default();
    let parents = group.dispatch();
    assert_eq!(parents.len(), 2);
    assert!(parents.iter().all(|task| task.root.second_source.is_none()));
    group.witness(id(0), 5).unwrap();
    group.retire(id(0), Ok(Completion::Exhausted), false, &mut proof).unwrap();
    assert_eq!(proof.root_partitions_exhausted, 1);
    let children = group.dispatch();
    assert_eq!(children.len(), 1);
    assert_eq!(children[0].id, id(2));
    assert_eq!(children[0].root.source, parents[1].root.source);
    assert_eq!(children[0].root.second_source, Some(0));
    assert_eq!(group.job_count(), 4);
    let evidence = group.evidence();
    assert!(evidence.adaptive);
    assert!(evidence.jobs[0].committed);
    assert_eq!(evidence.jobs[2].trigger_ms, Some(5));
    assert_eq!(evidence.jobs[2].parent, 1);
    assert_eq!(evidence.jobs[2].child_count, 2);
    assert_eq!(evidence.jobs[0].child_count, 0);
}

#[test]
fn too_few_live_roots_are_refined_by_second_producer_up_front() {
    let mut group = Group::new(
        7,
        1,
        profiles(vec![task(1)]),
        &[false],
        1,
        2,
        SolveMode::AllMinNL,
        4,
        Counts::Boolean,
        &ProofSummary::default(),
    )
    .unwrap();
    let roots: Vec<(Option<usize>, Option<usize>)> =
        group.dispatch().iter().map(|task| (task.root.source, task.root.second_source)).collect();
    assert_eq!(
        roots,
        vec![(Some(1), Some(0)), (Some(0), Some(0)), (Some(1), Some(1)), (Some(0), Some(1))]
    );
}
