use solver_core::planner::roots::{refine_roots, AdaptiveLedger, ProofSummary, Root, RootLedger};
use solver_core::profile::{AccountedProfile, NodeProfile, ProfileLinkAccounting};

fn ledger() -> AdaptiveLedger {
    let roots = vec![Root { profile: 0, source: Some(0), second_source: None, impossible: false }];
    let mut ledger = AdaptiveLedger::new(&roots, 1);
    ledger.register_children(0, 3);
    ledger
}

#[test]
fn partial_children_never_exhaust_and_duplicate_children_fail() {
    let mut ledger = ledger();
    let mut proof = ProofSummary::default();
    ledger.finish(0, Some(0), &mut proof).unwrap();
    ledger.finish(0, Some(1), &mut proof).unwrap();
    assert!(!ledger.base().complete());
    assert_eq!(proof.root_partitions_exhausted, 0);
    assert!(ledger.finish(0, Some(1), &mut proof).is_err());
    assert!(ledger.finish(0, Some(9), &mut proof).is_err());
}

#[test]
fn parent_and_complete_children_are_alternative_proofs() {
    for parent_first in [true, false] {
        let mut ledger = ledger();
        let mut proof = ProofSummary::default();
        ledger.finish(0, Some(0), &mut proof).unwrap();
        if parent_first {
            ledger.finish(0, None, &mut proof).unwrap();
        }
        ledger.finish(0, Some(1), &mut proof).unwrap();
        ledger.finish(0, Some(2), &mut proof).unwrap();
        ledger.finish(0, None, &mut proof).unwrap();
        assert!(ledger.base().complete());
        assert_eq!(proof.profiles_exhausted, 1);
        assert_eq!(proof.root_partitions_exhausted, if parent_first { 1 } else { 3 });
        assert_eq!(ledger.committed(0, None), parent_first);
        assert_eq!(ledger.committed(0, Some(0)), !parent_first);
    }
}

#[test]
fn partial_roots_and_duplicate_completions_cannot_discharge_a_profile() {
    let roots = [
        Root { profile: 0, source: Some(0), second_source: None, impossible: false },
        Root { profile: 0, source: Some(1), second_source: None, impossible: false },
        Root { profile: 1, source: None, second_source: None, impossible: true },
    ];
    let mut ledger = RootLedger::new(&roots, 2);
    let mut proof = ProofSummary::default();
    ledger.finish(0, &mut proof).unwrap();
    assert_eq!(proof.profiles_exhausted, 0);
    assert!(!ledger.complete());
    assert!(ledger.finish(0, &mut proof).is_err());
    assert!(ledger.finish(3, &mut proof).is_err());
    assert_eq!(proof.root_partitions_exhausted, 1);
    ledger.finish(2, &mut proof).unwrap();
    assert_eq!(proof.profiles_exhausted, 1);
    assert!(!ledger.complete());
    ledger.finish(1, &mut proof).unwrap();
    assert_eq!(proof.profiles_exhausted, 2);
    assert_eq!(proof.root_partitions_exhausted, 3);
    assert!(ledger.complete());
}

#[test]
fn unregistered_children_and_unknown_parents_are_refused() {
    let roots = vec![Root { profile: 0, source: Some(0), second_source: None, impossible: false }];
    let mut ledger = AdaptiveLedger::new(&roots, 1);
    let mut proof = ProofSummary::default();
    assert!(ledger.finish(0, Some(0), &mut proof).is_err());
    assert!(ledger.finish(1, None, &mut proof).is_err());
    assert_eq!(ledger.child_count(0), 0);
    assert!(!ledger.is_decided(0));
    ledger.finish(0, None, &mut proof).unwrap();
    assert!(ledger.is_decided(0));
    // A decided parent ignores later reports.
    ledger.finish(0, None, &mut proof).unwrap();
    assert_eq!(proof.root_partitions_exhausted, 1);
    assert_eq!(proof.profiles_exhausted, 1);
}

fn task(splitter2: u32) -> AccountedProfile {
    AccountedProfile {
        profile: NodeProfile { splitter2, splitter3: 0, merger2: 0, merger3: 0 },
        accounting: ProfileLinkAccounting { link_count: 0, discard_link_count: 0, physical_link_count: 0 },
    }
}

#[test]
fn refinement_splits_live_roots_by_second_producer_and_sorts_stably() {
    let roots = vec![
        Root { profile: 0, source: Some(0), second_source: None, impossible: false },
        Root { profile: 1, source: None, second_source: None, impossible: false },
        Root { profile: 1, source: Some(1), second_source: None, impossible: true },
    ];
    let tasks = [task(1), task(0)];
    let refined = refine_roots(roots.clone(), &tasks, 1, 2, 4);
    assert_eq!(
        refined,
        vec![
            Root { profile: 1, source: None, second_source: None, impossible: false },
            Root { profile: 1, source: Some(1), second_source: None, impossible: true },
            Root { profile: 0, source: Some(0), second_source: Some(0), impossible: false },
            Root { profile: 0, source: Some(0), second_source: Some(1), impossible: false },
        ]
    );
    assert_eq!(refine_roots(roots.clone(), &tasks, 1, 1, 4), roots);
    assert_eq!(refine_roots(roots.clone(), &tasks, 1, 2, 1), roots);
    assert_eq!(refine_roots(roots.clone(), &tasks, 1, 2, 2), roots);
}
