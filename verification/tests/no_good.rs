use solver_core::no_good::{
    CanonicalNoGoodKey, ConflictCore, ConflictRule, NoGoodScope, ProofNodeId, ProvenanceNode,
    ProvenanceDag, ProvenanceRecorder, SolveLocalNoGoods, StructuralNoGoodStore,
};
use solver_core::topology::{DecisionId, StateKey};

fn key(decision_count: usize) -> CanonicalNoGoodKey {
    CanonicalNoGoodKey::new(decision_count, StateKey::new(vec![1, 0, 1])).unwrap()
}

#[test]
fn broad_conflict_core_is_sorted_deduplicated_and_stable() {
    let left = ConflictCore::from_active_decisions(
        NoGoodScope::SolveLocal,
        ConflictRule::ExactPropagation,
        vec![DecisionId(9), DecisionId(2), DecisionId(9)],
    );
    let right = ConflictCore::from_active_decisions(
        NoGoodScope::SolveLocal,
        ConflictRule::ExactPropagation,
        vec![DecisionId(2), DecisionId(9)],
    );
    assert_eq!(left, right);
    assert_eq!(left.decisions, vec![DecisionId(2), DecisionId(9)]);
    assert_eq!(
        left.provenance.nodes.last(),
        Some(&ProvenanceNode::Derived {
            rule: ConflictRule::ExactPropagation,
            parents: vec![ProofNodeId(0), ProofNodeId(1), ProofNodeId(2)],
        })
    );
}

#[test]
fn local_and_structural_stores_keep_their_proof_scopes_separate() {
    let mut local = SolveLocalNoGoods::default();
    local.learn(
        key(0),
        ConflictCore::from_active_decisions(NoGoodScope::SolveLocal, ConflictRule::ExactCapacity, vec![]),
    );
    let mut structural = StructuralNoGoodStore::default();
    assert!(local.contains(&key(0)));
    assert!(!structural.contains(&key(0)));
    structural.learn(
        key(0),
        ConflictCore::from_active_decisions(
            NoGoodScope::GlobalStructural,
            ConflictRule::ConnectivityImpossibility,
            vec![],
        ),
    );
    assert!(structural.contains(&key(0)));
}

#[test]
fn structural_learning_in_any_order_retains_the_same_minimum_proof() {
    for order in [[9_u64, 2, 7, 2], [2, 7, 9, 2], [7, 2, 2, 9]] {
        let mut store = StructuralNoGoodStore::default();
        for decision in order {
            store.learn(
                key(1),
                ConflictCore::from_active_decisions(
                    NoGoodScope::GlobalStructural,
                    ConflictRule::PortCompletionImpossibility,
                    vec![DecisionId(decision)],
                ),
            );
        }
        assert_eq!(store.len(), 1);
        assert_eq!(store.get(&key(1)).unwrap().core.decisions, vec![DecisionId(2)]);
    }
}

#[test]
fn recorder_extracts_only_the_reachable_parent_chain() {
    let mut recorder = ProvenanceRecorder::new(NoGoodScope::SolveLocal);
    let relevant = recorder.decision(DecisionId(3));
    let _unrelated = recorder.decision(DecisionId(8));
    let root = recorder.scope_root();
    let fact = recorder.derived(ConflictRule::ExactPropagation, vec![root, relevant]);
    let contradiction = recorder.derived(ConflictRule::ExactCapacity, vec![fact]);

    let proof = recorder.extract(contradiction);
    assert_eq!(proof.decisions(), vec![DecisionId(3)]);
    assert_eq!(proof.nodes.len(), 4);
    assert_eq!(
        proof.nodes[usize::try_from(proof.root.0).unwrap()],
        ProvenanceNode::Derived {
            rule: ConflictRule::ExactCapacity,
            parents: vec![ProofNodeId(2)],
        }
    );
}

#[test]
fn recorder_rollback_restores_node_ids_and_interning() {
    let mut recorder = ProvenanceRecorder::new(NoGoodScope::SolveLocal);
    let checkpoint = recorder.checkpoint();
    let first_decision = recorder.decision(DecisionId(11));
    let first_fact = recorder.derived(ConflictRule::ExactPropagation, vec![first_decision]);
    let first = recorder.extract(first_fact);

    recorder.rollback(checkpoint);
    let replayed_decision = recorder.decision(DecisionId(11));
    let replayed_fact = recorder.derived(ConflictRule::ExactPropagation, vec![replayed_decision]);
    assert_eq!(first_decision, replayed_decision);
    assert_eq!(first_fact, replayed_fact);
    assert_eq!(first, recorder.extract(replayed_fact));
}

#[test]
fn interning_returns_the_existing_identity() {
    let mut recorder = ProvenanceRecorder::new(NoGoodScope::GlobalStructural);
    let a = recorder.decision(DecisionId(5));
    let b = recorder.decision(DecisionId(5));
    assert_eq!(a, b);
    assert_eq!(recorder.checkpoint(), 2);
    let fact = recorder.derived(ConflictRule::ExactCapacity, vec![a, a, ProofNodeId(0)]);
    let same = recorder.derived(ConflictRule::ExactCapacity, vec![ProofNodeId(0), a]);
    assert_eq!(fact, same);
    assert_eq!(recorder.checkpoint(), 3);
}

#[test]
fn extraction_renumbers_parents_in_original_order() {
    let mut recorder = ProvenanceRecorder::new(NoGoodScope::SolveLocal);
    let unused = recorder.decision(DecisionId(1));
    let kept = recorder.decision(DecisionId(2));
    let fact = recorder.derived(ConflictRule::DynamicSccInconsistency, vec![kept]);
    let _ = unused;
    let proof = recorder.extract(fact);
    assert_eq!(
        proof.nodes,
        vec![
            ProvenanceNode::Decision(DecisionId(2)),
            ProvenanceNode::Derived {
                rule: ConflictRule::DynamicSccInconsistency,
                parents: vec![ProofNodeId(0)],
            },
        ]
    );
    assert_eq!(proof.root, ProofNodeId(1));
}

#[test]
fn core_from_provenance_recovers_exactly_its_decision_leaves() {
    let mut recorder = ProvenanceRecorder::new(NoGoodScope::SolveLocal);
    let root = recorder.scope_root();
    let seven = recorder.decision(DecisionId(7));
    let three = recorder.decision(DecisionId(3));
    let fact = recorder.derived(ConflictRule::ExactPropagation, vec![seven, root, three]);
    let core = ConflictCore::from_provenance(
        NoGoodScope::SolveLocal,
        ConflictRule::ExactPropagation,
        recorder.extract(fact),
    );
    assert_eq!(core.decisions, vec![DecisionId(3), DecisionId(7)]);
}

#[test]
fn keys_reject_counts_beyond_u32_and_report_their_parts() {
    assert!(CanonicalNoGoodKey::new(u32::MAX as usize + 1, StateKey::new(vec![])).is_none());
    let k = key(4);
    assert_eq!(k.decision_count(), 4);
    assert_eq!(k.state().as_bytes(), &[1, 0, 1]);
}

#[test]
fn decision_counts_are_sorted_unique_and_bounded() {
    let mut local = SolveLocalNoGoods::default();
    assert!(local.is_empty());
    for (count, byte) in [(3_usize, 1_u8), (1, 2), (3, 3), (5, 4)] {
        let decisions = (0..count as u64).map(DecisionId).collect::<Vec<_>>();
        local.learn(
            CanonicalNoGoodKey::new(count, StateKey::new(vec![byte])).unwrap(),
            ConflictCore::from_active_decisions(NoGoodScope::SolveLocal, ConflictRule::ExactPropagation, decisions),
        );
    }
    assert_eq!(local.len(), 4);
    assert_eq!(local.decision_counts_through(4), vec![1, 3]);
    assert_eq!(local.decision_counts_through(10), vec![1, 3, 5]);
    assert_eq!(local.decision_counts_through(0), Vec::<usize>::new());
}

#[test]
fn a_smaller_proof_replaces_a_stored_one_but_a_larger_does_not() {
    let mut local = SolveLocalNoGoods::default();
    let broad = ConflictCore::from_active_decisions(NoGoodScope::SolveLocal, ConflictRule::ExactCapacity, vec![DecisionId(4)]);
    let narrow = ConflictCore::from_active_decisions(NoGoodScope::SolveLocal, ConflictRule::ExactPropagation, vec![DecisionId(9)]);
    local.learn(key(1), broad.clone());
    local.learn(key(1), narrow.clone());
    local.learn(key(1), broad);
    assert_eq!(local.len(), 1);
    let mut structural = StructuralNoGoodStore::default();
    structural.learn(
        key(1),
        ConflictCore::from_active_decisions(NoGoodScope::GlobalStructural, ConflictRule::ExactCapacity, vec![DecisionId(1)]),
    );
    structural.learn(
        key(1),
        ConflictCore::from_active_decisions(NoGoodScope::GlobalStructural, ConflictRule::ExactPropagation, vec![DecisionId(8)]),
    );
    assert_eq!(structural.get(&key(1)).unwrap().core.rule, ConflictRule::ExactPropagation);
    assert_eq!(structural.decision_counts_through(1), vec![1]);
    assert!(!structural.is_empty());
}

#[test]
fn dag_decisions_are_only_those_the_root_reaches() {
    let dag = ProvenanceDag {
        nodes: vec![
            ProvenanceNode::ScopeAxiom(NoGoodScope::SolveLocal),
            ProvenanceNode::Decision(DecisionId(5)),
            ProvenanceNode::Decision(DecisionId(3)),
            ProvenanceNode::Derived {
                rule: ConflictRule::ExactPropagation,
                parents: vec![ProofNodeId(0), ProofNodeId(2)],
            },
        ],
        root: ProofNodeId(3),
    };
    assert_eq!(dag.decisions(), vec![DecisionId(3)]);
    let out_of_range = ProvenanceDag { nodes: dag.nodes.clone(), root: ProofNodeId(9) };
    assert!(out_of_range.decisions().is_empty());
}
