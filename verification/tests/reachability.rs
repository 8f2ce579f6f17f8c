use solver_core::profile::NodeProfile;
use solver_core::search::operator_link_count;
use solver_core::reachability::{
    analyze_partial_reachability, ReachabilityProof, ReachabilityVerdict,
};
use solver_core::topology::{
    ConsumerPortRef, DiscardTerminalIndex, InputTerminalIndex, NodeId, NodeType,
    OutputTerminalIndex, PartialLink, PartialTopology, PhysicalNode, ProducerPortRef,
};

fn partial(
    inputs: usize,
    outputs: usize,
    nodes: Vec<(u32, NodeType)>,
    links: Vec<(ProducerPortRef, ConsumerPortRef)>,
) -> PartialTopology {
    PartialTopology {
        input_count: inputs,
        output_count: outputs,
        discard_count: 0,
        nodes: nodes.into_iter().map(|(id, node_type)| PhysicalNode { id: NodeId(id), node_type }).collect(),
        links: links.into_iter().map(|(producer, consumer)| PartialLink { producer, consumer }).collect(),
        remaining_profile: NodeProfile::default(),
    }
}

fn producer(node: u32, port: u8) -> ProducerPortRef {
    ProducerPortRef::Node { node: NodeId(node), port }
}

fn consumer(node: u32, port: u8) -> ConsumerPortRef {
    ConsumerPortRef::Node { node: NodeId(node), port }
}

fn input(index: u32) -> ProducerPortRef {
    ProducerPortRef::Input(InputTerminalIndex(index))
}

fn output(index: u32) -> ConsumerPortRef {
    ConsumerPortRef::Output(OutputTerminalIndex(index))
}

fn discard(index: u32) -> ConsumerPortRef {
    ConsumerPortRef::Discard(DiscardTerminalIndex(index))
}

fn covered_parallel_topology() -> PartialTopology {
    partial(
        1,
        1,
        vec![(0, NodeType::Splitter2), (1, NodeType::Merger2)],
        vec![
            (input(0), consumer(0, 0)),
            (producer(0, 0), consumer(1, 0)),
            (producer(0, 1), consumer(1, 1)),
            (producer(1, 0), output(0)),
        ],
    )
}

fn disconnected_cycle_with_bypass() -> PartialTopology {
    partial(
        1,
        1,
        vec![(0, NodeType::Splitter2), (1, NodeType::Merger2)],
        vec![
            (input(0), output(0)),
            (producer(1, 0), consumer(0, 0)),
            (producer(0, 0), consumer(1, 0)),
            (producer(0, 1), consumer(1, 1)),
        ],
    )
}

#[test]
fn complete_parallel_links_are_all_on_input_output_paths() {
    let analysis = analyze_partial_reachability(&covered_parallel_topology());
    assert_eq!(analysis.verdict, ReachabilityVerdict::CompleteCoverage);
    assert!(analysis.structurally_complete);
    assert_eq!(analysis.source_reachable_nodes, vec![NodeId(0), NodeId(1)]);
    assert_eq!(analysis.output_reachable_nodes, vec![NodeId(0), NodeId(1)]);
    assert_eq!(analysis.input_output_path_link_count, 4);
}

#[test]
fn direct_discard_bypass_is_a_terminal_path() {
    let mut topology = partial(2, 1, Vec::new(), vec![(input(0), output(0)), (input(1), discard(0))]);
    topology.discard_count = 1;
    let analysis = analyze_partial_reachability(&topology);
    assert_eq!(analysis.verdict, ReachabilityVerdict::CompleteCoverage);
    assert!(analysis.structurally_complete);
    assert_eq!(analysis.input_output_path_link_count, 2);
}

#[test]
fn direct_bypass_does_not_hide_a_completed_dead_cycle() {
    let analysis = analyze_partial_reachability(&disconnected_cycle_with_bypass());
    assert_eq!(analysis.input_output_path_link_count, 1);
    assert_eq!(
        analysis.verdict,
        ReachabilityVerdict::ProvenDead(ReachabilityProof::CompletedUnreachableFromInput {
            region: vec![NodeId(0), NodeId(1)],
        },)
    );
}

#[test]
fn live_feedback_cycle_has_complete_coverage() {
    let topology = partial(
        1,
        1,
        vec![(0, NodeType::Merger2), (1, NodeType::Splitter2)],
        vec![
            (input(0), consumer(0, 0)),
            (producer(0, 0), consumer(1, 0)),
            (producer(1, 0), consumer(0, 1)),
            (producer(1, 1), output(0)),
        ],
    );
    let analysis = analyze_partial_reachability(&topology);
    assert_eq!(analysis.verdict, ReachabilityVerdict::CompleteCoverage);
    assert_eq!(analysis.input_output_path_link_count, topology.links.len());
}

#[test]
fn open_cycle_boundary_prevents_speculative_pruning_then_closure_proves_death() {
    let mut topology = partial(
        1,
        1,
        vec![(0, NodeType::Splitter2), (1, NodeType::Merger2)],
        vec![(producer(1, 0), consumer(0, 0)), (producer(0, 0), consumer(1, 0))],
    );
    assert_eq!(analyze_partial_reachability(&topology).verdict, ReachabilityVerdict::Open);

    topology.links.push(PartialLink { producer: producer(0, 1), consumer: consumer(1, 1) });
    assert_eq!(
        analyze_partial_reachability(&topology).verdict,
        ReachabilityVerdict::ProvenDead(ReachabilityProof::ForwardClosedNoIngress {
            region: vec![NodeId(0), NodeId(1)],
        })
    );
}

fn backward_closed_fixture(ids: [u32; 2], reverse_links: bool) -> PartialTopology {
    let left = ids[0];
    let right = ids[1];
    let mut topology = partial(
        4,
        2,
        vec![(left, NodeType::Merger2), (right, NodeType::Merger2)],
        vec![
            (input(0), output(0)),
            (input(1), consumer(left, 0)),
            (input(2), consumer(right, 0)),
            (producer(left, 0), consumer(right, 1)),
            (producer(right, 0), consumer(left, 1)),
        ],
    );
    if reverse_links {
        topology.links.reverse();
    }
    topology
}

#[test]
fn source_reachable_region_with_no_possible_egress_is_proven_dead() {
    let analysis = analyze_partial_reachability(&backward_closed_fixture([0, 1], false));
    assert_eq!(analysis.source_reachable_nodes.len(), 2);
    assert!(analysis.output_reachable_nodes.is_empty());
    assert_eq!(
        analysis.verdict,
        ReachabilityVerdict::ProvenDead(ReachabilityProof::BackwardClosedNoEgress {
            region: vec![NodeId(0), NodeId(1)],
        })
    );
}

#[test]
fn verdict_survives_node_relabeling_and_link_storage_reversal() {
    let left = analyze_partial_reachability(&backward_closed_fixture([0, 1], false));
    let right = analyze_partial_reachability(&backward_closed_fixture([8, 3], true));
    let ReachabilityVerdict::ProvenDead(left_proof) = left.verdict else {
        panic!("left fixture must be proven dead");
    };
    let ReachabilityVerdict::ProvenDead(right_proof) = right.verdict else {
        panic!("right fixture must be proven dead");
    };
    assert!(matches!(left_proof, ReachabilityProof::BackwardClosedNoEgress { .. }));
    assert!(matches!(right_proof, ReachabilityProof::BackwardClosedNoEgress { .. }));
    assert_eq!(left_proof.region().len(), right_proof.region().len());
    assert_eq!(left.input_output_path_link_count, right.input_output_path_link_count);
}

#[test]
fn remaining_inventory_suppresses_even_a_closed_region_proof() {
    let mut topology = disconnected_cycle_with_bypass();
    topology.remaining_profile.splitter2 = 1;
    let analysis = analyze_partial_reachability(&topology);
    assert_eq!(analysis.verdict, ReachabilityVerdict::Open);
    assert_eq!(analysis.potentially_source_reachable_nodes.len(), topology.nodes.len());
    assert_eq!(analysis.potentially_output_reachable_nodes.len(), topology.nodes.len());
}

#[test]
fn malformed_snapshots_stay_open() {
    let mut duplicated = covered_parallel_topology();
    duplicated.nodes.push(PhysicalNode { id: NodeId(0), node_type: NodeType::Splitter2 });
    assert_eq!(analyze_partial_reachability(&duplicated).verdict, ReachabilityVerdict::Open);

    let mut reused = disconnected_cycle_with_bypass();
    reused.links.push(PartialLink { producer: input(0), consumer: output(0) });
    let analysis = analyze_partial_reachability(&reused);
    assert_eq!(analysis.verdict, ReachabilityVerdict::Open);
    assert!(!analysis.structurally_complete);

    let mut self_link = covered_parallel_topology();
    self_link.links[1] = PartialLink { producer: producer(0, 0), consumer: consumer(0, 0) };
    assert_eq!(analyze_partial_reachability(&self_link).verdict, ReachabilityVerdict::Open);

    let no_outputs = partial(1, 0, Vec::new(), Vec::new());
    assert_eq!(analyze_partial_reachability(&no_outputs).verdict, ReachabilityVerdict::Open);
}

#[test]
fn a_partial_node_with_open_ports_is_potentially_reachable() {
    let topology = partial(1, 1, vec![(4, NodeType::Splitter3)], vec![(input(0), consumer(4, 0))]);
    let analysis = analyze_partial_reachability(&topology);
    assert_eq!(analysis.verdict, ReachabilityVerdict::Open);
    assert!(!analysis.structurally_complete);
    assert_eq!(analysis.source_reachable_nodes, vec![NodeId(4)]);
    assert!(analysis.output_reachable_nodes.is_empty());
    assert_eq!(analysis.potentially_output_reachable_nodes, vec![NodeId(4)]);
    assert_eq!(analysis.input_output_path_link_count, 0);
}

#[test]
fn operator_links_count_only_node_to_node_links() {
    assert_eq!(operator_link_count(&covered_parallel_topology()), 2);
    assert_eq!(operator_link_count(&disconnected_cycle_with_bypass()), 3);
    assert_eq!(operator_link_count(&partial(1, 1, Vec::new(), vec![(input(0), output(0))])), 0);
}

#[test]
fn a_dead_region_stays_dead_in_every_completion() {
    let mut dead = partial(
        1,
        1,
        vec![(0, NodeType::Splitter3), (1, NodeType::Merger2)],
        vec![
            (input(0), output(0)),
            (producer(1, 0), consumer(0, 0)),
            (producer(0, 0), consumer(1, 0)),
            (producer(0, 1), consumer(1, 1)),
        ],
    );
    dead.discard_count = 1;
    let analysis = analyze_partial_reachability(&dead);
    assert_eq!(
        analysis.verdict,
        ReachabilityVerdict::ProvenDead(ReachabilityProof::ForwardClosedNoIngress {
            region: vec![NodeId(0), NodeId(1)],
        })
    );
    let mut completed = dead.clone();
    completed.links.push(PartialLink { producer: producer(0, 2), consumer: discard(0) });
    let completion = analyze_partial_reachability(&completed);
    assert!(completion.structurally_complete);
    assert_ne!(completion.verdict, ReachabilityVerdict::CompleteCoverage);
    assert_eq!(
        completion.verdict,
        ReachabilityVerdict::ProvenDead(ReachabilityProof::CompletedUnreachableFromInput {
            region: vec![NodeId(0), NodeId(1)],
        })
    );
}
