use solver_core::encoding::{
    decode_links, encoding_edges, encoding_nodes, output_source_edge, plan_encoding, DecodedLink, EncodingEdge,
};
use solver_core::exact::BigNat;
use solver_core::problem::Rate;
use solver_core::profile::{profile_link_accountings, AccountedProfile, ProfileLinkAccounting};
use solver_core::profile::NodeProfile;
use solver_core::topology::{
    ConsumerPortRef, DiscardTerminalIndex, InputTerminalIndex, NodeId, NodeType, OutputTerminalIndex, ProducerPortRef,
};

fn edge(source: usize, target: usize, copy: u8) -> EncodingEdge {
    EncodingEdge { source, target, copy }
}

#[test]
fn nodes_follow_the_profile_fields_in_order() {
    let profile = NodeProfile { splitter2: 1, splitter3: 1, merger2: 0, merger3: 2 };
    assert_eq!(
        encoding_nodes(profile),
        vec![NodeType::Splitter2, NodeType::Splitter3, NodeType::Merger3, NodeType::Merger3]
    );
}

#[test]
fn candidate_belts_skip_self_loops_and_bound_parallel_copies() {
    let nodes = vec![NodeType::Splitter2];
    let edges = encoding_edges(&nodes, 1, 1, true);
    assert_eq!(edges, vec![edge(0, 0, 0), edge(0, 1, 0), edge(0, 2, 0), edge(1, 0, 0), edge(1, 2, 0), edge(1, 2, 1)]);
    assert_eq!(encoding_edges(&nodes, 1, 1, false), vec![edge(0, 0, 0), edge(0, 1, 0), edge(1, 0, 0)]);
    assert_eq!(output_source_edge(&edges, 0, 1), Some(3));
    assert_eq!(output_source_edge(&edges, 1, 1), None);
}

#[test]
fn a_model_numbers_ports_in_belt_order() {
    let nodes = vec![NodeType::Splitter2];
    let edges = encoding_edges(&nodes, 1, 1, true);
    let active = vec![false, true, false, true, false, true];
    let links = decode_links(&nodes, 1, 1, true, &edges, &active);
    assert_eq!(
        links,
        vec![
            DecodedLink {
                producer: ProducerPortRef::Input(InputTerminalIndex(0)),
                consumer: ConsumerPortRef::Node { node: NodeId(0), port: 0 },
            },
            DecodedLink {
                producer: ProducerPortRef::Node { node: NodeId(0), port: 0 },
                consumer: ConsumerPortRef::Output(OutputTerminalIndex(0)),
            },
            DecodedLink {
                producer: ProducerPortRef::Node { node: NodeId(0), port: 1 },
                consumer: ConsumerPortRef::Discard(DiscardTerminalIndex(0)),
            },
        ]
    );
}

#[test]
fn an_encoding_layout_counts_target_belts_and_direct_terminal_belts() {
    let task = AccountedProfile {
        profile: NodeProfile { splitter2: 1, ..NodeProfile::default() },
        accounting: ProfileLinkAccounting { link_count: 0, discard_link_count: 1, physical_link_count: 3 },
    };
    let plan = plan_encoding(1, 1, task).unwrap();
    assert_eq!(plan.nodes, vec![NodeType::Splitter2]);
    assert_eq!(plan.edges.len(), 6);
    assert_eq!(plan.counts, vec![1, 1, 1]);
    assert_eq!(plan.direct, Some(0));

    let short = AccountedProfile {
        profile: NodeProfile { merger2: 1, ..NodeProfile::default() },
        accounting: ProfileLinkAccounting { link_count: 0, discard_link_count: 0, physical_link_count: 2 },
    };
    let plan = plan_encoding(1, 1, short).unwrap();
    assert_eq!(plan.counts, vec![1, 2]);
    assert_eq!(plan.direct, None, "one input cannot feed both merger ports without an operator link");
}

fn whole(value: u32) -> Rate {
    Rate { negative: false, numerator: BigNat { digits: vec![value] }, denominator: BigNat { digits: vec![1] } }
}

#[test]
fn the_encoding_takes_every_physical_link_of_its_accounting() {
    for profile in [
        NodeProfile { splitter2: 1, ..NodeProfile::default() },
        NodeProfile { splitter3: 1, merger2: 1, ..NodeProfile::default() },
    ] {
        for accounting in profile_link_accountings(profile, 1, 1, &whole(1), &whole(1)).unwrap() {
            let plan = plan_encoding(1, 1, AccountedProfile { profile, accounting }).unwrap();
            let taken: u32 = plan.counts.iter().sum();
            assert_eq!(taken, accounting.physical_link_count);
        }
    }
}
