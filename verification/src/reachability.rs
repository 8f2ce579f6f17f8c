//! Conservative exact reachability proofs for partial physical topologies.
//! Malformed snapshots stay open, so this pruning oracle never turns a
//! representation defect into an impossibility claim.

use vstd::prelude::*;

use crate::no_good::{count_unmarked, lemma_mark_decreases};
use crate::sorted::{RankedId, sorted_unique, strictly_increasing};
use crate::topology::{
    ConsumerPortRef, DiscardTerminalIndex, InputTerminalIndex, NodeId, NodeType,
    OutputTerminalIndex, PartialLink, PartialTopology, PhysicalNode, ProducerPortRef,
};

verus! {

/// Every successor of a member of `members` is a member too.
pub open spec fn closed_under_edges(adjacency: Seq<Vec<usize>>, members: Set<int>) -> bool {
    forall|i: int, k: int|
        #![trigger members.contains(i), adjacency[i]@[k]]
        members.contains(i) && 0 <= i < adjacency.len() && 0 <= k < adjacency[i]@.len()
            ==> members.contains(adjacency[i]@[k] as int)
}

/// Every edge-closed set that holds all roots holds `i`: some path from a root reaches it.
pub open spec fn spreads_to(adjacency: Seq<Vec<usize>>, roots: Seq<bool>, i: int) -> bool {
    forall|members: Set<int>|
        #[trigger] closed_under_edges(adjacency, members) && (forall|r: int|
            0 <= r < roots.len() && roots[r] ==> members.contains(r)) ==> members.contains(i)
}

/// Marks every node that a path from a root reaches.
pub fn spread(adjacency: &Vec<Vec<usize>>, roots: &Vec<bool>) -> (reached: Vec<bool>)
    requires
        adjacency@.len() == roots@.len(),
        forall|i: int, k: int|
            0 <= i < adjacency@.len() && 0 <= k < adjacency@[i]@.len() ==> adjacency@[i]@[k]
                < adjacency@.len(),
    ensures
        reached@.len() == roots@.len(),
        forall|i: int| 0 <= i < reached@.len() ==> (reached@[i] <==> spreads_to(adjacency@, roots@, i)),
{
    let n = roots.len();
    let ghost adj = adjacency@;
    let mut reached: Vec<bool> = Vec::new();
    let mut pending: std::collections::VecDeque<usize> = std::collections::VecDeque::new();
    let mut index: usize = 0;
    while index < n
        invariant
            n == roots@.len(),
            index <= n,
            reached@ == roots@.subrange(0, index as int),
            forall|k: int| 0 <= k < pending@.len() ==> pending@[k] < index && reached@[pending@[k] as int],
            forall|i: int| 0 <= i < index && reached@[i] ==> pending@.contains(i as usize),
            forall|a: int, b: int| 0 <= a < b < pending@.len() ==> pending@[a] != pending@[b],
            forall|a: int, b: int| 0 <= a < b < pending@.len() ==> pending@[a] < pending@[b],
        decreases n - index,
    {
        let ghost queued = pending@;
        let ghost marks = reached@;
        reached.push(roots[index]);
        if roots[index] {
            pending.push_back(index);
        }
        proof {
            assert(reached@ =~= roots@.subrange(0, index + 1));
            assert forall|i: int| 0 <= i < index + 1 && reached@[i] implies pending@.contains(i as usize) by {
                if i == index {
                    assert(pending@[pending@.len() - 1] == index);
                } else {
                    assert(marks[i]);
                    assert(queued.contains(i as usize));
                    let k = choose|k: int| 0 <= k < queued.len() && queued[k] == i as usize;
                    assert(pending@[k] == i as usize);
                }
            }
        }
        index = index + 1;
    }
    assert(reached@ =~= roots@);
    while pending.len() > 0
        invariant
            n == roots@.len(),
            adj == adjacency@,
            adj.len() == n,
            forall|i: int, k: int|
                0 <= i < adj.len() && 0 <= k < adj[i]@.len() ==> adj[i]@[k] < adj.len(),
            reached@.len() == n,
            forall|r: int| 0 <= r < n && roots@[r] ==> reached@[r],
            forall|k: int| 0 <= k < pending@.len() ==> pending@[k] < n && reached@[pending@[k] as int],
            forall|a: int, b: int| 0 <= a < b < pending@.len() ==> pending@[a] != pending@[b],
            forall|i: int| 0 <= i < n && #[trigger] reached@[i] ==> spreads_to(adj, roots@, i),
            forall|i: int, k: int|
                #![trigger reached@[i], adj[i]@[k]]
                0 <= i < n && reached@[i] && !pending@.contains(i as usize) && 0 <= k < adj[i]@.len()
                    ==> reached@[adj[i]@[k] as int],
        decreases count_unmarked(reached@), pending@.len(),
    {
        let ghost before = pending@;
        let node = match pending.pop_front() {
            Some(node) => node,
            None => {
                assert(false);
                0
            },
        };
        let ghost after_pop = pending@;
        let ghost marks_after_pop = reached@;
        let successors = &adjacency[node];
        let mut k: usize = 0;
        while k < successors.len()
            invariant
                n == roots@.len(),
                adj == adjacency@,
                adj.len() == n,
                node < n,
                *successors == adj[node as int],
                forall|i: int, j: int|
                    0 <= i < adj.len() && 0 <= j < adj[i]@.len() ==> adj[i]@[j] < adj.len(),
                reached@.len() == n,
                reached@[node as int],
                spreads_to(adj, roots@, node as int),
                k <= successors@.len(),
                count_unmarked(reached@) + (pending@.len() - after_pop.len()) == count_unmarked(marks_after_pop),
                forall|i: int| 0 <= i < n && reached@[i] && !marks_after_pop[i] ==> pending@.contains(i as usize),
                forall|r: int| 0 <= r < n && roots@[r] ==> reached@[r],
                forall|i: int| 0 <= i < n && marks_after_pop[i] ==> reached@[i],
                forall|m: int| 0 <= m < pending@.len() ==> pending@[m] < n && reached@[pending@[m] as int],
                forall|a: int, b: int| 0 <= a < b < pending@.len() ==> pending@[a] != pending@[b],
                pending@.subrange(0, after_pop.len() as int) == after_pop,
                after_pop.len() <= pending@.len(),
                forall|m: int| after_pop.len() <= m < pending@.len() ==> !marks_after_pop[pending@[m] as int],
                forall|i: int| 0 <= i < n && #[trigger] reached@[i] ==> spreads_to(adj, roots@, i),
                forall|j: int| 0 <= j < k ==> reached@[successors@[j] as int],
                !pending@.contains(node),
            decreases successors@.len() - k,
        {
            let next = successors[k];
            if !reached[next] {
                let ghost marks = reached@;
                reached.set(next, true);
                proof {
                    lemma_mark_decreases(marks, next as int);
                    assert forall|members: Set<int>|
                        #[trigger] closed_under_edges(adj, members) && (forall|r: int|
                            0 <= r < roots@.len() && roots@[r] ==> members.contains(r))
                            implies members.contains(next as int) by {
                        assert(members.contains(node as int));
                        assert(adj[node as int]@[k as int] == next);
                    }
                }
                let ghost queued = pending@;
                pending.push_back(next);
                proof {
                    assert forall|i: int| 0 <= i < n && reached@[i] && !marks_after_pop[i] implies pending@.contains(i as usize) by {
                        if i == next as int {
                            assert(pending@[pending@.len() - 1] == next);
                        } else {
                            assert(marks[i]);
                            let m = choose|m: int| 0 <= m < queued.len() && queued[m] == i as usize;
                            assert(pending@[m] == i as usize);
                        }
                    }
                    assert forall|a: int, b: int| 0 <= a < b < pending@.len() implies pending@[a] != pending@[b] by {
                        if b == queued.len() {
                            assert(marks[queued[a] as int]);
                        }
                    }
                    assert(pending@.subrange(0, after_pop.len() as int) =~= queued.subrange(0, after_pop.len() as int));
                    if pending@.contains(node) {
                        let m = choose|m: int| 0 <= m < pending@.len() && pending@[m] == node;
                        assert(m < queued.len());
                        assert(queued.contains(node));
                    }
                }
            }
            k = k + 1;
        }
        proof {
            assert forall|i: int, j: int|
                0 <= i < n && reached@[i] && !pending@.contains(i as usize) && 0 <= j < adj[i]@.len()
                implies reached@[adj[i]@[j] as int] by {
                if i == node as int {
                    assert(successors@[j] == adj[i]@[j]);
                } else if marks_after_pop[i] {
                    if !before.contains(i as usize) {
                        assert(marks_after_pop[adj[i]@[j] as int]);
                    } else {
                        let m = choose|m: int| 0 <= m < before.len() && before[m] == i as usize;
                        assert(m > 0);
                        assert(after_pop[m - 1] == i as usize);
                        assert(pending@[m - 1] == i as usize);
                    }
                } else {
                    assert(pending@.contains(i as usize));
                }
            }
            assert forall|r: int| 0 <= r < n && roots@[r] implies reached@[r] by {}
        }
    }
    proof {
        let members = Set::new(|i: int| 0 <= i < n && reached@[i]);
        assert(closed_under_edges(adj, members)) by {
            assert forall|i: int, k: int|
                members.contains(i) && 0 <= i < adj.len() && 0 <= k < adj[i]@.len()
                implies members.contains(adj[i]@[k] as int) by {
                assert(!pending@.contains(i as usize));
            }
        }
        assert forall|i: int| 0 <= i < n && spreads_to(adj, roots@, i) implies reached@[i] by {
            assert(forall|r: int| 0 <= r < roots@.len() && roots@[r] ==> members.contains(r));
            assert(members.contains(i));
        }
    }
    reached
}

/// The type of node `id`: its last declaration, if any.
pub open spec fn declared_type(nodes: Seq<PhysicalNode>, id: NodeId) -> Option<NodeType>
    decreases nodes.len(),
{
    if nodes.len() == 0 {
        None
    } else if nodes.last().id == id {
        Some(nodes.last().node_type)
    } else {
        declared_type(nodes.drop_last(), id)
    }
}

/// Two node declarations share an identifier.
pub open spec fn repeated_id(nodes: Seq<PhysicalNode>) -> bool {
    exists|i: int, j: int| 0 <= i < j < nodes.len() && nodes[i].id == nodes[j].id
}

/// `p` is a producer port of the topology: an input terminal or an output
/// port of a materialized node.
pub open spec fn producer_declared(t: PartialTopology, p: ProducerPortRef) -> bool {
    match p {
        ProducerPortRef::Input(i) => i.0 < t.input_count,
        ProducerPortRef::Node { node, port } => declared_type(t.nodes@, node) matches Some(ty)
            && port < ty.outputs_of(),
    }
}

/// `c` is a consumer port of the topology: a requested output, a discard
/// terminal or an input port of a materialized node.
pub open spec fn consumer_declared(t: PartialTopology, c: ConsumerPortRef) -> bool {
    match c {
        ConsumerPortRef::Output(o) => o.0 < t.output_count,
        ConsumerPortRef::Discard(d) => d.0 < t.discard_count,
        ConsumerPortRef::Node { node, port } => declared_type(t.nodes@, node) matches Some(ty)
            && port < ty.inputs_of(),
    }
}

/// What scanning the links in order establishes: occupied ports, whether a
/// link was refused, and the graph the accepted links draw.
pub struct LinkScan {
    pub producers: Set<ProducerPortRef>,
    pub consumers: Set<ConsumerPortRef>,
    pub malformed: bool,
    pub sources: Set<NodeId>,
    pub sinks: Set<NodeId>,
    pub edges: Set<(NodeId, NodeId)>,
}

/// Scans one more link. Undeclared or reused ports and self-links are
/// refused; a reused consumer still occupies the link's producer, and a
/// self-link still occupies both ports.
pub open spec fn scan_link(t: PartialTopology, s: LinkScan, link: PartialLink) -> LinkScan {
    if !producer_declared(t, link.producer) || !consumer_declared(t, link.consumer) {
        LinkScan { malformed: true, ..s }
    } else if s.producers.contains(link.producer) {
        LinkScan { malformed: true, ..s }
    } else if s.consumers.contains(link.consumer) {
        LinkScan { producers: s.producers.insert(link.producer), malformed: true, ..s }
    } else {
        let occupied = LinkScan {
            producers: s.producers.insert(link.producer),
            consumers: s.consumers.insert(link.consumer),
            ..s
        };
        match (link.producer, link.consumer) {
            (ProducerPortRef::Node { node: a, .. }, ConsumerPortRef::Node { node: b, .. }) => if a
                == b {
                LinkScan { malformed: true, ..occupied }
            } else {
                LinkScan { edges: occupied.edges.insert((a, b)), ..occupied }
            },
            (ProducerPortRef::Input(_), ConsumerPortRef::Node { node, .. }) => LinkScan {
                sources: occupied.sources.insert(node),
                ..occupied
            },
            (ProducerPortRef::Node { node, .. }, _) => LinkScan {
                sinks: occupied.sinks.insert(node),
                ..occupied
            },
            (ProducerPortRef::Input(_), _) => occupied,
        }
    }
}

/// Scans `links` in order.
pub open spec fn scan_links(t: PartialTopology, links: Seq<PartialLink>) -> LinkScan
    decreases links.len(),
{
    if links.len() == 0 {
        LinkScan {
            producers: Set::empty(),
            consumers: Set::empty(),
            malformed: false,
            sources: Set::empty(),
            sinks: Set::empty(),
            edges: Set::empty(),
        }
    } else {
        scan_link(t, scan_links(t, links.drop_last()), links.last())
    }
}

/// The scan of all links of `t`.
pub open spec fn scan_of(t: PartialTopology) -> LinkScan {
    scan_links(t, t.links@)
}

/// No profile node remains to be placed.
pub open spec fn remaining_empty(t: PartialTopology) -> bool {
    t.remaining_profile.splitter2 == 0 && t.remaining_profile.splitter3 == 0
        && t.remaining_profile.merger2 == 0 && t.remaining_profile.merger3 == 0
}

/// The snapshot is well formed: it has terminals on both sides that `u32`
/// indexes, distinct node identifiers, and every link was accepted.
pub open spec fn graph_well_formed(t: PartialTopology) -> bool {
    &&& t.input_count > 0
    &&& t.output_count > 0
    &&& t.input_count <= 0x1_0000_0000
    &&& t.output_count <= 0x1_0000_0000
    &&& !repeated_id(t.nodes@)
    &&& !scan_of(t).malformed
}

/// Every profile node is placed and every declared port is occupied once.
pub open spec fn structurally_complete(t: PartialTopology) -> bool {
    &&& graph_well_formed(t)
    &&& remaining_empty(t)
    &&& forall|p: ProducerPortRef| #[trigger] producer_declared(t, p) ==> scan_of(t).producers.contains(p)
    &&& forall|c: ConsumerPortRef| #[trigger] consumer_declared(t, c) ==> scan_of(t).consumers.contains(c)
}

/// Every `edge` from a member leads to a member.
pub open spec fn edge_closed(edge: spec_fn(NodeId, NodeId) -> bool, members: Set<NodeId>) -> bool {
    forall|a: NodeId, b: NodeId| #[trigger] edge(a, b) && members.contains(a) ==> members.contains(b)
}

/// Every root is a member.
pub open spec fn holds_roots(root: spec_fn(NodeId) -> bool, members: Set<NodeId>) -> bool {
    forall|r: NodeId| #[trigger] root(r) ==> members.contains(r)
}

/// Some walk along `edge` from a root reaches `id`: every edge-closed set
/// holding the roots holds it.
pub open spec fn reached(edge: spec_fn(NodeId, NodeId) -> bool, root: spec_fn(NodeId) -> bool, id: NodeId) -> bool {
    forall|members: Set<NodeId>| #[trigger] edge_closed(edge, members) && holds_roots(root, members) ==> members.contains(id)
}

/// Links of the scan, forward.
pub open spec fn forward(s: LinkScan) -> spec_fn(NodeId, NodeId) -> bool {
    |a: NodeId, b: NodeId| s.edges.contains((a, b))
}

/// Links of the scan, backward.
pub open spec fn backward(s: LinkScan) -> spec_fn(NodeId, NodeId) -> bool {
    |a: NodeId, b: NodeId| s.edges.contains((b, a))
}

/// A node reached from an external input along existing links.
pub open spec fn source_reached(t: PartialTopology, id: NodeId) -> bool {
    reached(forward(scan_of(t)), |r: NodeId| scan_of(t).sources.contains(r), id)
}

/// A node that reaches a requested output or discard along existing links.
pub open spec fn output_reached(t: PartialTopology, id: NodeId) -> bool {
    reached(backward(scan_of(t)), |r: NodeId| scan_of(t).sinks.contains(r), id)
}

/// A materialized node with an unoccupied consumer port.
pub open spec fn open_consumer(t: PartialTopology, id: NodeId) -> bool {
    declared_type(t.nodes@, id) matches Some(ty) && exists|port: u8|
        port < ty.inputs_of() && !(#[trigger] scan_of(t).consumers.contains(
            ConsumerPortRef::Node { node: id, port },
        ))
}

/// A materialized node with an unoccupied producer port.
pub open spec fn open_producer(t: PartialTopology, id: NodeId) -> bool {
    declared_type(t.nodes@, id) matches Some(ty) && exists|port: u8|
        port < ty.outputs_of() && !(#[trigger] scan_of(t).producers.contains(
            ProducerPortRef::Node { node: id, port },
        ))
}

/// Potential reachability is not analyzed while the snapshot is malformed
/// or profile nodes remain.
pub open spec fn suppressed(t: PartialTopology) -> bool {
    !graph_well_formed(t) || !remaining_empty(t)
}

/// A node already reached from an input, or that may still gain ingress
/// through an open consumer port.
pub open spec fn potential_source(t: PartialTopology, id: NodeId) -> bool {
    suppressed(t) || reached(
        forward(scan_of(t)),
        |r: NodeId| scan_of(t).sources.contains(r) || open_consumer(t, r),
        id,
    )
}

/// A node already reaching a sink, or that may still gain egress through an
/// open producer port.
pub open spec fn potential_output(t: PartialTopology, id: NodeId) -> bool {
    suppressed(t) || reached(
        backward(scan_of(t)),
        |r: NodeId| scan_of(t).sinks.contains(r) || open_producer(t, r),
        id,
    )
}

/// A link lying on an input-to-sink walk: its producer is an input or
/// source-reached, its consumer a terminal or output-reaching.
pub open spec fn on_terminal_path(t: PartialTopology, link: PartialLink) -> bool {
    &&& match link.producer {
        ProducerPortRef::Input(_) => true,
        ProducerPortRef::Node { node, .. } => declared_type(t.nodes@, node) is Some
            && source_reached(t, node),
    }
    &&& match link.consumer {
        ConsumerPortRef::Node { node, .. } => declared_type(t.nodes@, node) is Some
            && output_reached(t, node),
        _ => true,
    }
}

/// Number of links of `links` on input-to-sink walks.
pub open spec fn path_count(t: PartialTopology, links: Seq<PartialLink>) -> nat
    decreases links.len(),
{
    if links.len() == 0 {
        0
    } else {
        path_count(t, links.drop_last()) + if on_terminal_path(t, links.last()) {
            1nat
        } else {
            0nat
        }
    }
}

/// `list` holds, in ascending order, exactly the materialized nodes of `t`
/// that satisfy `pred`.
pub open spec fn lists(t: PartialTopology, list: Seq<NodeId>, pred: spec_fn(NodeId) -> bool) -> bool {
    &&& forall|a: int, b: int| 0 <= a < b < list.len() ==> (#[trigger] list[a]).0 < (#[trigger] list[b]).0
    &&& forall|id: NodeId| #[trigger] list.contains(id) <==> declared_type(t.nodes@, id) is Some && pred(id)
}

proof fn lemma_declared_type(nodes: Seq<PhysicalNode>, id: NodeId)
    ensures
        declared_type(nodes, id) is Some <==> exists|i: int| 0 <= i < nodes.len() && (#[trigger] nodes[i]).id == id,
    decreases nodes.len(),
{
    if nodes.len() > 0 {
        let prefix = nodes.drop_last();
        lemma_declared_type(prefix, id);
        if exists|i: int| 0 <= i < prefix.len() && (#[trigger] prefix[i]).id == id {
            let i = choose|i: int| 0 <= i < prefix.len() && (#[trigger] prefix[i]).id == id;
            assert(nodes[i] == prefix[i]);
        }
        if exists|i: int| 0 <= i < nodes.len() && (#[trigger] nodes[i]).id == id {
            let i = choose|i: int| 0 <= i < nodes.len() && (#[trigger] nodes[i]).id == id;
            if i < nodes.len() - 1 {
                assert(prefix[i] == nodes[i]);
            }
        }
    }
}

/// The distinct node identifiers, ascending.
fn sorted_node_ids(nodes: &Vec<PhysicalNode>) -> (ids: Vec<NodeId>)
    ensures
        strictly_increasing(ids@),
        forall|id: NodeId| #[trigger] ids@.contains(id) <==> declared_type(nodes@, id) is Some,
{
    let mut all: Vec<NodeId> = Vec::new();
    let mut k: usize = 0;
    while k < nodes.len()
        invariant
            k <= nodes@.len(),
            all@.len() == k,
            forall|i: int| 0 <= i < k ==> all@[i] == (#[trigger] nodes@[i]).id,
        decreases nodes@.len() - k,
    {
        all.push(nodes[k].id);
        k = k + 1;
    }
    let ids = sorted_unique(&all);
    proof {
        assert forall|id: NodeId| #[trigger] ids@.contains(id) <==> declared_type(nodes@, id) is Some by {
            lemma_declared_type(nodes@, id);
            if all@.contains(id) {
                let i = choose|i: int| 0 <= i < all@.len() && all@[i] == id;
                assert(nodes@[i].id == id);
            }
            if exists|i: int| 0 <= i < nodes@.len() && (#[trigger] nodes@[i]).id == id {
                let i = choose|i: int| 0 <= i < nodes@.len() && (#[trigger] nodes@[i]).id == id;
                assert(all@[i] == id);
            }
        }
    }
    ids
}

/// The type of node `id`: its last declaration.
fn last_type(nodes: &Vec<PhysicalNode>, id: NodeId) -> (ty: Option<NodeType>)
    ensures
        ty == declared_type(nodes@, id),
{
    let mut found: Option<NodeType> = None;
    let mut k: usize = 0;
    while k < nodes.len()
        invariant
            k <= nodes@.len(),
            found == declared_type(nodes@.take(k as int), id),
        decreases nodes@.len() - k,
    {
        assert(nodes@.take(k + 1).drop_last() =~= nodes@.take(k as int));
        if nodes[k].id == id {
            found = Some(nodes[k].node_type);
        }
        k = k + 1;
    }
    assert(nodes@.take(k as int) =~= nodes@);
    found
}

/// Whether two node declarations share an identifier.
fn has_repeated_id(nodes: &Vec<PhysicalNode>) -> (repeated: bool)
    ensures
        repeated == repeated_id(nodes@),
{
    let mut j: usize = 0;
    while j < nodes.len()
        invariant
            j <= nodes@.len(),
            forall|a: int, b: int| 0 <= a < b < j ==> nodes@[a].id != nodes@[b].id,
        decreases nodes@.len() - j,
    {
        let mut i: usize = 0;
        while i < j
            invariant
                i <= j,
                j < nodes@.len(),
                forall|a: int| 0 <= a < i ==> nodes@[a].id != nodes@[j as int].id,
            decreases j - i,
        {
            if nodes[i].id == nodes[j].id {
                return true;
            }
            i = i + 1;
        }
        j = j + 1;
    }
    false
}

/// The position of `id` among ascending distinct identifiers.
fn index_of(ids: &Vec<NodeId>, id: NodeId) -> (found: Option<usize>)
    requires
        strictly_increasing(ids@),
    ensures
        found is None <==> !ids@.contains(id),
        found matches Some(i) ==> i < ids@.len() && ids@[i as int] == id,
{
    let mut i: usize = 0;
    while i < ids.len()
        invariant
            i <= ids@.len(),
            forall|k: int| 0 <= k < i ==> ids@[k] != id,
        decreases ids@.len() - i,
    {
        if ids[i] == id {
            return Some(i);
        }
        i = i + 1;
    }
    None
}

fn holds_producer(ports: &Vec<ProducerPortRef>, port: ProducerPortRef) -> (held: bool)
    ensures
        held == ports@.contains(port),
{
    let mut i: usize = 0;
    while i < ports.len()
        invariant
            i <= ports@.len(),
            forall|k: int| 0 <= k < i ==> ports@[k] != port,
        decreases ports@.len() - i,
    {
        if ports[i] == port {
            return true;
        }
        i = i + 1;
    }
    false
}

fn holds_consumer(ports: &Vec<ConsumerPortRef>, port: ConsumerPortRef) -> (held: bool)
    ensures
        held == ports@.contains(port),
{
    let mut i: usize = 0;
    while i < ports.len()
        invariant
            i <= ports@.len(),
            forall|k: int| 0 <= k < i ==> ports@[k] != port,
        decreases ports@.len() - i,
    {
        if ports[i] == port {
            return true;
        }
        i = i + 1;
    }
    false
}

/// `ids` and `types` list the materialized nodes of `t`, ascending, each
/// with its declared type.
pub open spec fn node_table(t: PartialTopology, ids: Seq<NodeId>, types: Seq<NodeType>) -> bool {
    &&& strictly_increasing(ids)
    &&& forall|id: NodeId| #[trigger] ids.contains(id) <==> declared_type(t.nodes@, id) is Some
    &&& types.len() == ids.len()
    &&& forall|i: int| 0 <= i < ids.len() ==> declared_type(t.nodes@, #[trigger] ids[i]) == Some(types[i])
}

fn producer_ok(t: &PartialTopology, ids: &Vec<NodeId>, types: &Vec<NodeType>, p: ProducerPortRef) -> (ok:
    bool)
    requires
        node_table(*t, ids@, types@),
    ensures
        ok == producer_declared(*t, p),
{
    match p {
        ProducerPortRef::Input(i) => (i.0 as usize) < t.input_count,
        ProducerPortRef::Node { node, port } => match index_of(ids, node) {
            Some(k) => port < types[k].output_port_count(),
            None => false,
        },
    }
}

fn consumer_ok(t: &PartialTopology, ids: &Vec<NodeId>, types: &Vec<NodeType>, c: ConsumerPortRef) -> (ok:
    bool)
    requires
        node_table(*t, ids@, types@),
    ensures
        ok == consumer_declared(*t, c),
{
    match c {
        ConsumerPortRef::Output(o) => (o.0 as usize) < t.output_count,
        ConsumerPortRef::Discard(d) => d.0 < t.discard_count,
        ConsumerPortRef::Node { node, port } => match index_of(ids, node) {
            Some(k) => port < types[k].input_port_count(),
            None => false,
        },
    }
}

/// Appends `to` to the successors of `from`.
fn push_edge(adjacency: &mut Vec<Vec<usize>>, from: usize, to: usize)
    requires
        from < old(adjacency)@.len(),
    ensures
        final(adjacency)@.len() == old(adjacency)@.len(),
        final(adjacency)@[from as int]@ == old(adjacency)@[from as int]@.push(to),
        forall|i: int| 0 <= i < old(adjacency)@.len() && i != from ==> final(adjacency)@[i] == old(adjacency)@[i],
{
    let mut row = adjacency.remove(from);
    row.push(to);
    adjacency.insert(from, row);
}

/// The exec state of a link scan.
struct ScanState {
    producers: Vec<ProducerPortRef>,
    consumers: Vec<ConsumerPortRef>,
    malformed: bool,
    adjacency: Vec<Vec<usize>>,
    reverse_adjacency: Vec<Vec<usize>>,
    source_roots: Vec<bool>,
    output_roots: Vec<bool>,
}

/// `st` holds scan `s` over the nodes `ids`.
spec fn scan_held(st: ScanState, s: LinkScan, ids: Seq<NodeId>) -> bool {
    let n = ids.len();
    &&& forall|p: ProducerPortRef| #[trigger] st.producers@.contains(p) <==> s.producers.contains(p)
    &&& forall|c: ConsumerPortRef| #[trigger] st.consumers@.contains(c) <==> s.consumers.contains(c)
    &&& st.malformed == s.malformed
    &&& st.adjacency@.len() == n
    &&& st.reverse_adjacency@.len() == n
    &&& st.source_roots@.len() == n
    &&& st.output_roots@.len() == n
    &&& forall|a: int, k: int|
        0 <= a < n && 0 <= k < st.adjacency@[a]@.len() ==> #[trigger] st.adjacency@[a]@[k] < n
    &&& forall|a: int, k: int|
        0 <= a < n && 0 <= k < st.reverse_adjacency@[a]@.len() ==> #[trigger] st.reverse_adjacency@[a]@[k] < n
    &&& forall|a: int, b: int|
        0 <= a < n && 0 <= b < n ==> (#[trigger] st.adjacency@[a]@.contains(b as usize) <==> s.edges.contains(
            (ids[a], ids[b]),
        ))
    &&& forall|a: int, b: int|
        0 <= a < n && 0 <= b < n ==> (#[trigger] st.reverse_adjacency@[b]@.contains(a as usize)
            <==> s.edges.contains((ids[a], ids[b])))
    &&& forall|i: int| 0 <= i < n ==> (#[trigger] st.source_roots@[i] <==> s.sources.contains(ids[i]))
    &&& forall|i: int| 0 <= i < n ==> (#[trigger] st.output_roots@[i] <==> s.sinks.contains(ids[i]))
}

/// Every node a scan names is materialized.
pub open spec fn scan_names_nodes(t: PartialTopology, s: LinkScan) -> bool {
    &&& forall|a: NodeId, b: NodeId| #[trigger] s.edges.contains((a, b)) ==> declared_type(t.nodes@, a) is Some
        && declared_type(t.nodes@, b) is Some
    &&& forall|r: NodeId| #[trigger] s.sources.contains(r) ==> declared_type(t.nodes@, r) is Some
    &&& forall|r: NodeId| #[trigger] s.sinks.contains(r) ==> declared_type(t.nodes@, r) is Some
}

proof fn lemma_scan_names_nodes(t: PartialTopology, links: Seq<PartialLink>)
    ensures
        scan_names_nodes(t, scan_links(t, links)),
    decreases links.len(),
{
    if links.len() > 0 {
        lemma_scan_names_nodes(t, links.drop_last());
    }
}

proof fn lemma_ids_injective(ids: Seq<NodeId>)
    requires
        strictly_increasing(ids),
    ensures
        forall|x: int, y: int|
            0 <= x < ids.len() && 0 <= y < ids.len() && #[trigger] ids[x] == #[trigger] ids[y] ==> x == y,
{
    assert forall|x: int, y: int|
        0 <= x < ids.len() && 0 <= y < ids.len() && #[trigger] ids[x] == #[trigger] ids[y] implies x == y by {
        if x < y {
            assert(ids[x].rank() < ids[y].rank());
        } else if y < x {
            assert(ids[y].rank() < ids[x].rank());
        }
    }
}

/// A vector of `n` empty successor lists.
fn empty_rows(n: usize) -> (rows: Vec<Vec<usize>>)
    ensures
        rows@.len() == n,
        forall|i: int| 0 <= i < n ==> (#[trigger] rows@[i])@.len() == 0,
{
    let mut rows: Vec<Vec<usize>> = Vec::new();
    while rows.len() < n
        invariant
            rows@.len() <= n,
            forall|i: int| 0 <= i < rows@.len() ==> (#[trigger] rows@[i])@.len() == 0,
        decreases n - rows@.len(),
    {
        rows.push(Vec::new());
    }
    rows
}

/// A vector of `n` unset flags.
fn unset_flags(n: usize) -> (flags: Vec<bool>)
    ensures
        flags@.len() == n,
        forall|i: int| 0 <= i < n ==> !(#[trigger] flags@[i]),
{
    let mut flags: Vec<bool> = Vec::new();
    while flags.len() < n
        invariant
            flags@.len() <= n,
            forall|i: int| 0 <= i < flags@.len() ==> !(#[trigger] flags@[i]),
        decreases n - flags@.len(),
    {
        flags.push(false);
    }
    flags
}

/// Scans the links of `t` in order.
fn scan_topology(t: &PartialTopology, ids: &Vec<NodeId>, types: &Vec<NodeType>) -> (st: ScanState)
    requires
        node_table(*t, ids@, types@),
    ensures
        scan_held(st, scan_of(*t), ids@),
{
    let n = ids.len();
    let mut st = ScanState {
        producers: Vec::new(),
        consumers: Vec::new(),
        malformed: false,
        adjacency: empty_rows(n),
        reverse_adjacency: empty_rows(n),
        source_roots: unset_flags(n),
        output_roots: unset_flags(n),
    };
    proof {
        lemma_ids_injective(ids@);
        assert(t.links@.take(0) =~= Seq::<PartialLink>::empty());
    }
    let mut k: usize = 0;
    while k < t.links.len()
        invariant
            k <= t.links@.len(),
            n == ids@.len(),
            node_table(*t, ids@, types@),
            forall|x: int, y: int|
                0 <= x < ids@.len() && 0 <= y < ids@.len() && #[trigger] ids@[x] == #[trigger] ids@[y] ==> x == y,
            scan_held(st, scan_links(*t, t.links@.take(k as int)), ids@),
        decreases t.links@.len() - k,
    {
        let link = t.links[k];
        let ghost before = scan_links(*t, t.links@.take(k as int));
        proof {
            assert(t.links@.take(k + 1).drop_last() =~= t.links@.take(k as int));
            assert(t.links@.take(k + 1).last() == link);
        }
        let ghost after = scan_link(*t, before, link);
        assert(after == scan_links(*t, t.links@.take(k + 1)));
        let declared = producer_ok(t, ids, types, link.producer) && consumer_ok(t, ids, types, link.consumer);
        let ghost old_producers = st.producers@;
        let ghost old_consumers = st.consumers@;
        let ghost old_adjacency = st.adjacency@;
        let ghost old_reverse = st.reverse_adjacency@;
        let ghost old_sources = st.source_roots@;
        let ghost old_sinks = st.output_roots@;
        if !declared {
            st.malformed = true;
        } else if holds_producer(&st.producers, link.producer) {
            st.malformed = true;
        } else if holds_consumer(&st.consumers, link.consumer) {
            st.producers.push(link.producer);
            st.malformed = true;
            proof {
                assert(after.producers == before.producers.insert(link.producer));
                assert forall|p: ProducerPortRef| #[trigger] st.producers@.contains(p) <==> after.producers.contains(p) by {
                    assert(old_producers.contains(p) <==> before.producers.contains(p));
                    if p == link.producer {
                        assert(st.producers@[old_producers.len() as int] == p);
                    } else if st.producers@.contains(p) {
                        let i = choose|i: int| 0 <= i < st.producers@.len() && st.producers@[i] == p;
                        assert(old_producers[i] == p);
                    } else if old_producers.contains(p) {
                        let i = choose|i: int| 0 <= i < old_producers.len() && old_producers[i] == p;
                        assert(st.producers@[i] == p);
                    }
                }
            }
        } else {
            st.producers.push(link.producer);
            st.consumers.push(link.consumer);
            proof {
                assert(after.producers == before.producers.insert(link.producer));
                assert forall|p: ProducerPortRef| #[trigger] st.producers@.contains(p) <==> after.producers.contains(p) by {
                    assert(old_producers.contains(p) <==> before.producers.contains(p));
                    if p == link.producer {
                        assert(st.producers@[old_producers.len() as int] == p);
                    } else if st.producers@.contains(p) {
                        let i = choose|i: int| 0 <= i < st.producers@.len() && st.producers@[i] == p;
                        assert(old_producers[i] == p);
                    } else if old_producers.contains(p) {
                        let i = choose|i: int| 0 <= i < old_producers.len() && old_producers[i] == p;
                        assert(st.producers@[i] == p);
                    }
                }
                assert(after.consumers == before.consumers.insert(link.consumer));
                assert forall|c: ConsumerPortRef| #[trigger] st.consumers@.contains(c) <==> after.consumers.contains(c) by {
                    assert(old_consumers.contains(c) <==> before.consumers.contains(c));
                    if c == link.consumer {
                        assert(st.consumers@[old_consumers.len() as int] == c);
                    } else if st.consumers@.contains(c) {
                        let i = choose|i: int| 0 <= i < st.consumers@.len() && st.consumers@[i] == c;
                        assert(old_consumers[i] == c);
                    } else if old_consumers.contains(c) {
                        let i = choose|i: int| 0 <= i < old_consumers.len() && old_consumers[i] == c;
                        assert(st.consumers@[i] == c);
                    }
                }
            }
            match (link.producer, link.consumer) {
                (ProducerPortRef::Node { node: a, .. }, ConsumerPortRef::Node { node: b, .. }) => {
                    if a == b {
                        st.malformed = true;
                    } else {
                        let ia = match index_of(ids, a) {
                            Some(i) => i,
                            None => {
                                proof {
                                    assert(false);
                                }
                                0
                            },
                        };
                        let ib = match index_of(ids, b) {
                            Some(i) => i,
                            None => {
                                proof {
                                    assert(false);
                                }
                                0
                            },
                        };
                        push_edge(&mut st.adjacency, ia, ib);
                        push_edge(&mut st.reverse_adjacency, ib, ia);
                        proof {
                            assert forall|x: int, y: int|
                                0 <= x < n && 0 <= y < n implies (#[trigger] st.adjacency@[x]@.contains(y as usize)
                                <==> after.edges.contains((ids@[x], ids@[y]))) by {
                                if x == ia {
                                    if y == ib {
                                        assert(st.adjacency@[x]@[old_adjacency[x]@.len() as int] == y as usize);
                                    } else {
                                        if st.adjacency@[x]@.contains(y as usize) {
                                            let i = choose|i: int| 0 <= i < st.adjacency@[x]@.len() && st.adjacency@[x]@[i] == y as usize;
                                            assert(old_adjacency[x]@[i] == y as usize);
                                        }
                                        if old_adjacency[x]@.contains(y as usize) {
                                            let i = choose|i: int| 0 <= i < old_adjacency[x]@.len() && old_adjacency[x]@[i] == y as usize;
                                            assert(st.adjacency@[x]@[i] == y as usize);
                                        }
                                    }
                                }
                            }
                            assert forall|x: int, y: int|
                                0 <= x < n && 0 <= y < n implies (#[trigger] st.reverse_adjacency@[y]@.contains(x as usize)
                                <==> after.edges.contains((ids@[x], ids@[y]))) by {
                                if y == ib {
                                    if x == ia {
                                        assert(st.reverse_adjacency@[y]@[old_reverse[y]@.len() as int] == x as usize);
                                    } else {
                                        if st.reverse_adjacency@[y]@.contains(x as usize) {
                                            let i = choose|i: int| 0 <= i < st.reverse_adjacency@[y]@.len() && st.reverse_adjacency@[y]@[i] == x as usize;
                                            assert(old_reverse[y]@[i] == x as usize);
                                        }
                                        if old_reverse[y]@.contains(x as usize) {
                                            let i = choose|i: int| 0 <= i < old_reverse[y]@.len() && old_reverse[y]@[i] == x as usize;
                                            assert(st.reverse_adjacency@[y]@[i] == x as usize);
                                        }
                                    }
                                }
                            }
                            assert forall|x: int, m: int|
                                0 <= x < n && 0 <= m < st.adjacency@[x]@.len() implies #[trigger] st.adjacency@[x]@[m] < n by {
                                if x == ia && m == old_adjacency[x]@.len() {
                                } else if x == ia {
                                    assert(st.adjacency@[x]@[m] == old_adjacency[x]@[m]);
                                }
                            }
                            assert forall|x: int, m: int|
                                0 <= x < n && 0 <= m < st.reverse_adjacency@[x]@.len() implies #[trigger] st.reverse_adjacency@[x]@[m] < n by {
                                if x == ib && m == old_reverse[x]@.len() {
                                } else if x == ib {
                                    assert(st.reverse_adjacency@[x]@[m] == old_reverse[x]@[m]);
                                }
                            }
                        }
                    }
                },
                (ProducerPortRef::Input(_), ConsumerPortRef::Node { node, .. }) => {
                    let i = match index_of(ids, node) {
                        Some(i) => i,
                        None => {
                            proof {
                                assert(false);
                            }
                            0
                        },
                    };
                    st.source_roots.set(i, true);
                },
                (ProducerPortRef::Node { node, .. }, _) => {
                    let i = match index_of(ids, node) {
                        Some(i) => i,
                        None => {
                            proof {
                                assert(false);
                            }
                            0
                        },
                    };
                    st.output_roots.set(i, true);
                },
                (ProducerPortRef::Input(_), _) => {},
            }
        }
        assert(scan_held(st, after, ids@));
        k = k + 1;
    }
    assert(t.links@.take(k as int) =~= t.links@);
    st
}

/// Which materialized nodes have an unoccupied consumer, or producer, port.
fn open_ports(t: &PartialTopology, ids: &Vec<NodeId>, types: &Vec<NodeType>, st: &ScanState) -> (open:
    (Vec<bool>, Vec<bool>))
    requires
        node_table(*t, ids@, types@),
        scan_held(*st, scan_of(*t), ids@),
    ensures
        open.0@.len() == ids@.len(),
        open.1@.len() == ids@.len(),
        forall|i: int| 0 <= i < ids@.len() ==> (#[trigger] open.0@[i] <==> open_consumer(*t, ids@[i])),
        forall|i: int| 0 <= i < ids@.len() ==> (#[trigger] open.1@[i] <==> open_producer(*t, ids@[i])),
{
    let mut consumers_open: Vec<bool> = Vec::new();
    let mut producers_open: Vec<bool> = Vec::new();
    let mut i: usize = 0;
    while i < ids.len()
        invariant
            i <= ids@.len(),
            node_table(*t, ids@, types@),
            scan_held(*st, scan_of(*t), ids@),
            consumers_open@.len() == i,
            producers_open@.len() == i,
            forall|j: int| 0 <= j < i ==> (#[trigger] consumers_open@[j] <==> open_consumer(*t, ids@[j])),
            forall|j: int| 0 <= j < i ==> (#[trigger] producers_open@[j] <==> open_producer(*t, ids@[j])),
        decreases ids@.len() - i,
    {
        let id = ids[i];
        let ty = types[i];
        let ins = ty.input_port_count();
        let mut open_in = false;
        let mut port: u8 = 0;
        while port < ins
            invariant
                port <= ins,
                ins == ty.inputs_of(),
                scan_held(*st, scan_of(*t), ids@),
                open_in <==> exists|q: u8|
                    q < port && !(#[trigger] scan_of(*t).consumers.contains(ConsumerPortRef::Node { node: id, port: q })),
            decreases ins - port,
        {
            if !holds_consumer(&st.consumers, ConsumerPortRef::Node { node: id, port }) {
                open_in = true;
            }
            port = port + 1;
        }
        let outs = ty.output_port_count();
        let mut open_out = false;
        let mut port: u8 = 0;
        while port < outs
            invariant
                port <= outs,
                outs == ty.outputs_of(),
                scan_held(*st, scan_of(*t), ids@),
                open_out <==> exists|q: u8|
                    q < port && !(#[trigger] scan_of(*t).producers.contains(ProducerPortRef::Node { node: id, port: q })),
            decreases outs - port,
        {
            if !holds_producer(&st.producers, ProducerPortRef::Node { node: id, port }) {
                open_out = true;
            }
            port = port + 1;
        }
        consumers_open.push(open_in);
        producers_open.push(open_out);
        proof {
            assert(declared_type(t.nodes@, ids@[i as int]) == Some(ty));
        }
        i = i + 1;
    }
    (consumers_open, producers_open)
}

/// Whether every declared producer and consumer port is occupied.
fn all_ports_occupied(t: &PartialTopology, ids: &Vec<NodeId>, types: &Vec<NodeType>, st: &ScanState) -> (all:
    bool)
    requires
        node_table(*t, ids@, types@),
        scan_held(*st, scan_of(*t), ids@),
        t.input_count <= 0x1_0000_0000,
        t.output_count <= 0x1_0000_0000,
    ensures
        all == ((forall|p: ProducerPortRef| #[trigger] producer_declared(*t, p) ==> scan_of(*t).producers.contains(p))
            && (forall|c: ConsumerPortRef| #[trigger] consumer_declared(*t, c) ==> scan_of(*t).consumers.contains(c))),
{
    let ghost sc = scan_of(*t);
    let mut i: usize = 0;
    while i < t.input_count
        invariant
            i <= t.input_count,
            t.input_count <= 0x1_0000_0000,
            scan_held(*st, sc, ids@),
            sc == scan_of(*t),
            forall|x: u32| x < i ==> sc.producers.contains(ProducerPortRef::Input(InputTerminalIndex(x))),
        decreases t.input_count - i,
    {
        let port = ProducerPortRef::Input(InputTerminalIndex(i as u32));
        if !holds_producer(&st.producers, port) {
            proof {
                assert(producer_declared(*t, port));
            }
            return false;
        }
        i = i + 1;
    }
    let mut i: usize = 0;
    while i < t.output_count
        invariant
            i <= t.output_count,
            t.output_count <= 0x1_0000_0000,
            scan_held(*st, sc, ids@),
            sc == scan_of(*t),
            forall|x: u32| x < i ==> sc.consumers.contains(ConsumerPortRef::Output(OutputTerminalIndex(x))),
            forall|x: u32| x < t.input_count ==> sc.producers.contains(ProducerPortRef::Input(InputTerminalIndex(x))),
        decreases t.output_count - i,
    {
        let port = ConsumerPortRef::Output(OutputTerminalIndex(i as u32));
        if !holds_consumer(&st.consumers, port) {
            proof {
                assert(consumer_declared(*t, port));
            }
            return false;
        }
        i = i + 1;
    }
    let mut d: u32 = 0;
    while d < t.discard_count
        invariant
            d <= t.discard_count,
            scan_held(*st, sc, ids@),
            sc == scan_of(*t),
            forall|x: u32| x < d ==> sc.consumers.contains(ConsumerPortRef::Discard(DiscardTerminalIndex(x))),
            forall|x: u32| x < t.input_count ==> sc.producers.contains(ProducerPortRef::Input(InputTerminalIndex(x))),
            forall|x: u32| x < t.output_count ==> sc.consumers.contains(ConsumerPortRef::Output(OutputTerminalIndex(x))),
        decreases t.discard_count - d,
    {
        let port = ConsumerPortRef::Discard(DiscardTerminalIndex(d));
        if !holds_consumer(&st.consumers, port) {
            proof {
                assert(consumer_declared(*t, port));
            }
            return false;
        }
        d = d + 1;
    }
    let mut k: usize = 0;
    while k < ids.len()
        invariant
            k <= ids@.len(),
            node_table(*t, ids@, types@),
            scan_held(*st, sc, ids@),
            sc == scan_of(*t),
            forall|j: int, q: u8|
                0 <= j < k && q < types@[j].outputs_of() ==> #[trigger] sc.producers.contains(
                    ProducerPortRef::Node { node: ids@[j], port: q },
                ),
            forall|j: int, q: u8|
                0 <= j < k && q < types@[j].inputs_of() ==> #[trigger] sc.consumers.contains(
                    ConsumerPortRef::Node { node: ids@[j], port: q },
                ),
            forall|x: u32| x < t.input_count ==> sc.producers.contains(ProducerPortRef::Input(InputTerminalIndex(x))),
            forall|x: u32| x < t.output_count ==> sc.consumers.contains(ConsumerPortRef::Output(OutputTerminalIndex(x))),
            forall|x: u32| x < t.discard_count ==> sc.consumers.contains(ConsumerPortRef::Discard(DiscardTerminalIndex(x))),
        decreases ids@.len() - k,
    {
        let id = ids[k];
        let ty = types[k];
        assert(declared_type(t.nodes@, ids@[k as int]) == Some(ty));
        let outs = ty.output_port_count();
        let mut port: u8 = 0;
        while port < outs
            invariant
                port <= outs,
                outs == ty.outputs_of(),
                scan_held(*st, sc, ids@),
                sc == scan_of(*t),
                declared_type(t.nodes@, id) == Some(ty),
                forall|q: u8| q < port ==> #[trigger] sc.producers.contains(ProducerPortRef::Node { node: id, port: q }),
            decreases outs - port,
        {
            let p = ProducerPortRef::Node { node: id, port };
            if !holds_producer(&st.producers, p) {
                proof {
                    assert(producer_declared(*t, p));
                }
                return false;
            }
            port = port + 1;
        }
        let ins = ty.input_port_count();
        let mut port: u8 = 0;
        while port < ins
            invariant
                port <= ins,
                ins == ty.inputs_of(),
                scan_held(*st, sc, ids@),
                sc == scan_of(*t),
                declared_type(t.nodes@, id) == Some(ty),
                forall|q: u8| q < port ==> #[trigger] sc.consumers.contains(ConsumerPortRef::Node { node: id, port: q }),
            decreases ins - port,
        {
            let c = ConsumerPortRef::Node { node: id, port };
            if !holds_consumer(&st.consumers, c) {
                proof {
                    assert(consumer_declared(*t, c));
                }
                return false;
            }
            port = port + 1;
        }
        k = k + 1;
    }
    proof {
        assert forall|p: ProducerPortRef| #[trigger] producer_declared(*t, p) implies sc.producers.contains(p) by {
            if let ProducerPortRef::Input(i) = p {
                assert(p == ProducerPortRef::Input(InputTerminalIndex(i.0)));
            }
            if let ProducerPortRef::Node { node, port } = p {
                assert(ids@.contains(node));
                let j = choose|j: int| 0 <= j < ids@.len() && ids@[j] == node;
                assert(declared_type(t.nodes@, ids@[j]) == Some(types@[j]));
                assert(p == ProducerPortRef::Node { node: ids@[j], port });
            }
        }
        assert forall|c: ConsumerPortRef| #[trigger] consumer_declared(*t, c) implies sc.consumers.contains(c) by {
            if let ConsumerPortRef::Output(o) = c {
                assert(c == ConsumerPortRef::Output(OutputTerminalIndex(o.0)));
            }
            if let ConsumerPortRef::Discard(d) = c {
                assert(c == ConsumerPortRef::Discard(DiscardTerminalIndex(d.0)));
            }
            if let ConsumerPortRef::Node { node, port } = c {
                assert(ids@.contains(node));
                let j = choose|j: int| 0 <= j < ids@.len() && ids@[j] == node;
                assert(declared_type(t.nodes@, ids@[j]) == Some(types@[j]));
                assert(c == ConsumerPortRef::Node { node: ids@[j], port });
            }
        }
    }
    true
}

/// Reachability over indexed adjacency lists is reachability over the
/// node identifiers that the indexes name.
proof fn lemma_spread_reached(
    adj: Seq<Vec<usize>>,
    roots: Seq<bool>,
    ids: Seq<NodeId>,
    edge: spec_fn(NodeId, NodeId) -> bool,
    root: spec_fn(NodeId) -> bool,
    i: int,
)
    requires
        adj.len() == ids.len(),
        roots.len() == ids.len(),
        ids.len() <= usize::MAX,
        forall|x: int, y: int|
            0 <= x < ids.len() && 0 <= y < ids.len() && #[trigger] ids[x] == #[trigger] ids[y] ==> x == y,
        forall|a: int, k: int| 0 <= a < adj.len() && 0 <= k < adj[a]@.len() ==> #[trigger] adj[a]@[k] < adj.len(),
        forall|a: int, b: int|
            0 <= a < ids.len() && 0 <= b < ids.len() ==> (#[trigger] adj[a]@.contains(b as usize) <==> edge(
                ids[a],
                ids[b],
            )),
        forall|x: NodeId, y: NodeId| #[trigger] edge(x, y) ==> ids.contains(x) && ids.contains(y),
        forall|a: int| 0 <= a < ids.len() ==> (#[trigger] roots[a] <==> root(ids[a])),
        forall|r: NodeId| #[trigger] root(r) ==> ids.contains(r),
        0 <= i < ids.len(),
    ensures
        spreads_to(adj, roots, i) <==> reached(edge, root, ids[i]),
{
    let n = ids.len();
    if reached(edge, root, ids[i]) {
        assert forall|mi: Set<int>|
            #[trigger] closed_under_edges(adj, mi) && (forall|r: int| 0 <= r < roots.len() && roots[r] ==> mi.contains(r))
                implies mi.contains(i) by {
            let m = Set::new(|x: NodeId| exists|a: int| 0 <= a < n && mi.contains(a) && ids[a] == x);
            assert forall|x: NodeId, y: NodeId| #[trigger] edge(x, y) && m.contains(x) implies m.contains(y) by {
                let a = choose|a: int| 0 <= a < n && mi.contains(a) && ids[a] == x;
                let b = choose|b: int| 0 <= b < n && ids[b] == y;
                assert(adj[a]@.contains(b as usize));
                let k = choose|k: int| 0 <= k < adj[a]@.len() && adj[a]@[k] == b as usize;
                assert(mi.contains(adj[a]@[k] as int));
                assert(mi.contains(b) && ids[b] == y);
            }
            assert forall|r: NodeId| #[trigger] root(r) implies m.contains(r) by {
                let a = choose|a: int| 0 <= a < n && ids[a] == r;
                assert(roots[a]);
            }
            assert(edge_closed(edge, m) && holds_roots(root, m));
            assert(m.contains(ids[i]));
            let a = choose|a: int| 0 <= a < n && mi.contains(a) && ids[a] == ids[i];
        }
    }
    if spreads_to(adj, roots, i) {
        assert forall|m: Set<NodeId>| #[trigger] edge_closed(edge, m) && holds_roots(root, m) implies m.contains(ids[i]) by {
            let mi = Set::new(|a: int| 0 <= a < n && m.contains(ids[a]));
            assert forall|a: int, k: int|
                #![trigger mi.contains(a), adj[a]@[k]]
                mi.contains(a) && 0 <= a < adj.len() && 0 <= k < adj[a]@.len() implies mi.contains(adj[a]@[k] as int) by {
                let b = adj[a]@[k] as int;
                assert(adj[a]@.contains(b as usize));
                assert(edge(ids[a], ids[b]));
            }
            assert forall|r: int| 0 <= r < roots.len() && roots[r] implies mi.contains(r) by {
                assert(root(ids[r]));
            }
            assert(closed_under_edges(adj, mi));
        }
    }
}

/// A finite proof that some materialized region can never lie on an
/// input-to-sink walk.
#[derive(Clone, Debug, PartialEq, Eq)]
pub enum ReachabilityProof {
    /// A complete topology holds a region unreachable from every input.
    CompletedUnreachableFromInput { region: Vec<NodeId> },
    /// A complete topology holds a region unable to reach any sink.
    CompletedCannotReachOutput { region: Vec<NodeId> },
    /// Every consumer boundary of this region is occupied from inside it.
    ForwardClosedNoIngress { region: Vec<NodeId> },
    /// Every producer boundary of this region is occupied into it.
    BackwardClosedNoEgress { region: Vec<NodeId> },
}

/// The region a proof closes.
pub open spec fn proof_region(dead: ReachabilityProof) -> Seq<NodeId> {
    match dead {
        ReachabilityProof::CompletedUnreachableFromInput { region } => region.view(),
        ReachabilityProof::CompletedCannotReachOutput { region } => region.view(),
        ReachabilityProof::ForwardClosedNoIngress { region } => region.view(),
        ReachabilityProof::BackwardClosedNoEgress { region } => region.view(),
    }
}

impl ReachabilityProof {
    /// The closed region, ascending by node identifier.
    pub fn region(&self) -> (region: &[NodeId])
        ensures
            region@ == proof_region(*self),
    {
        match self {
            ReachabilityProof::CompletedUnreachableFromInput { region } => region.as_slice(),
            ReachabilityProof::CompletedCannotReachOutput { region } => region.as_slice(),
            ReachabilityProof::ForwardClosedNoIngress { region } => region.as_slice(),
            ReachabilityProof::BackwardClosedNoEgress { region } => region.as_slice(),
        }
    }
}

/// Reachability-only status; complete coverage claims no algebraic feasibility.
#[derive(Clone, Debug, PartialEq, Eq)]
pub enum ReachabilityVerdict {
    /// Future attachments may still establish every required path.
    Open,
    /// Complete, and every node and link lies on an input-to-sink walk.
    CompleteCoverage,
    /// A closed region has a finite impossibility proof.
    ProvenDead(ReachabilityProof),
}

/// Conservative connectivity facts of one partial topology.
#[derive(Clone, Debug, PartialEq, Eq)]
pub struct ReachabilityAnalysis {
    pub verdict: ReachabilityVerdict,
    pub structurally_complete: bool,
    pub source_reachable_nodes: Vec<NodeId>,
    pub output_reachable_nodes: Vec<NodeId>,
    pub potentially_source_reachable_nodes: Vec<NodeId>,
    pub potentially_output_reachable_nodes: Vec<NodeId>,
    pub input_output_path_link_count: usize,
}

/// Some materialized node satisfies `pred`.
pub open spec fn some_node(t: PartialTopology, pred: spec_fn(NodeId) -> bool) -> bool {
    exists|id: NodeId| declared_type(t.nodes@, id) is Some && #[trigger] pred(id)
}

/// The verdict of `t`: malformed snapshots stay open; a complete topology
/// is dead when some node is unreachable from inputs or cannot reach a
/// sink, and covered when every link lies on a terminal walk; with nothing
/// left to place, a region with no possible ingress or egress is dead.
pub open spec fn verdict_of(t: PartialTopology, verdict: ReachabilityVerdict) -> bool {
    if !graph_well_formed(t) {
        verdict is Open
    } else if structurally_complete(t) {
        if some_node(t, |id: NodeId| !source_reached(t, id)) {
            verdict matches ReachabilityVerdict::ProvenDead(
                ReachabilityProof::CompletedUnreachableFromInput { region },
            ) && lists(t, region@, |id: NodeId| !source_reached(t, id))
        } else if some_node(t, |id: NodeId| !output_reached(t, id)) {
            verdict matches ReachabilityVerdict::ProvenDead(
                ReachabilityProof::CompletedCannotReachOutput { region },
            ) && lists(t, region@, |id: NodeId| !output_reached(t, id))
        } else if path_count(t, t.links@) == t.links@.len() {
            verdict is CompleteCoverage
        } else {
            verdict is Open
        }
    } else if !remaining_empty(t) {
        verdict is Open
    } else if some_node(t, |id: NodeId| !potential_source(t, id)) {
        verdict matches ReachabilityVerdict::ProvenDead(ReachabilityProof::ForwardClosedNoIngress { region })
            && lists(t, region@, |id: NodeId| !potential_source(t, id))
    } else if some_node(t, |id: NodeId| !potential_output(t, id)) {
        verdict matches ReachabilityVerdict::ProvenDead(ReachabilityProof::BackwardClosedNoEgress { region })
            && lists(t, region@, |id: NodeId| !potential_output(t, id))
    } else {
        verdict is Open
    }
}

/// `analysis` is the reachability analysis of `t`.
pub open spec fn analysis_of(t: PartialTopology, analysis: ReachabilityAnalysis) -> bool {
    &&& verdict_of(t, analysis.verdict)
    &&& analysis.structurally_complete == structurally_complete(t)
    &&& lists(t, analysis.source_reachable_nodes@, |id: NodeId| source_reached(t, id))
    &&& lists(t, analysis.output_reachable_nodes@, |id: NodeId| output_reached(t, id))
    &&& lists(t, analysis.potentially_source_reachable_nodes@, |id: NodeId| potential_source(t, id))
    &&& lists(t, analysis.potentially_output_reachable_nodes@, |id: NodeId| potential_output(t, id))
    &&& analysis.input_output_path_link_count == path_count(t, t.links@)
}

/// `x` is among the first `i` of `ids`.
pub open spec fn among_first(ids: Seq<NodeId>, i: int, x: NodeId) -> bool {
    exists|k: int| 0 <= k < i && ids[k] == x
}

/// The identifiers whose flag equals `keep`, ascending.
fn select(ids: &Vec<NodeId>, flags: &Vec<bool>, keep: bool) -> (chosen: Vec<NodeId>)
    requires
        strictly_increasing(ids@),
        flags@.len() == ids@.len(),
    ensures
        forall|a: int, b: int| 0 <= a < b < chosen@.len() ==> (#[trigger] chosen@[a]).0 < (#[trigger] chosen@[b]).0,
        forall|id: NodeId|
            #[trigger] chosen@.contains(id) <==> exists|i: int| 0 <= i < ids@.len() && ids@[i] == id && flags@[i] == keep,
{
    let mut chosen: Vec<NodeId> = Vec::new();
    let mut i: usize = 0;
    while i < ids.len()
        invariant
            i <= ids@.len(),
            flags@.len() == ids@.len(),
            strictly_increasing(ids@),
            forall|a: int, b: int| 0 <= a < b < chosen@.len() ==> (#[trigger] chosen@[a]).0 < (#[trigger] chosen@[b]).0,
            forall|a: int| 0 <= a < chosen@.len() ==> among_first(ids@, i as int, #[trigger] chosen@[a]),
            forall|id: NodeId|
                #[trigger] chosen@.contains(id) <==> exists|k: int| 0 <= k < i && ids@[k] == id && flags@[k] == keep,
        decreases ids@.len() - i,
    {
        if flags[i] == keep {
            let ghost before = chosen@;
            chosen.push(ids[i]);
            proof {
                assert forall|a: int, b: int| 0 <= a < b < chosen@.len() implies (#[trigger] chosen@[a]).0 < (
                #[trigger] chosen@[b]).0 by {
                    if b == before.len() {
                        assert(among_first(ids@, i as int, before[a]));
                        let k = choose|k: int| 0 <= k < i && ids@[k] == before[a];
                        assert(ids@[k].rank() < ids@[i as int].rank());
                    }
                }
                assert forall|id: NodeId| #[trigger] chosen@.contains(id) <==> exists|k: int|
                    0 <= k < i + 1 && ids@[k] == id && flags@[k] == keep by {
                    if chosen@.contains(id) {
                        let a = choose|a: int| 0 <= a < chosen@.len() && chosen@[a] == id;
                        if a < before.len() {
                            assert(before.contains(id));
                        }
                    }
                    if exists|k: int| 0 <= k < i + 1 && ids@[k] == id && flags@[k] == keep {
                        let k = choose|k: int| 0 <= k < i + 1 && ids@[k] == id && flags@[k] == keep;
                        if k < i {
                            assert(before.contains(id));
                            let a = choose|a: int| 0 <= a < before.len() && before[a] == id;
                            assert(chosen@[a] == id);
                        } else {
                            assert(chosen@[before.len() as int] == id);
                        }
                    }
                }
                assert forall|a: int| 0 <= a < chosen@.len() implies among_first(ids@, i + 1, #[trigger] chosen@[a]) by {
                    if a == before.len() {
                        assert(ids@[i as int] == chosen@[a]);
                    } else {
                        assert(among_first(ids@, i as int, before[a]));
                        let k = choose|k: int| 0 <= k < i && ids@[k] == before[a];
                        assert(ids@[k] == chosen@[a]);
                    }
                }
            }
        }
        i = i + 1;
    }
    chosen
}

proof fn lemma_listed(
    t: PartialTopology,
    ids: Seq<NodeId>,
    flags: Seq<bool>,
    keep: bool,
    pred: spec_fn(NodeId) -> bool,
    list: Seq<NodeId>,
)
    requires
        forall|id: NodeId| #[trigger] ids.contains(id) <==> declared_type(t.nodes@, id) is Some,
        flags.len() == ids.len(),
        forall|i: int| 0 <= i < ids.len() ==> ((#[trigger] flags[i] == keep) <==> pred(ids[i])),
        forall|a: int, b: int| 0 <= a < b < list.len() ==> (#[trigger] list[a]).0 < (#[trigger] list[b]).0,
        forall|id: NodeId|
            #[trigger] list.contains(id) <==> exists|i: int| 0 <= i < ids.len() && ids[i] == id && flags[i] == keep,
    ensures
        lists(t, list, pred),
        list.len() == 0 <==> !exists|id: NodeId| declared_type(t.nodes@, id) is Some && #[trigger] pred(id),
{
    assert forall|id: NodeId| #[trigger] list.contains(id) <==> declared_type(t.nodes@, id) is Some && pred(id) by {
        if declared_type(t.nodes@, id) is Some && pred(id) {
            assert(ids.contains(id));
            let i = choose|i: int| 0 <= i < ids.len() && ids[i] == id;
            assert(flags[i] == keep);
        }
        if list.contains(id) {
            let i = choose|i: int| 0 <= i < ids.len() && ids[i] == id && flags[i] == keep;
            assert(ids.contains(id));
        }
    }
    if list.len() > 0 {
        assert(list.contains(list[0]));
    }
    if exists|id: NodeId| declared_type(t.nodes@, id) is Some && #[trigger] pred(id) {
        let id = choose|id: NodeId| declared_type(t.nodes@, id) is Some && #[trigger] pred(id);
        assert(list.contains(id));
    }
}

/// `n` set flags.
fn set_flags(n: usize) -> (flags: Vec<bool>)
    ensures
        flags@.len() == n,
        forall|i: int| 0 <= i < n ==> #[trigger] flags@[i],
{
    let mut flags: Vec<bool> = Vec::new();
    while flags.len() < n
        invariant
            flags@.len() <= n,
            forall|i: int| 0 <= i < flags@.len() ==> #[trigger] flags@[i],
        decreases n - flags@.len(),
    {
        flags.push(true);
    }
    flags
}

/// The flags of `a` or `b`, pointwise.
fn either_flag(a: &Vec<bool>, b: &Vec<bool>) -> (flags: Vec<bool>)
    requires
        a@.len() == b@.len(),
    ensures
        flags@.len() == a@.len(),
        forall|i: int| 0 <= i < a@.len() ==> (#[trigger] flags@[i] <==> a@[i] || b@[i]),
{
    let mut flags: Vec<bool> = Vec::new();
    let mut i: usize = 0;
    while i < a.len()
        invariant
            i <= a@.len(),
            a@.len() == b@.len(),
            flags@.len() == i,
            forall|k: int| 0 <= k < i ==> (#[trigger] flags@[k] <==> a@[k] || b@[k]),
        decreases a@.len() - i,
    {
        flags.push(a[i] || b[i]);
        i = i + 1;
    }
    flags
}

/// Rebuilds conservative reachability facts from an immutable partial
/// topology. Existing links are permanent: a node can gain ingress only
/// through an open consumer port and egress only through an open producer
/// port, so potential reachability over-approximates every completion; while
/// profile nodes remain, every node counts as potentially reachable.
pub fn analyze_partial_reachability(topology: &PartialTopology) -> (analysis: ReachabilityAnalysis)
    ensures
        analysis_of(*topology, analysis),
{
    let t = topology;
    let ids = sorted_node_ids(&t.nodes);
    let mut types: Vec<NodeType> = Vec::new();
    let mut i: usize = 0;
    while i < ids.len()
        invariant
            i <= ids@.len(),
            types@.len() == i,
            forall|id: NodeId| #[trigger] ids@.contains(id) <==> declared_type(t.nodes@, id) is Some,
            forall|j: int| 0 <= j < i ==> declared_type(t.nodes@, #[trigger] ids@[j]) == Some(types@[j]),
        decreases ids@.len() - i,
    {
        assert(ids@.contains(ids@[i as int]));
        match last_type(&t.nodes, ids[i]) {
            Some(ty) => types.push(ty),
            None => {
                assert(false);
            },
        }
        i = i + 1;
    }
    let n = ids.len();
    let repeated = has_repeated_id(&t.nodes);
    let st = scan_topology(t, &ids, &types);
    let well_formed = t.input_count > 0 && t.output_count > 0 && (t.input_count as u64)
        <= 0x1_0000_0000u64 && (t.output_count as u64) <= 0x1_0000_0000u64 && !repeated
        && !st.malformed;
    let remaining = t.remaining_profile.splitter2 == 0 && t.remaining_profile.splitter3 == 0
        && t.remaining_profile.merger2 == 0 && t.remaining_profile.merger3 == 0;
    let complete = well_formed && remaining && all_ports_occupied(t, &ids, &types, &st);
    let ghost sc = scan_of(*t);
    proof {
        lemma_scan_names_nodes(*t, t.links@);
        lemma_ids_injective(ids@);
    }
    let source = spread(&st.adjacency, &st.source_roots);
    let output = spread(&st.reverse_adjacency, &st.output_roots);
    proof {
        assert forall|k: int| 0 <= k < n implies (#[trigger] source@[k] <==> source_reached(*t, ids@[k])) by {
            lemma_spread_reached(
                st.adjacency@,
                st.source_roots@,
                ids@,
                forward(sc),
                |r: NodeId| sc.sources.contains(r),
                k,
            );
        }
        assert forall|k: int| 0 <= k < n implies (#[trigger] output@[k] <==> output_reached(*t, ids@[k])) by {
            lemma_spread_reached(
                st.reverse_adjacency@,
                st.output_roots@,
                ids@,
                backward(sc),
                |r: NodeId| sc.sinks.contains(r),
                k,
            );
        }
    }
    let suppress = !well_formed || !remaining;
    let (psource, poutput) = if suppress {
        (set_flags(n), set_flags(n))
    } else {
        let (open_in, open_out) = open_ports(t, &ids, &types, &st);
        let ingress = either_flag(&st.source_roots, &open_in);
        let egress = either_flag(&st.output_roots, &open_out);
        let psource = spread(&st.adjacency, &ingress);
        let poutput = spread(&st.reverse_adjacency, &egress);
        proof {
            assert forall|k: int| 0 <= k < n implies (#[trigger] psource@[k] <==> potential_source(*t, ids@[k])) by {
                lemma_spread_reached(
                    st.adjacency@,
                    ingress@,
                    ids@,
                    forward(sc),
                    |r: NodeId| sc.sources.contains(r) || open_consumer(*t, r),
                    k,
                );
            }
            assert forall|k: int| 0 <= k < n implies (#[trigger] poutput@[k] <==> potential_output(*t, ids@[k])) by {
                lemma_spread_reached(
                    st.reverse_adjacency@,
                    egress@,
                    ids@,
                    backward(sc),
                    |r: NodeId| sc.sinks.contains(r) || open_producer(*t, r),
                    k,
                );
            }
        }
        (psource, poutput)
    };
    let mut count: usize = 0;
    let mut j: usize = 0;
    assert(t.links@.take(0) =~= Seq::<PartialLink>::empty());
    while j < t.links.len()
        invariant
            j <= t.links@.len(),
            count <= j,
            count == path_count(*t, t.links@.take(j as int)),
            strictly_increasing(ids@),
            forall|id: NodeId| #[trigger] ids@.contains(id) <==> declared_type(t.nodes@, id) is Some,
            source@.len() == n,
            output@.len() == n,
            n == ids@.len(),
            forall|k: int| 0 <= k < n ==> (#[trigger] source@[k] <==> source_reached(*t, ids@[k])),
            forall|k: int| 0 <= k < n ==> (#[trigger] output@[k] <==> output_reached(*t, ids@[k])),
        decreases t.links@.len() - j,
    {
        let link = t.links[j];
        let from_input = match link.producer {
            ProducerPortRef::Input(_) => true,
            ProducerPortRef::Node { node, .. } => match index_of(&ids, node) {
                Some(k) => source[k],
                None => false,
            },
        };
        let to_sink = match link.consumer {
            ConsumerPortRef::Node { node, .. } => match index_of(&ids, node) {
                Some(k) => output[k],
                None => false,
            },
            _ => true,
        };
        proof {
            assert(t.links@.take(j + 1).drop_last() =~= t.links@.take(j as int));
            assert(t.links@.take(j + 1).last() == link);
            assert((from_input && to_sink) == on_terminal_path(*t, link));
        }
        if from_input && to_sink {
            count = count + 1;
        }
        j = j + 1;
    }
    assert(t.links@.take(j as int) =~= t.links@);
    let source_nodes = select(&ids, &source, true);
    let output_nodes = select(&ids, &output, true);
    let potential_source_nodes = select(&ids, &psource, true);
    let potential_output_nodes = select(&ids, &poutput, true);
    proof {
        lemma_listed(*t, ids@, source@, true, |id: NodeId| source_reached(*t, id), source_nodes@);
        lemma_listed(*t, ids@, output@, true, |id: NodeId| output_reached(*t, id), output_nodes@);
        lemma_listed(*t, ids@, psource@, true, |id: NodeId| potential_source(*t, id), potential_source_nodes@);
        lemma_listed(*t, ids@, poutput@, true, |id: NodeId| potential_output(*t, id), potential_output_nodes@);
    }
    let verdict = if !well_formed {
        ReachabilityVerdict::Open
    } else if complete {
        let unreachable = select(&ids, &source, false);
        proof {
            lemma_listed(*t, ids@, source@, false, |id: NodeId| !source_reached(*t, id), unreachable@);
        }
        if unreachable.len() == 0 {
            let trapped = select(&ids, &output, false);
            proof {
                lemma_listed(*t, ids@, output@, false, |id: NodeId| !output_reached(*t, id), trapped@);
            }
            if trapped.len() == 0 {
                if count == t.links.len() {
                    ReachabilityVerdict::CompleteCoverage
                } else {
                    ReachabilityVerdict::Open
                }
            } else {
                ReachabilityVerdict::ProvenDead(
                    ReachabilityProof::CompletedCannotReachOutput { region: trapped },
                )
            }
        } else {
            ReachabilityVerdict::ProvenDead(
                ReachabilityProof::CompletedUnreachableFromInput { region: unreachable },
            )
        }
    } else if !remaining {
        ReachabilityVerdict::Open
    } else {
        let no_ingress = select(&ids, &psource, false);
        proof {
            lemma_listed(*t, ids@, psource@, false, |id: NodeId| !potential_source(*t, id), no_ingress@);
        }
        if no_ingress.len() == 0 {
            let no_egress = select(&ids, &poutput, false);
            proof {
                lemma_listed(*t, ids@, poutput@, false, |id: NodeId| !potential_output(*t, id), no_egress@);
            }
            if no_egress.len() == 0 {
                ReachabilityVerdict::Open
            } else {
                ReachabilityVerdict::ProvenDead(
                    ReachabilityProof::BackwardClosedNoEgress { region: no_egress },
                )
            }
        } else {
            ReachabilityVerdict::ProvenDead(
                ReachabilityProof::ForwardClosedNoIngress { region: no_ingress },
            )
        }
    };
    ReachabilityAnalysis {
        verdict,
        structurally_complete: complete,
        source_reachable_nodes: source_nodes,
        output_reachable_nodes: output_nodes,
        potentially_source_reachable_nodes: potential_source_nodes,
        potentially_output_reachable_nodes: potential_output_nodes,
        input_output_path_link_count: count,
    }
}

/// A proof of death always names a nonempty region; complete coverage is
/// claimed only for a structurally complete topology whose every node is
/// reached from an input and reaches a sink, and whose every link lies on an
/// input-to-sink walk; a malformed snapshot is never judged.
pub proof fn law_verdicts_are_justified(t: PartialTopology, analysis: ReachabilityAnalysis)
    requires
        analysis_of(t, analysis),
    ensures
        analysis.verdict matches ReachabilityVerdict::ProvenDead(dead) ==> proof_region(dead).len() > 0,
        analysis.verdict is CompleteCoverage ==> {
            &&& structurally_complete(t)
            &&& forall|id: NodeId|
                declared_type(t.nodes@, id) is Some ==> #[trigger] source_reached(t, id) && output_reached(t, id)
            &&& path_count(t, t.links@) == t.links@.len()
        },
        !graph_well_formed(t) ==> analysis.verdict is Open,
{
    if let ReachabilityVerdict::ProvenDead(dead) = analysis.verdict {
        let region = proof_region(dead);
        if structurally_complete(t) {
            if some_node(t, |id: NodeId| !source_reached(t, id)) {
                let id = choose|id: NodeId| #[trigger] declared_type(t.nodes@, id) is Some && !source_reached(t, id);
                assert(region.contains(id));
            } else {
                let id = choose|id: NodeId| #[trigger] declared_type(t.nodes@, id) is Some && !output_reached(t, id);
                assert(region.contains(id));
            }
        } else if some_node(t, |id: NodeId| !potential_source(t, id)) {
            let id = choose|id: NodeId| #[trigger] declared_type(t.nodes@, id) is Some && !potential_source(t, id);
            assert(region.contains(id));
        } else {
            let id = choose|id: NodeId| #[trigger] declared_type(t.nodes@, id) is Some && !potential_output(t, id);
            assert(region.contains(id));
        }
    }
    if analysis.verdict is CompleteCoverage {
        assert forall|id: NodeId| declared_type(t.nodes@, id) is Some implies #[trigger] source_reached(t, id)
            && output_reached(t, id) by {
            if !source_reached(t, id) {
                assert((|id: NodeId| !source_reached(t, id))(id));
            } else if !output_reached(t, id) {
                assert((|id: NodeId| !output_reached(t, id))(id));
            }
        }
    }
}

/// `e` continues `t`: the same terminals, every node and link of `t` kept
/// in place, and more nodes and links after them.
pub open spec fn extends(t: PartialTopology, e: PartialTopology) -> bool {
    &&& e.input_count == t.input_count
    &&& e.output_count == t.output_count
    &&& e.discard_count == t.discard_count
    &&& t.nodes@.len() <= e.nodes@.len()
    &&& e.nodes@.subrange(0, t.nodes@.len() as int) == t.nodes@
    &&& t.links@.len() <= e.links@.len()
    &&& e.links@.subrange(0, t.links@.len() as int) == t.links@
}

/// A node declared before more nodes are appended keeps its type, as long
/// as no identifier repeats.
proof fn lemma_declared_kept(nodes: Seq<PhysicalNode>, more: Seq<PhysicalNode>, id: NodeId)
    requires
        nodes.len() <= more.len(),
        more.subrange(0, nodes.len() as int) == nodes,
        !repeated_id(more),
        declared_type(nodes, id) is Some,
    ensures
        declared_type(more, id) == declared_type(nodes, id),
    decreases more.len(),
{
    if more.len() == nodes.len() {
        assert(more =~= nodes);
    } else {
        let prefix = more.drop_last();
        assert(prefix.subrange(0, nodes.len() as int) =~= nodes);
        assert(!repeated_id(prefix)) by {
            if repeated_id(prefix) {
                let (i, j) = choose|i: int, j: int| 0 <= i < j < prefix.len() && prefix[i].id == prefix[j].id;
                assert(more[i] == prefix[i] && more[j] == prefix[j]);
            }
        }
        lemma_declared_kept(nodes, prefix, id);
        lemma_declared_type(nodes, id);
        let i = choose|i: int| 0 <= i < nodes.len() && (#[trigger] nodes[i]).id == id;
        assert(more[i] == nodes[i]);
        if more.last().id == id {
            assert(more[i].id == more[more.len() - 1].id);
        }
    }
}

/// Scanning can only add a refusal, never take one back.
proof fn lemma_malformed_stays(t: PartialTopology, links: Seq<PartialLink>, k: int)
    requires
        0 <= k <= links.len(),
        scan_links(t, links.subrange(0, k)).malformed,
    ensures
        scan_links(t, links).malformed,
    decreases links.len() - k,
{
    if k < links.len() {
        assert(links.subrange(0, k + 1).drop_last() =~= links.subrange(0, k));
        lemma_malformed_stays(t, links, k + 1);
    } else {
        assert(links.subrange(0, k) =~= links);
    }
}

/// Where every port declared in `t` is declared in `e`, links that `t`
/// accepts scan alike in both.
proof fn lemma_scan_same(t: PartialTopology, e: PartialTopology, links: Seq<PartialLink>)
    requires
        !scan_links(t, links).malformed,
        forall|p: ProducerPortRef| #[trigger] producer_declared(t, p) ==> producer_declared(e, p),
        forall|c: ConsumerPortRef| #[trigger] consumer_declared(t, c) ==> consumer_declared(e, c),
    ensures
        scan_links(e, links) == scan_links(t, links),
    decreases links.len(),
{
    if links.len() > 0 {
        let prev = links.drop_last();
        if scan_links(t, prev).malformed {
            assert(links.subrange(0, prev.len() as int) =~= prev);
            lemma_malformed_stays(t, links, prev.len() as int);
        }
        lemma_scan_same(t, e, prev);
    }
}

/// A consumer port of node `b` declared in `e` that scan `s` left free.
pub open spec fn fresh_consumer(e: PartialTopology, s: LinkScan, b: NodeId) -> bool {
    exists|port: u8|
        consumer_declared(e, ConsumerPortRef::Node { node: b, port })
            && !(#[trigger] s.consumers.contains(ConsumerPortRef::Node { node: b, port }))
}

/// A producer port of node `a` declared in `e` that scan `s` left free.
pub open spec fn fresh_producer(e: PartialTopology, s: LinkScan, a: NodeId) -> bool {
    exists|port: u8|
        producer_declared(e, ProducerPortRef::Node { node: a, port })
            && !(#[trigger] s.producers.contains(ProducerPortRef::Node { node: a, port }))
}

/// What accepted links after the first `k` add: each new edge, source or
/// sink occupies a port that the first `k` links left free.
proof fn lemma_scan_growth(e: PartialTopology, links: Seq<PartialLink>, k: int)
    requires
        0 <= k <= links.len(),
        !scan_links(e, links).malformed,
    ensures
        ({
            let s0 = scan_links(e, links.subrange(0, k));
            let s = scan_links(e, links);
            &&& forall|c: ConsumerPortRef| #[trigger] s0.consumers.contains(c) ==> s.consumers.contains(c)
            &&& forall|p: ProducerPortRef| #[trigger] s0.producers.contains(p) ==> s.producers.contains(p)
            &&& forall|a: NodeId, b: NodeId| #[trigger] s.edges.contains((a, b)) ==> (s0.edges.contains((a, b))
                || (fresh_consumer(e, s0, b) && fresh_producer(e, s0, a)))
            &&& forall|b: NodeId| #[trigger] s.sources.contains(b) ==> s0.sources.contains(b) || fresh_consumer(e, s0, b)
            &&& forall|a: NodeId| #[trigger] s.sinks.contains(a) ==> s0.sinks.contains(a) || fresh_producer(e, s0, a)
        }),
    decreases links.len() - k,
{
    if links.len() == k {
        assert(links.subrange(0, k) =~= links);
    } else {
        let prev = links.drop_last();
        assert(prev.subrange(0, k) =~= links.subrange(0, k));
        if scan_links(e, prev).malformed {
            assert(links.subrange(0, prev.len() as int) =~= prev);
            lemma_malformed_stays(e, links, prev.len() as int);
        }
        lemma_scan_growth(e, prev, k);
        let s0 = scan_links(e, links.subrange(0, k));
        let sp = scan_links(e, prev);
        let s = scan_links(e, links);
        let link = links.last();
        assert(s == scan_link(e, sp, link));
        match link.consumer {
            ConsumerPortRef::Node { node: b, port } => {
                if !sp.consumers.contains(link.consumer) && consumer_declared(e, link.consumer) {
                    assert(!s0.consumers.contains(ConsumerPortRef::Node { node: b, port }));
                    assert(fresh_consumer(e, s0, b));
                }
            },
            _ => {},
        }
        match link.producer {
            ProducerPortRef::Node { node: a, port } => {
                if !sp.producers.contains(link.producer) && producer_declared(e, link.producer) {
                    assert(!s0.producers.contains(ProducerPortRef::Node { node: a, port }));
                    assert(fresh_producer(e, s0, a));
                }
            },
            _ => {},
        }
    }
}

/// Facts every extension of a well-formed snapshot shares with it: nodes
/// and ports of `t` keep their declarations, and the links of `t` scan as
/// they did in `t`.
proof fn lemma_extension_scan(t: PartialTopology, e: PartialTopology)
    requires
        graph_well_formed(t),
        graph_well_formed(e),
        extends(t, e),
    ensures
        forall|id: NodeId| #[trigger] declared_type(t.nodes@, id) is Some ==> declared_type(e.nodes@, id)
            == declared_type(t.nodes@, id),
        scan_links(e, e.links@.subrange(0, t.links@.len() as int)) == scan_of(t),
{
    assert forall|id: NodeId| #[trigger] declared_type(t.nodes@, id) is Some implies declared_type(e.nodes@, id)
        == declared_type(t.nodes@, id) by {
        lemma_declared_kept(t.nodes@, e.nodes@, id);
    }
    assert forall|p: ProducerPortRef| #[trigger] producer_declared(t, p) implies producer_declared(e, p) by {
        if let ProducerPortRef::Node { node, .. } = p {
            assert(declared_type(t.nodes@, node) is Some);
        }
    }
    assert forall|c: ConsumerPortRef| #[trigger] consumer_declared(t, c) implies consumer_declared(e, c) by {
        if let ConsumerPortRef::Node { node, .. } = c {
            assert(declared_type(t.nodes@, node) is Some);
        }
    }
    lemma_scan_same(t, e, t.links@);
}

/// A node of `t` outside every walk from an input or an open consumer port
/// stays unreached from the inputs in every well-formed extension.
proof fn lemma_no_ingress(t: PartialTopology, e: PartialTopology, x: NodeId)
    requires
        graph_well_formed(t),
        graph_well_formed(e),
        extends(t, e),
        declared_type(t.nodes@, x) is Some,
        !reached(
            forward(scan_of(t)),
            |r: NodeId| scan_of(t).sources.contains(r) || open_consumer(t, r),
            x,
        ),
    ensures
        !source_reached(e, x),
{
    lemma_extension_scan(t, e);
    lemma_scan_growth(e, e.links@, t.links@.len() as int);
    lemma_scan_names_nodes(t, t.links@);
    let st = scan_of(t);
    let se = scan_of(e);
    if source_reached(e, x) {
        assert forall|m: Set<NodeId>|
            #[trigger] edge_closed(forward(st), m) && holds_roots(
                |r: NodeId| st.sources.contains(r) || open_consumer(t, r),
                m,
            ) implies m.contains(x) by {
            let m2 = Set::new(|id: NodeId| m.contains(id) || declared_type(t.nodes@, id) is None);
            assert(edge_closed(forward(se), m2)) by {
                assert forall|a: NodeId, b: NodeId| #[trigger] forward(se)(a, b) && m2.contains(a)
                    implies m2.contains(b) by {
                    assert(se.edges.contains((a, b)));
                    if declared_type(t.nodes@, b) is Some {
                        if st.edges.contains((a, b)) {
                            assert(declared_type(t.nodes@, a) is Some);
                            assert(m.contains(a));
                            assert(forward(st)(a, b));
                        } else {
                            assert(fresh_consumer(e, st, b));
                            let port = choose|port: u8|
                                consumer_declared(e, ConsumerPortRef::Node { node: b, port })
                                    && !(#[trigger] st.consumers.contains(ConsumerPortRef::Node { node: b, port }));
                            assert(declared_type(e.nodes@, b) == declared_type(t.nodes@, b));
                            assert(open_consumer(t, b));
                            assert((|r: NodeId| st.sources.contains(r) || open_consumer(t, r))(b));
                        }
                    }
                }
            }
            assert(holds_roots(|r: NodeId| se.sources.contains(r), m2)) by {
                assert forall|r: NodeId| #[trigger] se.sources.contains(r) implies m2.contains(r) by {
                    if declared_type(t.nodes@, r) is Some {
                        if !st.sources.contains(r) {
                            assert(fresh_consumer(e, st, r));
                            let port = choose|port: u8|
                                consumer_declared(e, ConsumerPortRef::Node { node: r, port })
                                    && !(#[trigger] st.consumers.contains(ConsumerPortRef::Node { node: r, port }));
                            assert(declared_type(e.nodes@, r) == declared_type(t.nodes@, r));
                            assert(open_consumer(t, r));
                        }
                        assert((|r: NodeId| st.sources.contains(r) || open_consumer(t, r))(r));
                    }
                }
            }
            assert(m2.contains(x));
        }
        assert(false);
    }
}

/// A node of `t` outside every walk back from a sink or an open producer
/// port reaches no sink in any well-formed extension.
proof fn lemma_no_egress(t: PartialTopology, e: PartialTopology, x: NodeId)
    requires
        graph_well_formed(t),
        graph_well_formed(e),
        extends(t, e),
        declared_type(t.nodes@, x) is Some,
        !reached(
            backward(scan_of(t)),
            |r: NodeId| scan_of(t).sinks.contains(r) || open_producer(t, r),
            x,
        ),
    ensures
        !output_reached(e, x),
{
    lemma_extension_scan(t, e);
    lemma_scan_growth(e, e.links@, t.links@.len() as int);
    lemma_scan_names_nodes(t, t.links@);
    let st = scan_of(t);
    let se = scan_of(e);
    if output_reached(e, x) {
        assert forall|m: Set<NodeId>|
            #[trigger] edge_closed(backward(st), m) && holds_roots(
                |r: NodeId| st.sinks.contains(r) || open_producer(t, r),
                m,
            ) implies m.contains(x) by {
            let m2 = Set::new(|id: NodeId| m.contains(id) || declared_type(t.nodes@, id) is None);
            assert(edge_closed(backward(se), m2)) by {
                assert forall|a: NodeId, b: NodeId| #[trigger] backward(se)(a, b) && m2.contains(a)
                    implies m2.contains(b) by {
                    assert(se.edges.contains((b, a)));
                    if declared_type(t.nodes@, b) is Some {
                        if st.edges.contains((b, a)) {
                            assert(declared_type(t.nodes@, a) is Some);
                            assert(m.contains(a));
                            assert(backward(st)(a, b));
                        } else {
                            assert(fresh_producer(e, st, b));
                            let port = choose|port: u8|
                                producer_declared(e, ProducerPortRef::Node { node: b, port })
                                    && !(#[trigger] st.producers.contains(ProducerPortRef::Node { node: b, port }));
                            assert(declared_type(e.nodes@, b) == declared_type(t.nodes@, b));
                            assert(open_producer(t, b));
                            assert((|r: NodeId| st.sinks.contains(r) || open_producer(t, r))(b));
                        }
                    }
                }
            }
            assert(holds_roots(|r: NodeId| se.sinks.contains(r), m2)) by {
                assert forall|r: NodeId| #[trigger] se.sinks.contains(r) implies m2.contains(r) by {
                    if declared_type(t.nodes@, r) is Some {
                        if !st.sinks.contains(r) {
                            assert(fresh_producer(e, st, r));
                            let port = choose|port: u8|
                                producer_declared(e, ProducerPortRef::Node { node: r, port })
                                    && !(#[trigger] st.producers.contains(ProducerPortRef::Node { node: r, port }));
                            assert(declared_type(e.nodes@, r) == declared_type(t.nodes@, r));
                            assert(open_producer(t, r));
                        }
                        assert((|r: NodeId| st.sinks.contains(r) || open_producer(t, r))(r));
                    }
                }
            }
            assert(m2.contains(x));
        }
        assert(false);
    }
}

/// In a structurally complete snapshot no port is left open.
proof fn lemma_complete_has_no_open_port(t: PartialTopology, id: NodeId)
    requires
        structurally_complete(t),
    ensures
        !open_consumer(t, id),
        !open_producer(t, id),
{
    if open_consumer(t, id) {
        let port = choose|port: u8|
            port < declared_type(t.nodes@, id)->Some_0.inputs_of() && !(#[trigger] scan_of(t).consumers.contains(
                ConsumerPortRef::Node { node: id, port },
            ));
        assert(consumer_declared(t, ConsumerPortRef::Node { node: id, port }));
    }
    if open_producer(t, id) {
        let port = choose|port: u8|
            port < declared_type(t.nodes@, id)->Some_0.outputs_of() && !(#[trigger] scan_of(t).producers.contains(
                ProducerPortRef::Node { node: id, port },
            ));
        assert(producer_declared(t, ProducerPortRef::Node { node: id, port }));
    }
}

/// A dead verdict is final: no structurally complete topology that keeps
/// the terminals, nodes and links of `t` and only adds more after them is
/// judged completely covered. The dead region can gain no ingress (or no
/// egress) through any port that `t` left open.
pub proof fn law_dead_verdict_rules_out_covered_completions(
    t: PartialTopology,
    analysis: ReachabilityAnalysis,
    e: PartialTopology,
    completion: ReachabilityAnalysis,
)
    requires
        analysis_of(t, analysis),
        analysis.verdict is ProvenDead,
        extends(t, e),
        structurally_complete(e),
        analysis_of(e, completion),
    ensures
        !(completion.verdict is CompleteCoverage),
{
    assert(graph_well_formed(t));
    let st = scan_of(t);
    let x = if structurally_complete(t) {
        if some_node(t, |id: NodeId| !source_reached(t, id)) {
            let x = choose|id: NodeId| #[trigger] declared_type(t.nodes@, id) is Some && !source_reached(t, id);
            assert(!reached(forward(st), |r: NodeId| st.sources.contains(r) || open_consumer(t, r), x)) by {
                let m = choose|m: Set<NodeId>|
                    #[trigger] edge_closed(forward(st), m) && holds_roots(|r: NodeId| st.sources.contains(r), m)
                        && !m.contains(x);
                assert(holds_roots(|r: NodeId| st.sources.contains(r) || open_consumer(t, r), m)) by {
                    assert forall|r: NodeId| st.sources.contains(r) || open_consumer(t, r)
                        implies #[trigger] m.contains(r) by {
                        lemma_complete_has_no_open_port(t, r);
                        assert((|r: NodeId| st.sources.contains(r))(r));
                    }
                }
            }
            lemma_no_ingress(t, e, x);
            x
        } else {
            let x = choose|id: NodeId| #[trigger] declared_type(t.nodes@, id) is Some && !output_reached(t, id);
            assert(!reached(backward(st), |r: NodeId| st.sinks.contains(r) || open_producer(t, r), x)) by {
                let m = choose|m: Set<NodeId>|
                    #[trigger] edge_closed(backward(st), m) && holds_roots(|r: NodeId| st.sinks.contains(r), m)
                        && !m.contains(x);
                assert(holds_roots(|r: NodeId| st.sinks.contains(r) || open_producer(t, r), m)) by {
                    assert forall|r: NodeId| st.sinks.contains(r) || open_producer(t, r)
                        implies #[trigger] m.contains(r) by {
                        lemma_complete_has_no_open_port(t, r);
                        assert((|r: NodeId| st.sinks.contains(r))(r));
                    }
                }
            }
            lemma_no_egress(t, e, x);
            x
        }
    } else if some_node(t, |id: NodeId| !potential_source(t, id)) {
        let x = choose|id: NodeId| #[trigger] declared_type(t.nodes@, id) is Some && !potential_source(t, id);
        lemma_no_ingress(t, e, x);
        x
    } else {
        let x = choose|id: NodeId| #[trigger] declared_type(t.nodes@, id) is Some && !potential_output(t, id);
        lemma_no_egress(t, e, x);
        x
    };
    lemma_extension_scan(t, e);
    assert(declared_type(e.nodes@, x) is Some);
    if !source_reached(e, x) {
        assert((|id: NodeId| !source_reached(e, id))(x));
    } else {
        assert(!output_reached(e, x));
        assert((|id: NodeId| !output_reached(e, id))(x));
    }
}

} // verus!
