//! The belts that the port-quotient encoding of one accounted profile may use.

use vstd::prelude::*;

use crate::profile::{
    accounting_list, balance_failure, consumers_of, discard_links_of, AccountedProfile, NodeProfile,
    ProfileLinkAccounting,
};
use crate::topology::{
    ConsumerPortRef, DiscardTerminalIndex, InputTerminalIndex, NodeId, NodeType, OutputTerminalIndex, ProducerPortRef,
};

verus! {

/// The nodes of a profile in encoding order: 2-splitters, 3-splitters,
/// 2-mergers, 3-mergers.
pub open spec fn profile_nodes(profile: NodeProfile) -> Seq<NodeType> {
    Seq::new(profile.splitter2 as nat, |i: int| NodeType::Splitter2) + Seq::new(
        profile.splitter3 as nat,
        |i: int| NodeType::Splitter3,
    ) + Seq::new(profile.merger2 as nat, |i: int| NodeType::Merger2) + Seq::new(
        profile.merger3 as nat,
        |i: int| NodeType::Merger3,
    )
}

/// The shape of an encoding: its nodes, external inputs and outputs, and
/// whether a discard sink takes the surplus.
pub struct Layout {
    pub nodes: Seq<NodeType>,
    pub inputs: nat,
    pub outputs: nat,
    pub discard: bool,
}

/// Sources are the inputs, then the nodes.
pub open spec fn source_count(l: Layout) -> nat {
    l.inputs + l.nodes.len()
}

/// The discard sink follows the outputs and the nodes.
pub open spec fn discard_target(l: Layout) -> nat {
    l.outputs + l.nodes.len()
}

/// Targets are the outputs, then the nodes, then the discard sink if any.
pub open spec fn target_count(l: Layout) -> nat {
    discard_target(l) + if l.discard {
        1nat
    } else {
        0nat
    }
}

/// Belts a source can feed: one for an input, a node's producer ports otherwise.
pub open spec fn arity(l: Layout, source: int) -> nat {
    if source < l.inputs {
        1
    } else {
        l.nodes[source - l.inputs].outputs_of()
    }
}

/// Parallel belts from `source` to `target`: none from a node to itself; a
/// source's whole arity to the discard sink; one to an output; to a node, no
/// more than both the source's arity and the node's consumer ports.
pub open spec fn width(l: Layout, source: int, target: int) -> nat {
    if source >= l.inputs && target >= l.outputs && source - l.inputs == target - l.outputs {
        0
    } else if target == discard_target(l) {
        arity(l, source)
    } else if target < l.outputs {
        1
    } else {
        let consumers = l.nodes[target - l.outputs].inputs_of();
        if arity(l, source) < consumers {
            arity(l, source)
        } else {
            consumers
        }
    }
}

/// One candidate belt: copy `copy` of the belts from `source` to `target`.
#[derive(Clone, Copy, Debug, PartialEq, Eq)]
pub struct EncodingEdge {
    pub source: usize,
    pub target: usize,
    pub copy: u8,
}

/// The edge is a candidate belt of the layout.
pub open spec fn edge_in(l: Layout, e: EncodingEdge) -> bool {
    &&& e.source < source_count(l)
    &&& e.target < target_count(l)
    &&& e.copy < width(l, e.source as int, e.target as int)
}

/// `a` comes before `b`, by source, then target, then copy.
pub open spec fn edge_before(a: EncodingEdge, b: EncodingEdge) -> bool {
    a.source < b.source || (a.source == b.source && (a.target < b.target || (a.target == b.target && a.copy
        < b.copy)))
}

/// `edges` lists every candidate belt of the layout once, in order.
pub open spec fn lists_edges(l: Layout, edges: Seq<EncodingEdge>) -> bool {
    &&& forall|k: int| 0 <= k < edges.len() ==> edge_in(l, #[trigger] edges[k])
    &&& forall|a: int, b: int| 0 <= a < b < edges.len() ==> edge_before(#[trigger] edges[a], #[trigger] edges[b])
    &&& forall|e: EncodingEdge| edge_in(l, e) ==> #[trigger] edges.contains(e)
}

/// Appends `count` nodes of `kind`.
fn push_copies(nodes: &mut Vec<NodeType>, kind: NodeType, count: u32)
    ensures
        final(nodes)@ == old(nodes)@ + Seq::new(count as nat, |j: int| kind),
{
    let ghost start = nodes@;
    let mut i: u32 = 0;
    while i < count
        invariant
            i <= count,
            nodes@ == start + Seq::new(i as nat, |j: int| kind),
        decreases count - i,
    {
        nodes.push(kind);
        i = i + 1;
        assert(nodes@ =~= start + Seq::new(i as nat, |j: int| kind));
    }
}

/// The nodes of a profile in encoding order.
pub fn encoding_nodes(profile: NodeProfile) -> (nodes: Vec<NodeType>)
    ensures
        nodes@ == profile_nodes(profile),
{
    let mut nodes: Vec<NodeType> = Vec::new();
    push_copies(&mut nodes, NodeType::Splitter2, profile.splitter2);
    push_copies(&mut nodes, NodeType::Splitter3, profile.splitter3);
    push_copies(&mut nodes, NodeType::Merger2, profile.merger2);
    push_copies(&mut nodes, NodeType::Merger3, profile.merger3);
    assert(nodes@ =~= profile_nodes(profile));
    nodes
}

/// The layout of some nodes, inputs, outputs and discard sink.
pub open spec fn layout(nodes: Seq<NodeType>, inputs: usize, outputs: usize, discard: bool) -> Layout {
    Layout { nodes, inputs: inputs as nat, outputs: outputs as nat, discard }
}

/// The belt position `(source, target, copy)`.
pub open spec fn at(source: usize, target: usize, copy: u8) -> EncodingEdge {
    EncodingEdge { source, target, copy }
}

/// `edges` holds, in order, exactly the candidate belts before `cursor`.
pub open spec fn listed_before(l: Layout, edges: Seq<EncodingEdge>, cursor: EncodingEdge) -> bool {
    &&& forall|k: int| 0 <= k < edges.len() ==> edge_in(l, #[trigger] edges[k]) && edge_before(edges[k], cursor)
    &&& forall|a: int, b: int| 0 <= a < b < edges.len() ==> edge_before(#[trigger] edges[a], #[trigger] edges[b])
    &&& forall|e: EncodingEdge| edge_in(l, e) && edge_before(e, cursor) ==> #[trigger] edges.contains(e)
}

/// The belts a source can feed.
fn source_arity(nodes: &Vec<NodeType>, inputs: usize, source: usize) -> (count: u8)
    requires
        source < inputs + nodes@.len(),
    ensures
        count == arity(layout(nodes@, inputs, 0, false), source as int),
{
    if source < inputs {
        1
    } else {
        nodes[source - inputs].output_port_count()
    }
}

/// Every candidate belt of the encoding of `nodes` between `inputs` external
/// inputs and `outputs` requested outputs, with a discard sink when
/// `discard`, ordered by source, target and copy.
pub fn encoding_edges(nodes: &Vec<NodeType>, inputs: usize, outputs: usize, discard: bool) -> (edges: Vec<
    EncodingEdge,
>)
    requires
        inputs + nodes@.len() <= usize::MAX,
        outputs + nodes@.len() + 1 <= usize::MAX,
    ensures
        lists_edges(layout(nodes@, inputs, outputs, discard), edges@),
{
    let ghost l = layout(nodes@, inputs, outputs, discard);
    let sources = inputs + nodes.len();
    let sink = outputs + nodes.len();
    let targets = if discard {
        sink + 1
    } else {
        sink
    };
    let mut edges: Vec<EncodingEdge> = Vec::new();
    let mut source: usize = 0;
    while source < sources
        invariant
            l == layout(nodes@, inputs, outputs, discard),
            sources == source_count(l),
            sink == discard_target(l),
            targets == target_count(l),
            source <= sources,
            listed_before(l, edges@, at(source, 0, 0)),
        decreases sources - source,
    {
        let spread = source_arity(nodes, inputs, source);
        assert(spread == arity(l, source as int));
        let mut target: usize = 0;
        while target < targets
            invariant
                l == layout(nodes@, inputs, outputs, discard),
                sources == source_count(l),
                sink == discard_target(l),
                targets == target_count(l),
                source < sources,
                target <= targets,
                spread == arity(l, source as int),
                listed_before(l, edges@, at(source, target, 0)),
            decreases targets - target,
        {
            let count: u8 = if source >= inputs && target >= outputs && source - inputs == target - outputs {
                0
            } else if target == sink {
                spread
            } else if target < outputs {
                1
            } else {
                let consumers = nodes[target - outputs].input_port_count();
                if spread < consumers {
                    spread
                } else {
                    consumers
                }
            };
            assert(count == width(l, source as int, target as int));
            let mut copy: u8 = 0;
            while copy < count
                invariant
                    l == layout(nodes@, inputs, outputs, discard),
                    sources == source_count(l),
                    targets == target_count(l),
                    source < sources,
                    target < targets,
                    copy <= count,
                    count == width(l, source as int, target as int),
                    listed_before(l, edges@, at(source, target, copy)),
                decreases count - copy,
            {
                let edge = EncodingEdge { source, target, copy };
                let ghost before = edges@;
                edges.push(edge);
                proof {
                    assert(edge_in(l, edge));
                    assert forall|e: EncodingEdge| edge_in(l, e) && edge_before(e, at(source, target, (copy + 1) as u8))
                        implies #[trigger] edges@.contains(e) by {
                        if e == edge {
                            assert(edges@[before.len() as int] == e);
                        } else {
                            assert(edge_before(e, at(source, target, copy)));
                            assert(before.contains(e));
                            let k = choose|k: int| 0 <= k < before.len() && before[k] == e;
                            assert(edges@[k] == e);
                        }
                    }
                }
                copy = copy + 1;
            }
            proof {
                assert forall|e: EncodingEdge| edge_in(l, e) && edge_before(e, at(source, (target + 1) as usize, 0))
                    implies #[trigger] edges@.contains(e) by {
                    assert(edge_before(e, at(source, target, copy)));
                }
            }
            target = target + 1;
        }
        proof {
            assert forall|e: EncodingEdge| edge_in(l, e) && edge_before(e, at((source + 1) as usize, 0, 0))
                implies #[trigger] edges@.contains(e) by {
                assert(edge_before(e, at(source, target, 0)));
            }
        }
        source = source + 1;
    }
    proof {
        assert forall|e: EncodingEdge| edge_in(l, e) implies #[trigger] edges@.contains(e) by {
            assert(edge_before(e, at(source, 0, 0)));
        }
    }
    edges
}

/// The first candidate belt from `source` into requested output `output`:
/// fixing it splits the encoding's models into disjoint roots.
pub fn output_source_edge(edges: &Vec<EncodingEdge>, output: usize, source: usize) -> (found: Option<usize>)
    ensures
        found is None <==> !exists|k: int|
            0 <= k < edges@.len() && (#[trigger] edges@[k]).target == output && edges@[k].source == source,
        found matches Some(k) ==> k < edges@.len() && edges@[k as int].target == output && edges@[k as int].source
            == source && forall|j: int|
            0 <= j < k ==> !((#[trigger] edges@[j]).target == output && edges@[j].source == source),
{
    let mut k: usize = 0;
    while k < edges.len()
        invariant
            k <= edges@.len(),
            forall|j: int| 0 <= j < k ==> !((#[trigger] edges@[j]).target == output && edges@[j].source == source),
        decreases edges@.len() - k,
    {
        if edges[k].target == output && edges[k].source == source {
            return Some(k);
        }
        k = k + 1;
    }
    None
}

/// Active belts among the first `k` that leave `source`.
pub open spec fn source_uses(edges: Seq<EncodingEdge>, active: Seq<bool>, k: int, source: usize) -> nat
    decreases k,
{
    if k <= 0 {
        0
    } else {
        source_uses(edges, active, k - 1, source) + if active[k - 1] && edges[k - 1].source == source {
            1nat
        } else {
            0nat
        }
    }
}

/// Active belts among the first `k` that enter `target`.
pub open spec fn target_uses(edges: Seq<EncodingEdge>, active: Seq<bool>, k: int, target: usize) -> nat
    decreases k,
{
    if k <= 0 {
        0
    } else {
        target_uses(edges, active, k - 1, target) + if active[k - 1] && edges[k - 1].target == target {
            1nat
        } else {
            0nat
        }
    }
}

/// One belt of a decoded model.
#[derive(Clone, Copy, Debug, PartialEq, Eq)]
pub struct DecodedLink {
    pub producer: ProducerPortRef,
    pub consumer: ConsumerPortRef,
}

/// The belt that active edge `k` stands for: an input, or the next free
/// producer port of its node; an output, the next discard line, or the next
/// free consumer port of its node.
pub open spec fn decoded_link(l: Layout, edges: Seq<EncodingEdge>, active: Seq<bool>, k: int) -> DecodedLink {
    let e = edges[k];
    let producer = if e.source < l.inputs {
        ProducerPortRef::Input(InputTerminalIndex(e.source as u32))
    } else {
        ProducerPortRef::Node {
            node: NodeId((e.source - l.inputs) as u32),
            port: source_uses(edges, active, k, e.source) as u8,
        }
    };
    let consumer = if e.target == discard_target(l) {
        ConsumerPortRef::Discard(DiscardTerminalIndex(target_uses(edges, active, k, e.target) as u32))
    } else if e.target < l.outputs {
        ConsumerPortRef::Output(OutputTerminalIndex(e.target as u32))
    } else {
        ConsumerPortRef::Node {
            node: NodeId((e.target - l.outputs) as u32),
            port: target_uses(edges, active, k, e.target) as u8,
        }
    };
    DecodedLink { producer, consumer }
}

/// The belts of the first `k` edges that the model makes active, in order.
pub open spec fn decoded_links(l: Layout, edges: Seq<EncodingEdge>, active: Seq<bool>, k: int) -> Seq<DecodedLink>
    decreases k,
{
    if k <= 0 {
        Seq::empty()
    } else if active[k - 1] {
        decoded_links(l, edges, active, k - 1).push(decoded_link(l, edges, active, k - 1))
    } else {
        decoded_links(l, edges, active, k - 1)
    }
}

/// The belts of a model that makes `active` the edges it sets.
pub fn decode_links(
    nodes: &Vec<NodeType>,
    inputs: usize,
    outputs: usize,
    discard: bool,
    edges: &Vec<EncodingEdge>,
    active: &Vec<bool>,
) -> (links: Vec<DecodedLink>)
    requires
        lists_edges(layout(nodes@, inputs, outputs, discard), edges@),
        active@.len() == edges@.len(),
        inputs + nodes@.len() <= usize::MAX,
        outputs + nodes@.len() + 1 <= usize::MAX,
    ensures
        links@ == decoded_links(layout(nodes@, inputs, outputs, discard), edges@, active@, edges@.len() as int),
{
    let ghost l = layout(nodes@, inputs, outputs, discard);
    let sources = inputs + nodes.len();
    let sink = outputs + nodes.len();
    let targets = sink + 1;
    let mut leaving: Vec<usize> = Vec::new();
    let mut s: usize = 0;
    while s < sources
        invariant
            s <= sources,
            leaving@.len() == s,
            forall|j: int| 0 <= j < s ==> leaving@[j] == 0,
        decreases sources - s,
    {
        leaving.push(0);
        s = s + 1;
    }
    let mut entering: Vec<usize> = Vec::new();
    let mut t: usize = 0;
    while t < targets
        invariant
            t <= targets,
            entering@.len() == t,
            forall|j: int| 0 <= j < t ==> entering@[j] == 0,
        decreases targets - t,
    {
        entering.push(0);
        t = t + 1;
    }
    let mut links: Vec<DecodedLink> = Vec::new();
    let mut k: usize = 0;
    while k < edges.len()
        invariant
            l == layout(nodes@, inputs, outputs, discard),
            lists_edges(l, edges@),
            active@.len() == edges@.len(),
            sources == source_count(l),
            sink == discard_target(l),
            targets == sink + 1,
            targets >= target_count(l),
            k <= edges@.len(),
            leaving@.len() == sources,
            entering@.len() == targets,
            forall|j: int| 0 <= j < sources ==> #[trigger] leaving@[j] == source_uses(edges@, active@, k as int, j as usize),
            forall|j: int| 0 <= j < targets ==> #[trigger] entering@[j] == target_uses(edges@, active@, k as int, j as usize),
            forall|j: int| 0 <= j < sources ==> leaving@[j] <= k,
            forall|j: int| 0 <= j < targets ==> entering@[j] <= k,
            links@ == decoded_links(l, edges@, active@, k as int),
        decreases edges@.len() - k,
    {
        let edge = edges[k];
        assert(edge_in(l, edges@[k as int]));
        if active[k] {
            let producer = if edge.source < inputs {
                ProducerPortRef::Input(InputTerminalIndex(edge.source as u32))
            } else {
                ProducerPortRef::Node { node: NodeId((edge.source - inputs) as u32), port: leaving[edge.source] as u8 }
            };
            let consumer = if edge.target == sink {
                ConsumerPortRef::Discard(DiscardTerminalIndex(entering[edge.target] as u32))
            } else if edge.target < outputs {
                ConsumerPortRef::Output(OutputTerminalIndex(edge.target as u32))
            } else {
                ConsumerPortRef::Node { node: NodeId((edge.target - outputs) as u32), port: entering[edge.target] as u8 }
            };
            links.push(DecodedLink { producer, consumer });
            leaving.set(edge.source, leaving[edge.source] + 1);
            entering.set(edge.target, entering[edge.target] + 1);
        }
        proof {
            assert forall|j: int| 0 <= j < sources implies #[trigger] leaving@[j] == source_uses(
                edges@,
                active@,
                k + 1,
                j as usize,
            ) by {}
            assert forall|j: int| 0 <= j < targets implies #[trigger] entering@[j] == target_uses(
                edges@,
                active@,
                k + 1,
                j as usize,
            ) by {}
        }
        k = k + 1;
    }
    links
}

/// Belts that each target takes: one per requested output, every consumer
/// port of a node, and the profile's discard lines at the discard sink.
pub open spec fn belt_count(l: Layout, discard_links: nat, target: int) -> nat {
    if target == discard_target(l) {
        discard_links
    } else if target < l.outputs {
        1
    } else {
        l.nodes[target - l.outputs].inputs_of()
    }
}

/// Consumer ports of some nodes.
pub open spec fn consumer_ports(nodes: Seq<NodeType>) -> int
    decreases nodes.len(),
{
    if nodes.len() == 0 {
        0
    } else {
        consumer_ports(nodes.drop_last()) + nodes.last().inputs_of()
    }
}

/// Belts straight from an external input to a requested output or the
/// discard sink, when `link_count` operator links are asked for: every
/// operator input is fed by an operator or an input, and every input feeds
/// an operator, an output or the sink, so `L - inputs' reach into nodes`
/// settles it; a negative count means the profile cannot meet `L`.
pub open spec fn direct_terminal_links(link_count: int, inputs: int, nodes: Seq<NodeType>) -> int {
    link_count + inputs - consumer_ports(nodes)
}

/// The belt structure of the port-quotient encoding of one accounted profile.
#[derive(Clone, Debug, PartialEq, Eq)]
pub struct EncodingLayout {
    pub nodes: Vec<NodeType>,
    pub edges: Vec<EncodingEdge>,
    /// Belts each target takes, outputs first, then nodes, then the discard sink if any.
    pub counts: Vec<u32>,
    /// Direct terminal belts, or `None` when the profile cannot meet its link count.
    pub direct: Option<u128>,
    pub inputs: usize,
    pub outputs: usize,
}

/// The layout of `layout`'s fields.
pub open spec fn layout_of(e: EncodingLayout, discard: bool) -> Layout {
    layout(e.nodes@, e.inputs, e.outputs, discard)
}

/// Lays out the encoding of `task` between `inputs` external inputs and
/// `outputs` requested outputs: its nodes, every candidate belt, the belts
/// each target takes, and the direct terminal belts that the link count asks for.
pub fn plan_encoding(inputs: usize, outputs: usize, task: AccountedProfile) -> (plan: Option<EncodingLayout>)
    ensures
        plan is None <==> inputs + nodes_in(task.profile) > usize::MAX || outputs + nodes_in(task.profile) + 1
            > usize::MAX,
        plan matches Some(e) ==> {
            let l = layout_of(e, task.accounting.discard_link_count > 0);
            &&& e.nodes@ == profile_nodes(task.profile)
            &&& e.inputs == inputs
            &&& e.outputs == outputs
            &&& lists_edges(l, e.edges@)
            &&& e.counts@.len() == target_count(l)
            &&& forall|t: int| 0 <= t < e.counts@.len() ==> #[trigger] e.counts@[t] == belt_count(
                l,
                task.accounting.discard_link_count as nat,
                t,
            )
            &&& (direct_terminal_links(task.accounting.link_count as int, inputs as int, e.nodes@) < 0
                <==> e.direct is None)
            &&& e.direct matches Some(d) ==> d == direct_terminal_links(
                task.accounting.link_count as int,
                inputs as int,
                e.nodes@,
            )
        },
{
    let profile = task.profile;
    let total = profile.splitter2 as u64 + profile.splitter3 as u64 + profile.merger2 as u64 + profile.merger3 as u64;
    if total > usize::MAX as u64 {
        return None;
    }
    let count = total as usize;
    if inputs > usize::MAX - count || outputs >= usize::MAX - count {
        return None;
    }
    let nodes = encoding_nodes(profile);
    assert(nodes@.len() == count);
    let discard = task.accounting.discard_link_count > 0;
    let edges = encoding_edges(&nodes, inputs, outputs, discard);
    let ghost l = layout(nodes@, inputs, outputs, discard);
    let sink = outputs + nodes.len();
    let targets = if discard {
        sink + 1
    } else {
        sink
    };
    let mut counts: Vec<u32> = Vec::new();
    let mut t: usize = 0;
    while t < targets
        invariant
            l == layout(nodes@, inputs, outputs, discard),
            sink == discard_target(l),
            targets == target_count(l),
            t <= targets,
            counts@.len() == t,
            forall|j: int| 0 <= j < t ==> #[trigger] counts@[j] == belt_count(
                l,
                task.accounting.discard_link_count as nat,
                j,
            ),
        decreases targets - t,
    {
        let c: u32 = if t == sink {
            task.accounting.discard_link_count
        } else if t < outputs {
            1
        } else {
            nodes[t - outputs].input_port_count() as u32
        };
        counts.push(c);
        t = t + 1;
    }
    let mut ports: u64 = 0;
    let mut k: usize = 0;
    while k < nodes.len()
        invariant
            k <= nodes@.len(),
            nodes@.len() == count,
            count <= total,
            total <= 4 * 0xffff_ffffu64,
            ports == consumer_ports(nodes@.take(k as int)),
            ports <= 3 * k,
        decreases nodes@.len() - k,
    {
        proof {
            assert(nodes@.take(k + 1).drop_last() =~= nodes@.take(k as int));
        }
        ports = ports + nodes[k].input_port_count() as u64;
        k = k + 1;
    }
    proof {
        assert(nodes@.take(nodes@.len() as int) =~= nodes@);
    }
    let reach = task.accounting.link_count as u128 + inputs as u128;
    let needed = ports as u128;
    let direct = if reach < needed {
        None
    } else {
        Some(reach - needed)
    };
    Some(EncodingLayout { nodes, edges, counts, direct, inputs, outputs })
}

/// Nodes of a profile.
pub open spec fn nodes_in(profile: NodeProfile) -> int {
    profile.splitter2 + profile.splitter3 + profile.merger2 + profile.merger3
}

/// Belts that the first `t` targets take together.
pub open spec fn belts_taken(l: Layout, discard_links: nat, t: int) -> int
    decreases t,
{
    if t <= 0 {
        0
    } else {
        belts_taken(l, discard_links, t - 1) + belt_count(l, discard_links, t - 1)
    }
}

proof fn lemma_consumer_ports_append(a: Seq<NodeType>, b: Seq<NodeType>)
    ensures
        consumer_ports(a + b) == consumer_ports(a) + consumer_ports(b),
    decreases b.len(),
{
    if b.len() > 0 {
        assert((a + b).drop_last() =~= a + b.drop_last());
        lemma_consumer_ports_append(a, b.drop_last());
    } else {
        assert(a + b =~= a);
    }
}

proof fn lemma_consumer_ports_copies(n: nat, kind: NodeType)
    ensures
        consumer_ports(Seq::new(n, |i: int| kind)) == n * kind.inputs_of(),
    decreases n,
{
    if n > 0 {
        assert(Seq::new(n, |i: int| kind).drop_last() =~= Seq::new((n - 1) as nat, |i: int| kind));
        lemma_consumer_ports_copies((n - 1) as nat, kind);
        assert(n * kind.inputs_of() == (n - 1) * kind.inputs_of() + kind.inputs_of()) by (nonlinear_arith);
    }
}

proof fn lemma_profile_consumer_ports(profile: NodeProfile)
    ensures
        consumer_ports(profile_nodes(profile)) == consumers_of(profile),
{
    let a = Seq::new(profile.splitter2 as nat, |i: int| NodeType::Splitter2);
    let b = Seq::new(profile.splitter3 as nat, |i: int| NodeType::Splitter3);
    let c = Seq::new(profile.merger2 as nat, |i: int| NodeType::Merger2);
    let d = Seq::new(profile.merger3 as nat, |i: int| NodeType::Merger3);
    lemma_consumer_ports_append(a + b + c, d);
    lemma_consumer_ports_append(a + b, c);
    lemma_consumer_ports_append(a, b);
    lemma_consumer_ports_copies(profile.splitter2 as nat, NodeType::Splitter2);
    lemma_consumer_ports_copies(profile.splitter3 as nat, NodeType::Splitter3);
    lemma_consumer_ports_copies(profile.merger2 as nat, NodeType::Merger2);
    lemma_consumer_ports_copies(profile.merger3 as nat, NodeType::Merger3);
}

proof fn lemma_belts_taken(l: Layout, discard_links: nat, t: int)
    requires
        0 <= t <= target_count(l),
    ensures
        t <= l.outputs ==> belts_taken(l, discard_links, t) == t,
        l.outputs <= t <= discard_target(l) ==> belts_taken(l, discard_links, t) == l.outputs + consumer_ports(
            l.nodes.take(t - l.outputs),
        ),
        t == discard_target(l) + 1 ==> belts_taken(l, discard_links, t) == l.outputs + consumer_ports(l.nodes)
            + discard_links,
    decreases t,
{
    if t > 0 {
        lemma_belts_taken(l, discard_links, t - 1);
        if l.outputs < t <= discard_target(l) {
            let k = t - l.outputs;
            assert(l.nodes.take(k).drop_last() =~= l.nodes.take(k - 1));
            assert(l.nodes.take(k).last() == l.nodes[k - 1]);
        }
        if t == discard_target(l) + 1 {
            assert(l.nodes.take(l.nodes.len() as int) =~= l.nodes);
        }
    } else {
        assert(l.nodes.take(0) =~= Seq::<NodeType>::empty());
    }
}

/// The encoding of an accounted profile takes exactly the profile's physical
/// links: one belt per requested output, one per node consumer port, and
/// the profile's discard lines.
pub proof fn law_encoding_takes_every_physical_link(
    profile: NodeProfile,
    input_count: u32,
    output_count: u32,
    surplus: (bool, nat, nat),
    capacity: (bool, nat, nat),
    list: Seq<ProfileLinkAccounting>,
    k: int,
)
    requires
        balance_failure(profile, input_count, output_count) is None,
        accounting_list(profile, input_count, output_count, surplus, capacity, list),
        0 <= k < list.len(),
    ensures
        ({
            let a = list[k];
            let l = Layout {
                nodes: profile_nodes(profile),
                inputs: input_count as nat,
                outputs: output_count as nat,
                discard: a.discard_link_count > 0,
            };
            belts_taken(l, a.discard_link_count as nat, target_count(l) as int) == a.physical_link_count
        }),
{
    let a = list[k];
    let l = Layout {
        nodes: profile_nodes(profile),
        inputs: input_count as nat,
        outputs: output_count as nat,
        discard: a.discard_link_count > 0,
    };
    lemma_profile_consumer_ports(profile);
    lemma_belts_taken(l, a.discard_link_count as nat, target_count(l) as int);
    let d = discard_links_of(profile, input_count, output_count);
    assert(crate::profile::surplus_fits(profile, input_count, output_count, surplus, capacity));
    assert(d >= 0);
    assert(a.discard_link_count == d);
    assert(l.nodes.take(l.nodes.len() as int) =~= l.nodes);
}

/// If belts `a` and then `b` enter the same node, `a` takes the lower consumer port.
pub open spec fn consumer_ports_ascend(a: DecodedLink, b: DecodedLink) -> bool {
    match (a.consumer, b.consumer) {
        (ConsumerPortRef::Node { node: na, port: pa }, ConsumerPortRef::Node { node: nb, port: pb }) => na == nb ==> pa
            < pb,
        _ => true,
    }
}

/// If belts `a` and then `b` leave the same node, `a` takes the lower producer port.
pub open spec fn producer_ports_ascend(a: DecodedLink, b: DecodedLink) -> bool {
    match (a.producer, b.producer) {
        (ProducerPortRef::Node { node: na, port: pa }, ProducerPortRef::Node { node: nb, port: pb }) => na == nb ==> pa
            < pb,
        _ => true,
    }
}

proof fn lemma_uses_bounded(edges: Seq<EncodingEdge>, active: Seq<bool>, k: int, j: usize)
    requires
        0 <= k,
    ensures
        source_uses(edges, active, k, j) <= k,
        target_uses(edges, active, k, j) <= k,
    decreases k,
{
    if k > 0 {
        lemma_uses_bounded(edges, active, k - 1, j);
    }
}

proof fn lemma_uses_monotone(edges: Seq<EncodingEdge>, active: Seq<bool>, i: int, k: int, j: usize)
    requires
        0 <= i <= k,
    ensures
        source_uses(edges, active, i, j) <= source_uses(edges, active, k, j),
        target_uses(edges, active, i, j) <= target_uses(edges, active, k, j),
    decreases k - i,
{
    if i < k {
        lemma_uses_monotone(edges, active, i, k - 1, j);
    }
}

/// Every node port named by the first `k` decoded belts is below the number
/// of active belts among the first `k` edges at that node.
pub proof fn law_decoded_ports_are_below_belt_counts(l: Layout, edges: Seq<EncodingEdge>, active: Seq<bool>, k: int)
    requires
        lists_edges(l, edges),
        active.len() == edges.len(),
        0 <= k <= edges.len(),
        edges.len() < 256,
        l.inputs + l.nodes.len() <= u32::MAX,
        l.outputs + l.nodes.len() <= u32::MAX,
    ensures
        forall|i: int| 0 <= i < decoded_links(l, edges, active, k).len() ==> {
            let d = #[trigger] decoded_links(l, edges, active, k)[i];
            &&& d.consumer matches ConsumerPortRef::Node { node, port } ==> port < target_uses(
                edges,
                active,
                k,
                (node.0 + l.outputs) as usize,
            )
            &&& d.producer matches ProducerPortRef::Node { node, port } ==> port < source_uses(
                edges,
                active,
                k,
                (node.0 + l.inputs) as usize,
            )
        },
    decreases k,
{
    if k > 0 {
        law_decoded_ports_are_below_belt_counts(l, edges, active, k - 1);
        let prev = decoded_links(l, edges, active, k - 1);
        let cur = decoded_links(l, edges, active, k);
        assert forall|i: int| 0 <= i < cur.len() implies {
            let d = #[trigger] cur[i];
            &&& d.consumer matches ConsumerPortRef::Node { node, port } ==> port < target_uses(
                edges,
                active,
                k,
                (node.0 + l.outputs) as usize,
            )
            &&& d.producer matches ProducerPortRef::Node { node, port } ==> port < source_uses(
                edges,
                active,
                k,
                (node.0 + l.inputs) as usize,
            )
        } by {
            let d = cur[i];
            if i < prev.len() {
                assert(d == prev[i]);
                if let ConsumerPortRef::Node { node, port } = d.consumer {
                    lemma_uses_monotone(edges, active, k - 1, k, (node.0 + l.outputs) as usize);
                }
                if let ProducerPortRef::Node { node, port } = d.producer {
                    lemma_uses_monotone(edges, active, k - 1, k, (node.0 + l.inputs) as usize);
                }
            } else {
                let e = edges[k - 1];
                assert(edge_in(l, e));
                assert(d == decoded_link(l, edges, active, k - 1));
                lemma_uses_bounded(edges, active, k - 1, e.target);
                lemma_uses_bounded(edges, active, k - 1, e.source);
            }
        }
    }
}

/// The ports of a decoded model are never shared and follow belt order: of
/// two belts that enter the same node, the earlier takes the lower consumer
/// port, and likewise for two that leave the same node and its producer
/// ports. With every port below the node's number of belts, each node's
/// ports are numbered 0, 1, ... in belt order.
pub proof fn law_decoded_ports_are_distinct(l: Layout, edges: Seq<EncodingEdge>, active: Seq<bool>)
    requires
        lists_edges(l, edges),
        active.len() == edges.len(),
        edges.len() < 256,
        l.inputs + l.nodes.len() <= u32::MAX,
        l.outputs + l.nodes.len() <= u32::MAX,
    ensures
        forall|i: int, j: int|
            0 <= i < j < decoded_links(l, edges, active, edges.len() as int).len() ==> {
                let a = #[trigger] decoded_links(l, edges, active, edges.len() as int)[i];
                let b = #[trigger] decoded_links(l, edges, active, edges.len() as int)[j];
                &&& consumer_ports_ascend(a, b)
                &&& producer_ports_ascend(a, b)
            },
{
    lemma_distinct_upto(l, edges, active, edges.len() as int);
}

proof fn lemma_distinct_upto(l: Layout, edges: Seq<EncodingEdge>, active: Seq<bool>, k: int)
    requires
        lists_edges(l, edges),
        active.len() == edges.len(),
        0 <= k <= edges.len(),
        edges.len() < 256,
        l.inputs + l.nodes.len() <= u32::MAX,
        l.outputs + l.nodes.len() <= u32::MAX,
    ensures
        forall|i: int, j: int|
            0 <= i < j < decoded_links(l, edges, active, k).len() ==> {
                let a = #[trigger] decoded_links(l, edges, active, k)[i];
                let b = #[trigger] decoded_links(l, edges, active, k)[j];
                &&& consumer_ports_ascend(a, b)
                &&& producer_ports_ascend(a, b)
            },
    decreases k,
{
    if k > 0 {
        lemma_distinct_upto(l, edges, active, k - 1);
        law_decoded_ports_are_below_belt_counts(l, edges, active, k - 1);
        let prev = decoded_links(l, edges, active, k - 1);
        let cur = decoded_links(l, edges, active, k);
        if active[k - 1] {
            let e = edges[k - 1];
            assert(edge_in(l, e));
            lemma_uses_bounded(edges, active, k - 1, e.target);
            lemma_uses_bounded(edges, active, k - 1, e.source);
            let last = cur[prev.len() as int];
            assert(last == decoded_link(l, edges, active, k - 1));
            assert forall|i: int| 0 <= i < prev.len() implies {
                let a = #[trigger] cur[i];
                &&& consumer_ports_ascend(a, last)
                &&& producer_ports_ascend(a, last)
            } by {
                assert(cur[i] == prev[i]);
            }
        }
    }
}

} // verus!
