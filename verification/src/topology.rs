//! Identities of structural topology decisions and canonical state keys.

use vstd::prelude::*;

use crate::profile::NodeProfile;
use crate::sorted::RankedId;

verus! {

/// Identity of one active structural link decision.
#[derive(Clone, Copy, Debug, PartialEq, Eq, PartialOrd, Ord, Hash)]
pub struct DecisionId(pub u64);

impl RankedId for DecisionId {
    open spec fn rank(self) -> int {
        self.0 as int
    }

    fn rank_value(&self) -> (r: u64) {
        self.0
    }

    proof fn lemma_rank_injective(a: Self, b: Self) {
    }
}

/// Canonical byte identity of an induced partial-topology state.
#[derive(Clone, Debug, PartialEq, Eq, PartialOrd, Ord, Hash)]
pub struct StateKey {
    bytes: Vec<u8>,
}

impl View for StateKey {
    type V = Seq<u8>;

    closed spec fn view(&self) -> Seq<u8> {
        self.bytes@
    }
}

impl StateKey {
    /// Wraps an already canonical encoding.
    pub fn new(bytes: Vec<u8>) -> (key: Self)
        ensures
            key@ == bytes@,
    {
        StateKey { bytes }
    }

    /// The canonical encoding.
    pub fn as_bytes(&self) -> (bytes: &[u8])
        ensures
            bytes@ == self@,
    {
        self.bytes.as_slice()
    }

    /// Whether two keys hold the same canonical encoding.
    pub fn same_as(&self, other: &StateKey) -> (same: bool)
        ensures
            same == (self@ == other@),
    {
        if self.bytes.len() != other.bytes.len() {
            return false;
        }
        let mut i: usize = 0;
        while i < self.bytes.len()
            invariant
                self.bytes.len() == other.bytes.len(),
                i <= self.bytes.len(),
                forall|k: int| 0 <= k < i ==> self.bytes@[k] == other.bytes@[k],
            decreases self.bytes.len() - i,
        {
            if self.bytes[i] != other.bytes[i] {
                return false;
            }
            i = i + 1;
        }
        assert(self@ =~= other@);
        true
    }

    /// An independent copy of the key.
    pub fn duplicate(&self) -> (copy: StateKey)
        ensures
            copy@ == self@,
    {
        StateKey { bytes: self.bytes.clone() }
    }
}

/// Identity of one physical node.
#[derive(Clone, Copy, Debug, PartialEq, Eq, PartialOrd, Ord, Hash, Structural)]
pub struct NodeId(pub u32);

impl RankedId for NodeId {
    open spec fn rank(self) -> int {
        self.0 as int
    }

    fn rank_value(&self) -> (r: u64) {
        self.0 as u64
    }

    proof fn lemma_rank_injective(a: Self, b: Self) {
    }
}

/// The kinds of physical node.
#[derive(Clone, Copy, Debug, PartialEq, Eq, PartialOrd, Ord, Hash, Structural)]
pub enum NodeType {
    Splitter2,
    Splitter3,
    Merger2,
    Merger3,
}

impl NodeType {
    /// Number of producer (output) ports.
    pub open spec fn outputs_of(self) -> nat {
        match self {
            NodeType::Splitter2 => 2,
            NodeType::Splitter3 => 3,
            NodeType::Merger2 => 1,
            NodeType::Merger3 => 1,
        }
    }

    /// Number of consumer (input) ports.
    pub open spec fn inputs_of(self) -> nat {
        match self {
            NodeType::Splitter2 => 1,
            NodeType::Splitter3 => 1,
            NodeType::Merger2 => 2,
            NodeType::Merger3 => 3,
        }
    }

    /// Number of producer (output) ports.
    pub fn output_port_count(&self) -> (count: u8)
        ensures
            count == self.outputs_of(),
    {
        match self {
            NodeType::Splitter2 => 2,
            NodeType::Splitter3 => 3,
            NodeType::Merger2 => 1,
            NodeType::Merger3 => 1,
        }
    }

    /// Number of consumer (input) ports.
    pub fn input_port_count(&self) -> (count: u8)
        ensures
            count == self.inputs_of(),
    {
        match self {
            NodeType::Splitter2 => 1,
            NodeType::Splitter3 => 1,
            NodeType::Merger2 => 2,
            NodeType::Merger3 => 3,
        }
    }
}

/// Index of an external input terminal.
#[derive(Clone, Copy, Debug, PartialEq, Eq, PartialOrd, Ord, Hash, Structural)]
pub struct InputTerminalIndex(pub u32);

/// Index of a requested output terminal.
#[derive(Clone, Copy, Debug, PartialEq, Eq, PartialOrd, Ord, Hash, Structural)]
pub struct OutputTerminalIndex(pub u32);

/// Index of an anonymous discard terminal.
#[derive(Clone, Copy, Debug, PartialEq, Eq, PartialOrd, Ord, Hash, Structural)]
pub struct DiscardTerminalIndex(pub u32);

/// A port that feeds a link.
#[derive(Clone, Copy, Debug, PartialEq, Eq, PartialOrd, Ord, Hash, Structural)]
pub enum ProducerPortRef {
    Input(InputTerminalIndex),
    Node { node: NodeId, port: u8 },
}

/// A port that a link feeds.
#[derive(Clone, Copy, Debug, PartialEq, Eq, PartialOrd, Ord, Hash, Structural)]
pub enum ConsumerPortRef {
    Output(OutputTerminalIndex),
    Discard(DiscardTerminalIndex),
    Node { node: NodeId, port: u8 },
}

/// A materialized node.
#[derive(Clone, Copy, Debug, PartialEq, Eq)]
pub struct PhysicalNode {
    pub id: NodeId,
    pub node_type: NodeType,
}

/// A directed physical link between two ports.
#[derive(Clone, Copy, Debug, PartialEq, Eq)]
pub struct PartialLink {
    pub producer: ProducerPortRef,
    pub consumer: ConsumerPortRef,
}

/// What reachability reads of a partial physical topology: terminal
/// counts, materialized nodes and links, and the profile still to place.
#[derive(Clone, Debug, PartialEq, Eq)]
pub struct PartialTopology {
    pub input_count: usize,
    pub output_count: usize,
    pub discard_count: u32,
    pub nodes: Vec<PhysicalNode>,
    pub links: Vec<PartialLink>,
    pub remaining_profile: NodeProfile,
}

} // verus!
