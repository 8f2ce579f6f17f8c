//! Counters of one fixed-profile search and their exact merge.

use vstd::prelude::*;

use crate::no_good::{
    lemma_lex_antisymmetric, lemma_lex_transitive, lemma_lex_zero_equal, lemma_rank_order_total, lex,
    rank_order, ranked_lex,
};
use crate::proof_ledger::{key_below, key_order};
use crate::topology::{ConsumerPortRef, PartialLink, PartialTopology, ProducerPortRef};

verus! {

/// Structural and timing instrumentation of one search.
#[derive(Clone, Copy, Debug, Default, PartialEq, Eq)]
pub struct SearchInstrumentation {
    pub raw_structural_decisions: u64,
    pub canonical_states_retained: u64,
    pub canonical_duplicates_eliminated: u64,
    pub propagation_contradictions: u64,
    pub capacity_prunes: u64,
    pub lower_bound_prunes: u64,
    pub scc_solves: u64,
    pub scc_cache_hits: u64,
    pub canonicalization_time_ns: u64,
    pub algebra_time_ns: u64,
    pub peak_state_cache_size: u64,
    pub peak_memory_bytes: u64,
    pub wall_time_ms: u64,
}

/// Additional counters local to one fixed-profile search.
#[derive(Clone, Copy, Debug, Default, PartialEq, Eq)]
pub struct ProfileSearchStats {
    pub instrumentation: SearchInstrumentation,
    pub state_cache_hits: u64,
    pub complete_topologies: u64,
    pub rejected_complete_topologies: u64,
    pub validated_cyclic_topologies: u64,
}

/// `a + b`, saturated at `u64::MAX`.
pub open spec fn saturating(a: u64, b: u64) -> u64 {
    if a + b > u64::MAX {
        u64::MAX
    } else {
        (a + b) as u64
    }
}

/// The larger of `a` and `b`.
pub open spec fn larger(a: u64, b: u64) -> u64 {
    if a >= b {
        a
    } else {
        b
    }
}

/// `after` is `before` merged with `child`: counts and durations add
/// (saturating), peaks take the maximum.
pub open spec fn merged(before: ProfileSearchStats, child: ProfileSearchStats, after: ProfileSearchStats) -> bool {
    &&& after.instrumentation.raw_structural_decisions == saturating(before.instrumentation.raw_structural_decisions, child.instrumentation.raw_structural_decisions)
    &&& after.instrumentation.canonical_states_retained == saturating(before.instrumentation.canonical_states_retained, child.instrumentation.canonical_states_retained)
    &&& after.instrumentation.canonical_duplicates_eliminated == saturating(before.instrumentation.canonical_duplicates_eliminated, child.instrumentation.canonical_duplicates_eliminated)
    &&& after.instrumentation.propagation_contradictions == saturating(before.instrumentation.propagation_contradictions, child.instrumentation.propagation_contradictions)
    &&& after.instrumentation.capacity_prunes == saturating(before.instrumentation.capacity_prunes, child.instrumentation.capacity_prunes)
    &&& after.instrumentation.lower_bound_prunes == saturating(before.instrumentation.lower_bound_prunes, child.instrumentation.lower_bound_prunes)
    &&& after.instrumentation.scc_solves == saturating(before.instrumentation.scc_solves, child.instrumentation.scc_solves)
    &&& after.instrumentation.scc_cache_hits == saturating(before.instrumentation.scc_cache_hits, child.instrumentation.scc_cache_hits)
    &&& after.instrumentation.canonicalization_time_ns == saturating(before.instrumentation.canonicalization_time_ns, child.instrumentation.canonicalization_time_ns)
    &&& after.instrumentation.algebra_time_ns == saturating(before.instrumentation.algebra_time_ns, child.instrumentation.algebra_time_ns)
    &&& after.instrumentation.peak_state_cache_size == larger(before.instrumentation.peak_state_cache_size, child.instrumentation.peak_state_cache_size)
    &&& after.instrumentation.peak_memory_bytes == larger(before.instrumentation.peak_memory_bytes, child.instrumentation.peak_memory_bytes)
    &&& after.instrumentation.wall_time_ms == larger(before.instrumentation.wall_time_ms, child.instrumentation.wall_time_ms)
    &&& after.state_cache_hits == saturating(before.state_cache_hits, child.state_cache_hits)
    &&& after.complete_topologies == saturating(before.complete_topologies, child.complete_topologies)
    &&& after.rejected_complete_topologies == saturating(before.rejected_complete_topologies, child.rejected_complete_topologies)
    &&& after.validated_cyclic_topologies == saturating(before.validated_cyclic_topologies, child.validated_cyclic_topologies)
}

/// `before` merged with `child`.
pub open spec fn merge_of(before: ProfileSearchStats, child: ProfileSearchStats) -> ProfileSearchStats {
    let (bi, ci) = (before.instrumentation, child.instrumentation);
    ProfileSearchStats {
        instrumentation: SearchInstrumentation {
            raw_structural_decisions: saturating(bi.raw_structural_decisions, ci.raw_structural_decisions),
            canonical_states_retained: saturating(bi.canonical_states_retained, ci.canonical_states_retained),
            canonical_duplicates_eliminated: saturating(
                bi.canonical_duplicates_eliminated,
                ci.canonical_duplicates_eliminated,
            ),
            propagation_contradictions: saturating(bi.propagation_contradictions, ci.propagation_contradictions),
            capacity_prunes: saturating(bi.capacity_prunes, ci.capacity_prunes),
            lower_bound_prunes: saturating(bi.lower_bound_prunes, ci.lower_bound_prunes),
            scc_solves: saturating(bi.scc_solves, ci.scc_solves),
            scc_cache_hits: saturating(bi.scc_cache_hits, ci.scc_cache_hits),
            canonicalization_time_ns: saturating(bi.canonicalization_time_ns, ci.canonicalization_time_ns),
            algebra_time_ns: saturating(bi.algebra_time_ns, ci.algebra_time_ns),
            peak_state_cache_size: larger(bi.peak_state_cache_size, ci.peak_state_cache_size),
            peak_memory_bytes: larger(bi.peak_memory_bytes, ci.peak_memory_bytes),
            wall_time_ms: larger(bi.wall_time_ms, ci.wall_time_ms),
        },
        state_cache_hits: saturating(before.state_cache_hits, child.state_cache_hits),
        complete_topologies: saturating(before.complete_topologies, child.complete_topologies),
        rejected_complete_topologies: saturating(
            before.rejected_complete_topologies,
            child.rejected_complete_topologies,
        ),
        validated_cyclic_topologies: saturating(
            before.validated_cyclic_topologies,
            child.validated_cyclic_topologies,
        ),
    }
}

/// Folds a child search's counters into a total.
pub fn merge_stats(total: &mut ProfileSearchStats, child: &ProfileSearchStats)
    ensures
        merged(*old(total), *child, *final(total)),
        *final(total) == merge_of(*old(total), *child),
{
    total.instrumentation.raw_structural_decisions = total.instrumentation.raw_structural_decisions.saturating_add(child.instrumentation.raw_structural_decisions);
    total.instrumentation.canonical_states_retained = total.instrumentation.canonical_states_retained.saturating_add(child.instrumentation.canonical_states_retained);
    total.instrumentation.canonical_duplicates_eliminated = total.instrumentation.canonical_duplicates_eliminated.saturating_add(child.instrumentation.canonical_duplicates_eliminated);
    total.instrumentation.propagation_contradictions = total.instrumentation.propagation_contradictions.saturating_add(child.instrumentation.propagation_contradictions);
    total.instrumentation.capacity_prunes = total.instrumentation.capacity_prunes.saturating_add(child.instrumentation.capacity_prunes);
    total.instrumentation.lower_bound_prunes = total.instrumentation.lower_bound_prunes.saturating_add(child.instrumentation.lower_bound_prunes);
    total.instrumentation.scc_solves = total.instrumentation.scc_solves.saturating_add(child.instrumentation.scc_solves);
    total.instrumentation.scc_cache_hits = total.instrumentation.scc_cache_hits.saturating_add(child.instrumentation.scc_cache_hits);
    total.instrumentation.canonicalization_time_ns = total.instrumentation.canonicalization_time_ns.saturating_add(child.instrumentation.canonicalization_time_ns);
    total.instrumentation.algebra_time_ns = total.instrumentation.algebra_time_ns.saturating_add(child.instrumentation.algebra_time_ns);
    total.instrumentation.peak_state_cache_size = if child.instrumentation.peak_state_cache_size > total.instrumentation.peak_state_cache_size { child.instrumentation.peak_state_cache_size } else { total.instrumentation.peak_state_cache_size };
    total.instrumentation.peak_memory_bytes = if child.instrumentation.peak_memory_bytes > total.instrumentation.peak_memory_bytes { child.instrumentation.peak_memory_bytes } else { total.instrumentation.peak_memory_bytes };
    total.instrumentation.wall_time_ms = if child.instrumentation.wall_time_ms > total.instrumentation.wall_time_ms { child.instrumentation.wall_time_ms } else { total.instrumentation.wall_time_ms };
    total.state_cache_hits = total.state_cache_hits.saturating_add(child.state_cache_hits);
    total.complete_topologies = total.complete_topologies.saturating_add(child.complete_topologies);
    total.rejected_complete_topologies = total.rejected_complete_topologies.saturating_add(child.rejected_complete_topologies);
    total.validated_cyclic_topologies = total.validated_cyclic_topologies.saturating_add(child.validated_cyclic_topologies);
}

/// Counts one event, saturating.
pub fn increment(counter: &mut u64)
    ensures
        *final(counter) == saturating(*old(counter), 1),
{
    *counter = counter.saturating_add(1);
}

/// Adds a duration in nanoseconds, saturating both the conversion and the sum.
pub fn add_duration_ns(counter: &mut u64, elapsed_ns: u128)
    ensures
        *final(counter) == saturating(
            *old(counter),
            if elapsed_ns > u64::MAX {
                u64::MAX
            } else {
                elapsed_ns as u64
            },
        ),
{
    let ns: u64 = if elapsed_ns > u64::MAX as u128 {
        u64::MAX
    } else {
        elapsed_ns as u64
    };
    *counter = counter.saturating_add(ns);
}

/// Merging is commutative: folding two child searches into a total in
/// either order gives the same counters.
pub proof fn law_merge_order_independent(
    total: ProfileSearchStats,
    first: ProfileSearchStats,
    second: ProfileSearchStats,
    via_first: ProfileSearchStats,
    both_first: ProfileSearchStats,
    via_second: ProfileSearchStats,
    both_second: ProfileSearchStats,
)
    requires
        merged(total, first, via_first),
        merged(via_first, second, both_first),
        merged(total, second, via_second),
        merged(via_second, first, both_second),
    ensures
        both_first == both_second,
{
}

/// A validated witness of one fixed-profile search, known by its canonical
/// graph key. The library keeps only the key: the layout and its validation
/// are the host's.
#[derive(Clone, Debug, PartialEq, Eq)]
pub struct ProfileWitness {
    pub canonical_graph_key: Vec<u8>,
}

impl View for ProfileWitness {
    type V = Seq<u8>;

    open spec fn view(&self) -> Seq<u8> {
        self.canonical_graph_key@
    }
}

impl ProfileWitness {
    /// A witness with the same key.
    pub fn copied(&self) -> (witness: ProfileWitness)
        ensures
            witness@ == self@,
    {
        let key = self.canonical_graph_key.clone();
        assert(key@ =~= self.canonical_graph_key@);
        ProfileWitness { canonical_graph_key: key }
    }
}

/// Why a search stopped before its proof obligation completed.
#[derive(Clone, Debug, PartialEq, Eq)]
pub enum IncompleteReason {
    Cancelled,
    ResourceLimit { detail: String },
    WorkerFailed { detail: String },
}

impl IncompleteReason {
    /// An equal reason.
    pub fn copied(&self) -> (reason: IncompleteReason)
        ensures
            reason == *self,
    {
        match self {
            IncompleteReason::Cancelled => IncompleteReason::Cancelled,
            IncompleteReason::ResourceLimit { detail } => IncompleteReason::ResourceLimit {
                detail: detail.clone(),
            },
            IncompleteReason::WorkerFailed { detail } => IncompleteReason::WorkerFailed {
                detail: detail.clone(),
            },
        }
    }
}

/// Internal failure while exhausting a fixed profile.
#[derive(Clone, Debug, PartialEq, Eq)]
pub enum ProfileSearchError {
    ProfileArithmetic(String),
    TerminalCountOverflow,
    Topology(String),
    Propagation(String),
    Scc(String),
    MissingAppliedLink,
    InvalidRootPartition(String),
    ReentrantCanonicalState,
    InvalidCompleteTopology(String),
    ValidationFirewall(String),
    ValidationCountMismatch {
        expected_nodes: u32,
        expected_links: u32,
        expected_physical_links: u32,
        expected_discard_links: u32,
        actual_nodes: u32,
        actual_links: u32,
        actual_physical_links: u32,
        actual_discard_links: u32,
    },
}

impl ProfileSearchError {
    /// An equal error.
    pub fn copied(&self) -> (error: ProfileSearchError)
        ensures
            error == *self,
    {
        match self {
            ProfileSearchError::ProfileArithmetic(m) => ProfileSearchError::ProfileArithmetic(m.clone()),
            ProfileSearchError::TerminalCountOverflow => ProfileSearchError::TerminalCountOverflow,
            ProfileSearchError::Topology(m) => ProfileSearchError::Topology(m.clone()),
            ProfileSearchError::Propagation(m) => ProfileSearchError::Propagation(m.clone()),
            ProfileSearchError::Scc(m) => ProfileSearchError::Scc(m.clone()),
            ProfileSearchError::MissingAppliedLink => ProfileSearchError::MissingAppliedLink,
            ProfileSearchError::InvalidRootPartition(m) => ProfileSearchError::InvalidRootPartition(
                m.clone(),
            ),
            ProfileSearchError::ReentrantCanonicalState => ProfileSearchError::ReentrantCanonicalState,
            ProfileSearchError::InvalidCompleteTopology(m) => ProfileSearchError::InvalidCompleteTopology(
                m.clone(),
            ),
            ProfileSearchError::ValidationFirewall(m) => ProfileSearchError::ValidationFirewall(m.clone()),
            ProfileSearchError::ValidationCountMismatch {
                expected_nodes,
                expected_links,
                expected_physical_links,
                expected_discard_links,
                actual_nodes,
                actual_links,
                actual_physical_links,
                actual_discard_links,
            } => ProfileSearchError::ValidationCountMismatch {
                expected_nodes: *expected_nodes,
                expected_links: *expected_links,
                expected_physical_links: *expected_physical_links,
                expected_discard_links: *expected_discard_links,
                actual_nodes: *actual_nodes,
                actual_links: *actual_links,
                actual_physical_links: *actual_physical_links,
                actual_discard_links: *actual_discard_links,
            },
        }
    }
}

/// Proof status for one fixed node-type profile.
#[derive(Clone, Debug, PartialEq, Eq)]
pub enum ProfileSearchResult {
    /// The complete canonical topology quotient was exhausted.
    Exhausted {
        best_witness: Option<ProfileWitness>,
        witnesses: Vec<ProfileWitness>,
        stats: ProfileSearchStats,
    },
    /// Cancellation stopped the profile before its proof obligation completed.
    Incomplete {
        reason: IncompleteReason,
        best_witness: Option<ProfileWitness>,
        witnesses: Vec<ProfileWitness>,
        stats: ProfileSearchStats,
    },
    /// An internal invariant or independent validation firewall failed.
    Failed { error: ProfileSearchError, stats: ProfileSearchStats },
}

/// The key of a witness, if any.
pub open spec fn witness_key(witness: Option<ProfileWitness>) -> Option<Seq<u8>> {
    match witness {
        Some(w) => Some(w@),
        None => None,
    }
}

/// A link between two materialized nodes.
pub open spec fn operator_link(link: PartialLink) -> bool {
    link.producer is Node && link.consumer is Node
}

/// Number of operator-to-operator links among `links`.
pub open spec fn operator_links(links: Seq<PartialLink>) -> nat
    decreases links.len(),
{
    if links.len() == 0 {
        0
    } else {
        operator_links(links.drop_last()) + if operator_link(links.last()) {
            1nat
        } else {
            0nat
        }
    }
}

/// Number of node-to-node links of a partial topology, saturated at `u32::MAX`.
pub fn operator_link_count(topology: &PartialTopology) -> (count: u32)
    ensures
        count == if operator_links(topology.links@) > u32::MAX {
            u32::MAX as int
        } else {
            operator_links(topology.links@) as int
        },
{
    let mut count: usize = 0;
    let mut i: usize = 0;
    assert(topology.links@.take(0) =~= Seq::<PartialLink>::empty());
    while i < topology.links.len()
        invariant
            i <= topology.links@.len(),
            count <= i,
            count == operator_links(topology.links@.take(i as int)),
        decreases topology.links@.len() - i,
    {
        assert(topology.links@.take(i + 1).drop_last() =~= topology.links@.take(i as int));
        let link = topology.links[i];
        let between_nodes = match (link.producer, link.consumer) {
            (ProducerPortRef::Node { .. }, ConsumerPortRef::Node { .. }) => true,
            _ => false,
        };
        if between_nodes {
            count = count + 1;
        }
        i = i + 1;
    }
    assert(topology.links@.take(i as int) =~= topology.links@);
    if count as u64 > u32::MAX as u64 {
        u32::MAX
    } else {
        count as u32
    }
}

/// Identity of one root obligation of a fixed-profile search.
#[derive(Clone, Copy, Debug, PartialEq, Eq, PartialOrd, Ord, Hash)]
pub struct RootPartitionId(pub u32);

/// One root obligation: its canonical stable key and the decisions that open it.
#[derive(Clone, Debug, PartialEq, Eq)]
pub struct RootPartition<D> {
    pub id: RootPartitionId,
    pub stable_key: Vec<u8>,
    pub path: Vec<D>,
}

/// No candidate before `i` has the key of candidate `i`.
pub open spec fn key_is_new<T>(candidates: Seq<(Vec<u8>, T)>, i: int) -> bool {
    forall|k: int| 0 <= k < i ==> candidates[k].0@ != candidates[i].0@
}

/// Number of distinct keys among the first `k` candidates.
pub open spec fn distinct_keys_in<T>(candidates: Seq<(Vec<u8>, T)>, k: int) -> nat
    decreases k,
{
    if k <= 0 {
        0
    } else {
        distinct_keys_in(candidates, k - 1) + if key_is_new(candidates, k - 1) {
            1nat
        } else {
            0nat
        }
    }
}

/// `parts` holds one partition per distinct candidate key, ascending by key,
/// each with the path of the first candidate of that key, numbered in order.
pub open spec fn orders_partitions<D>(candidates: Seq<(Vec<u8>, Vec<D>)>, parts: Seq<RootPartition<D>>) -> bool {
    &&& parts.len() == distinct_keys_in(candidates, candidates.len() as int)
    &&& forall|j: int| 0 <= j < parts.len() ==> (#[trigger] parts[j]).id.0 == j
    &&& forall|a: int, b: int|
        0 <= a < b < parts.len() ==> key_order((#[trigger] parts[a]).stable_key@, (#[trigger] parts[b]).stable_key@) < 0
    &&& forall|j: int| 0 <= j < parts.len() ==> #[trigger] from_first_candidate(candidates, parts[j])
    &&& forall|i: int| 0 <= i < candidates.len() ==> #[trigger] has_partition_key(parts, candidates[i].0@)
}

/// `part` carries the key and path of candidate `i`, the first of its key.
pub open spec fn first_candidate<D>(candidates: Seq<(Vec<u8>, Vec<D>)>, i: int, part: RootPartition<D>) -> bool {
    0 <= i < candidates.len() && key_is_new(candidates, i) && part.stable_key == candidates[i].0
        && part.path == candidates[i].1
}

/// `part` comes from the first candidate of its key.
pub open spec fn from_first_candidate<D>(candidates: Seq<(Vec<u8>, Vec<D>)>, part: RootPartition<D>) -> bool {
    exists|i: int| #[trigger] first_candidate(candidates, i, part)
}

/// Some partition has stable key `key`.
pub open spec fn has_partition_key<D>(parts: Seq<RootPartition<D>>, key: Seq<u8>) -> bool {
    exists|j: int| 0 <= j < parts.len() && parts[j].stable_key@ == key
}

/// The partition that stands for a whole root with no first decision.
pub open spec fn terminal_partition<D>(part: RootPartition<D>) -> bool {
    part.id.0 == 0 && part.stable_key@ == seq![0u8] && part.path@.len() == 0
}

proof fn lemma_key_order_anti(a: Seq<u8>, b: Seq<u8>)
    ensures
        key_order(a, b) == -key_order(b, a),
{
    lemma_rank_order_total::<u8>();
    lemma_lex_antisymmetric(a, b, |x: u8, y: u8| rank_order(x, y));
}

proof fn lemma_key_order_zero(a: Seq<u8>, b: Seq<u8>)
    requires
        key_order(a, b) == 0,
    ensures
        a == b,
{
    lemma_rank_order_total::<u8>();
    lemma_lex_zero_equal(a, b, |x: u8, y: u8| rank_order(x, y));
}

proof fn lemma_key_order_trans(a: Seq<u8>, b: Seq<u8>, c: Seq<u8>)
    requires
        key_order(a, b) < 0,
        key_order(b, c) < 0,
    ensures
        key_order(a, c) < 0,
{
    lemma_rank_order_total::<u8>();
    lemma_lex_transitive(a, b, c, |x: u8, y: u8| rank_order(x, y));
}

proof fn lemma_distinct_keys_grow<T>(candidates: Seq<(Vec<u8>, T)>, k: int)
    requires
        1 <= k,
    ensures
        distinct_keys_in(candidates, k) >= 1,
    decreases k,
{
    if k > 1 {
        lemma_distinct_keys_grow(candidates, k - 1);
    } else {
        assert(key_is_new(candidates, 0));
    }
}

/// After the first `i` candidates: `kept` holds one candidate per distinct
/// key seen, the first of each, in descending key order.
spec fn kept_state<T>(cs: Seq<(Vec<u8>, T)>, i: int, kept: Seq<(Vec<u8>, T)>) -> bool {
    &&& kept.len() == distinct_keys_in(cs, i)
    &&& forall|a: int, b: int|
        0 <= a < b < kept.len() ==> key_order((#[trigger] kept[a]).0@, (#[trigger] kept[b]).0@) > 0
    &&& forall|j: int|
        0 <= j < kept.len() ==> exists|x: int| 0 <= x < i && key_is_new(cs, x) && #[trigger] kept[j] == cs[x]
    &&& forall|x: int| 0 <= x < i ==> #[trigger] kept_has_key(kept, cs[x].0@)
}

/// Some kept candidate has key `key`.
pub open spec fn kept_has_key<T>(kept: Seq<(Vec<u8>, T)>, key: Seq<u8>) -> bool {
    exists|j: int| 0 <= j < kept.len() && kept[j].0@ == key
}

/// A candidate whose key is already kept changes nothing.
proof fn lemma_kept_present<T>(cs: Seq<(Vec<u8>, T)>, i: int, kept: Seq<(Vec<u8>, T)>, pos: int)
    requires
        0 <= i < cs.len(),
        kept_state(cs, i, kept),
        0 <= pos < kept.len(),
        key_order(kept[pos].0@, cs[i].0@) == 0,
    ensures
        kept_state(cs, i + 1, kept),
{
    lemma_key_order_zero(kept[pos].0@, cs[i].0@);
    assert(kept[pos].0@ == cs[i].0@);
    let x = choose|x: int| 0 <= x < i && key_is_new(cs, x) && #[trigger] kept[pos] == cs[x];
    assert(!key_is_new(cs, i));
    assert forall|y: int| 0 <= y < i + 1 implies #[trigger] kept_has_key(kept, cs[y].0@) by {
        if y == i {
            assert(kept[pos].0@ == cs[y].0@);
        }
    }
    assert forall|j: int| 0 <= j < kept.len() implies exists|y: int|
        0 <= y < i + 1 && key_is_new(cs, y) && #[trigger] kept[j] == cs[y] by {
        let y = choose|y: int| 0 <= y < i && key_is_new(cs, y) && #[trigger] kept[j] == cs[y];
    }
}

/// A candidate whose key is not kept is new, and inserting it where the
/// descending order places it keeps the state.
proof fn lemma_kept_insert<T>(cs: Seq<(Vec<u8>, T)>, i: int, kept: Seq<(Vec<u8>, T)>, pos: int)
    requires
        0 <= i < cs.len(),
        kept_state(cs, i, kept),
        0 <= pos <= kept.len(),
        forall|j: int| 0 <= j < pos ==> key_order((#[trigger] kept[j]).0@, cs[i].0@) > 0,
        pos < kept.len() ==> key_order(kept[pos].0@, cs[i].0@) <= 0,
        !(pos < kept.len() && key_order(kept[pos].0@, cs[i].0@) == 0),
    ensures
        key_is_new(cs, i),
        kept_state(cs, i + 1, kept.insert(pos, cs[i])),
{
    let c = cs[i];
    assert forall|j: int| 0 <= j < kept.len() implies key_order((#[trigger] kept[j]).0@, c.0@) < 0
        || j < pos by {
        if j > pos {
            assert(key_order(kept[pos].0@, kept[j].0@) > 0);
            lemma_key_order_anti(kept[pos].0@, kept[j].0@);
            lemma_key_order_trans(kept[j].0@, kept[pos].0@, c.0@);
        }
    }
    assert(key_is_new(cs, i)) by {
        assert forall|k: int| 0 <= k < i implies cs[k].0@ != cs[i].0@ by {
            assert(kept_has_key(kept, cs[k].0@));
            let j = choose|j: int| 0 <= j < kept.len() && kept[j].0@ == cs[k].0@;
            lemma_key_order_anti(c.0@, c.0@);
            if j < pos {
                assert(key_order(kept[j].0@, c.0@) > 0);
            } else {
                assert(key_order(kept[j].0@, c.0@) < 0);
            }
        }
    }
    let next = kept.insert(pos, c);
    assert forall|a: int, b: int|
        0 <= a < b < next.len() implies key_order((#[trigger] next[a]).0@, (#[trigger] next[b]).0@) > 0 by {
        if b < pos {
            assert(next[a] == kept[a] && next[b] == kept[b]);
        } else if b == pos {
            assert(next[a] == kept[a]);
        } else if a == pos {
            assert(next[b] == kept[b - 1]);
            assert(key_order(kept[b - 1].0@, c.0@) < 0);
            lemma_key_order_anti(kept[b - 1].0@, c.0@);
        } else if a < pos {
            assert(next[a] == kept[a] && next[b] == kept[b - 1]);
            assert(key_order(kept[a].0@, kept[b - 1].0@) > 0);
        } else {
            assert(next[a] == kept[a - 1] && next[b] == kept[b - 1]);
        }
    }
    assert forall|j: int| 0 <= j < next.len() implies exists|x: int|
        0 <= x < i + 1 && key_is_new(cs, x) && #[trigger] next[j] == cs[x] by {
        if j < pos {
            assert(next[j] == kept[j]);
            let x = choose|x: int| 0 <= x < i && key_is_new(cs, x) && #[trigger] kept[j] == cs[x];
        } else if j == pos {
            assert(next[j] == cs[i]);
        } else {
            assert(next[j] == kept[j - 1]);
            let x = choose|x: int| 0 <= x < i && key_is_new(cs, x) && #[trigger] kept[j - 1] == cs[x];
        }
    }
    assert forall|x: int| 0 <= x < i + 1 implies #[trigger] kept_has_key(next, cs[x].0@) by {
        if x == i {
            assert(next[pos].0@ == cs[x].0@);
        } else {
            assert(kept_has_key(kept, cs[x].0@));
            let j = choose|j: int| 0 <= j < kept.len() && kept[j].0@ == cs[x].0@;
            if j < pos {
                assert(next[j] == kept[j]);
            } else {
                assert(next[j + 1] == kept[j]);
            }
        }
    }
}

/// The items, one per distinct key, the first of each key, in descending
/// key order.
fn descending_by_key<T>(items: Vec<(Vec<u8>, T)>) -> (kept: Vec<(Vec<u8>, T)>)
    ensures
        kept_state(items@, items@.len() as int, kept@),
{
    let ghost cs = items@;
    let ghost n = cs.len() as int;
    let candidates = items;
    let count: usize = candidates.len();
    // Reverse, so that popping yields the candidates in their given order.
    let mut rest = candidates;
    let mut reversed: Vec<(Vec<u8>, T)> = Vec::new();
    while rest.len() > 0
        invariant
            n == cs.len(),
            n == count,
            rest@ == cs.subrange(0, rest@.len() as int),
            reversed@.len() + rest@.len() == n,
            forall|k: int| 0 <= k < reversed@.len() ==> #[trigger] reversed@[k] == cs[n - 1 - k],
        decreases rest.len(),
    {
        let ghost before = rest@;
        let candidate = match rest.pop() {
            Some(candidate) => candidate,
            None => {
                assert(false);
                return Vec::new();
            },
        };
        assert(candidate == cs[before.len() - 1]);
        assert(rest@ =~= cs.subrange(0, rest@.len() as int));
        reversed.push(candidate);
    }
    // Keys kept in descending order, first candidate of each key.
    let mut kept: Vec<(Vec<u8>, T)> = Vec::new();
    let mut i: usize = 0;
    while reversed.len() > 0
        invariant
            n == cs.len(),
            n == count,
            reversed@.len() + i == n,
            forall|k: int| 0 <= k < reversed@.len() ==> #[trigger] reversed@[k] == cs[n - 1 - k],
            kept_state(cs, i as int, kept@),
        decreases reversed.len(),
    {
        let ghost before_rev = reversed@;
        let candidate = match reversed.pop() {
            Some(candidate) => candidate,
            None => {
                assert(false);
                return Vec::new();
            },
        };
        assert(candidate == cs[i as int]) by {
            assert(before_rev[before_rev.len() - 1] == cs[n - 1 - (before_rev.len() - 1)]);
        }
        assert forall|k: int| 0 <= k < reversed@.len() implies #[trigger] reversed@[k] == cs[n - 1 - k] by {
            assert(reversed@[k] == before_rev[k]);
        }
        let mut pos: usize = 0;
        while pos < kept.len() && ranked_lex(&kept[pos].0, &candidate.0) > 0
            invariant
                pos <= kept@.len(),
                forall|j: int| 0 <= j < pos ==> key_order((#[trigger] kept@[j]).0@, candidate.0@) > 0,
            decreases kept.len() - pos,
        {
            pos = pos + 1;
        }
        let present = pos < kept.len() && ranked_lex(&kept[pos].0, &candidate.0) == 0;
        if present {
            proof {
                lemma_kept_present(cs, i as int, kept@, pos as int);
            }
        } else {
            proof {
                lemma_kept_insert(cs, i as int, kept@, pos as int);
            }
            kept.insert(pos, candidate);
        }
        i = i + 1;
    }
    kept
}

/// Orders the first-decision candidates of one root into its partitions:
/// one per distinct stable key, ascending, keeping the first candidate of
/// each key, numbered from zero. With no candidate the root is one terminal
/// partition; more partitions than `u32` numbers are refused.
pub fn plan_root_partitions<D>(candidates: Vec<(Vec<u8>, Vec<D>)>) -> (plan: Result<
    Vec<RootPartition<D>>,
    ProfileSearchError,
>)
    ensures
        candidates@.len() == 0 ==> (plan matches Ok(parts) && parts@.len() == 1 && terminal_partition(parts@[0])),
        candidates@.len() > 0 ==> match plan {
            Ok(parts) => orders_partitions(candidates@, parts@),
            Err(error) => distinct_keys_in(candidates@, candidates@.len() as int) > u32::MAX + 1
                && error is InvalidRootPartition,
        },
        candidates@.len() > 0 && distinct_keys_in(candidates@, candidates@.len() as int) <= u32::MAX + 1
            ==> plan is Ok,
{
    let ghost cs = candidates@;
    let ghost n = cs.len() as int;
    if candidates.len() == 0 {
        let mut parts: Vec<RootPartition<D>> = Vec::new();
        parts.push(RootPartition { id: RootPartitionId(0), stable_key: vec![0u8], path: Vec::new() });
        assert(parts@[0].stable_key@ =~= seq![0u8]);
        return Ok(parts);
    }
    let mut kept = descending_by_key(candidates);
    let total = kept.len();
    proof {
        lemma_distinct_keys_grow(cs, n);
    }
    if total - 1 > 0xffff_ffffusize {
        return Err(ProfileSearchError::InvalidRootPartition(
            "partition count does not fit u32".to_owned(),
        ));
    }
    // Popping the descending keys yields them ascending.
    let ghost descending = kept@;
    let mut parts: Vec<RootPartition<D>> = Vec::new();
    while kept.len() > 0
        invariant
            total == descending.len(),
            total - 1 <= 0xffff_ffff,
            kept@ == descending.subrange(0, kept@.len() as int),
            parts@.len() + kept@.len() == total,
            forall|j: int|
                0 <= j < parts@.len() ==> {
                    &&& (#[trigger] parts@[j]).id.0 == j
                    &&& parts@[j].stable_key == descending[total - 1 - j].0
                    &&& parts@[j].path == descending[total - 1 - j].1
                },
        decreases kept.len(),
    {
        let ghost before = kept@;
        let (stable_key, path) = match kept.pop() {
            Some(entry) => entry,
            None => {
                assert(false);
                return Err(ProfileSearchError::ReentrantCanonicalState);
            },
        };
        assert(kept@ =~= descending.subrange(0, kept@.len() as int));
        let id = RootPartitionId(parts.len() as u32);
        parts.push(RootPartition { id, stable_key, path });
    }
    proof {
        let ps = parts@;
        assert forall|a: int, b: int| 0 <= a < b < ps.len() implies key_order(
            (#[trigger] ps[a]).stable_key@,
            (#[trigger] ps[b]).stable_key@,
        ) < 0 by {
            assert(key_order(descending[total - 1 - b].0@, descending[total - 1 - a].0@) > 0);
            lemma_key_order_anti(descending[total - 1 - b].0@, descending[total - 1 - a].0@);
        }
        assert forall|j: int| 0 <= j < ps.len() implies #[trigger] from_first_candidate(cs, ps[j]) by {
            let k = total - 1 - j;
            assert(0 <= k < descending.len());
            let x = choose|x: int| 0 <= x < n && key_is_new(cs, x) && #[trigger] descending[k] == cs[x];
            assert(first_candidate(cs, x, ps[j]));
        }
        assert forall|x: int| 0 <= x < cs.len() implies #[trigger] has_partition_key(ps, cs[x].0@) by {
            assert(kept_has_key(descending, cs[x].0@));
            let k = choose|k: int| 0 <= k < descending.len() && descending[k].0@ == cs[x].0@;
            assert(ps[total - 1 - k].stable_key@ == cs[x].0@);
        }
        assert(ps.len() == distinct_keys_in(cs, n));
        assert(forall|j: int| 0 <= j < ps.len() ==> (#[trigger] ps[j]).id.0 == j);
        assert(orders_partitions(cs, ps));
    }
    Ok(parts)
}

/// Picks the refinement leaf to expand next, given how many first
/// decisions each leaf still offers: the leaf with the most, the earliest
/// among equals; none when every leaf is spent.
pub fn select_refinement_leaf(decision_counts: &Vec<usize>) -> (selected: Option<usize>)
    ensures
        selected is None <==> forall|j: int| 0 <= j < decision_counts@.len() ==> decision_counts@[j] == 0,
        selected matches Some(k) ==> {
            &&& k < decision_counts@.len()
            &&& decision_counts@[k as int] > 0
            &&& forall|j: int| 0 <= j < decision_counts@.len() ==> decision_counts@[j] <= decision_counts@[k as int]
            &&& forall|j: int| 0 <= j < k ==> decision_counts@[j] < decision_counts@[k as int]
        },
{
    let mut best: Option<usize> = None;
    let mut i: usize = 0;
    while i < decision_counts.len()
        invariant
            i <= decision_counts@.len(),
            best is None ==> forall|j: int| 0 <= j < i ==> decision_counts@[j] == 0,
            best matches Some(k) ==> {
                &&& k < i
                &&& decision_counts@[k as int] > 0
                &&& forall|j: int| 0 <= j < i ==> decision_counts@[j] <= decision_counts@[k as int]
                &&& forall|j: int| 0 <= j < k ==> decision_counts@[j] < decision_counts@[k as int]
            },
        decreases decision_counts.len() - i,
    {
        let count = decision_counts[i];
        match best {
            None => {
                if count > 0 {
                    best = Some(i);
                }
            },
            Some(k) => {
                if count > decision_counts[k] {
                    best = Some(i);
                }
            },
        }
        i = i + 1;
    }
    best
}

/// `item` is the first of the items of its key.
pub open spec fn first_item<T>(items: Seq<(Vec<u8>, T)>, item: (Vec<u8>, T)) -> bool {
    exists|i: int| 0 <= i < items.len() && key_is_new(items, i) && #[trigger] items[i] == item
}

/// `ordered` holds one item per distinct key of `items`, the first of each,
/// ascending by key.
pub open spec fn ordered_by_key<T>(items: Seq<(Vec<u8>, T)>, ordered: Seq<(Vec<u8>, T)>) -> bool {
    &&& ordered.len() == distinct_keys_in(items, items.len() as int)
    &&& forall|a: int, b: int|
        0 <= a < b < ordered.len() ==> key_order((#[trigger] ordered[a]).0@, (#[trigger] ordered[b]).0@) < 0
    &&& forall|j: int| 0 <= j < ordered.len() ==> #[trigger] first_item(items, ordered[j])
    &&& forall|i: int| 0 <= i < items.len() ==> #[trigger] kept_has_key(ordered, items[i].0@)
}

/// Sorts `items` by key, keeping only the first item of each key: a stable
/// sort followed by removing later duplicates.
pub fn order_by_key<T>(items: Vec<(Vec<u8>, T)>) -> (ordered: Vec<(Vec<u8>, T)>)
    ensures
        ordered_by_key(items@, ordered@),
{
    let ghost cs = items@;
    let mut kept = descending_by_key(items);
    let ghost descending = kept@;
    let total = kept.len();
    let mut ordered: Vec<(Vec<u8>, T)> = Vec::new();
    while kept.len() > 0
        invariant
            total == descending.len(),
            kept@ == descending.subrange(0, kept@.len() as int),
            ordered@.len() + kept@.len() == total,
            forall|j: int| 0 <= j < ordered@.len() ==> #[trigger] ordered@[j] == descending[total - 1 - j],
        decreases kept.len(),
    {
        let entry = match kept.pop() {
            Some(entry) => entry,
            None => {
                assert(false);
                return ordered;
            },
        };
        assert(kept@ =~= descending.subrange(0, kept@.len() as int));
        ordered.push(entry);
    }
    proof {
        let os = ordered@;
        let n = cs.len() as int;
        assert forall|a: int, b: int| 0 <= a < b < os.len() implies key_order(
            (#[trigger] os[a]).0@,
            (#[trigger] os[b]).0@,
        ) < 0 by {
            assert(key_order(descending[total - 1 - b].0@, descending[total - 1 - a].0@) > 0);
            lemma_key_order_anti(descending[total - 1 - b].0@, descending[total - 1 - a].0@);
        }
        assert forall|j: int| 0 <= j < os.len() implies #[trigger] first_item(cs, os[j]) by {
            let k = total - 1 - j;
            assert(0 <= k < descending.len());
            let x = choose|x: int| 0 <= x < n && key_is_new(cs, x) && #[trigger] descending[k] == cs[x];
            assert(cs[x] == os[j]);
        }
        assert forall|x: int| 0 <= x < cs.len() implies #[trigger] kept_has_key(os, cs[x].0@) by {
            assert(kept_has_key(descending, cs[x].0@));
            let k = choose|k: int| 0 <= k < descending.len() && descending[k].0@ == cs[x].0@;
            assert(os[total - 1 - k].0@ == cs[x].0@);
        }
    }
    ordered
}

/// What one leaf of a frontier refinement still carries: its decision
/// path, the first decisions it still offers, and the host's search state.
pub struct RefinementLeaf<D, S> {
    pub path: Vec<D>,
    pub decisions: Vec<D>,
    pub state: S,
}

/// One refinement step of the frontier of leaves keyed by stable key. When
/// expanding `parent` gave no live child, the parent stays as a dead leaf
/// that offers no more decisions. Otherwise its children replace it, and
/// the leaves are sorted by key, keeping the first leaf of each key.
pub fn refine_step<D, S>(
    leaves: Vec<(Vec<u8>, RefinementLeaf<D, S>)>,
    parent: usize,
    children: Vec<(Vec<u8>, RefinementLeaf<D, S>)>,
) -> (next: Vec<(Vec<u8>, RefinementLeaf<D, S>)>)
    requires
        parent < leaves@.len(),
    ensures
        children@.len() == 0 ==> {
            &&& next@.len() == leaves@.len()
            &&& forall|j: int| 0 <= j < leaves@.len() && j != parent ==> #[trigger] next@[j] == leaves@[j]
            &&& next@[parent as int].0 == leaves@[parent as int].0
            &&& next@[parent as int].1.path == leaves@[parent as int].1.path
            &&& next@[parent as int].1.state == leaves@[parent as int].1.state
            &&& next@[parent as int].1.decisions@.len() == 0
        },
        children@.len() > 0 ==> ordered_by_key(leaves@.remove(parent as int) + children@, next@),
{
    let mut leaves = leaves;
    let ghost before = leaves@;
    let (key, leaf) = leaves.remove(parent);
    if children.len() == 0 {
        let RefinementLeaf { path, decisions: _, state } = leaf;
        leaves.insert(parent, (key, RefinementLeaf { path, decisions: Vec::new(), state }));
        proof {
            assert forall|j: int| 0 <= j < before.len() && j != parent implies #[trigger] leaves@[j] == before[j] by {
                if j < parent {
                    assert(leaves@[j] == before.remove(parent as int)[j]);
                } else {
                    assert(leaves@[j] == before.remove(parent as int)[j - 1]);
                }
            }
        }
        return leaves;
    }
    let ghost remaining = leaves@;
    let mut children = children;
    let ghost added = children@;
    leaves.append(&mut children);
    assert(leaves@ =~= before.remove(parent as int) + added);
    order_by_key(leaves)
}

/// Under two orderings of the same candidates, a key that appears earlier
/// at `j` in `p` than in `q` would contradict both orders.
proof fn lemma_partition_key_not_below<D>(
    cs: Seq<(Vec<u8>, Vec<D>)>,
    p: Seq<RootPartition<D>>,
    q: Seq<RootPartition<D>>,
    j: int,
)
    requires
        orders_partitions(cs, p),
        orders_partitions(cs, q),
        0 <= j < p.len(),
        0 <= j < q.len(),
        forall|k: int| 0 <= k < j ==> (#[trigger] p[k]).stable_key@ == q[k].stable_key@,
    ensures
        !(key_order(p[j].stable_key@, q[j].stable_key@) < 0),
{
    let a = p[j].stable_key@;
    let b = q[j].stable_key@;
    if key_order(a, b) < 0 {
        assert(from_first_candidate(cs, p[j]));
        let i = choose|i: int| #[trigger] first_candidate(cs, i, p[j]);
        assert(has_partition_key(q, cs[i].0@));
        let m = choose|m: int| 0 <= m < q.len() && q[m].stable_key@ == cs[i].0@;
        assert(q[m].stable_key@ == a);
        lemma_key_order_anti(a, a);
        lemma_key_order_anti(a, b);
        if m < j {
            assert(p[m].stable_key@ == q[m].stable_key@);
            assert(key_order(p[m].stable_key@, p[j].stable_key@) < 0);
        } else if m == j {
        } else {
            assert(key_order(q[j].stable_key@, q[m].stable_key@) < 0);
        }
    }
}

proof fn lemma_partition_keys_agree<D>(
    cs: Seq<(Vec<u8>, Vec<D>)>,
    p: Seq<RootPartition<D>>,
    q: Seq<RootPartition<D>>,
    j: int,
)
    requires
        orders_partitions(cs, p),
        orders_partitions(cs, q),
        0 <= j <= p.len(),
    ensures
        forall|k: int| 0 <= k < j ==> (#[trigger] p[k]).stable_key@ == q[k].stable_key@,
    decreases j,
{
    if j > 0 {
        lemma_partition_keys_agree(cs, p, q, j - 1);
        lemma_partition_key_not_below(cs, p, q, j - 1);
        lemma_partition_key_not_below(cs, q, p, j - 1);
        lemma_key_order_anti(p[j - 1].stable_key@, q[j - 1].stable_key@);
        if key_order(p[j - 1].stable_key@, q[j - 1].stable_key@) == 0 {
            lemma_key_order_zero(p[j - 1].stable_key@, q[j - 1].stable_key@);
        }
    }
}

/// A root's partition plan is determined by its candidates: any two plans
/// that order the same candidates are equal, so planning again, on any
/// worker, gives the same plan.
pub proof fn law_root_plan_is_determined<D>(
    candidates: Seq<(Vec<u8>, Vec<D>)>,
    first: Seq<RootPartition<D>>,
    second: Seq<RootPartition<D>>,
)
    requires
        orders_partitions(candidates, first),
        orders_partitions(candidates, second),
    ensures
        first == second,
{
    lemma_partition_keys_agree(candidates, first, second, first.len() as int);
    assert forall|j: int| 0 <= j < first.len() implies #[trigger] first[j] == second[j] by {
        assert(from_first_candidate(candidates, first[j]));
        assert(from_first_candidate(candidates, second[j]));
        let a = choose|i: int| #[trigger] first_candidate(candidates, i, first[j]);
        let b = choose|i: int| #[trigger] first_candidate(candidates, i, second[j]);
        assert(first[j].stable_key@ == second[j].stable_key@);
        if a < b {
            assert(candidates[a].0@ != candidates[b].0@);
        } else if b < a {
            assert(candidates[b].0@ != candidates[a].0@);
        }
        assert(first[j].id == second[j].id);
    }
    assert(first =~= second);
}

/// What became of one first decision of a root when the caller applied it
/// to the profile's topology and keyed the marked augmentation.
#[derive(Clone, Debug, PartialEq, Eq)]
pub enum DecisionOutcome<D> {
    /// Applied and keyed: the canonical key and the one-decision path.
    Keyed { key: Vec<u8>, path: Vec<D> },
    /// Cancellation was observed before the decision was keyed.
    Cancelled,
    /// The topology refused the decision, for the reason given.
    Refused(String),
    /// The applied decision left no link behind.
    MissingLink,
}

/// How the root of one profile is split into first-decision leaves.
#[derive(Clone, Debug, PartialEq, Eq)]
pub enum RootPlanning<D> {
    Partitions(Vec<RootPartition<D>>),
    Cancelled,
    Failed(ProfileSearchError),
}

/// `i` is the first outcome that is not keyed.
pub open spec fn first_unkeyed<D>(outcomes: Seq<DecisionOutcome<D>>, i: int) -> bool {
    &&& 0 <= i < outcomes.len()
    &&& !(outcomes[i] is Keyed)
    &&& forall|k: int| 0 <= k < i ==> (#[trigger] outcomes[k]) is Keyed
}

/// The keys and paths of keyed outcomes, in order.
pub open spec fn keyed_candidates<D>(outcomes: Seq<DecisionOutcome<D>>) -> Seq<(Vec<u8>, Vec<D>)> {
    outcomes.map_values(|o: DecisionOutcome<D>| (o->key, o->path))
}

/// The root is the one terminal partition.
pub open spec fn terminal_planning<D>(planning: RootPlanning<D>) -> bool {
    planning matches RootPlanning::Partitions(parts) && parts@.len() == 1 && terminal_partition(parts@[0])
}

/// What the first unkeyed outcome makes of the whole root.
pub open spec fn unkeyed_planning<D>(outcome: DecisionOutcome<D>, planning: RootPlanning<D>) -> bool {
    match outcome {
        DecisionOutcome::Cancelled => planning is Cancelled,
        DecisionOutcome::Refused(reason) => planning matches RootPlanning::Failed(ProfileSearchError::Topology(r))
            && r == reason,
        _ => planning matches RootPlanning::Failed(e) && e is MissingAppliedLink,
    }
}

/// Splits the root of one profile from what became of each of its legal
/// first decisions. A complete root is one terminal partition. Otherwise the
/// first decision that was not keyed decides for the whole root (cancelled,
/// or failed), and when every one was keyed the keyed paths become one
/// partition per distinct key, ascending by key, or the terminal partition
/// when there were none.
pub fn plan_root_partitions_of<D>(complete: bool, outcomes: Vec<DecisionOutcome<D>>) -> (planning: RootPlanning<D>)
    ensures
        complete ==> terminal_planning(planning),
        !complete ==> forall|i: int| #[trigger] first_unkeyed(outcomes@, i) ==> unkeyed_planning(outcomes@[i], planning),
        !complete && (forall|k: int| 0 <= k < outcomes@.len() ==> (#[trigger] outcomes@[k]) is Keyed) ==> {
            let candidates = keyed_candidates(outcomes@);
            &&& candidates.len() == 0 ==> terminal_planning(planning)
            &&& candidates.len() > 0 ==> match planning {
                RootPlanning::Partitions(parts) => orders_partitions(candidates, parts@),
                RootPlanning::Failed(error) => distinct_keys_in(candidates, candidates.len() as int) > u32::MAX + 1
                    && error is InvalidRootPartition,
                RootPlanning::Cancelled => false,
            }
        },
{
    if complete {
        let mut parts: Vec<RootPartition<D>> = Vec::new();
        parts.push(RootPartition { id: RootPartitionId(0), stable_key: vec![0u8], path: Vec::new() });
        assert(parts@[0].stable_key@ =~= seq![0u8]);
        return RootPlanning::Partitions(parts);
    }
    let ghost all = outcomes@;
    let mut rest = outcomes;
    let mut candidates: Vec<(Vec<u8>, Vec<D>)> = Vec::new();
    while rest.len() > 0
        invariant
            !complete,
            all == outcomes@,
            candidates@.len() + rest@.len() == all.len(),
            rest@ == all.subrange(candidates@.len() as int, all.len() as int),
            forall|k: int| 0 <= k < candidates@.len() ==> (#[trigger] all[k]) is Keyed,
            candidates@ == keyed_candidates(all).take(candidates@.len() as int),
        decreases rest@.len(),
    {
        let ghost done = candidates@.len() as int;
        let outcome = rest.remove(0);
        assert(outcome == all[done]);
        match outcome {
            DecisionOutcome::Keyed { key, path } => {
                candidates.push((key, path));
                proof {
                    assert(rest@ =~= all.subrange(done + 1, all.len() as int));
                    assert(candidates@ =~= keyed_candidates(all).take(done + 1));
                }
            },
            DecisionOutcome::Cancelled => {
                assert(first_unkeyed(all, done));
                proof {
                    assert forall|i: int| #[trigger] first_unkeyed(all, i) implies i == done by {
                        if i < done {
                            assert(all[i] is Keyed);
                        } else if i > done {
                            assert(all[done] is Keyed);
                        }
                    }
                }
                return RootPlanning::Cancelled;
            },
            DecisionOutcome::Refused(reason) => {
                assert(first_unkeyed(all, done));
                proof {
                    assert forall|i: int| #[trigger] first_unkeyed(all, i) implies i == done by {
                        if i < done {
                            assert(all[i] is Keyed);
                        } else if i > done {
                            assert(all[done] is Keyed);
                        }
                    }
                }
                return RootPlanning::Failed(ProfileSearchError::Topology(reason));
            },
            DecisionOutcome::MissingLink => {
                assert(first_unkeyed(all, done));
                proof {
                    assert forall|i: int| #[trigger] first_unkeyed(all, i) implies i == done by {
                        if i < done {
                            assert(all[i] is Keyed);
                        } else if i > done {
                            assert(all[done] is Keyed);
                        }
                    }
                }
                return RootPlanning::Failed(ProfileSearchError::MissingAppliedLink);
            },
        }
    }
    proof {
        assert(keyed_candidates(all).take(all.len() as int) =~= keyed_candidates(all));
        assert forall|i: int| !#[trigger] first_unkeyed(all, i) by {
            if 0 <= i < all.len() {
                assert(all[i] is Keyed);
            }
        }
    }
    match plan_root_partitions(candidates) {
        Ok(parts) => RootPlanning::Partitions(parts),
        Err(error) => RootPlanning::Failed(error),
    }
}

/// What the search's cache knows of one canonical state.
#[derive(Clone, Debug, PartialEq, Eq)]
pub enum StateStatus {
    /// The owning depth-first frame has not yet exhausted this state.
    InProgress,
    /// A direct mathematical proof rejected this state.
    ProvenDead,
    /// Every canonical continuation was exhausted without a witness.
    Exhausted,
    /// Every canonical continuation was exhausted and this is its smallest witness key.
    SatWitness(Vec<u8>),
}

/// The outcome of searching below one state: exhausted, with the smallest
/// witness key found if any; stopped early; or failed.
#[derive(Clone, Debug, PartialEq, Eq)]
pub enum DfsResult {
    Exhausted(Option<Vec<u8>>),
    Incomplete,
    Failed(ProfileSearchError),
}

/// What a cached status answers for a state met again.
pub open spec fn cached_result(status: StateStatus) -> DfsResult {
    match status {
        StateStatus::InProgress => DfsResult::Failed(ProfileSearchError::ReentrantCanonicalState),
        StateStatus::ProvenDead => DfsResult::Exhausted(None),
        StateStatus::Exhausted => DfsResult::Exhausted(None),
        StateStatus::SatWitness(key) => DfsResult::Exhausted(Some(key)),
    }
}

/// The smaller of two optional witness keys.
pub open spec fn smallest_key(best: Option<Vec<u8>>, candidate: Option<Vec<u8>>) -> Option<Vec<u8>> {
    match (best, candidate) {
        (_, None) => best,
        (None, Some(c)) => Some(c),
        (Some(b), Some(c)) => if key_order(c@, b@) < 0 {
            Some(c)
        } else {
            Some(b)
        },
    }
}

/// A running result combined with one child's: a failure stays, then a
/// stop, and two exhausted results keep the smaller witness key.
pub open spec fn folded(total: DfsResult, child: DfsResult) -> DfsResult {
    match (total, child) {
        (DfsResult::Failed(e), _) => DfsResult::Failed(e),
        (_, DfsResult::Failed(e)) => DfsResult::Failed(e),
        (DfsResult::Incomplete, _) => DfsResult::Incomplete,
        (_, DfsResult::Incomplete) => DfsResult::Incomplete,
        (DfsResult::Exhausted(b), DfsResult::Exhausted(c)) => DfsResult::Exhausted(smallest_key(b, c)),
    }
}

/// What a state met again answers, from its cached status.
pub fn cached_outcome(status: StateStatus) -> (result: DfsResult)
    ensures
        result == cached_result(status),
{
    match status {
        StateStatus::InProgress => DfsResult::Failed(ProfileSearchError::ReentrantCanonicalState),
        StateStatus::ProvenDead => DfsResult::Exhausted(None),
        StateStatus::Exhausted => DfsResult::Exhausted(None),
        StateStatus::SatWitness(key) => DfsResult::Exhausted(Some(key)),
    }
}

/// Combines a running result with one child's.
pub fn fold_result(total: DfsResult, child: DfsResult) -> (result: DfsResult)
    ensures
        result == folded(total, child),
{
    match (total, child) {
        (DfsResult::Failed(e), _) => DfsResult::Failed(e),
        (_, DfsResult::Failed(e)) => DfsResult::Failed(e),
        (DfsResult::Incomplete, _) => DfsResult::Incomplete,
        (_, DfsResult::Incomplete) => DfsResult::Incomplete,
        (DfsResult::Exhausted(best), DfsResult::Exhausted(candidate)) => {
            let kept = match (best, candidate) {
                (best, None) => best,
                (None, Some(c)) => Some(c),
                (Some(b), Some(c)) => if key_below(&c, &b) {
                    Some(c)
                } else {
                    Some(b)
                },
            };
            DfsResult::Exhausted(kept)
        },
    }
}

/// How a finished state changes the cache.
#[derive(Clone, Debug, PartialEq, Eq)]
pub enum CacheUpdate {
    /// The state was never entered in the cache.
    Untouched,
    /// The state's in-progress entry is removed.
    Forget,
    /// The state's entry becomes this settled status.
    Settle(StateStatus),
    /// The state's entry becomes the witness key that the result carries.
    SettleWitness,
}

/// The cache update for a state entered as in progress whose search ended
/// with `result`: an exhausted state settles, on its smallest witness, or as
/// exhausted when some decision was tried, or as proven dead when none was;
/// any other result forgets the entry.
pub open spec fn closing_update(result: DfsResult, attempted: bool) -> CacheUpdate {
    match result {
        DfsResult::Exhausted(Some(_)) => CacheUpdate::SettleWitness,
        DfsResult::Exhausted(None) => CacheUpdate::Settle(if attempted {
            StateStatus::Exhausted
        } else {
            StateStatus::ProvenDead
        }),
        _ => CacheUpdate::Forget,
    }
}

/// Where one depth-first frame over a state stands.
#[derive(Clone, Debug, PartialEq, Eq)]
pub enum FramePhase {
    /// Waiting for the state's snapshot and its operator-link count.
    Snapshot,
    /// Waiting for the cache's answer on the canonical state.
    Lookup,
    /// Entered in the cache as in progress; waiting for its open port's decisions.
    Decisions,
    /// Searching child `next` of `count`, with the result folded so far.
    Children { next: usize, count: usize, result: DfsResult },
    /// Finished.
    Done,
}

/// One depth-first frame: the optimized link count that prunes, and its phase.
#[derive(Clone, Debug, PartialEq, Eq)]
pub struct SearchFrame {
    pub expected_link_count: Option<u32>,
    pub phase: FramePhase,
}

/// What the outside work of one step reported.
#[derive(Clone, Debug, PartialEq, Eq)]
pub enum SearchEvent {
    /// Cancellation was observed.
    Cancelled,
    /// The snapshot with known link flows could not be taken.
    SnapshotFailed(String),
    /// The snapshot holds this many operator-to-operator links.
    Snapshot { operator_links: u32 },
    /// The canonical state already has this status.
    Known(StateStatus),
    /// The canonical state is new; `complete` tells whether it is a complete topology.
    Unknown { complete: bool },
    /// The selected open port admits this many decisions; none when no port is open.
    Decisions { count: usize },
    /// The search below the current child ended with this result.
    Child(DfsResult),
}

/// What the frame asks for next.
#[derive(Clone, Debug, PartialEq, Eq)]
pub enum SearchAction {
    TakeSnapshot,
    LookUpState,
    /// Enter the state as in progress, then select its open port and list its decisions.
    ListDecisions,
    /// Enter the state as in progress, then evaluate the complete topology.
    EvaluateComplete,
    /// Apply decision `index` and search below it.
    SearchChild(usize),
    /// The frame is over with this result and this cache update.
    Finish { result: DfsResult, update: CacheUpdate },
}

/// The frame that is over.
pub open spec fn done_frame(frame: SearchFrame) -> SearchFrame {
    SearchFrame { expected_link_count: frame.expected_link_count, phase: FramePhase::Done }
}

/// The frame in phase `phase`.
pub open spec fn in_phase(frame: SearchFrame, phase: FramePhase) -> SearchFrame {
    SearchFrame { expected_link_count: frame.expected_link_count, phase }
}

/// The decisions of one depth-first step over a state: cancellation stops
/// it; a snapshot with more operator links than the optimized count prunes
/// it as exhausted; a cached state answers from its status; a new state is
/// entered as in progress and then either evaluated whole or searched child
/// by child, in decision order, folding each child's result and stopping at
/// the first that is not exhausted. No open port, or none of its decisions,
/// proves the state dead.
pub open spec fn search_transition(frame: SearchFrame, event: SearchEvent) -> (SearchFrame, SearchAction) {
    let finish = |result: DfsResult, update: CacheUpdate| (done_frame(frame), SearchAction::Finish { result, update });
    match (frame.phase, event) {
        (FramePhase::Snapshot, SearchEvent::Cancelled) => finish(DfsResult::Incomplete, CacheUpdate::Untouched),
        (FramePhase::Snapshot, SearchEvent::SnapshotFailed(reason)) => finish(
            DfsResult::Failed(ProfileSearchError::Propagation(reason)),
            CacheUpdate::Untouched,
        ),
        (FramePhase::Snapshot, SearchEvent::Snapshot { operator_links }) => match frame.expected_link_count {
            Some(expected) if operator_links > expected => finish(DfsResult::Exhausted(None), CacheUpdate::Untouched),
            _ => (in_phase(frame, FramePhase::Lookup), SearchAction::LookUpState),
        },
        (FramePhase::Lookup, SearchEvent::Cancelled) => finish(DfsResult::Incomplete, CacheUpdate::Untouched),
        (FramePhase::Lookup, SearchEvent::Known(status)) => finish(cached_result(status), CacheUpdate::Untouched),
        (FramePhase::Lookup, SearchEvent::Unknown { complete }) => if complete {
            (done_frame(frame), SearchAction::EvaluateComplete)
        } else {
            (in_phase(frame, FramePhase::Decisions), SearchAction::ListDecisions)
        },
        (FramePhase::Decisions, SearchEvent::Cancelled) => finish(DfsResult::Incomplete, CacheUpdate::Forget),
        (FramePhase::Decisions, SearchEvent::Decisions { count }) => if count == 0 {
            finish(DfsResult::Exhausted(None), CacheUpdate::Settle(StateStatus::ProvenDead))
        } else {
            (
                in_phase(frame, FramePhase::Children { next: 0, count, result: DfsResult::Exhausted(None) }),
                SearchAction::SearchChild(0),
            )
        },
        (FramePhase::Children { next, count, result }, SearchEvent::Cancelled) => {
            let total = folded(result, DfsResult::Incomplete);
            finish(total, closing_update(total, true))
        },
        (FramePhase::Children { next, count, result }, SearchEvent::Child(child)) => {
            let total = folded(result, child);
            if total is Exhausted && next + 1 < count {
                (
                    in_phase(frame, FramePhase::Children { next: (next + 1) as usize, count, result: total }),
                    SearchAction::SearchChild((next + 1) as usize),
                )
            } else {
                finish(total, closing_update(total, true))
            }
        },
        _ => (frame, SearchAction::TakeSnapshot),
    }
}

/// `event` is one that the outside work of `phase` can report.
pub open spec fn event_fits(phase: FramePhase, event: SearchEvent) -> bool {
    match phase {
        FramePhase::Snapshot => event is Cancelled || event is SnapshotFailed || event is Snapshot,
        FramePhase::Lookup => event is Cancelled || event is Known || event is Unknown,
        FramePhase::Decisions => event is Cancelled || event is Decisions,
        FramePhase::Children { next, count, result } => next < count && (event is Cancelled || event is Child),
        FramePhase::Done => false,
    }
}

impl SearchFrame {
    /// A frame over a fresh state, asking for its snapshot.
    pub fn start(expected_link_count: Option<u32>) -> (started: (SearchFrame, SearchAction))
        ensures
            started.0 == (SearchFrame { expected_link_count, phase: FramePhase::Snapshot }),
            started.1 == SearchAction::TakeSnapshot,
    {
        (SearchFrame { expected_link_count, phase: FramePhase::Snapshot }, SearchAction::TakeSnapshot)
    }
}

/// One depth-first step over a state: from the frame and what the outside
/// work reported, the next frame and what to do next.
pub fn search_step(frame: SearchFrame, event: SearchEvent) -> (next: (SearchFrame, SearchAction))
    requires
        event_fits(frame.phase, event),
    ensures
        next == search_transition(frame, event),
{
    let expected_link_count = frame.expected_link_count;
    let done = SearchFrame { expected_link_count, phase: FramePhase::Done };
    match (frame.phase, event) {
        (FramePhase::Snapshot, SearchEvent::Cancelled) => (
            done,
            SearchAction::Finish { result: DfsResult::Incomplete, update: CacheUpdate::Untouched },
        ),
        (FramePhase::Snapshot, SearchEvent::SnapshotFailed(reason)) => (
            done,
            SearchAction::Finish {
                result: DfsResult::Failed(ProfileSearchError::Propagation(reason)),
                update: CacheUpdate::Untouched,
            },
        ),
        (FramePhase::Snapshot, SearchEvent::Snapshot { operator_links }) => {
            let pruned = match expected_link_count {
                Some(expected) => operator_links > expected,
                None => false,
            };
            if pruned {
                (done, SearchAction::Finish { result: DfsResult::Exhausted(None), update: CacheUpdate::Untouched })
            } else {
                (SearchFrame { expected_link_count, phase: FramePhase::Lookup }, SearchAction::LookUpState)
            }
        },
        (FramePhase::Lookup, SearchEvent::Cancelled) => (
            done,
            SearchAction::Finish { result: DfsResult::Incomplete, update: CacheUpdate::Untouched },
        ),
        (FramePhase::Lookup, SearchEvent::Known(status)) => (
            done,
            SearchAction::Finish { result: cached_outcome(status), update: CacheUpdate::Untouched },
        ),
        (FramePhase::Lookup, SearchEvent::Unknown { complete }) => if complete {
            (done, SearchAction::EvaluateComplete)
        } else {
            (SearchFrame { expected_link_count, phase: FramePhase::Decisions }, SearchAction::ListDecisions)
        },
        (FramePhase::Decisions, SearchEvent::Cancelled) => (
            done,
            SearchAction::Finish { result: DfsResult::Incomplete, update: CacheUpdate::Forget },
        ),
        (FramePhase::Decisions, SearchEvent::Decisions { count }) => if count == 0 {
            (
                done,
                SearchAction::Finish {
                    result: DfsResult::Exhausted(None),
                    update: CacheUpdate::Settle(StateStatus::ProvenDead),
                },
            )
        } else {
            (
                SearchFrame {
                    expected_link_count,
                    phase: FramePhase::Children { next: 0, count, result: DfsResult::Exhausted(None) },
                },
                SearchAction::SearchChild(0),
            )
        },
        (FramePhase::Children { next, count, result }, SearchEvent::Cancelled) => {
            let total = fold_result(result, DfsResult::Incomplete);
            let update = closing_cache_update(&total);
            (done, SearchAction::Finish { result: total, update })
        },
        (FramePhase::Children { next, count, result }, SearchEvent::Child(child)) => {
            let total = fold_result(result, child);
            let exhausted = match &total {
                DfsResult::Exhausted(_) => true,
                _ => false,
            };
            if exhausted && next + 1 < count {
                (
                    SearchFrame {
                        expected_link_count,
                        phase: FramePhase::Children { next: next + 1, count, result: total },
                    },
                    SearchAction::SearchChild(next + 1),
                )
            } else {
                let update = closing_cache_update(&total);
                (done, SearchAction::Finish { result: total, update })
            }
        },
        (phase, _) => (SearchFrame { expected_link_count, phase }, SearchAction::TakeSnapshot),
    }
}

/// The cache update for a state whose children were searched.
fn closing_cache_update(result: &DfsResult) -> (update: CacheUpdate)
    ensures
        update == closing_update(*result, true),
{
    match result {
        DfsResult::Exhausted(Some(_)) => CacheUpdate::SettleWitness,
        DfsResult::Exhausted(None) => CacheUpdate::Settle(StateStatus::Exhausted),
        _ => CacheUpdate::Forget,
    }
}
/// Child results folded in order from an exhausted start.
pub open spec fn fold_children(results: Seq<DfsResult>) -> DfsResult
    decreases results.len(),
{
    if results.len() == 0 {
        DfsResult::Exhausted(None)
    } else {
        folded(fold_children(results.drop_last()), results.last())
    }
}

/// A state's children fold to an exhausted result exactly when every child
/// was exhausted, and then without a witness exactly when no child had one.
pub proof fn law_exhausted_only_when_every_child_is(results: Seq<DfsResult>)
    ensures
        fold_children(results) is Exhausted <==> forall|i: int|
            0 <= i < results.len() ==> (#[trigger] results[i]) is Exhausted,
        fold_children(results) == DfsResult::Exhausted(None) <==> forall|i: int|
            0 <= i < results.len() ==> #[trigger] results[i] == DfsResult::Exhausted(None),
    decreases results.len(),
{
    if results.len() > 0 {
        let prefix = results.drop_last();
        law_exhausted_only_when_every_child_is(prefix);
        assert forall|i: int| 0 <= i < prefix.len() implies prefix[i] == results[i] by {}
        let last = results.last();
        assert(last == results[results.len() - 1]);
        if fold_children(prefix) is Exhausted && last is Exhausted {
            if fold_children(results) == DfsResult::Exhausted(None) {
                assert(fold_children(prefix) == DfsResult::Exhausted(None));
                assert(last == DfsResult::Exhausted(None));
            }
        }
    }
}

/// A frame over a state searching its children keeps the fold of the
/// children searched so far; a step on the next child keeps it.
pub proof fn law_frame_folds_its_children(frame: SearchFrame, searched: Seq<DfsResult>, child: DfsResult)
    requires
        frame.phase matches FramePhase::Children { next, count, result } && next < count && next == searched.len()
            && result == fold_children(searched),
    ensures
        search_transition(frame, SearchEvent::Child(child)).0.phase matches FramePhase::Children { next, count, result }
            ==> next == searched.push(child).len() && result == fold_children(searched.push(child)),
        search_transition(frame, SearchEvent::Child(child)).1 matches SearchAction::Finish { result, update }
            ==> result == fold_children(searched.push(child)),
{
    assert(searched.push(child).drop_last() =~= searched);
}

/// A frame ends exhausted over a new state only when every child it searched
/// was exhausted: the step that finishes it with an exhausted result had an
/// exhausted running result and an exhausted child.
pub proof fn law_exhausted_finish_needs_exhausted_children(frame: SearchFrame, event: SearchEvent)
    requires
        event_fits(frame.phase, event),
        frame.phase is Children,
        search_transition(frame, event).1 matches SearchAction::Finish { result, update } && result is Exhausted,
    ensures
        event matches SearchEvent::Child(child) && child is Exhausted,
        frame.phase->result is Exhausted,
{
}

/// The cache update of a finishing action.
pub open spec fn finish_update(action: SearchAction) -> Option<CacheUpdate> {
    match action {
        SearchAction::Finish { result, update } => Some(update),
        _ => None,
    }
}

/// The cache is left alone by a frame that never entered its state: a
/// cancelled, failed or pruned snapshot, or a state the cache already knew;
/// an entered state is always settled or forgotten when its frame finishes.
pub proof fn law_cache_touched_only_when_entered(frame: SearchFrame, event: SearchEvent)
    requires
        event_fits(frame.phase, event),
    ensures
        (frame.phase is Snapshot || frame.phase is Lookup) ==> finish_update(search_transition(frame, event).1)
            is None || finish_update(search_transition(frame, event).1) == Some(CacheUpdate::Untouched),
        (frame.phase is Decisions || frame.phase is Children) ==> finish_update(search_transition(frame, event).1)
            != Some(CacheUpdate::Untouched),
{
}

/// The counts that a complete topology of the searched profile must have.
#[derive(Clone, Copy, Debug, PartialEq, Eq)]
pub struct ExpectedCounts {
    pub nodes: u32,
    /// The optimized operator-link count, when the search is bound to one.
    pub links: Option<u32>,
    pub physical_links: u32,
    pub discard_links: u32,
}

/// The counts that the independent validator reports of a witness.
#[derive(Clone, Copy, Debug, PartialEq, Eq)]
pub struct ValidatedCounts {
    pub nodes: u32,
    pub links: u32,
    pub physical_links: u32,
    pub discard_links: u32,
}

/// Where the evaluation of one complete topology stands.
#[derive(Clone, Debug, PartialEq, Eq)]
pub enum CompletePhase {
    /// Waiting for the exact flow algebra on the topology.
    Solving,
    /// Waiting for the canonical witness of the solved topology.
    Canonicalizing,
    /// Waiting for the independent validation of the canonical witness with this key.
    Validating { key: Vec<u8> },
    /// Finished.
    Done,
}

/// What the outside work of one evaluation step reported.
#[derive(Clone, Debug, PartialEq, Eq)]
pub enum CompleteEvent {
    /// The algebra rejected the candidate (unreachable node, inconsistent or
    /// non-unique flows, wrong output rate, non-positive flow).
    Rejected,
    /// The algebra failed for another reason.
    SolveFailed(String),
    /// The solved topology has this many operator-to-operator links.
    Solved { operator_links: usize },
    /// Cancellation was observed while canonicalizing.
    Cancelled,
    /// The canonical witness has this key.
    Canonicalized { key: Vec<u8> },
    /// The validator refused the witness.
    ValidationFailed(String),
    /// The validator accepted the witness with these counts.
    Validated(ValidatedCounts),
}

/// What the evaluation asks for next.
#[derive(Clone, Debug, PartialEq, Eq)]
pub enum CompleteAction {
    Canonicalize,
    Validate,
    /// Over with this result and cache update; an exhausted result with a key
    /// keeps the validated witness.
    Finish { result: DfsResult, update: CacheUpdate },
}

/// The evaluation is bound to a link count and `links` misses it.
pub open spec fn misses_links(expected: ExpectedCounts, links: int) -> bool {
    expected.links matches Some(x) && links != x
}

/// The decisions of evaluating one complete topology: a rejected candidate,
/// or one outside the optimized link group, is proven dead; an algebra or
/// validation failure fails the state; cancellation stops it; a witness whose
/// validated counts miss the expected nodes, physical links or discard links
/// is a count mismatch; any other validated witness settles the state on its key.
pub open spec fn complete_transition(
    phase: CompletePhase,
    expected: ExpectedCounts,
    event: CompleteEvent,
) -> (CompletePhase, CompleteAction) {
    let finish = |result: DfsResult, update: CacheUpdate| (CompletePhase::Done, CompleteAction::Finish { result, update });
    let dead = finish(DfsResult::Exhausted(None), CacheUpdate::Settle(StateStatus::ProvenDead));
    match (phase, event) {
        (CompletePhase::Solving, CompleteEvent::Rejected) => dead,
        (CompletePhase::Solving, CompleteEvent::SolveFailed(reason)) => finish(
            DfsResult::Failed(ProfileSearchError::InvalidCompleteTopology(reason)),
            CacheUpdate::Forget,
        ),
        (CompletePhase::Solving, CompleteEvent::Solved { operator_links }) => if misses_links(
            expected,
            operator_links as int,
        ) {
            dead
        } else {
            (CompletePhase::Canonicalizing, CompleteAction::Canonicalize)
        },
        (CompletePhase::Canonicalizing, CompleteEvent::Cancelled) => finish(DfsResult::Incomplete, CacheUpdate::Forget),
        (CompletePhase::Canonicalizing, CompleteEvent::Canonicalized { key }) => (
            CompletePhase::Validating { key },
            CompleteAction::Validate,
        ),
        (CompletePhase::Validating { key }, CompleteEvent::ValidationFailed(reason)) => finish(
            DfsResult::Failed(ProfileSearchError::ValidationFirewall(reason)),
            CacheUpdate::Forget,
        ),
        (CompletePhase::Validating { key }, CompleteEvent::Validated(counts)) => if misses_links(
            expected,
            counts.links as int,
        ) {
            dead
        } else if counts.nodes != expected.nodes || counts.physical_links != expected.physical_links
            || counts.discard_links != expected.discard_links {
            finish(
                DfsResult::Failed(
                    ProfileSearchError::ValidationCountMismatch {
                        expected_nodes: expected.nodes,
                        expected_links: match expected.links {
                            Some(x) => x,
                            None => counts.links,
                        },
                        expected_physical_links: expected.physical_links,
                        expected_discard_links: expected.discard_links,
                        actual_nodes: counts.nodes,
                        actual_links: counts.links,
                        actual_physical_links: counts.physical_links,
                        actual_discard_links: counts.discard_links,
                    },
                ),
                CacheUpdate::Forget,
            )
        } else {
            finish(DfsResult::Exhausted(Some(key)), CacheUpdate::SettleWitness)
        },
        _ => (phase, CompleteAction::Validate),
    }
}

/// `event` is one that the outside work of `phase` can report.
pub open spec fn complete_event_fits(phase: CompletePhase, event: CompleteEvent) -> bool {
    match phase {
        CompletePhase::Solving => event is Rejected || event is SolveFailed || event is Solved,
        CompletePhase::Canonicalizing => event is Cancelled || event is Canonicalized,
        CompletePhase::Validating { .. } => event is ValidationFailed || event is Validated,
        CompletePhase::Done => false,
    }
}

/// One step of evaluating a complete topology.
pub fn complete_step(phase: CompletePhase, expected: ExpectedCounts, event: CompleteEvent) -> (next: (
    CompletePhase,
    CompleteAction,
))
    requires
        complete_event_fits(phase, event),
    ensures
        next == complete_transition(phase, expected, event),
{
    let misses = |links: u64| -> (m: bool)
        ensures
            m == misses_links(expected, links as int),
        {
            match expected.links {
                Some(x) => links != x as u64,
                None => false,
            }
        };
    match (phase, event) {
        (CompletePhase::Solving, CompleteEvent::Rejected) => (
            CompletePhase::Done,
            CompleteAction::Finish {
                result: DfsResult::Exhausted(None),
                update: CacheUpdate::Settle(StateStatus::ProvenDead),
            },
        ),
        (CompletePhase::Solving, CompleteEvent::SolveFailed(reason)) => (
            CompletePhase::Done,
            CompleteAction::Finish {
                result: DfsResult::Failed(ProfileSearchError::InvalidCompleteTopology(reason)),
                update: CacheUpdate::Forget,
            },
        ),
        (CompletePhase::Solving, CompleteEvent::Solved { operator_links }) => {
            if misses(operator_links as u64) {
                (
                    CompletePhase::Done,
                    CompleteAction::Finish {
                        result: DfsResult::Exhausted(None),
                        update: CacheUpdate::Settle(StateStatus::ProvenDead),
                    },
                )
            } else {
                (CompletePhase::Canonicalizing, CompleteAction::Canonicalize)
            }
        },
        (CompletePhase::Canonicalizing, CompleteEvent::Cancelled) => (
            CompletePhase::Done,
            CompleteAction::Finish { result: DfsResult::Incomplete, update: CacheUpdate::Forget },
        ),
        (CompletePhase::Canonicalizing, CompleteEvent::Canonicalized { key }) => (
            CompletePhase::Validating { key },
            CompleteAction::Validate,
        ),
        (CompletePhase::Validating { key }, CompleteEvent::ValidationFailed(reason)) => (
            CompletePhase::Done,
            CompleteAction::Finish {
                result: DfsResult::Failed(ProfileSearchError::ValidationFirewall(reason)),
                update: CacheUpdate::Forget,
            },
        ),
        (CompletePhase::Validating { key }, CompleteEvent::Validated(counts)) => {
            if misses(counts.links as u64) {
                (
                    CompletePhase::Done,
                    CompleteAction::Finish {
                        result: DfsResult::Exhausted(None),
                        update: CacheUpdate::Settle(StateStatus::ProvenDead),
                    },
                )
            } else if counts.nodes != expected.nodes || counts.physical_links != expected.physical_links
                || counts.discard_links != expected.discard_links {
                let expected_links = match expected.links {
                    Some(x) => x,
                    None => counts.links,
                };
                (
                    CompletePhase::Done,
                    CompleteAction::Finish {
                        result: DfsResult::Failed(
                            ProfileSearchError::ValidationCountMismatch {
                                expected_nodes: expected.nodes,
                                expected_links,
                                expected_physical_links: expected.physical_links,
                                expected_discard_links: expected.discard_links,
                                actual_nodes: counts.nodes,
                                actual_links: counts.links,
                                actual_physical_links: counts.physical_links,
                                actual_discard_links: counts.discard_links,
                            },
                        ),
                        update: CacheUpdate::Forget,
                    },
                )
            } else {
                (
                    CompletePhase::Done,
                    CompleteAction::Finish { result: DfsResult::Exhausted(Some(key)), update: CacheUpdate::SettleWitness },
                )
            }
        },
        (phase, _) => (phase, CompleteAction::Validate),
    }
}

/// A complete state is settled on a witness only after the validator
/// reported every expected count for it.
pub proof fn law_witness_only_after_full_validation(phase: CompletePhase, expected: ExpectedCounts, event: CompleteEvent)
    requires
        complete_event_fits(phase, event),
        complete_transition(phase, expected, event).1 matches CompleteAction::Finish { result, update }
            && update == CacheUpdate::SettleWitness,
    ensures
        phase is Validating,
        event matches CompleteEvent::Validated(counts) && counts.nodes == expected.nodes && counts.physical_links
            == expected.physical_links && counts.discard_links == expected.discard_links && !misses_links(
            expected,
            counts.links as int,
        ),
{
}

/// With no link goal, the link count never rejects a topology: every solved
/// topology goes on to canonicalization, and a validated witness whose node,
/// physical and discard counts agree settles the state on its key, whatever
/// its link counts are.
pub proof fn law_no_link_goal_never_rejects(
    expected: ExpectedCounts,
    operator_links: usize,
    key: Vec<u8>,
    counts: ValidatedCounts,
)
    requires
        expected.links is None,
    ensures
        complete_transition(CompletePhase::Solving, expected, CompleteEvent::Solved { operator_links })
            == (CompletePhase::Canonicalizing, CompleteAction::Canonicalize),
        counts.nodes == expected.nodes && counts.physical_links == expected.physical_links && counts.discard_links
            == expected.discard_links ==> complete_transition(
            CompletePhase::Validating { key },
            expected,
            CompleteEvent::Validated(counts),
        ) == (
            CompletePhase::Done,
            CompleteAction::Finish { result: DfsResult::Exhausted(Some(key)), update: CacheUpdate::SettleWitness },
        ),
{
}

/// With a link goal, a solved topology goes on exactly when its operator
/// links meet the goal, and a validated witness whose link count misses the
/// goal is proven dead.
pub proof fn law_link_goal_rejects_exactly_the_misses(
    expected: ExpectedCounts,
    operator_links: usize,
    key: Vec<u8>,
    counts: ValidatedCounts,
)
    requires
        expected.links is Some,
    ensures
        counts.links != expected.links->Some_0 ==> complete_transition(
            CompletePhase::Validating { key },
            expected,
            CompleteEvent::Validated(counts),
        ) == (
            CompletePhase::Done,
            CompleteAction::Finish {
                result: DfsResult::Exhausted(None),
                update: CacheUpdate::Settle(StateStatus::ProvenDead),
            },
        ),
        operator_links == expected.links->Some_0 ==> complete_transition(
            CompletePhase::Solving,
            expected,
            CompleteEvent::Solved { operator_links },
        ) == (CompletePhase::Canonicalizing, CompleteAction::Canonicalize),
        operator_links != expected.links->Some_0 ==> complete_transition(
            CompletePhase::Solving,
            expected,
            CompleteEvent::Solved { operator_links },
        ) == (
            CompletePhase::Done,
            CompleteAction::Finish {
                result: DfsResult::Exhausted(None),
                update: CacheUpdate::Settle(StateStatus::ProvenDead),
            },
        ),
{
}

} // verus!
