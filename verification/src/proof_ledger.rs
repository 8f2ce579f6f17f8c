//! Hierarchical proof accounting for lexicographic search: every expected
//! node count, link group, profile and root partition is registered before
//! it can be completed, and a parent is UNSAT only when every registered
//! child is explicitly UNSAT.

use vstd::prelude::*;

use crate::no_good::{lex, rank_order, ranked_lex};
use crate::sorted::{RankedId, sorted_unique, strictly_increasing};
use crate::profile::{NodeProfile, profile_before, profile_below, same_profile};
use crate::search::{
    IncompleteReason, ProfileSearchError, ProfileSearchResult, ProfileSearchStats,
    ProfileWitness, SearchInstrumentation, merge_of, merge_stats, witness_key,
};

verus! {

/// Result stored at one proof-ledger leaf.
#[derive(Clone, Debug, PartialEq, Eq)]
pub enum PartitionResult {
    Sat { best_witness: ProfileWitness, exhaustion: ProfileSearchStats },
    Unsat { exhaustion: ProfileSearchStats },
    Incomplete {
        reason: IncompleteReason,
        best_witness: Option<ProfileWitness>,
        progress: ProfileSearchStats,
    },
    Failed { error: PartitionFailure, progress: ProfileSearchStats },
}

/// Why a leaf could not return a mathematical proof status.
#[derive(Clone, Debug, PartialEq, Eq)]
pub enum PartitionFailure {
    Search(ProfileSearchError),
    WorkerPanicked,
}

impl PartitionFailure {
    /// An equal failure.
    pub fn copied(&self) -> (failure: PartitionFailure)
        ensures
            failure == *self,
    {
        match self {
            PartitionFailure::Search(error) => PartitionFailure::Search(error.copied()),
            PartitionFailure::WorkerPanicked => PartitionFailure::WorkerPanicked,
        }
    }
}

/// Folded fixed-profile status, including a lost worker.
#[derive(Clone, Debug, PartialEq, Eq)]
pub enum FoldedProfileResult {
    Search(Box<ProfileSearchResult>),
    WorkerPanicked,
}

/// Proof status of a link group or a node count.
#[derive(Clone, Debug, PartialEq, Eq)]
pub enum ParentProofStatus {
    Pending,
    Sat { best_witness: ProfileWitness },
    Unsat,
    Incomplete { reason: IncompleteReason },
    Failed { error: PartitionFailure },
}

/// A refused ledger step.
#[derive(Clone, Debug, PartialEq, Eq)]
pub enum ProofLedgerError {
    DuplicateNode { node_count: u32 },
    UnknownNode { node_count: u32 },
    DuplicateLinkGroup { node_count: u32, link_count: u32 },
    UnknownProfile { node_count: u32, link_count: u32, profile: NodeProfile },
    DuplicatePartitionPlan { node_count: u32, link_count: u32, profile: NodeProfile },
    EmptyPartitionPlan { node_count: u32, link_count: u32, profile: NodeProfile },
    UnknownPartition { node_count: u32, link_count: u32, profile: NodeProfile, partition: u32 },
    DuplicatePartitionResult {
        node_count: u32,
        link_count: u32,
        profile: NodeProfile,
        partition: u32,
    },
}

/// The leaf result a search result records: exhaustion with a witness is
/// SAT, without one UNSAT.
pub open spec fn partition_of(result: ProfileSearchResult) -> PartitionResult {
    match result {
        ProfileSearchResult::Exhausted { best_witness, witnesses, stats } => match best_witness {
            Some(w) => PartitionResult::Sat { best_witness: w, exhaustion: stats },
            None => PartitionResult::Unsat { exhaustion: stats },
        },
        ProfileSearchResult::Incomplete { reason, best_witness, witnesses, stats } => {
            PartitionResult::Incomplete { reason, best_witness, progress: stats }
        },
        ProfileSearchResult::Failed { error, stats } => PartitionResult::Failed {
            error: PartitionFailure::Search(error),
            progress: stats,
        },
    }
}

impl From<ProfileSearchResult> for PartitionResult {
    fn from(result: ProfileSearchResult) -> (partition: PartitionResult) {
        match result {
            ProfileSearchResult::Exhausted { best_witness, witnesses, stats } => match best_witness {
                Some(w) => PartitionResult::Sat { best_witness: w, exhaustion: stats },
                None => PartitionResult::Unsat { exhaustion: stats },
            },
            ProfileSearchResult::Incomplete { reason, best_witness, witnesses, stats } => {
                PartitionResult::Incomplete { reason, best_witness, progress: stats }
            },
            ProfileSearchResult::Failed { error, stats } => PartitionResult::Failed {
                error: PartitionFailure::Search(error),
                progress: stats,
            },
        }
    }
}

impl vstd::std_specs::convert::FromSpecImpl<ProfileSearchResult> for PartitionResult {
    open spec fn obeys_from_spec() -> bool {
        true
    }

    open spec fn from_spec(result: ProfileSearchResult) -> PartitionResult {
        partition_of(result)
    }
}

/// The order of canonical graph keys: bytes lexicographically.
pub open spec fn key_order(a: Seq<u8>, b: Seq<u8>) -> int {
    lex(a, b, |x: u8, y: u8| rank_order(x, y))
}

/// The retained witness key: a candidate replaces a larger key.
pub open spec fn retained(best: Option<Seq<u8>>, candidate: Seq<u8>) -> Option<Seq<u8>> {
    match best {
        Some(current) => if key_order(candidate, current) < 0 {
            Some(candidate)
        } else {
            Some(current)
        },
        None => Some(candidate),
    }
}

/// All counters zero.
pub open spec fn zero_stats() -> ProfileSearchStats {
    ProfileSearchStats {
        instrumentation: SearchInstrumentation {
            raw_structural_decisions: 0,
            canonical_states_retained: 0,
            canonical_duplicates_eliminated: 0,
            propagation_contradictions: 0,
            capacity_prunes: 0,
            lower_bound_prunes: 0,
            scc_solves: 0,
            scc_cache_hits: 0,
            canonicalization_time_ns: 0,
            algebra_time_ns: 0,
            peak_state_cache_size: 0,
            peak_memory_bytes: 0,
            wall_time_ms: 0,
        },
        state_cache_hits: 0,
        complete_topologies: 0,
        rejected_complete_topologies: 0,
        validated_cyclic_topologies: 0,
    }
}

/// What folding a profile's leaves has gathered so far.
pub struct FoldState {
    pub stats: ProfileSearchStats,
    pub best: Option<Seq<u8>>,
    pub incomplete: Option<IncompleteReason>,
    pub failure: Option<PartitionFailure>,
}

/// Folds one more leaf: counters merge, the smallest witness key is kept,
/// and the first incomplete reason and the first failure are remembered.
pub open spec fn fold_step(state: FoldState, result: PartitionResult) -> FoldState {
    match result {
        PartitionResult::Sat { best_witness, exhaustion } => FoldState {
            stats: merge_of(state.stats, exhaustion),
            best: retained(state.best, best_witness@),
            ..state
        },
        PartitionResult::Unsat { exhaustion } => FoldState {
            stats: merge_of(state.stats, exhaustion),
            ..state
        },
        PartitionResult::Incomplete { reason, best_witness, progress } => FoldState {
            stats: merge_of(state.stats, progress),
            best: match best_witness {
                Some(w) => retained(state.best, w@),
                None => state.best,
            },
            incomplete: if state.incomplete is Some {
                state.incomplete
            } else {
                Some(reason)
            },
            ..state
        },
        PartitionResult::Failed { error, progress } => FoldState {
            stats: merge_of(state.stats, progress),
            failure: if state.failure is Some {
                state.failure
            } else {
                Some(error)
            },
            ..state
        },
    }
}

/// The fold of a profile's leaf results, in partition order.
pub open spec fn fold_results(results: Seq<PartitionResult>) -> FoldState
    decreases results.len(),
{
    if results.len() == 0 {
        FoldState { stats: zero_stats(), best: None, incomplete: None, failure: None }
    } else {
        fold_step(fold_results(results.drop_last()), results.last())
    }
}

/// `out` is the folded profile result of `state`: a failure wins, then an
/// incomplete leaf, and only then exhaustion.
pub open spec fn folded_as(out: FoldedProfileResult, state: FoldState) -> bool {
    match state.failure {
        Some(PartitionFailure::Search(error)) => out == FoldedProfileResult::Search(
            Box::new(ProfileSearchResult::Failed { error, stats: state.stats }),
        ),
        Some(PartitionFailure::WorkerPanicked) => out is WorkerPanicked,
        None => match out {
            FoldedProfileResult::Search(result) => match (*result, state.incomplete) {
                (
                    ProfileSearchResult::Incomplete { reason, best_witness, witnesses, stats },
                    Some(first),
                ) => reason == first && witness_key(best_witness) == state.best && witnesses@.len()
                    == 0 && stats == state.stats,
                (
                    ProfileSearchResult::Exhausted { best_witness, witnesses, stats },
                    None,
                ) => witness_key(best_witness) == state.best && witnesses@.len() == 0 && stats
                    == state.stats,
                _ => false,
            },
            FoldedProfileResult::WorkerPanicked => false,
        },
    }
}

/// All counters zero.
pub fn zero_profile_stats() -> (stats: ProfileSearchStats)
    ensures
        stats == zero_stats(),
{
    ProfileSearchStats {
        instrumentation: SearchInstrumentation {
            raw_structural_decisions: 0,
            canonical_states_retained: 0,
            canonical_duplicates_eliminated: 0,
            propagation_contradictions: 0,
            capacity_prunes: 0,
            lower_bound_prunes: 0,
            scc_solves: 0,
            scc_cache_hits: 0,
            canonicalization_time_ns: 0,
            algebra_time_ns: 0,
            peak_state_cache_size: 0,
            peak_memory_bytes: 0,
            wall_time_ms: 0,
        },
        state_cache_hits: 0,
        complete_topologies: 0,
        rejected_complete_topologies: 0,
        validated_cyclic_topologies: 0,
    }
}

/// Whether key `a` comes strictly before key `b`.
pub(crate) fn key_below(a: &Vec<u8>, b: &Vec<u8>) -> (below: bool)
    ensures
        below == (key_order(a@, b@) < 0),
{
    ranked_lex(a, b) < 0
}

/// Keeps the witness with the smaller canonical graph key.
fn retain_witness(target: &mut Option<ProfileWitness>, candidate: ProfileWitness)
    ensures
        witness_key(*final(target)) == retained(witness_key(*old(target)), candidate@),
{
    let replace = match target {
        Some(current) => key_below(&candidate.canonical_graph_key, &current.canonical_graph_key),
        None => true,
    };
    if replace {
        *target = Some(candidate);
    }
}

/// The leaf results of a plan whose every partition has reported.
pub open spec fn reported(results: Seq<Option<PartitionResult>>) -> Seq<PartitionResult> {
    results.map_values(|r: Option<PartitionResult>| r->0)
}

/// Every partition has reported.
pub open spec fn all_reported(results: Seq<Option<PartitionResult>>) -> bool {
    forall|i: int| 0 <= i < results.len() ==> results[i] is Some
}

/// Folds a profile's leaf results once every partition has reported.
fn fold_plan(results: &Vec<Option<PartitionResult>>) -> (out: Option<FoldedProfileResult>)
    ensures
        out is None <==> !all_reported(results@),
        out matches Some(o) ==> folded_as(o, fold_results(reported(results@))),
{
    let mut k: usize = 0;
    while k < results.len()
        invariant
            k <= results@.len(),
            forall|i: int| 0 <= i < k ==> results@[i] is Some,
        decreases results@.len() - k,
    {
        if results[k].is_none() {
            return None;
        }
        k = k + 1;
    }
    let ghost all = reported(results@);
    let mut stats = zero_profile_stats();
    let mut best: Option<ProfileWitness> = None;
    let mut first_incomplete: Option<IncompleteReason> = None;
    let mut first_failure: Option<PartitionFailure> = None;
    let mut i: usize = 0;
    while i < results.len()
        invariant
            i <= results@.len(),
            all_reported(results@),
            all == reported(results@),
            (FoldState { stats, best: witness_key(best), incomplete: first_incomplete, failure: first_failure })
                == fold_results(all.take(i as int)),
        decreases results@.len() - i,
    {
        assert(all.take(i + 1).drop_last() =~= all.take(i as int));
        match &results[i] {
            Some(result) => {
                assert(all.take(i + 1).last() == *result);
                match result {
                    PartitionResult::Sat { best_witness, exhaustion } => {
                        merge_stats(&mut stats, exhaustion);
                        retain_witness(&mut best, best_witness.copied());
                    },
                    PartitionResult::Unsat { exhaustion } => {
                        merge_stats(&mut stats, exhaustion);
                    },
                    PartitionResult::Incomplete { reason, best_witness, progress } => {
                        merge_stats(&mut stats, progress);
                        match best_witness {
                            Some(w) => retain_witness(&mut best, w.copied()),
                            None => {},
                        }
                        if first_incomplete.is_none() {
                            first_incomplete = Some(reason.copied());
                        }
                    },
                    PartitionResult::Failed { error, progress } => {
                        merge_stats(&mut stats, progress);
                        if first_failure.is_none() {
                            first_failure = Some(error.copied());
                        }
                    },
                }
            },
            None => {
                assert(false);
            },
        }
        i = i + 1;
    }
    assert(all.take(i as int) =~= all);
    match first_failure {
        Some(PartitionFailure::Search(error)) => {
            return Some(FoldedProfileResult::Search(Box::new(ProfileSearchResult::Failed { error, stats })));
        },
        Some(PartitionFailure::WorkerPanicked) => {
            return Some(FoldedProfileResult::WorkerPanicked);
        },
        None => {},
    }
    match first_incomplete {
        Some(reason) => Some(
            FoldedProfileResult::Search(
                Box::new(
                    ProfileSearchResult::Incomplete {
                        reason,
                        best_witness: best,
                        witnesses: Vec::new(),
                        stats,
                    },
                ),
            ),
        ),
        None => Some(
            FoldedProfileResult::Search(
                Box::new(ProfileSearchResult::Exhausted { best_witness: best, witnesses: Vec::new(), stats }),
            ),
        ),
    }
}

/// The registered root partitions of one profile, ascending, and what each reported.
pub struct Plan {
    pub partitions: Vec<u32>,
    pub results: Vec<Option<PartitionResult>>,
}

/// One profile of a link group and its partition plan, once registered.
pub struct ProfileSlot {
    pub profile: NodeProfile,
    pub plan: Option<Plan>,
}

/// The profiles of one link count of one node count.
pub struct LinkGroupLedger {
    pub node_count: u32,
    pub link_count: u32,
    pub slots: Vec<ProfileSlot>,
}

/// Link groups are ordered by node count, then by link count.
pub open spec fn group_before(a: LinkGroupLedger, b: LinkGroupLedger) -> bool {
    a.node_count < b.node_count || (a.node_count == b.node_count && a.link_count < b.link_count)
}

/// A plan lists distinct partitions in ascending order, each with its slot.
pub open spec fn plan_wf(plan: Plan) -> bool {
    &&& strictly_increasing(plan.partitions@)
    &&& plan.results@.len() == plan.partitions@.len()
}

/// A link group lists distinct profiles in ascending order.
pub open spec fn group_wf(group: LinkGroupLedger) -> bool {
    &&& forall|i: int, j: int|
        0 <= i < j < group.slots@.len() ==> profile_before(
            #[trigger] group.slots@[i].profile,
            #[trigger] group.slots@[j].profile,
        )
    &&& forall|i: int|
        0 <= i < group.slots@.len() ==> match #[trigger] group.slots@[i].plan {
            Some(plan) => plan_wf(plan),
            None => true,
        }
}

/// The distinct profiles of `profiles`, ascending.
fn sorted_profiles(profiles: &Vec<NodeProfile>) -> (sorted: Vec<NodeProfile>)
    ensures
        forall|i: int, j: int|
            0 <= i < j < sorted@.len() ==> profile_before(#[trigger] sorted@[i], #[trigger] sorted@[j]),
        forall|p: NodeProfile| #[trigger] sorted@.contains(p) <==> profiles@.contains(p),
{
    let mut sorted: Vec<NodeProfile> = Vec::new();
    let mut k: usize = 0;
    while k < profiles.len()
        invariant
            k <= profiles@.len(),
            forall|i: int, j: int|
                0 <= i < j < sorted@.len() ==> profile_before(#[trigger] sorted@[i], #[trigger] sorted@[j]),
            forall|p: NodeProfile|
                #[trigger] sorted@.contains(p) <==> profiles@.subrange(0, k as int).contains(p),
        decreases profiles@.len() - k,
    {
        let x = profiles[k];
        let mut at: usize = 0;
        while at < sorted.len() && profile_below(sorted[at], x)
            invariant
                at <= sorted@.len(),
                forall|i: int| 0 <= i < at ==> profile_before(sorted@[i], x),
            decreases sorted@.len() - at,
        {
            at = at + 1;
        }
        let ghost before = sorted@;
        let ghost prefix = profiles@.subrange(0, k as int);
        let ghost next = profiles@.subrange(0, k + 1);
        proof {
            assert forall|i: int| at <= i < before.len() implies !profile_before(before[i], x) && (i
                > at ==> profile_before(x, before[i])) by {
                if i > at {
                    assert(profile_before(before[at as int], before[i]));
                }
            }
            assert(next =~= prefix.push(x));
        }
        if at < sorted.len() && same_profile(sorted[at], x) {
            proof {
                assert forall|p: NodeProfile| #[trigger] sorted@.contains(p) <==> next.contains(p) by {
                    if p == x {
                        assert(sorted@[at as int] == x);
                        assert(next[k as int] == x);
                    }
                    if next.contains(p) && p != x {
                        let i = choose|i: int| 0 <= i < next.len() && next[i] == p;
                        assert(prefix[i] == p);
                    }
                    if prefix.contains(p) {
                        let i = choose|i: int| 0 <= i < prefix.len() && prefix[i] == p;
                        assert(next[i] == p);
                    }
                }
            }
        } else {
            sorted.insert(at, x);
            proof {
                assert forall|i: int, j: int|
                    0 <= i < j < sorted@.len() implies profile_before(
                    #[trigger] sorted@[i],
                    #[trigger] sorted@[j],
                ) by {
                    if j < at {
                        assert(sorted@[i] == before[i] && sorted@[j] == before[j]);
                    } else if j == at {
                        assert(sorted@[i] == before[i]);
                    } else if i < at {
                        assert(sorted@[i] == before[i] && sorted@[j] == before[j - 1]);
                    } else if i == at {
                        assert(sorted@[j] == before[j - 1]);
                        if j - 1 > at {
                        } else {
                            assert(!profile_before(before[at as int], x));
                            assert(before[at as int] != x);
                        }
                    } else {
                        assert(sorted@[i] == before[i - 1] && sorted@[j] == before[j - 1]);
                    }
                }
                assert forall|p: NodeProfile| #[trigger] sorted@.contains(p) <==> next.contains(p) by {
                    if p == x {
                        assert(sorted@[at as int] == x);
                        assert(next[k as int] == x);
                    }
                    if sorted@.contains(p) && p != x {
                        let i = choose|i: int| 0 <= i < sorted@.len() && sorted@[i] == p;
                        if i < at {
                            assert(before[i] == p);
                        } else {
                            assert(before[i - 1] == p);
                        }
                        assert(before.contains(p));
                        assert(prefix.contains(p));
                        let m = choose|m: int| 0 <= m < prefix.len() && prefix[m] == p;
                        assert(next[m] == p);
                    }
                    if next.contains(p) && p != x {
                        let i = choose|i: int| 0 <= i < next.len() && next[i] == p;
                        assert(prefix[i] == p);
                        assert(prefix.contains(p));
                        assert(before.contains(p));
                        let m = choose|m: int| 0 <= m < before.len() && before[m] == p;
                        if m < at {
                            assert(sorted@[m] == p);
                        } else {
                            assert(sorted@[m + 1] == p);
                        }
                    }
                }
            }
        }
        k = k + 1;
    }
    assert(profiles@.subrange(0, k as int) =~= profiles@);
    sorted
}

/// The folded result of one profile slot, once its plan has fully reported.
pub open spec fn slot_outcome(slot: ProfileSlot) -> Option<FoldState> {
    match slot.plan {
        Some(plan) => if all_reported(plan.results@) {
            Some(fold_results(reported(plan.results@)))
        } else {
            None
        },
        None => None,
    }
}

/// What folding a link group's profiles has gathered so far.
pub struct GroupFold {
    pub best: Option<Seq<u8>>,
    pub pending: bool,
    pub incomplete: Option<IncompleteReason>,
    pub failed: Option<PartitionFailure>,
}

/// Folds one more profile into a link group: an unfinished profile is
/// pending, and the first failure and the first incomplete reason are kept.
pub open spec fn group_step(acc: GroupFold, outcome: Option<FoldState>) -> GroupFold {
    match outcome {
        None => GroupFold { pending: true, ..acc },
        Some(state) => match state.failure {
            Some(failure) => GroupFold {
                failed: if acc.failed is Some {
                    acc.failed
                } else {
                    Some(failure)
                },
                ..acc
            },
            None => match state.incomplete {
                Some(reason) => GroupFold {
                    incomplete: if acc.incomplete is Some {
                        acc.incomplete
                    } else {
                        Some(reason)
                    },
                    ..acc
                },
                None => GroupFold {
                    best: match state.best {
                        Some(key) => retained(acc.best, key),
                        None => acc.best,
                    },
                    ..acc
                },
            },
        },
    }
}

/// The fold of a link group's profiles, in profile order.
pub open spec fn fold_slots(slots: Seq<ProfileSlot>) -> GroupFold
    decreases slots.len(),
{
    if slots.len() == 0 {
        GroupFold { best: None, pending: false, incomplete: None, failed: None }
    } else {
        group_step(fold_slots(slots.drop_last()), slot_outcome(slots.last()))
    }
}

/// A proof status, with a witness known by its key.
pub enum StatusView {
    Pending,
    Sat(Seq<u8>),
    Unsat,
    Incomplete(IncompleteReason),
    Failed(PartitionFailure),
}

/// The status a link group's fold proves: a failure wins, then an
/// incomplete profile, then an unfinished one; SAT needs a witness.
pub open spec fn status_of(acc: GroupFold) -> StatusView {
    match acc.failed {
        Some(failure) => StatusView::Failed(failure),
        None => match acc.incomplete {
            Some(reason) => StatusView::Incomplete(reason),
            None => if acc.pending {
                StatusView::Pending
            } else {
                match acc.best {
                    Some(key) => StatusView::Sat(key),
                    None => StatusView::Unsat,
                }
            },
        },
    }
}

/// `out` reports `status`.
pub open spec fn status_as(out: ParentProofStatus, status: StatusView) -> bool {
    match (out, status) {
        (ParentProofStatus::Pending, StatusView::Pending) => true,
        (ParentProofStatus::Sat { best_witness }, StatusView::Sat(key)) => best_witness@ == key,
        (ParentProofStatus::Unsat, StatusView::Unsat) => true,
        (ParentProofStatus::Incomplete { reason }, StatusView::Incomplete(r)) => reason == r,
        (ParentProofStatus::Failed { error }, StatusView::Failed(e)) => error == e,
        _ => false,
    }
}

/// The status of link group `group`.
pub open spec fn group_status(group: LinkGroupLedger) -> StatusView {
    status_of(fold_slots(group.slots@))
}

/// The status of a node count's link groups among `groups`: the first, in
/// order, that is not UNSAT, or UNSAT when all are.
pub open spec fn first_open(groups: Seq<LinkGroupLedger>, node_count: u32) -> StatusView
    decreases groups.len(),
{
    if groups.len() == 0 {
        StatusView::Unsat
    } else if groups[0].node_count != node_count {
        first_open(groups.drop_first(), node_count)
    } else {
        match group_status(groups[0]) {
            StatusView::Unsat => first_open(groups.drop_first(), node_count),
            status => status,
        }
    }
}

/// Folds a link group's profiles.
fn fold_group(group: &LinkGroupLedger) -> (status: ParentProofStatus)
    requires
        group_wf(*group),
    ensures
        status_as(status, group_status(*group)),
{
    let mut best: Option<ProfileWitness> = None;
    let mut pending = false;
    let mut incomplete: Option<IncompleteReason> = None;
    let mut failed: Option<PartitionFailure> = None;
    let ghost slots = group.slots@;
    let mut i: usize = 0;
    while i < group.slots.len()
        invariant
            i <= slots.len(),
            slots == group.slots@,
            (GroupFold { best: witness_key(best), pending, incomplete, failed }) == fold_slots(
                slots.take(i as int),
            ),
        decreases slots.len() - i,
    {
        assert(slots.take(i + 1).drop_last() =~= slots.take(i as int));
        assert(slots.take(i + 1).last() == slots[i as int]);
        let outcome = match &group.slots[i].plan {
            Some(plan) => fold_plan(&plan.results),
            None => None,
        };
        match outcome {
            Some(FoldedProfileResult::Search(result)) => {
                let result: ProfileSearchResult = *result;
                match result {
                    ProfileSearchResult::Exhausted { best_witness, witnesses, stats } => {
                        match best_witness {
                            Some(w) => retain_witness(&mut best, w),
                            None => {},
                        }
                    },
                    ProfileSearchResult::Incomplete { reason, best_witness, witnesses, stats } => {
                        if incomplete.is_none() {
                            incomplete = Some(reason);
                        }
                    },
                    ProfileSearchResult::Failed { error, stats } => {
                        if failed.is_none() {
                            failed = Some(PartitionFailure::Search(error));
                        }
                    },
                }
            },
            Some(FoldedProfileResult::WorkerPanicked) => {
                if failed.is_none() {
                    failed = Some(PartitionFailure::WorkerPanicked);
                }
            },
            None => {
                pending = true;
            },
        }
        i = i + 1;
    }
    assert(slots.take(i as int) =~= slots);
    match failed {
        Some(error) => ParentProofStatus::Failed { error },
        None => match incomplete {
            Some(reason) => ParentProofStatus::Incomplete { reason },
            None => if pending {
                ParentProofStatus::Pending
            } else {
                match best {
                    Some(best_witness) => ParentProofStatus::Sat { best_witness },
                    None => ParentProofStatus::Unsat,
                }
            },
        },
    }
}

/// Explicit hierarchical proof accounting.
pub struct ProofLedger {
    nodes: Vec<u32>,
    groups: Vec<LinkGroupLedger>,
}

/// Some link group of `groups` is keyed `(node_count, link_count)`.
pub open spec fn has_group(groups: Seq<LinkGroupLedger>, node_count: u32, link_count: u32) -> bool {
    exists|i: int|
        0 <= i < groups.len() && (#[trigger] groups[i]).node_count == node_count && groups[i].link_count
            == link_count
}

/// The index of the link group keyed `(node_count, link_count)`.
pub open spec fn group_index(groups: Seq<LinkGroupLedger>, node_count: u32, link_count: u32) -> int {
    choose|i: int|
        0 <= i < groups.len() && (#[trigger] groups[i]).node_count == node_count && groups[i].link_count
            == link_count
}

/// Some slot of `group` holds `profile`.
pub open spec fn has_slot(group: LinkGroupLedger, profile: NodeProfile) -> bool {
    exists|j: int| 0 <= j < group.slots@.len() && (#[trigger] group.slots@[j]).profile == profile
}

/// The index of the slot of `group` that holds `profile`.
pub open spec fn slot_index(group: LinkGroupLedger, profile: NodeProfile) -> int {
    choose|j: int| 0 <= j < group.slots@.len() && (#[trigger] group.slots@[j]).profile == profile
}

/// `after` is `before` except for slot `j` of group `g`, which keeps its profile.
pub open spec fn slot_replaced(before: Seq<LinkGroupLedger>, after: Seq<LinkGroupLedger>, g: int, j: int) -> bool {
    &&& 0 <= g < before.len()
    &&& after.len() == before.len()
    &&& forall|i: int| 0 <= i < before.len() && i != g ==> after[i] == before[i]
    &&& after[g].node_count == before[g].node_count
    &&& after[g].link_count == before[g].link_count
    &&& 0 <= j < before[g].slots@.len()
    &&& after[g].slots@.len() == before[g].slots@.len()
    &&& forall|k: int| 0 <= k < before[g].slots@.len() && k != j ==> after[g].slots@[k] == before[g].slots@[k]
    &&& after[g].slots@[j].profile == before[g].slots@[j].profile
}

/// The position of `partition` in `plan`.
pub open spec fn partition_index(plan: Plan, partition: u32) -> int {
    choose|k: int| 0 <= k < plan.partitions@.len() && plan.partitions@[k] == partition
}

/// `group` is a new link group keyed `(node_count, link_count)` whose slots
/// are the distinct `profiles`, ascending, none with a plan yet.
pub open spec fn fresh_group(
    group: LinkGroupLedger,
    node_count: u32,
    link_count: u32,
    profiles: Seq<NodeProfile>,
) -> bool {
    &&& group.node_count == node_count
    &&& group.link_count == link_count
    &&& group_wf(group)
    &&& forall|i: int| 0 <= i < group.slots@.len() ==> (#[trigger] group.slots@[i]).plan is None
    &&& forall|p: NodeProfile|
        (exists|i: int| 0 <= i < group.slots@.len() && (#[trigger] group.slots@[i]).profile == p)
            <==> profiles.contains(p)
}

impl ProofLedger {
    /// The registered node counts.
    pub closed spec fn node_counts(&self) -> Seq<u32> {
        self.nodes@
    }

    /// The registered link groups, by node count, then link count.
    pub closed spec fn groups(&self) -> Seq<LinkGroupLedger> {
        self.groups@
    }

    /// Node counts are distinct; link groups are distinct and ordered.
    pub open spec fn wf(&self) -> bool {
        &&& self.node_counts().no_duplicates()
        &&& forall|i: int, j: int|
            0 <= i < j < self.groups().len() ==> group_before(
                #[trigger] self.groups()[i],
                #[trigger] self.groups()[j],
            )
        &&& forall|i: int| 0 <= i < self.groups().len() ==> group_wf(#[trigger] self.groups()[i])
    }

    /// The registered slot of `profile` in link group `(node_count, link_count)`.
    pub open spec fn slot_of(&self, node_count: u32, link_count: u32, profile: NodeProfile) -> Option<
        ProfileSlot,
    > {
        if has_group(self.groups(), node_count, link_count) {
            let group = self.groups()[group_index(self.groups(), node_count, link_count)];
            if has_slot(group, profile) {
                Some(group.slots@[slot_index(group, profile)])
            } else {
                None
            }
        } else {
            None
        }
    }

    /// The partition plan of `profile` in link group `(node_count, link_count)`.
    pub open spec fn plan_of(&self, node_count: u32, link_count: u32, profile: NodeProfile) -> Option<
        Plan,
    > {
        match self.slot_of(node_count, link_count, profile) {
            Some(slot) => slot.plan,
            None => None,
        }
    }

    /// The proof status of link group `(node_count, link_count)`.
    pub open spec fn link_group_view(&self, node_count: u32, link_count: u32) -> StatusView {
        if has_group(self.groups(), node_count, link_count) {
            group_status(self.groups()[group_index(self.groups(), node_count, link_count)])
        } else {
            StatusView::Pending
        }
    }

    /// The proof status of node count `node_count`.
    pub open spec fn node_view(&self, node_count: u32) -> StatusView {
        if self.node_counts().contains(node_count) {
            first_open(self.groups(), node_count)
        } else {
            StatusView::Pending
        }
    }

    /// The index of the slot of `profile` in group `g`.
    fn find_slot(&self, g: usize, profile: NodeProfile) -> (found: Option<usize>)
        requires
            self.wf(),
            g < self.groups().len(),
        ensures
            found is None <==> !has_slot(self.groups()[g as int], profile),
            found matches Some(j) ==> j == slot_index(self.groups()[g as int], profile)
                && j < self.groups()[g as int].slots@.len(),
    {
        let ghost group = self.groups@[g as int];
        let mut j: usize = 0;
        while j < self.groups[g].slots.len()
            invariant
                g < self.groups@.len(),
                group == self.groups@[g as int],
                group_wf(group),
                j <= group.slots@.len(),
                forall|k: int| 0 <= k < j ==> (#[trigger] group.slots@[k]).profile != profile,
            decreases group.slots@.len() - j,
        {
            if same_profile(self.groups[g].slots[j].profile, profile) {
                proof {
                    let k = slot_index(group, profile);
                    assert(group.slots@[j as int].profile == profile);
                    if k != j {
                        if k < j {
                        } else {
                            assert(profile_before(group.slots@[j as int].profile, group.slots@[k].profile));
                        }
                    }
                }
                return Some(j);
            }
            j = j + 1;
        }
        None
    }

    /// The position of the link group keyed `(node_count, link_count)`, if registered.
    fn find_group(&self, node_count: u32, link_count: u32) -> (found: Option<usize>)
        requires
            self.wf(),
        ensures
            found is None <==> !has_group(self.groups(), node_count, link_count),
            found matches Some(g) ==> g == group_index(self.groups(), node_count, link_count)
                && g < self.groups().len(),
    {
        let at = self.group_position(node_count, link_count);
        if at < self.groups.len() && self.groups[at].node_count == node_count
            && self.groups[at].link_count == link_count {
            proof {
                let k = group_index(self.groups(), node_count, link_count);
                if k < at {
                } else if k > at {
                    assert(group_before(self.groups()[at as int], self.groups()[k]));
                }
            }
            Some(at)
        } else {
            None
        }
    }

    /// Folds one profile once every registered partition has reported.
    pub fn fold_profile(&self, node_count: u32, link_count: u32, profile: NodeProfile) -> (result:
        Result<Option<FoldedProfileResult>, ProofLedgerError>)
        requires
            self.wf(),
        ensures
            self.plan_of(node_count, link_count, profile) is None ==> result == Err::<
                Option<FoldedProfileResult>,
                ProofLedgerError,
            >(ProofLedgerError::UnknownProfile { node_count, link_count, profile }),
            self.plan_of(node_count, link_count, profile) matches Some(plan) ==> match result {
                Ok(None) => !all_reported(plan.results@),
                Ok(Some(folded)) => all_reported(plan.results@) && folded_as(
                    folded,
                    fold_results(reported(plan.results@)),
                ),
                Err(_) => false,
            },
    {
        let g = match self.find_group(node_count, link_count) {
            Some(g) => g,
            None => {
                return Err(ProofLedgerError::UnknownProfile { node_count, link_count, profile });
            },
        };
        let j = match self.find_slot(g, profile) {
            Some(j) => j,
            None => {
                return Err(ProofLedgerError::UnknownProfile { node_count, link_count, profile });
            },
        };
        match &self.groups[g].slots[j].plan {
            Some(plan) => Ok(fold_plan(&plan.results)),
            None => Err(ProofLedgerError::UnknownProfile { node_count, link_count, profile }),
        }
    }

    /// The proof status of a link group: pending until every profile folds.
    pub fn link_group_status(&self, node_count: u32, link_count: u32) -> (status: ParentProofStatus)
        requires
            self.wf(),
        ensures
            status_as(status, self.link_group_view(node_count, link_count)),
    {
        match self.find_group(node_count, link_count) {
            Some(g) => fold_group(&self.groups[g]),
            None => ParentProofStatus::Pending,
        }
    }

    /// The proof status of a node count: its first link group, by link
    /// count, that is not UNSAT, or UNSAT when every one is.
    pub fn node_status(&self, node_count: u32) -> (status: ParentProofStatus)
        requires
            self.wf(),
        ensures
            status_as(status, self.node_view(node_count)),
    {
        if !self.knows_node(node_count) {
            return ParentProofStatus::Pending;
        }
        let ghost groups = self.groups@;
        let mut i: usize = 0;
        assert(groups.skip(0) =~= groups);
        while i < self.groups.len()
            invariant
                groups == self.groups@,
                self.wf(),
                i <= groups.len(),
                first_open(groups, node_count) == first_open(groups.skip(i as int), node_count),
                self.node_counts().contains(node_count),
            decreases groups.len() - i,
        {
            assert(groups.skip(i as int).drop_first() =~= groups.skip(i + 1));
            assert(groups.skip(i as int)[0] == groups[i as int]);
            if self.groups[i].node_count == node_count {
                let status = fold_group(&self.groups[i]);
                let unsat = match status {
                    ParentProofStatus::Unsat => true,
                    _ => false,
                };
                if !unsat {
                    proof {
                        assert(!(group_status(groups[i as int]) is Unsat));
                        assert(first_open(groups.skip(i as int), node_count) == group_status(groups[i as int]));
                    }
                    return status;
                }
            }
            i = i + 1;
        }
        ParentProofStatus::Unsat
    }

    /// Replaces the plan of slot `j` of group `g`.
    fn set_plan(&mut self, g: usize, j: usize, plan: Plan)
        requires
            old(self).wf(),
            g < old(self).groups().len(),
            j < old(self).groups()[g as int].slots@.len(),
            plan_wf(plan),
        ensures
            final(self).wf(),
            final(self).node_counts() == old(self).node_counts(),
            slot_replaced(old(self).groups(), final(self).groups(), g as int, j as int),
            final(self).groups()[g as int].slots@[j as int].plan == Some(plan),
    {
        let ghost before = self.groups@;
        let mut group = self.groups.remove(g);
        let ghost old_slots = group.slots@;
        let mut slot = group.slots.remove(j);
        slot.plan = Some(plan);
        group.slots.insert(j, slot);
        self.groups.insert(g, group);
        proof {
            assert(self.groups@ =~= before.update(g as int, self.groups@[g as int]));
            assert(self.groups@[g as int].slots@ =~= old_slots.update(j as int, self.groups@[g as int].slots@[j as int]));
            let ng = self.groups@[g as int];
            assert(group_wf(ng)) by {
                assert forall|a: int, b: int| 0 <= a < b < ng.slots@.len() implies profile_before(
                    #[trigger] ng.slots@[a].profile,
                    #[trigger] ng.slots@[b].profile,
                ) by {
                    assert(profile_before(old_slots[a].profile, old_slots[b].profile));
                }
                assert forall|a: int| 0 <= a < ng.slots@.len() implies match #[trigger] ng.slots@[a].plan {
                    Some(p) => plan_wf(p),
                    None => true,
                } by {
                    if a != j {
                        assert(ng.slots@[a] == old_slots[a]);
                    }
                }
            }
            assert forall|a: int, b: int| 0 <= a < b < self.groups@.len() implies group_before(
                #[trigger] self.groups@[a],
                #[trigger] self.groups@[b],
            ) by {
                assert(group_before(before[a], before[b]));
            }
            assert forall|a: int| 0 <= a < self.groups@.len() implies group_wf(#[trigger] self.groups@[a]) by {
                if a != g {
                    assert(self.groups@[a] == before[a]);
                }
            }
        }
    }

    /// Registers the root partitions of one profile; they must be completed
    /// before the profile folds.
    pub fn register_profile_partitions(
        &mut self,
        node_count: u32,
        link_count: u32,
        profile: NodeProfile,
        partitions: Vec<u32>,
    ) -> (result: Result<(), ProofLedgerError>)
        requires
            old(self).wf(),
        ensures
            final(self).wf(),
            final(self).node_counts() == old(self).node_counts(),
            result is Err ==> final(self).groups() == old(self).groups(),
            old(self).slot_of(node_count, link_count, profile) is None ==> result == Err::<
                (),
                ProofLedgerError,
            >(ProofLedgerError::UnknownProfile { node_count, link_count, profile }),
            old(self).slot_of(node_count, link_count, profile) matches Some(slot) ==> {
                if slot.plan is Some {
                    result == Err::<(), ProofLedgerError>(
                        ProofLedgerError::DuplicatePartitionPlan { node_count, link_count, profile },
                    )
                } else if partitions@.len() == 0 {
                    result == Err::<(), ProofLedgerError>(
                        ProofLedgerError::EmptyPartitionPlan { node_count, link_count, profile },
                    )
                } else {
                    let g = group_index(old(self).groups(), node_count, link_count);
                    let j = slot_index(old(self).groups()[g], profile);
                    &&& result is Ok
                    &&& slot_replaced(old(self).groups(), final(self).groups(), g, j)
                    &&& final(self).groups()[g].slots@[j].plan matches Some(plan) && {
                        &&& strictly_increasing(plan.partitions@)
                        &&& forall|x: u32| #[trigger] plan.partitions@.contains(x) <==> partitions@.contains(x)
                        &&& plan.results@ == Seq::new(plan.partitions@.len(), |k: int| None::<PartitionResult>)
                    }
                }
            },
    {
        let g = match self.find_group(node_count, link_count) {
            Some(g) => g,
            None => {
                return Err(ProofLedgerError::UnknownProfile { node_count, link_count, profile });
            },
        };
        let j = match self.find_slot(g, profile) {
            Some(j) => j,
            None => {
                return Err(ProofLedgerError::UnknownProfile { node_count, link_count, profile });
            },
        };
        if self.groups[g].slots[j].plan.is_some() {
            return Err(ProofLedgerError::DuplicatePartitionPlan { node_count, link_count, profile });
        }
        if partitions.len() == 0 {
            return Err(ProofLedgerError::EmptyPartitionPlan { node_count, link_count, profile });
        }
        let expected = sorted_unique(&partitions);
        let mut results: Vec<Option<PartitionResult>> = Vec::new();
        while results.len() < expected.len()
            invariant
                results@.len() <= expected@.len(),
                results@ == Seq::new(results@.len(), |k: int| None::<PartitionResult>),
            decreases expected@.len() - results@.len(),
        {
            results.push(None);
            assert(results@ =~= Seq::new(results@.len(), |k: int| None::<PartitionResult>));
        }
        self.set_plan(g, j, Plan { partitions: expected, results });
        Ok(())
    }

    /// Records what one registered partition reported. A second report for
    /// the same partition is refused and the first one stands, so a refused
    /// report can never turn an incomplete leaf into exhaustion.
    pub fn record_partition(
        &mut self,
        node_count: u32,
        link_count: u32,
        profile: NodeProfile,
        partition: u32,
        result: PartitionResult,
    ) -> (outcome: Result<(), ProofLedgerError>)
        requires
            old(self).wf(),
        ensures
            final(self).wf(),
            final(self).node_counts() == old(self).node_counts(),
            old(self).slot_of(node_count, link_count, profile) is None ==> outcome == Err::<
                (),
                ProofLedgerError,
            >(ProofLedgerError::UnknownProfile { node_count, link_count, profile })
                && final(self).groups() == old(self).groups(),
            old(self).slot_of(node_count, link_count, profile) matches Some(slot) ==> match slot.plan {
                None => outcome == Err::<(), ProofLedgerError>(
                    ProofLedgerError::UnknownPartition { node_count, link_count, profile, partition },
                ) && final(self).groups() == old(self).groups(),
                Some(plan) => if !plan.partitions@.contains(partition) {
                    outcome == Err::<(), ProofLedgerError>(
                        ProofLedgerError::UnknownPartition { node_count, link_count, profile, partition },
                    ) && final(self).groups() == old(self).groups()
                } else {
                    let g = group_index(old(self).groups(), node_count, link_count);
                    let j = slot_index(old(self).groups()[g], profile);
                    let k = partition_index(plan, partition);
                    if plan.results@[k] is Some {
                        outcome == Err::<(), ProofLedgerError>(
                            ProofLedgerError::DuplicatePartitionResult {
                                node_count,
                                link_count,
                                profile,
                                partition,
                            },
                        )
                    } else {
                        &&& outcome is Ok
                        &&& slot_replaced(old(self).groups(), final(self).groups(), g, j)
                        &&& final(self).groups()[g].slots@[j].plan matches Some(updated) && {
                            &&& updated.partitions@ == plan.partitions@
                            &&& updated.results@ == plan.results@.update(k, Some(result))
                        }
                    }
                },
            },
            outcome is Err ==> *final(self) == *old(self),
    {
        let g = match self.find_group(node_count, link_count) {
            Some(g) => g,
            None => {
                return Err(ProofLedgerError::UnknownProfile { node_count, link_count, profile });
            },
        };
        let j = match self.find_slot(g, profile) {
            Some(j) => j,
            None => {
                return Err(ProofLedgerError::UnknownProfile { node_count, link_count, profile });
            },
        };
        let ghost before = self.groups@;
        let (found, taken) = match &self.groups[g].slots[j].plan {
            None => {
                return Err(
                    ProofLedgerError::UnknownPartition { node_count, link_count, profile, partition },
                );
            },
            Some(plan) => {
                let mut k: usize = 0;
                while k < plan.partitions.len() && plan.partitions[k] != partition
                    invariant
                        k <= plan.partitions@.len(),
                        forall|i: int| 0 <= i < k ==> plan.partitions@[i] != partition,
                    decreases plan.partitions@.len() - k,
                {
                    k = k + 1;
                }
                if k == plan.partitions.len() {
                    return Err(
                        ProofLedgerError::UnknownPartition {
                            node_count,
                            link_count,
                            profile,
                            partition,
                        },
                    );
                }
                proof {
                    let c = partition_index(*plan, partition);
                    assert(plan.partitions@[k as int] == partition);
                    if c != k {
                        if c > k {
                            assert(plan.partitions@[k as int].rank() < plan.partitions@[c].rank());
                        }
                    }
                }
                (k, plan.results[k].is_some())
            },
        };
        if taken {
            return Err(
                ProofLedgerError::DuplicatePartitionResult { node_count, link_count, profile, partition },
            );
        }
        let mut group = self.groups.remove(g);
        let ghost old_slots = group.slots@;
        let mut slot = group.slots.remove(j);
        let mut plan = match slot.plan {
            Some(plan) => plan,
            None => {
                proof {
                    assert(false);
                }
                Plan { partitions: Vec::new(), results: Vec::new() }
            },
        };
        let ghost old_results = plan.results@;
        plan.results.set(found, Some(result));
        slot.plan = Some(plan);
        group.slots.insert(j, slot);
        self.groups.insert(g, group);
        proof {
            assert(self.groups@ =~= before.update(g as int, self.groups@[g as int]));
            assert(self.groups@[g as int].slots@ =~= old_slots.update(j as int, self.groups@[g as int].slots@[j as int]));
            let ng = self.groups@[g as int];
            assert(group_wf(ng)) by {
                assert forall|a: int, b: int| 0 <= a < b < ng.slots@.len() implies profile_before(
                    #[trigger] ng.slots@[a].profile,
                    #[trigger] ng.slots@[b].profile,
                ) by {
                    assert(profile_before(old_slots[a].profile, old_slots[b].profile));
                }
                assert forall|a: int| 0 <= a < ng.slots@.len() implies match #[trigger] ng.slots@[a].plan {
                    Some(p) => plan_wf(p),
                    None => true,
                } by {
                    if a != j {
                        assert(ng.slots@[a] == old_slots[a]);
                    }
                }
            }
            assert forall|a: int, b: int| 0 <= a < b < self.groups@.len() implies group_before(
                #[trigger] self.groups@[a],
                #[trigger] self.groups@[b],
            ) by {
                assert(group_before(before[a], before[b]));
            }
            assert forall|a: int| 0 <= a < self.groups@.len() implies group_wf(#[trigger] self.groups@[a]) by {
                if a != g {
                    assert(self.groups@[a] == before[a]);
                }
            }
        }
        Ok(())
    }

    /// An empty ledger.
    pub fn new() -> (ledger: ProofLedger)
        ensures
            ledger.wf(),
            ledger.node_counts() == Seq::<u32>::empty(),
            ledger.groups() == Seq::<LinkGroupLedger>::empty(),
    {
        ProofLedger { nodes: Vec::new(), groups: Vec::new() }
    }

    /// Whether `node_count` is registered.
    fn knows_node(&self, node_count: u32) -> (known: bool)
        ensures
            known == self.node_counts().contains(node_count),
    {
        let mut i: usize = 0;
        while i < self.nodes.len()
            invariant
                i <= self.nodes@.len(),
                forall|k: int| 0 <= k < i ==> self.nodes@[k] != node_count,
            decreases self.nodes@.len() - i,
        {
            if self.nodes[i] == node_count {
                assert(self.nodes@[i as int] == node_count);
                return true;
            }
            i = i + 1;
        }
        false
    }

    /// Registers a node count.
    pub fn begin_node(&mut self, node_count: u32) -> (result: Result<(), ProofLedgerError>)
        requires
            old(self).wf(),
        ensures
            final(self).wf(),
            final(self).groups() == old(self).groups(),
            old(self).node_counts().contains(node_count) ==> result == Err::<(), ProofLedgerError>(
                ProofLedgerError::DuplicateNode { node_count },
            ) && final(self).node_counts() == old(self).node_counts(),
            !old(self).node_counts().contains(node_count) ==> result is Ok && final(self).node_counts()
                == old(self).node_counts().push(node_count),
    {
        if self.knows_node(node_count) {
            return Err(ProofLedgerError::DuplicateNode { node_count });
        }
        let ghost before = self.nodes@;
        self.nodes.push(node_count);
        proof {
            assert forall|a: int, b: int|
                0 <= a < self.nodes@.len() && 0 <= b < self.nodes@.len() && a != b implies self.nodes@[a]
                != self.nodes@[b] by {
                if a < before.len() && b < before.len() {
                    assert(before[a] != before[b]);
                } else if a < before.len() {
                    assert(before.contains(before[a]));
                } else if b < before.len() {
                    assert(before.contains(before[b]));
                }
            }
            assert(self.node_counts().no_duplicates());
            assert(self.groups() == old(self).groups());
        }
        Ok(())
    }

    /// The position of the link group keyed `(node_count, link_count)`, or
    /// where it would go.
    fn group_position(&self, node_count: u32, link_count: u32) -> (at: usize)
        requires
            self.wf(),
        ensures
            at <= self.groups().len(),
            forall|i: int|
                0 <= i < at ==> (#[trigger] self.groups()[i]).node_count < node_count || (
                self.groups()[i].node_count == node_count && self.groups()[i].link_count < link_count),
            at < self.groups().len() ==> !(self.groups()[at as int].node_count < node_count || (
            self.groups()[at as int].node_count == node_count && self.groups()[at as int].link_count
                < link_count)),
            has_group(self.groups(), node_count, link_count) <==> at < self.groups().len()
                && self.groups()[at as int].node_count == node_count && self.groups()[at as int].link_count
                == link_count,
    {
        let mut at: usize = 0;
        while at < self.groups.len() && (self.groups[at].node_count < node_count || (
        self.groups[at].node_count == node_count && self.groups[at].link_count < link_count))
            invariant
                at <= self.groups@.len(),
                forall|i: int|
                    0 <= i < at ==> (#[trigger] self.groups@[i]).node_count < node_count || (
                    self.groups@[i].node_count == node_count && self.groups@[i].link_count < link_count),
            decreases self.groups@.len() - at,
        {
            at = at + 1;
        }
        proof {
            if has_group(self.groups(), node_count, link_count) {
                let i = group_index(self.groups(), node_count, link_count);
                if i < at {
                } else if i > at {
                    assert(group_before(self.groups()[at as int], self.groups()[i]));
                }
            }
        }
        at
    }

    /// Registers the profiles of link count `link_count` of a registered node count.
    pub fn register_link_group(
        &mut self,
        node_count: u32,
        link_count: u32,
        profiles: Vec<NodeProfile>,
    ) -> (result: Result<(), ProofLedgerError>)
        requires
            old(self).wf(),
        ensures
            final(self).wf(),
            final(self).node_counts() == old(self).node_counts(),
            !old(self).node_counts().contains(node_count) ==> result == Err::<(), ProofLedgerError>(
                ProofLedgerError::UnknownNode { node_count },
            ) && final(self).groups() == old(self).groups(),
            old(self).node_counts().contains(node_count) && has_group(
                old(self).groups(),
                node_count,
                link_count,
            ) ==> result == Err::<(), ProofLedgerError>(
                ProofLedgerError::DuplicateLinkGroup { node_count, link_count },
            ) && final(self).groups() == old(self).groups(),
            old(self).node_counts().contains(node_count) && !has_group(
                old(self).groups(),
                node_count,
                link_count,
            ) ==> result is Ok && exists|at: int|
                0 <= at <= old(self).groups().len() && final(self).groups() == old(self).groups().insert(
                    at,
                    final(self).groups()[at],
                ) && fresh_group(final(self).groups()[at], node_count, link_count, profiles@),
    {
        if !self.knows_node(node_count) {
            return Err(ProofLedgerError::UnknownNode { node_count });
        }
        let at = self.group_position(node_count, link_count);
        if at < self.groups.len() && self.groups[at].node_count == node_count
            && self.groups[at].link_count == link_count {
            return Err(ProofLedgerError::DuplicateLinkGroup { node_count, link_count });
        }
        let sorted = sorted_profiles(&profiles);
        let mut slots: Vec<ProfileSlot> = Vec::new();
        let mut k: usize = 0;
        while k < sorted.len()
            invariant
                k <= sorted@.len(),
                slots@.len() == k,
                forall|j: int| 0 <= j < k ==> (#[trigger] slots@[j]).profile == sorted@[j] && slots@[j].plan is None,
            decreases sorted@.len() - k,
        {
            slots.push(ProfileSlot { profile: sorted[k], plan: None });
            k = k + 1;
        }
        let group = LinkGroupLedger { node_count, link_count, slots };
        proof {
            assert forall|p: NodeProfile|
                (exists|j: int| 0 <= j < group.slots@.len() && (#[trigger] group.slots@[j]).profile == p)
                    <==> profiles@.contains(p) by {
                if exists|j: int| 0 <= j < group.slots@.len() && (#[trigger] group.slots@[j]).profile == p {
                    let j = choose|j: int| 0 <= j < group.slots@.len() && (#[trigger] group.slots@[j]).profile == p;
                    assert(sorted@[j] == p);
                    assert(sorted@.contains(p));
                }
                if profiles@.contains(p) {
                    assert(sorted@.contains(p));
                    let j = choose|j: int| 0 <= j < sorted@.len() && sorted@[j] == p;
                    assert(group.slots@[j].profile == p);
                }
            }
            assert(group_wf(group));
        }
        let ghost before = self.groups@;
        self.groups.insert(at, group);
        proof {
            assert(self.groups@ == before.insert(at as int, self.groups@[at as int]));
            assert forall|a: int, b: int|
                0 <= a < b < self.groups@.len() implies group_before(
                #[trigger] self.groups@[a],
                #[trigger] self.groups@[b],
            ) by {
                if b < at {
                    assert(self.groups@[a] == before[a] && self.groups@[b] == before[b]);
                } else if b == at {
                    assert(self.groups@[a] == before[a]);
                } else if a < at {
                    assert(self.groups@[a] == before[a] && self.groups@[b] == before[b - 1]);
                } else if a == at {
                    assert(self.groups@[b] == before[b - 1]);
                    if b - 1 > at {
                        assert(group_before(before[at as int], before[b - 1]));
                    }
                } else {
                    assert(self.groups@[a] == before[a - 1] && self.groups@[b] == before[b - 1]);
                }
            }
            assert forall|g: int| 0 <= g < self.groups@.len() implies group_wf(#[trigger] self.groups@[g]) by {
                if g < at {
                    assert(self.groups@[g] == before[g]);
                } else if g > at {
                    assert(self.groups@[g] == before[g - 1]);
                }
            }
            assert(fresh_group(self.groups@[at as int], node_count, link_count, profiles@));
            assert(0 <= at <= before.len() && self.groups() == before.insert(at as int, self.groups()[at as int])
                && fresh_group(self.groups()[at as int], node_count, link_count, profiles@));
        }
        Ok(())
    }
}

impl Default for ProofLedger {
    fn default() -> (ledger: ProofLedger)
        ensures
            ledger.wf(),
            ledger.node_counts() == Seq::<u32>::empty(),
            ledger.groups() == Seq::<LinkGroupLedger>::empty(),
    {
        ProofLedger::new()
    }
}

/// Nothing in `state` speaks against exhaustion without a witness.
pub open spec fn clean_unsat(state: FoldState) -> bool {
    state.failure is None && state.incomplete is None && state.best is None
}

proof fn lemma_fold_results_unsat(results: Seq<PartitionResult>)
    ensures
        clean_unsat(fold_results(results)) <==> forall|k: int|
            0 <= k < results.len() ==> (#[trigger] results[k]) is Unsat,
    decreases results.len(),
{
    if results.len() > 0 {
        let prefix = results.drop_last();
        lemma_fold_results_unsat(prefix);
        if forall|k: int| 0 <= k < results.len() ==> (#[trigger] results[k]) is Unsat {
            assert forall|k: int| 0 <= k < prefix.len() implies (#[trigger] prefix[k]) is Unsat by {
                assert(prefix[k] == results[k]);
            }
            assert(results.last() == results[results.len() - 1]);
        } else {
            let k = choose|k: int| 0 <= k < results.len() && !((#[trigger] results[k]) is Unsat);
            if k < results.len() - 1 {
                assert(prefix[k] == results[k]);
                assert(!clean_unsat(fold_results(prefix)));
            } else {
                assert(results.last() == results[k]);
            }
        }
    }
}

/// Every profile of `group` has a plan whose every partition reported UNSAT.
pub open spec fn every_leaf_unsat(group: LinkGroupLedger) -> bool {
    forall|j: int|
        0 <= j < group.slots@.len() ==> match (#[trigger] group.slots@[j]).plan {
            Some(plan) => forall|k: int|
                0 <= k < plan.results@.len() ==> (#[trigger] plan.results@[k] matches Some(
                    PartitionResult::Unsat { .. },
                )),
            None => false,
        }
}

/// The profile of `slot` folds to exhaustion without a witness.
pub open spec fn slot_unsat(slot: ProfileSlot) -> bool {
    slot_outcome(slot) matches Some(state) && clean_unsat(state)
}

proof fn lemma_slot_unsat(slot: ProfileSlot)
    ensures
        slot_unsat(slot) <==> match slot.plan {
            Some(plan) => forall|k: int|
                0 <= k < plan.results@.len() ==> (#[trigger] plan.results@[k] matches Some(
                    PartitionResult::Unsat { .. },
                )),
            None => false,
        },
{
    if let Some(plan) = slot.plan {
        let rs = reported(plan.results@);
        lemma_fold_results_unsat(rs);
        if forall|k: int|
            0 <= k < plan.results@.len() ==> (#[trigger] plan.results@[k] matches Some(
                PartitionResult::Unsat { .. },
            )) {
            assert(all_reported(plan.results@)) by {
                assert forall|k: int| 0 <= k < plan.results@.len() implies plan.results@[k] is Some by {
                    assert(plan.results@[k] matches Some(PartitionResult::Unsat { .. }));
                }
            }
            assert forall|k: int| 0 <= k < rs.len() implies (#[trigger] rs[k]) is Unsat by {
                assert(plan.results@[k] matches Some(PartitionResult::Unsat { .. }));
            }
        }
        if slot_unsat(slot) {
            assert forall|k: int| 0 <= k < plan.results@.len() implies (#[trigger] plan.results@[k] matches Some(
                PartitionResult::Unsat { .. },
            )) by {
                assert(rs[k] is Unsat);
            }
        }
    }
}

proof fn lemma_fold_slots_unsat(slots: Seq<ProfileSlot>)
    ensures
        status_of(fold_slots(slots)) is Unsat <==> forall|j: int|
            0 <= j < slots.len() ==> slot_unsat(#[trigger] slots[j]),
        fold_slots(slots).failed is None && fold_slots(slots).incomplete is None && !fold_slots(
            slots,
        ).pending && fold_slots(slots).best is None <==> status_of(fold_slots(slots)) is Unsat,
    decreases slots.len(),
{
    if slots.len() > 0 {
        let prefix = slots.drop_last();
        lemma_fold_slots_unsat(prefix);
        let acc = fold_slots(prefix);
        let outcome = slot_outcome(slots.last());
        assert(slots.last() == slots[slots.len() - 1]);
        if forall|j: int| 0 <= j < slots.len() ==> slot_unsat(#[trigger] slots[j]) {
            assert forall|j: int| 0 <= j < prefix.len() implies slot_unsat(#[trigger] prefix[j]) by {
                assert(prefix[j] == slots[j]);
            }
        } else {
            let j = choose|j: int| 0 <= j < slots.len() && !slot_unsat(#[trigger] slots[j]);
            if j < slots.len() - 1 {
                assert(prefix[j] == slots[j]);
            }
        }
    }
}

/// A link group is UNSAT exactly when every one of its profiles has a
/// partition plan whose every partition reported UNSAT: missing, incomplete,
/// failed or satisfiable leaves never pass for exhaustion.
pub proof fn law_group_unsat_needs_every_leaf_unsat(group: LinkGroupLedger)
    ensures
        group_status(group) is Unsat <==> every_leaf_unsat(group),
{
    lemma_fold_slots_unsat(group.slots@);
    assert forall|j: int| 0 <= j < group.slots@.len() implies slot_unsat(#[trigger] group.slots@[j]) == match group.slots@[j].plan {
        Some(plan) => forall|k: int|
            0 <= k < plan.results@.len() ==> (#[trigger] plan.results@[k] matches Some(
                PartitionResult::Unsat { .. },
            )),
        None => false,
    } by {
        lemma_slot_unsat(group.slots@[j]);
    }
}

proof fn lemma_first_open_unsat(groups: Seq<LinkGroupLedger>, node_count: u32)
    ensures
        first_open(groups, node_count) is Unsat <==> forall|i: int|
            0 <= i < groups.len() && (#[trigger] groups[i]).node_count == node_count ==> group_status(
                groups[i],
            ) is Unsat,
    decreases groups.len(),
{
    if groups.len() > 0 {
        let rest = groups.drop_first();
        lemma_first_open_unsat(rest, node_count);
        if forall|i: int|
            0 <= i < groups.len() && (#[trigger] groups[i]).node_count == node_count ==> group_status(
                groups[i],
            ) is Unsat {
            assert forall|i: int|
                0 <= i < rest.len() && (#[trigger] rest[i]).node_count == node_count implies group_status(
                rest[i],
            ) is Unsat by {
                assert(rest[i] == groups[i + 1]);
            }
        } else {
            let i = choose|i: int|
                0 <= i < groups.len() && (#[trigger] groups[i]).node_count == node_count && !(group_status(
                    groups[i],
                ) is Unsat);
            if i > 0 {
                assert(rest[i - 1] == groups[i]);
            }
        }
    }
}

/// A node count is UNSAT exactly when it is registered and every one of its
/// link groups is UNSAT; otherwise it reports its first link group, by link
/// count, that is not.
pub proof fn law_node_unsat_needs_every_group_unsat(ledger: ProofLedger, node_count: u32)
    ensures
        ledger.node_view(node_count) is Unsat <==> ledger.node_counts().contains(node_count)
            && forall|i: int|
            0 <= i < ledger.groups().len() && (#[trigger] ledger.groups()[i]).node_count == node_count
                ==> group_status(ledger.groups()[i]) is Unsat,
{
    lemma_first_open_unsat(ledger.groups(), node_count);
}

proof fn lemma_key_order_reflexive(a: Seq<u8>)
    ensures
        key_order(a, a) == 0,
    decreases a.len(),
{
    if a.len() > 0 {
        lemma_key_order_reflexive(a.drop_first());
    }
}

proof fn lemma_key_order_transitive(a: Seq<u8>, b: Seq<u8>, c: Seq<u8>)
    requires
        key_order(a, b) < 0,
        key_order(b, c) < 0,
    ensures
        key_order(a, c) < 0,
    decreases a.len(),
{
    if a.len() > 0 && b.len() > 0 && c.len() > 0 {
        if a[0] == b[0] && b[0] == c[0] {
            lemma_key_order_transitive(a.drop_first(), b.drop_first(), c.drop_first());
        }
    }
}

/// Some leaf of `results` carries a witness keyed `key`.
pub open spec fn leaf_witness(results: Seq<PartitionResult>, key: Seq<u8>) -> bool {
    exists|k: int|
        0 <= k < results.len() && match #[trigger] results[k] {
            PartitionResult::Sat { best_witness, .. } => best_witness@ == key,
            PartitionResult::Incomplete { best_witness: Some(w), .. } => w@ == key,
            _ => false,
        }
}

/// The witness keyed `key` precedes no witness of `results`.
pub open spec fn no_smaller_witness(results: Seq<PartitionResult>, key: Seq<u8>) -> bool {
    forall|k: int|
        0 <= k < results.len() ==> match #[trigger] results[k] {
            PartitionResult::Sat { best_witness, .. } => !(key_order(best_witness@, key) < 0),
            PartitionResult::Incomplete { best_witness: Some(w), .. } => !(key_order(w@, key) < 0),
            _ => true,
        }
}

proof fn lemma_fold_results_best(results: Seq<PartitionResult>)
    ensures
        match fold_results(results).best {
            Some(key) => leaf_witness(results, key) && no_smaller_witness(results, key),
            None => forall|k: int|
                0 <= k < results.len() ==> match #[trigger] results[k] {
                    PartitionResult::Sat { .. } => false,
                    PartitionResult::Incomplete { best_witness: Some(_), .. } => false,
                    _ => true,
                },
        },
    decreases results.len(),
{
    if results.len() > 0 {
        let prefix = results.drop_last();
        lemma_fold_results_best(prefix);
        let last = results.last();
        let n = results.len() - 1;
        assert(results[n] == last);
        assert forall|k: int| 0 <= k < prefix.len() implies prefix[k] == results[k] by {}
        let before = fold_results(prefix).best;
        let candidate: Option<Seq<u8>> = match last {
            PartitionResult::Sat { best_witness, .. } => Some(best_witness@),
            PartitionResult::Incomplete { best_witness: Some(w), .. } => Some(w@),
            _ => None,
        };
        match candidate {
            Some(c) => {
                lemma_key_order_reflexive(c);
                match before {
                    Some(b) => {
                        if key_order(c, b) < 0 {
                            assert forall|k: int| 0 <= k < results.len() implies match #[trigger] results[k] {
                                PartitionResult::Sat { best_witness, .. } => !(key_order(best_witness@, c) < 0),
                                PartitionResult::Incomplete { best_witness: Some(w), .. } => !(key_order(w@, c) < 0),
                                _ => true,
                            } by {
                                if k < n {
                                    match results[k] {
                                        PartitionResult::Sat { best_witness, .. } => {
                                            if key_order(best_witness@, c) < 0 {
                                                lemma_key_order_transitive(best_witness@, c, b);
                                            }
                                        },
                                        PartitionResult::Incomplete { best_witness: Some(w), .. } => {
                                            if key_order(w@, c) < 0 {
                                                lemma_key_order_transitive(w@, c, b);
                                            }
                                        },
                                        _ => {},
                                    }
                                }
                            }
                        } else {
                            let k = choose|k: int|
                                0 <= k < prefix.len() && match #[trigger] prefix[k] {
                                    PartitionResult::Sat { best_witness, .. } => best_witness@ == b,
                                    PartitionResult::Incomplete { best_witness: Some(w), .. } => w@ == b,
                                    _ => false,
                                };
                            assert(results[k] == prefix[k]);
                        }
                    },
                    None => {},
                }
            },
            None => {
                if let Some(b) = before {
                    let k = choose|k: int|
                        0 <= k < prefix.len() && match #[trigger] prefix[k] {
                            PartitionResult::Sat { best_witness, .. } => best_witness@ == b,
                            PartitionResult::Incomplete { best_witness: Some(w), .. } => w@ == b,
                            _ => false,
                        };
                    assert(results[k] == prefix[k]);
                }
            },
        }
    }
}

proof fn lemma_key_order_antisymmetric(a: Seq<u8>, b: Seq<u8>)
    ensures
        key_order(a, b) == -key_order(b, a),
        key_order(a, b) == 0 ==> a == b,
    decreases a.len(),
{
    if a.len() > 0 && b.len() > 0 {
        lemma_key_order_antisymmetric(a.drop_first(), b.drop_first());
        if key_order(a, b) == 0 {
            assert(a[0] == b[0]);
            assert(a =~= seq![a[0]] + a.drop_first());
            assert(b =~= seq![b[0]] + b.drop_first());
        }
    } else if a.len() == 0 && b.len() == 0 {
        assert(a =~= b);
    }
}

/// Neither key precedes the other in the wrong direction: `!(w < b)` and
/// `!(b < k)` give `!(w < k)`.
proof fn lemma_not_below_chain(w: Seq<u8>, b: Seq<u8>, k: Seq<u8>)
    requires
        !(key_order(w, b) < 0),
        !(key_order(b, k) < 0),
    ensures
        !(key_order(w, k) < 0),
{
    lemma_key_order_antisymmetric(b, k);
    lemma_key_order_antisymmetric(w, b);
    if key_order(w, k) < 0 {
        if key_order(b, k) == 0 {
            assert(b == k);
        } else {
            lemma_key_order_transitive(w, k, b);
        }
    }
}

proof fn lemma_fold_results_flags(results: Seq<PartitionResult>)
    ensures
        fold_results(results).failure is None <==> forall|k: int|
            0 <= k < results.len() ==> !((#[trigger] results[k]) is Failed),
        fold_results(results).incomplete is None <==> forall|k: int|
            0 <= k < results.len() ==> !((#[trigger] results[k]) is Incomplete),
    decreases results.len(),
{
    if results.len() > 0 {
        let prefix = results.drop_last();
        lemma_fold_results_flags(prefix);
        assert(results.last() == results[results.len() - 1]);
        assert forall|k: int| 0 <= k < prefix.len() implies prefix[k] == results[k] by {}
    }
}

/// The fold of every slot's outcome reached exhaustion with nothing against it.
pub open spec fn settled(state: Option<FoldState>) -> bool {
    state matches Some(s) && s.failure is None && s.incomplete is None
}

proof fn lemma_fold_slots_sat(slots: Seq<ProfileSlot>)
    requires
        fold_slots(slots).failed is None,
        fold_slots(slots).incomplete is None,
        !fold_slots(slots).pending,
    ensures
        forall|j: int| 0 <= j < slots.len() ==> settled(slot_outcome(#[trigger] slots[j])),
        match fold_slots(slots).best {
            Some(key) => (exists|j: int|
                0 <= j < slots.len() && (#[trigger] slot_outcome(slots[j]))->0.best == Some(key))
                && forall|j: int|
                0 <= j < slots.len() ==> match (#[trigger] slot_outcome(slots[j]))->0.best {
                    Some(b) => !(key_order(b, key) < 0),
                    None => true,
                },
            None => forall|j: int|
                0 <= j < slots.len() ==> (#[trigger] slot_outcome(slots[j]))->0.best is None,
        },
    decreases slots.len(),
{
    if slots.len() > 0 {
        let prefix = slots.drop_last();
        let n = slots.len() - 1;
        assert(slots.last() == slots[n]);
        assert forall|j: int| 0 <= j < prefix.len() implies prefix[j] == slots[j] by {}
        lemma_fold_slots_sat(prefix);
        let acc = fold_slots(prefix);
        let state = slot_outcome(slots[n])->0;
        match state.best {
            Some(c) => {
                lemma_key_order_reflexive(c);
                match acc.best {
                    Some(b) => {
                        if key_order(c, b) < 0 {
                            assert forall|j: int| 0 <= j < slots.len() implies match (#[trigger] slot_outcome(
                                slots[j],
                            ))->0.best {
                                Some(x) => !(key_order(x, c) < 0),
                                None => true,
                            } by {
                                if j < n {
                                    if let Some(x) = slot_outcome(slots[j])->0.best {
                                        if key_order(x, c) < 0 {
                                            lemma_key_order_transitive(x, c, b);
                                        }
                                    }
                                }
                            }
                        } else {
                            let j = choose|j: int|
                                0 <= j < prefix.len() && (#[trigger] slot_outcome(prefix[j]))->0.best == Some(b);
                            assert(slot_outcome(slots[j]) == slot_outcome(prefix[j]));
                        }
                    },
                    None => {},
                }
            },
            None => {
                if let Some(b) = acc.best {
                    let j = choose|j: int|
                        0 <= j < prefix.len() && (#[trigger] slot_outcome(prefix[j]))->0.best == Some(b);
                    assert(slot_outcome(slots[j]) == slot_outcome(prefix[j]));
                }
            },
        }
    }
}

/// What partition `k` of profile slot `j` of `group` reported, if anything.
pub open spec fn leaf_at(group: LinkGroupLedger, j: int, k: int) -> Option<PartitionResult> {
    match group.slots@[j].plan {
        Some(plan) => if 0 <= k < plan.results@.len() {
            plan.results@[k]
        } else {
            None
        },
        None => None,
    }
}

/// Number of registered partitions of profile slot `j` of `group`.
pub open spec fn leaf_count(group: LinkGroupLedger, j: int) -> int {
    match group.slots@[j].plan {
        Some(plan) => plan.results@.len() as int,
        None => 0,
    }
}

/// The witness key of a SAT leaf.
pub open spec fn sat_key(result: Option<PartitionResult>) -> Option<Seq<u8>> {
    match result {
        Some(PartitionResult::Sat { best_witness, .. }) => Some(best_witness@),
        _ => None,
    }
}

/// A leaf that reported SAT or UNSAT.
pub open spec fn decided_leaf(result: Option<PartitionResult>) -> bool {
    match result {
        Some(PartitionResult::Sat { .. }) => true,
        Some(PartitionResult::Unsat { .. }) => true,
        _ => false,
    }
}

/// A link group is SAT only when every profile has a plan whose partitions
/// all reported SAT or UNSAT, and it keeps the witness with the smallest
/// canonical graph key among its SAT partitions.
pub proof fn law_group_sat_keeps_smallest_witness(group: LinkGroupLedger, key: Seq<u8>)
    requires
        group_status(group) == StatusView::Sat(key),
    ensures
        forall|j: int|
            0 <= j < group.slots@.len() ==> (#[trigger] group.slots@[j]).plan is Some && forall|k: int|
                0 <= k < leaf_count(group, j) ==> decided_leaf(#[trigger] leaf_at(group, j, k)),
        exists|j: int, k: int|
            0 <= j < group.slots@.len() && 0 <= k < leaf_count(group, j) && sat_key(
                #[trigger] leaf_at(group, j, k),
            ) == Some(key),
        forall|j: int, k: int|
            0 <= j < group.slots@.len() && 0 <= k < leaf_count(group, j) ==> match sat_key(
                #[trigger] leaf_at(group, j, k),
            ) {
                Some(w) => !(key_order(w, key) < 0),
                None => true,
            },
{
    let slots = group.slots@;
    lemma_fold_slots_sat(slots);
    assert forall|j: int| 0 <= j < slots.len() implies (#[trigger] group.slots@[j]).plan is Some
        && forall|k: int| 0 <= k < leaf_count(group, j) ==> decided_leaf(#[trigger] leaf_at(group, j, k)) by {
        assert(settled(slot_outcome(slots[j])));
        let plan = slots[j].plan->0;
        let rs = reported(plan.results@);
        lemma_fold_results_flags(rs);
        assert forall|k: int| 0 <= k < leaf_count(group, j) implies decided_leaf(#[trigger] leaf_at(group, j, k)) by {
            assert(!(rs[k] is Failed) && !(rs[k] is Incomplete));
            assert(plan.results@[k] == Some(rs[k]));
        }
    }
    let j = choose|j: int| 0 <= j < slots.len() && (#[trigger] slot_outcome(slots[j]))->0.best == Some(key);
    let plan = slots[j].plan->0;
    let rs = reported(plan.results@);
    lemma_fold_results_best(rs);
    let k = choose|k: int|
        0 <= k < rs.len() && match #[trigger] rs[k] {
            PartitionResult::Sat { best_witness, .. } => best_witness@ == key,
            PartitionResult::Incomplete { best_witness: Some(w), .. } => w@ == key,
            _ => false,
        };
    lemma_fold_results_flags(rs);
    assert(!(rs[k] is Incomplete));
    assert(plan.results@[k] == Some(rs[k]));
    assert(sat_key(leaf_at(group, j, k)) == Some(key));
    assert forall|a: int, b: int|
        0 <= a < slots.len() && 0 <= b < leaf_count(group, a) implies match sat_key(
            #[trigger] leaf_at(group, a, b),
        ) {
            Some(w) => !(key_order(w, key) < 0),
            None => true,
        } by {
        let p = slots[a].plan->0;
        let ra = reported(p.results@);
        lemma_fold_results_best(ra);
        if let Some(w) = sat_key(leaf_at(group, a, b)) {
            assert(ra[b] == p.results@[b]->0);
            let sb = slot_outcome(slots[a])->0.best;
            if let Some(m) = sb {
                lemma_not_below_chain(w, m, key);
            }
        }
    }
}

} // verus!
