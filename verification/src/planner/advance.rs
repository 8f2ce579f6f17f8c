//! The objective loop of an exact planner: what it does next from where it
//! stands. A planner searches node counts upward and, within one node
//! count, link groups upward; it seals only once no leaf is running.

use vstd::prelude::*;

use crate::search::IncompleteReason;

verus! {

/// Where the group being searched stands.
#[derive(Clone, Copy, Debug, PartialEq, Eq)]
pub struct GroupState {
    /// Leaves dispatched and not yet retired.
    pub active: usize,
    /// A leaf of the group found a layout at its objective.
    pub optimum: bool,
    /// Every root of the group is covered by a retired proof.
    pub covered: bool,
}

/// What the objective loop reads of a planner.
#[derive(Clone, Debug, PartialEq, Eq)]
pub struct PlannerState {
    pub cancelled: bool,
    pub failure: Option<IncompleteReason>,
    /// A result settled before any search (a global infeasibility proof).
    pub initial_result: bool,
    pub group: Option<GroupState>,
    /// The link groups of the current node count were enumerated.
    pub loaded_node: bool,
    /// Link groups of the current node count not yet searched.
    pub groups_left: usize,
    /// Some layout was delivered.
    pub has_best: bool,
    /// The node count being searched.
    pub node: u32,
}

/// The next thing the planner does.
#[derive(Clone, Debug, PartialEq, Eq)]
pub enum AdvanceAction {
    /// Seal the branch incomplete for this reason.
    SealIncomplete(IncompleteReason),
    /// Stopping, but leaves still run: wait for them to retire.
    WaitForRetirements,
    /// Seal the result settled before the search.
    SealInitial,
    /// The group is decided and idle: close it.
    FinishGroup,
    /// The group is decided; wait for its running leaves.
    WaitForGroup,
    /// Hand out more leaves of the group.
    Dispatch,
    /// Enumerate the link groups of the current node count.
    LoadNode,
    /// Start searching the next link group.
    StartGroup,
    /// Every link group of a node count with a layout is exhausted: seal the optimum.
    SealOptimum,
    /// Nothing exists at this node count: move on to `next`.
    ExhaustNode { next: u32 },
    /// No larger node count can be named.
    NodeIndexExhausted,
}

/// The action the objective loop takes from `s`.
pub open spec fn advance_action(s: PlannerState) -> AdvanceAction {
    if s.cancelled || s.failure is Some {
        if s.group matches Some(g) && g.active != 0 {
            AdvanceAction::WaitForRetirements
        } else if s.cancelled {
            AdvanceAction::SealIncomplete(IncompleteReason::Cancelled)
        } else {
            AdvanceAction::SealIncomplete(s.failure->Some_0)
        }
    } else if s.initial_result {
        AdvanceAction::SealInitial
    } else if let Some(g) = s.group {
        if g.optimum || g.covered {
            if g.active == 0 {
                AdvanceAction::FinishGroup
            } else {
                AdvanceAction::WaitForGroup
            }
        } else {
            AdvanceAction::Dispatch
        }
    } else if !s.loaded_node {
        AdvanceAction::LoadNode
    } else if s.groups_left > 0 {
        AdvanceAction::StartGroup
    } else if s.has_best {
        AdvanceAction::SealOptimum
    } else if s.node < u32::MAX {
        AdvanceAction::ExhaustNode { next: (s.node + 1) as u32 }
    } else {
        AdvanceAction::NodeIndexExhausted
    }
}

/// Decides the planner's next step. A stopping planner seals only once
/// every running leaf retired; a pending settled result is sealed before
/// any search; a decided group is closed once idle, an undecided one gets
/// more leaves; with no group, the node count is loaded, its next link
/// group started, and once all are exhausted the optimum is sealed if a
/// layout was found, else the search moves to the next node count.
pub fn advance_step(state: &PlannerState) -> (action: AdvanceAction)
    ensures
        action == advance_action(*state),
{
    if state.cancelled || state.failure.is_some() {
        if let Some(g) = &state.group {
            if g.active != 0 {
                return AdvanceAction::WaitForRetirements;
            }
        }
        if state.cancelled {
            return AdvanceAction::SealIncomplete(IncompleteReason::Cancelled);
        }
        return match &state.failure {
            Some(reason) => AdvanceAction::SealIncomplete(reason.copied()),
            None => AdvanceAction::SealIncomplete(IncompleteReason::Cancelled),
        };
    }
    if state.initial_result {
        return AdvanceAction::SealInitial;
    }
    if let Some(g) = &state.group {
        if g.optimum || g.covered {
            if g.active == 0 {
                return AdvanceAction::FinishGroup;
            }
            return AdvanceAction::WaitForGroup;
        }
        return AdvanceAction::Dispatch;
    }
    if !state.loaded_node {
        return AdvanceAction::LoadNode;
    }
    if state.groups_left > 0 {
        return AdvanceAction::StartGroup;
    }
    if state.has_best {
        return AdvanceAction::SealOptimum;
    }
    if state.node < u32::MAX {
        AdvanceAction::ExhaustNode { next: state.node + 1 }
    } else {
        AdvanceAction::NodeIndexExhausted
    }
}

/// What follows a dispatch: a group that is still undecided but has no
/// leaf running after it was handed leaves can make no more progress, so
/// the branch fails; otherwise the planner waits for leaf events.
pub fn after_dispatch(active: usize) -> (failure: Option<IncompleteReason>)
    ensures
        failure is Some <==> active == 0,
        failure matches Some(reason) ==> reason matches IncompleteReason::WorkerFailed { detail }
            && detail@ == "unfinished Solver profile group"@,
{
    if active == 0 {
        let detail = "unfinished Solver profile group".to_owned();
        Some(IncompleteReason::WorkerFailed { detail })
    } else {
        None
    }
}

/// An optimum is sealed only by a planner that is not stopping, has no
/// group in flight, and has exhausted every link group of a loaded node
/// count at which a layout was delivered; a node count is passed over only
/// when it is exhausted without any layout.
pub proof fn law_optimum_sealed_only_after_exhaustion(s: PlannerState)
    ensures
        advance_action(s) is SealOptimum ==> {
            &&& !s.cancelled
            &&& s.failure is None
            &&& !s.initial_result
            &&& s.group is None
            &&& s.loaded_node
            &&& s.groups_left == 0
            &&& s.has_best
        },
        advance_action(s) is ExhaustNode ==> {
            &&& !s.cancelled
            &&& s.failure is None
            &&& s.group is None
            &&& s.loaded_node
            &&& s.groups_left == 0
            &&& !s.has_best
        },
{
}

/// A cancelled or failed planner never seals a proof: it seals an
/// incomplete result, and only once no leaf is running.
pub proof fn law_stopping_seals_incomplete(s: PlannerState)
    requires
        s.cancelled || s.failure is Some,
    ensures
        advance_action(s) is SealIncomplete || advance_action(s) is WaitForRetirements,
        advance_action(s) is SealIncomplete ==> (s.group is None || s.group->Some_0.active == 0),
        s.cancelled && advance_action(s) is SealIncomplete ==> advance_action(s)
            == AdvanceAction::SealIncomplete(IncompleteReason::Cancelled),
{
}

/// A group is decided once a leaf found a layout at its objective, or once
/// every root is covered: a running planner with no settled result then
/// closes it when idle and waits for its leaves otherwise; it never hands
/// out more leaves of a decided group.
pub proof fn law_decided_group_is_never_dispatched(s: PlannerState)
    requires
        !s.cancelled,
        s.failure is None,
        !s.initial_result,
        s.group matches Some(g) && (g.optimum || g.covered),
    ensures
        s.group->Some_0.active == 0 ==> advance_action(s) == AdvanceAction::FinishGroup,
        s.group->Some_0.active > 0 ==> advance_action(s) == AdvanceAction::WaitForGroup,
        advance_action(s) != AdvanceAction::Dispatch,
{
}

/// An undecided group of a running planner with no settled result gets more leaves.
pub proof fn law_undecided_group_is_dispatched(s: PlannerState)
    requires
        !s.cancelled,
        s.failure is None,
        !s.initial_result,
        s.group matches Some(g) && !g.optimum && !g.covered,
    ensures
        advance_action(s) == AdvanceAction::Dispatch,
{
}

} // verus!
