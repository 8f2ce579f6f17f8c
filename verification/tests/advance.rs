use solver_core::planner::advance::{after_dispatch, advance_step, AdvanceAction, GroupState, PlannerState};
use solver_core::search::IncompleteReason;

fn idle() -> PlannerState {
    PlannerState {
        cancelled: false,
        failure: None,
        initial_result: false,
        group: None,
        loaded_node: true,
        groups_left: 0,
        has_best: false,
        node: 4,
    }
}

#[test]
fn a_cancelled_planner_waits_for_running_leaves_then_seals_incomplete() {
    let mut state = idle();
    state.cancelled = true;
    state.group = Some(GroupState { active: 2, optimum: false, covered: false });
    assert_eq!(advance_step(&state), AdvanceAction::WaitForRetirements);
    state.group = Some(GroupState { active: 0, optimum: true, covered: false });
    assert_eq!(advance_step(&state), AdvanceAction::SealIncomplete(IncompleteReason::Cancelled));
}

#[test]
fn a_failure_seals_with_its_reason() {
    let mut state = idle();
    state.failure = Some(IncompleteReason::WorkerFailed { detail: "lost".to_owned() });
    assert_eq!(
        advance_step(&state),
        AdvanceAction::SealIncomplete(IncompleteReason::WorkerFailed { detail: "lost".to_owned() })
    );
}

#[test]
fn groups_are_dispatched_until_decided_and_closed_once_idle() {
    let mut state = idle();
    state.group = Some(GroupState { active: 1, optimum: false, covered: false });
    assert_eq!(advance_step(&state), AdvanceAction::Dispatch);
    state.group = Some(GroupState { active: 1, optimum: false, covered: true });
    assert_eq!(advance_step(&state), AdvanceAction::WaitForGroup);
    state.group = Some(GroupState { active: 0, optimum: false, covered: true });
    assert_eq!(advance_step(&state), AdvanceAction::FinishGroup);
}

#[test]
fn node_counts_advance_until_a_layout_seals_the_optimum() {
    let mut state = idle();
    state.loaded_node = false;
    assert_eq!(advance_step(&state), AdvanceAction::LoadNode);
    state.loaded_node = true;
    state.groups_left = 2;
    assert_eq!(advance_step(&state), AdvanceAction::StartGroup);
    state.groups_left = 0;
    assert_eq!(advance_step(&state), AdvanceAction::ExhaustNode { next: 5 });
    state.has_best = true;
    assert_eq!(advance_step(&state), AdvanceAction::SealOptimum);
    state.has_best = false;
    state.node = u32::MAX;
    assert_eq!(advance_step(&state), AdvanceAction::NodeIndexExhausted);
    state.initial_result = true;
    assert_eq!(advance_step(&state), AdvanceAction::SealInitial);
}


#[test]
fn an_undecided_group_left_idle_after_dispatch_fails_the_branch() {
    assert_eq!(
        after_dispatch(0),
        Some(IncompleteReason::WorkerFailed { detail: "unfinished Solver profile group".to_owned() })
    );
    assert_eq!(after_dispatch(3), None);
}
