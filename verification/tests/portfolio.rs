use solver_core::portfolio::{
    offer_incumbent, portfolio_outcome, BranchOutcome, Incumbent, PortfolioCollector,
};
use solver_core::search::IncompleteReason;

type Outcome = BranchOutcome<&'static str, u32, String>;

fn incumbent(node_count: u32, link_count: u32, witness: &'static str) -> Incumbent<&'static str> {
    Incumbent { node_count, link_count, witness }
}

#[test]
fn only_strictly_better_incumbents_are_delivered() {
    let mut best = None;
    assert!(offer_incumbent(&mut best, incumbent(3, 5, "a")));
    assert!(!offer_incumbent(&mut best, incumbent(3, 5, "b")));
    assert!(!offer_incumbent(&mut best, incumbent(4, 1, "c")));
    assert!(offer_incumbent(&mut best, incumbent(3, 4, "d")));
    assert_eq!(best, Some(incumbent(3, 4, "d")));
}

#[test]
fn the_first_settling_branch_wins_and_stops_the_portfolio() {
    let mut collector: PortfolioCollector<&'static str, u32, String> = PortfolioCollector::new();
    assert!(!collector.should_stop(false));
    collector.finished(1, Outcome::Incomplete { reason: IncompleteReason::Cancelled, best_known: None, proof: 1 });
    assert!(!collector.should_stop(false));
    collector.finished(0, Outcome::GloballyUnsat { proof: 7 });
    collector.finished(1, Outcome::GloballyUnsat { proof: 8 });
    assert!(collector.should_stop(false));
    let (branch, result) = portfolio_outcome(collector, None, false);
    assert_eq!(branch, 0);
    assert_eq!(result, Ok(Outcome::GloballyUnsat { proof: 7 }));
}

#[test]
fn without_a_settled_branch_the_first_unfinished_result_is_returned_with_the_best_layout() {
    let mut collector: PortfolioCollector<&'static str, u32, String> = PortfolioCollector::new();
    collector.finished(1, Outcome::Incomplete {
        reason: IncompleteReason::ResourceLimit { detail: "memory".to_owned() },
        best_known: None,
        proof: 2,
    });
    collector.finished(0, Outcome::Failed("bad options".to_owned()));
    let (branch, result) = portfolio_outcome(collector, Some(incumbent(2, 3, "x")), false);
    assert_eq!(branch, 1);
    assert_eq!(
        result,
        Ok(Outcome::Incomplete {
            reason: IncompleteReason::ResourceLimit { detail: "memory".to_owned() },
            best_known: Some(incumbent(2, 3, "x")),
            proof: 2,
        })
    );
}

#[test]
fn a_failure_that_arrives_first_is_returned() {
    let mut collector: PortfolioCollector<&'static str, u32, String> = PortfolioCollector::new();
    collector.finished(0, Outcome::Failed("bad options".to_owned()));
    let (_, result) = portfolio_outcome(collector, None, true);
    assert_eq!(result, Err("bad options".to_owned()));
}

#[test]
fn an_optimum_takes_the_delivered_layout_of_equal_objective() {
    let mut collector: PortfolioCollector<&'static str, u32, String> = PortfolioCollector::new();
    collector.finished(1, Outcome::Optimal { solution: incumbent(2, 3, "own"), proof: 5 });
    let (branch, result) = portfolio_outcome(collector, Some(incumbent(2, 3, "first")), false);
    assert_eq!(branch, 1);
    assert_eq!(result, Ok(Outcome::Optimal { solution: incumbent(2, 3, "first"), proof: 5 }));
}

#[test]
fn an_explicit_cancel_turns_a_proof_into_an_incomplete_result() {
    let mut collector: PortfolioCollector<&'static str, u32, String> = PortfolioCollector::new();
    collector.finished(0, Outcome::Optimal { solution: incumbent(2, 3, "own"), proof: 5 });
    let (_, result) = portfolio_outcome(collector, Some(incumbent(2, 4, "best")), true);
    assert_eq!(
        result,
        Ok(Outcome::Incomplete {
            reason: IncompleteReason::Cancelled,
            best_known: Some(incumbent(2, 4, "best")),
            proof: 5,
        })
    );
}
