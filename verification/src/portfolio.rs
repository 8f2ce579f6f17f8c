//! Decisions of a portfolio of independent exact searches: which incumbent
//! is delivered, when the branches stop, and which branch's result is
//! returned. The host runs the branches and hands their events over.

use vstd::prelude::*;

use crate::search::IncompleteReason;

verus! {

/// A layout found so far, with its objective.
#[derive(Debug, PartialEq, Eq)]
pub struct Incumbent<W> {
    pub node_count: u32,
    pub link_count: u32,
    pub witness: W,
}

/// What one branch search finished with. `W` stands for a layout, `P` for a
/// proof summary and `E` for a solver error.
#[derive(Debug, PartialEq, Eq)]
pub enum BranchOutcome<W, P, E> {
    /// A proven optimum.
    Optimal { solution: Incumbent<W>, proof: P },
    /// No layout exists at all.
    GloballyUnsat { proof: P },
    /// The search stopped before its proof completed.
    Incomplete { reason: IncompleteReason, best_known: Option<Incumbent<W>>, proof: P },
    /// The search refused the problem or its options.
    Failed(E),
}

/// `a` has a strictly smaller objective than `b`: fewer nodes, then fewer links.
pub open spec fn objective_below(a: (u32, u32), b: (u32, u32)) -> bool {
    a.0 < b.0 || (a.0 == b.0 && a.1 < b.1)
}

/// The objective of an incumbent.
pub open spec fn objective<W>(incumbent: Incumbent<W>) -> (u32, u32) {
    (incumbent.node_count, incumbent.link_count)
}

/// Offers an incumbent from either branch. It is delivered, and becomes the
/// best known, only when no layout with an equal or smaller objective was
/// delivered before.
pub fn offer_incumbent<W>(best: &mut Option<Incumbent<W>>, candidate: Incumbent<W>) -> (delivered: bool)
    ensures
        delivered == match *old(best) {
            None => true,
            Some(known) => objective_below(objective(candidate), objective(known)),
        },
        delivered ==> *final(best) == Some(candidate),
        !delivered ==> *final(best) == *old(best),
{
    let better = match best {
        None => true,
        Some(known) => candidate.node_count < known.node_count || (candidate.node_count == known.node_count
            && candidate.link_count < known.link_count),
    };
    if better {
        *best = Some(candidate);
    }
    better
}

/// A result that settles the portfolio: anything but an incomplete search
/// or a failure.
pub open spec fn settles<W, P, E>(outcome: BranchOutcome<W, P, E>) -> bool {
    outcome is Optimal || outcome is GloballyUnsat
}

/// The branch results received so far.
pub struct PortfolioCollector<W, P, E> {
    /// The first settling result, with its branch.
    pub completed: Option<(usize, BranchOutcome<W, P, E>)>,
    /// Every other result, in arrival order.
    pub unfinished: Vec<(usize, BranchOutcome<W, P, E>)>,
}

impl<W, P, E> PortfolioCollector<W, P, E> {
    /// No branch has finished.
    pub fn new() -> (collector: Self)
        ensures
            collector.completed is None,
            collector.unfinished@.len() == 0,
    {
        PortfolioCollector { completed: None, unfinished: Vec::new() }
    }

    /// Receives what `branch` finished with. The first settling result is
    /// kept and later settling results are dropped; every other result is
    /// queued.
    pub fn finished(&mut self, branch: usize, outcome: BranchOutcome<W, P, E>)
        ensures
            settles(outcome) && old(self).completed is None ==> final(self).completed == Some((branch, outcome))
                && final(self).unfinished@ == old(self).unfinished@,
            settles(outcome) && old(self).completed is Some ==> *final(self) == *old(self),
            !settles(outcome) ==> final(self).completed == old(self).completed
                && final(self).unfinished@ == old(self).unfinished@.push((branch, outcome)),
    {
        match outcome {
            BranchOutcome::Optimal { .. } | BranchOutcome::GloballyUnsat { .. } => {
                if self.completed.is_none() {
                    self.completed = Some((branch, outcome));
                }
            },
            _ => {
                self.unfinished.push((branch, outcome));
            },
        }
    }

    /// Whether every branch must now stop: on an explicit cancel, or once a
    /// branch settled the problem.
    pub fn should_stop(&self, cancelled: bool) -> (stop: bool)
        ensures
            stop == (cancelled || self.completed is Some),
    {
        cancelled || self.completed.is_some()
    }
}

/// The proof summary an outcome carries, if it carries one.
pub open spec fn proof_of<W, P, E>(outcome: BranchOutcome<W, P, E>) -> Option<P> {
    match outcome {
        BranchOutcome::Optimal { proof, .. } => Some(proof),
        BranchOutcome::GloballyUnsat { proof } => Some(proof),
        BranchOutcome::Incomplete { proof, .. } => Some(proof),
        BranchOutcome::Failed(_) => None,
    }
}

/// The result the portfolio returns from the winning branch result: a
/// failure is returned as it is; an explicit cancel turns any other result
/// into an incomplete one with the best delivered layout and the winner's
/// proof; an optimum whose objective the best delivered layout shares is
/// reported with that layout; an incomplete result carries the best
/// delivered layout.
pub open spec fn delivered_result<W, P, E>(
    winner: BranchOutcome<W, P, E>,
    best: Option<Incumbent<W>>,
    cancelled: bool,
) -> Result<BranchOutcome<W, P, E>, E> {
    match winner {
        BranchOutcome::Failed(error) => Err(error),
        _ => if cancelled {
            Ok(
                BranchOutcome::Incomplete {
                    reason: IncompleteReason::Cancelled,
                    best_known: best,
                    proof: proof_of(winner)->Some_0,
                },
            )
        } else {
            match winner {
                BranchOutcome::Optimal { solution, proof } => match best {
                    Some(known) => if objective(known) == objective(solution) {
                        Ok(BranchOutcome::Optimal { solution: known, proof })
                    } else {
                        Ok(BranchOutcome::Optimal { solution, proof })
                    },
                    None => Ok(BranchOutcome::Optimal { solution, proof }),
                },
                BranchOutcome::Incomplete { reason, best_known: _, proof } => Ok(
                    BranchOutcome::Incomplete { reason, best_known: best, proof },
                ),
                other => Ok(other),
            }
        },
    }
}

/// The branch whose result the portfolio returns: the first settling
/// result, else the first other result to arrive.
pub open spec fn winner<W, P, E>(collector: PortfolioCollector<W, P, E>) -> (usize, BranchOutcome<W, P, E>) {
    match collector.completed {
        Some(entry) => entry,
        None => collector.unfinished@[0],
    }
}

/// Decides what the portfolio returns once every branch has finished, with
/// the branch that owns the returned proof.
pub fn portfolio_outcome<W, P, E>(
    collector: PortfolioCollector<W, P, E>,
    best: Option<Incumbent<W>>,
    cancelled: bool,
) -> (outcome: (usize, Result<BranchOutcome<W, P, E>, E>))
    requires
        collector.completed is Some || collector.unfinished@.len() > 0,
    ensures
        outcome.0 == winner(collector).0,
        outcome.1 == delivered_result(winner(collector).1, best, cancelled),
{
    let ghost chosen = winner(collector);
    let PortfolioCollector { completed, unfinished } = collector;
    let (branch, result) = match completed {
        Some(entry) => entry,
        None => {
            let mut unfinished = unfinished;
            let ghost queued = unfinished@;
            let entry = unfinished.remove(0);
            assert(entry == queued[0]);
            entry
        },
    };
    let delivered = match result {
        BranchOutcome::Failed(error) => Err(error),
        BranchOutcome::Optimal { solution, proof } => if cancelled {
            Ok(BranchOutcome::Incomplete { reason: IncompleteReason::Cancelled, best_known: best, proof })
        } else {
            match best {
                Some(known) => if known.node_count == solution.node_count && known.link_count
                    == solution.link_count {
                    Ok(BranchOutcome::Optimal { solution: known, proof })
                } else {
                    Ok(BranchOutcome::Optimal { solution, proof })
                },
                None => Ok(BranchOutcome::Optimal { solution, proof }),
            }
        },
        BranchOutcome::GloballyUnsat { proof } => if cancelled {
            Ok(BranchOutcome::Incomplete { reason: IncompleteReason::Cancelled, best_known: best, proof })
        } else {
            Ok(BranchOutcome::GloballyUnsat { proof })
        },
        BranchOutcome::Incomplete { reason, best_known: _, proof } => if cancelled {
            Ok(BranchOutcome::Incomplete { reason: IncompleteReason::Cancelled, best_known: best, proof })
        } else {
            Ok(BranchOutcome::Incomplete { reason, best_known: best, proof })
        },
    };
    (branch, delivered)
}

/// An explicit cancel never reports a proof: whatever the winning branch
/// settled, the portfolio returns an incomplete, cancelled result that
/// keeps the best delivered layout and the winner's proof summary.
pub proof fn law_cancel_reports_no_proof<W, P, E>(winner: BranchOutcome<W, P, E>, best: Option<Incumbent<W>>)
    requires
        !(winner is Failed),
    ensures
        delivered_result(winner, best, true) == Ok::<BranchOutcome<W, P, E>, E>(
            BranchOutcome::Incomplete {
                reason: IncompleteReason::Cancelled,
                best_known: best,
                proof: proof_of(winner)->Some_0,
            },
        ),
{
}

} // verus!
