//! Host-independent leaf protocol vocabulary.

use vstd::prelude::*;

use crate::profile::AccountedProfile;

verus! {

/// Which minimal layouts a run asks for.
#[derive(Clone, Copy, Debug, PartialEq, Eq, Structural)]
pub enum SolveMode {
    /// One layout of minimal nodes, then minimal links.
    OneMinNL,
    /// Every layout of minimal nodes.
    AllMinN,
    /// Every layout of minimal nodes, then minimal links.
    AllMinNL,
}

/// How a leaf encodes its cardinality constraints.
#[derive(Clone, Copy, Debug, PartialEq, Eq, Structural)]
pub enum Counts {
    Sparse,
    Boolean,
}

/// What one leaf search is asked to decide.
#[derive(Clone, Copy, Debug, PartialEq, Eq)]
pub struct LeafSpec {
    pub profile: AccountedProfile,
    pub source: Option<usize>,
    pub second_source: Option<usize>,
    pub mode: SolveMode,
    pub counts: Counts,
}

/// How a leaf finished.
#[derive(Clone, Copy, Debug, PartialEq, Eq)]
pub enum Completion {
    Exhausted,
    Optimum,
}

/// Which reply the backend owes next.
#[derive(Clone, Copy, Debug, PartialEq, Eq)]
pub enum ResponseKind {
    CheckSat,
    Model,
}

/// Phases of exact model acceptance that a host may time.
#[derive(Clone, Copy, Debug, PartialEq, Eq)]
pub enum LeafPhase {
    Validation,
    Identity,
}

/// Worker-local telemetry; hosts implement it with their own clocks.
pub trait LeafTelemetry {
    fn start(&mut self, phase: LeafPhase) {
    }

    fn stop(&mut self, phase: LeafPhase) {
    }

    fn model(&mut self) {
    }

    fn duplicate(&mut self) {
    }

    fn valid(&mut self) {
    }
}

impl LeafTelemetry for () {

}

} // verus!
