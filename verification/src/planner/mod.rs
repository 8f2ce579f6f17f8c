//! Exact root planning: proof-cover ledgers and the evidence they report.

pub mod roots;
pub mod group;
pub mod advance;

use vstd::prelude::*;

use crate::leaf::LeafSpec;
use crate::planner::roots::Root;

verus! {

/// Identity of one dispatched leaf: its group and position.
#[derive(Clone, Copy, Debug, PartialEq, Eq, PartialOrd, Ord)]
pub struct LeafId {
    pub group: u64,
    pub index: usize,
}

/// One leaf search handed to a host.
#[derive(Clone, Copy, Debug, PartialEq, Eq)]
pub struct LeafTask {
    pub id: LeafId,
    pub nodes: u32,
    pub links: u32,
    pub root: Root,
    pub spec: LeafSpec,
}

/// What one job of a closed group reports.
pub struct JobEvidence {
    pub index: usize,
    pub parent: usize,
    pub child_count: usize,
    pub committed: bool,
    pub trigger_ms: Option<u64>,
}

/// What one closed link group reports.
pub struct GroupEvidence {
    pub group: u64,
    pub nodes: u32,
    pub links: u32,
    pub adaptive: bool,
    pub jobs: Vec<JobEvidence>,
}

} // verus!
