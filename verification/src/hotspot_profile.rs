//! Cumulative hotspot timers for production-search profiling.
//!
//! Timers are diagnostic only and do not affect search decisions. Recording
//! is enabled with [`install_recorder`]; counters are read with
//! [`peek_snapshot`] or finished with [`take_snapshot`]. Counters wrap on
//! overflow like the atomic accumulators of a shared recorder.

use vstd::prelude::*;

verus! {

/// Named nanosecond accumulators for one profiling session.
#[derive(Clone, Copy, Debug, Default, PartialEq, Eq)]
pub struct HotspotSnapshot {
    pub witness_leaves: u64,
    pub witness_branches: u64,
    pub witness_leaf_ns: u64,
    pub witness_refine_ns: u64,
    pub witness_search_ns: u64,
    pub snapshot_ns: u64,
    pub state_canonicalize_ns: u64,
    pub legal_decisions_ns: u64,
    pub apply_decision_ns: u64,
    pub propagation_sync_ns: u64,
    pub propagation_sync_calls: u64,
    pub propagation_port_scan_ns: u64,
    pub propagation_register_ns: u64,
    pub propagation_fixed_point_ns: u64,
    pub propagation_fixed_point_passes: u64,
    pub propagation_sparse_analyze_ns: u64,
    pub propagation_sparse_profiled_calls: u64,
    pub propagation_sparse_preparation_ns: u64,
    pub propagation_sparse_forward_ns: u64,
    pub propagation_sparse_back_reduction_ns: u64,
    pub propagation_sparse_deductions_ns: u64,
    pub propagation_sparse_input_rows: u64,
    pub propagation_sparse_active_rows: u64,
    pub propagation_sparse_variables: u64,
    pub propagation_sparse_nonzero_terms: u64,
    pub propagation_sparse_cause_calls: [u64; 4],
    pub propagation_sparse_row_bucket_calls: [u64; 4],
    pub propagation_sparse_row_bucket_ns: [u64; 4],
    pub propagation_sparse_variable_bucket_calls: [u64; 4],
    pub propagation_sparse_variable_bucket_ns: [u64; 4],
    pub propagation_sparse_term_bucket_calls: [u64; 4],
    pub propagation_sparse_term_bucket_ns: [u64; 4],
    pub propagation_bounds_ns: u64,
    pub scc_canonicalize_ns: u64,
    pub scc_algebra_ns: u64,
    pub reachability_ns: u64,
    pub evaluate_complete_ns: u64,
    pub graph_canon_ns: u64,
    pub graph_canon_calls: u64,
    pub state_graph_canon_ns: u64,
    pub state_graph_canon_calls: u64,
    pub open_port_graph_canon_ns: u64,
    pub open_port_graph_canon_calls: u64,
    pub marked_link_graph_canon_ns: u64,
    pub marked_link_graph_canon_calls: u64,
    pub other_graph_canon_ns: u64,
    pub other_graph_canon_calls: u64,
    pub scc_canonicalize_calls: u64,
    pub incidence_build_ns: u64,
    pub dense_graph_ns: u64,
    pub labeling_ns: u64,
    pub relabel_ns: u64,
    pub equality_ns: u64,
    pub inequality_ns: u64,
    pub semantic_encoding_ns: u64,
}

/// Every counter of `s` is zero.
pub open spec fn all_zero(s: HotspotSnapshot) -> bool {
    &&& s.witness_leaves == 0
    &&& s.witness_branches == 0
    &&& s.witness_leaf_ns == 0
    &&& s.witness_refine_ns == 0
    &&& s.witness_search_ns == 0
    &&& s.snapshot_ns == 0
    &&& s.state_canonicalize_ns == 0
    &&& s.legal_decisions_ns == 0
    &&& s.apply_decision_ns == 0
    &&& s.propagation_sync_ns == 0
    &&& s.propagation_sync_calls == 0
    &&& s.propagation_port_scan_ns == 0
    &&& s.propagation_register_ns == 0
    &&& s.propagation_fixed_point_ns == 0
    &&& s.propagation_fixed_point_passes == 0
    &&& s.propagation_sparse_analyze_ns == 0
    &&& s.propagation_sparse_profiled_calls == 0
    &&& s.propagation_sparse_preparation_ns == 0
    &&& s.propagation_sparse_forward_ns == 0
    &&& s.propagation_sparse_back_reduction_ns == 0
    &&& s.propagation_sparse_deductions_ns == 0
    &&& s.propagation_sparse_input_rows == 0
    &&& s.propagation_sparse_active_rows == 0
    &&& s.propagation_sparse_variables == 0
    &&& s.propagation_sparse_nonzero_terms == 0
    &&& s.propagation_sparse_cause_calls@ == seq![0u64, 0, 0, 0]
    &&& s.propagation_sparse_row_bucket_calls@ == seq![0u64, 0, 0, 0]
    &&& s.propagation_sparse_row_bucket_ns@ == seq![0u64, 0, 0, 0]
    &&& s.propagation_sparse_variable_bucket_calls@ == seq![0u64, 0, 0, 0]
    &&& s.propagation_sparse_variable_bucket_ns@ == seq![0u64, 0, 0, 0]
    &&& s.propagation_sparse_term_bucket_calls@ == seq![0u64, 0, 0, 0]
    &&& s.propagation_sparse_term_bucket_ns@ == seq![0u64, 0, 0, 0]
    &&& s.propagation_bounds_ns == 0
    &&& s.scc_canonicalize_ns == 0
    &&& s.scc_algebra_ns == 0
    &&& s.reachability_ns == 0
    &&& s.evaluate_complete_ns == 0
    &&& s.graph_canon_ns == 0
    &&& s.graph_canon_calls == 0
    &&& s.state_graph_canon_ns == 0
    &&& s.state_graph_canon_calls == 0
    &&& s.open_port_graph_canon_ns == 0
    &&& s.open_port_graph_canon_calls == 0
    &&& s.marked_link_graph_canon_ns == 0
    &&& s.marked_link_graph_canon_calls == 0
    &&& s.other_graph_canon_ns == 0
    &&& s.other_graph_canon_calls == 0
    &&& s.scc_canonicalize_calls == 0
    &&& s.incidence_build_ns == 0
    &&& s.dense_graph_ns == 0
    &&& s.labeling_ns == 0
    &&& s.relabel_ns == 0
    &&& s.equality_ns == 0
    &&& s.inequality_ns == 0
    &&& s.semantic_encoding_ns == 0
}

/// The sum of the top-level search buckets.
pub open spec fn accounted_sum(s: HotspotSnapshot) -> int {
    s.snapshot_ns + s.state_canonicalize_ns + s.legal_decisions_ns + s.apply_decision_ns + s.propagation_sync_ns + s.scc_canonicalize_ns + s.scc_algebra_ns + s.reachability_ns + s.evaluate_complete_ns
}

/// `value + amount` modulo `2^64`, as an atomic fetch-add leaves it.
pub open spec fn wrapping(value: u64, amount: u64) -> u64 {
    if value + amount > u64::MAX {
        (value + amount - 0x1_0000_0000_0000_0000) as u64
    } else {
        (value + amount) as u64
    }
}

/// A duration in nanoseconds, saturated to `u64`.
pub open spec fn saturated_ns(nanos: u128) -> u64 {
    if nanos > u64::MAX {
        u64::MAX
    } else {
        nanos as u64
    }
}

impl HotspotSnapshot {
    /// Total accounted nanoseconds across top-level search buckets, saturating at `u64::MAX`.
    pub fn accounted_ns(&self) -> (total: u64)
        ensures
            total == if accounted_sum(*self) > u64::MAX {
                u64::MAX as int
            } else {
                accounted_sum(*self)
            },
    {
        self.snapshot_ns.saturating_add(self.state_canonicalize_ns).saturating_add(self.legal_decisions_ns).saturating_add(self.apply_decision_ns).saturating_add(self.propagation_sync_ns).saturating_add(self.scc_canonicalize_ns).saturating_add(self.scc_algebra_ns).saturating_add(self.reachability_ns).saturating_add(self.evaluate_complete_ns)
    }
}

/// A snapshot with every counter zero.
pub fn zero_snapshot() -> (snapshot: HotspotSnapshot)
    ensures
        all_zero(snapshot),
{
    let snapshot = HotspotSnapshot {
        witness_leaves: 0,
        witness_branches: 0,
        witness_leaf_ns: 0,
        witness_refine_ns: 0,
        witness_search_ns: 0,
        snapshot_ns: 0,
        state_canonicalize_ns: 0,
        legal_decisions_ns: 0,
        apply_decision_ns: 0,
        propagation_sync_ns: 0,
        propagation_sync_calls: 0,
        propagation_port_scan_ns: 0,
        propagation_register_ns: 0,
        propagation_fixed_point_ns: 0,
        propagation_fixed_point_passes: 0,
        propagation_sparse_analyze_ns: 0,
        propagation_sparse_profiled_calls: 0,
        propagation_sparse_preparation_ns: 0,
        propagation_sparse_forward_ns: 0,
        propagation_sparse_back_reduction_ns: 0,
        propagation_sparse_deductions_ns: 0,
        propagation_sparse_input_rows: 0,
        propagation_sparse_active_rows: 0,
        propagation_sparse_variables: 0,
        propagation_sparse_nonzero_terms: 0,
        propagation_sparse_cause_calls: [0, 0, 0, 0],
        propagation_sparse_row_bucket_calls: [0, 0, 0, 0],
        propagation_sparse_row_bucket_ns: [0, 0, 0, 0],
        propagation_sparse_variable_bucket_calls: [0, 0, 0, 0],
        propagation_sparse_variable_bucket_ns: [0, 0, 0, 0],
        propagation_sparse_term_bucket_calls: [0, 0, 0, 0],
        propagation_sparse_term_bucket_ns: [0, 0, 0, 0],
        propagation_bounds_ns: 0,
        scc_canonicalize_ns: 0,
        scc_algebra_ns: 0,
        reachability_ns: 0,
        evaluate_complete_ns: 0,
        graph_canon_ns: 0,
        graph_canon_calls: 0,
        state_graph_canon_ns: 0,
        state_graph_canon_calls: 0,
        open_port_graph_canon_ns: 0,
        open_port_graph_canon_calls: 0,
        marked_link_graph_canon_ns: 0,
        marked_link_graph_canon_calls: 0,
        other_graph_canon_ns: 0,
        other_graph_canon_calls: 0,
        scc_canonicalize_calls: 0,
        incidence_build_ns: 0,
        dense_graph_ns: 0,
        labeling_ns: 0,
        relabel_ns: 0,
        equality_ns: 0,
        inequality_ns: 0,
        semantic_encoding_ns: 0,
    };
    assert(all_zero(snapshot));
    snapshot
}

/// A duration in nanoseconds, saturated to `u64`.
pub fn duration_ns(elapsed_ns: u128) -> (ns: u64)
    ensures
        ns == saturated_ns(elapsed_ns),
{
    if elapsed_ns > u64::MAX as u128 {
        u64::MAX
    } else {
        elapsed_ns as u64
    }
}

/// A count saturated to `u64`.
pub fn count(value: usize) -> (c: u64)
    ensures
        c == if value > u64::MAX {
            u64::MAX as int
        } else {
            value as int
        },
{
    if value as u128 > u64::MAX as u128 {
        u64::MAX
    } else {
        value as u64
    }
}

/// The recording switch and counters of one profiling session.
pub struct HotspotRecorder {
    pub enabled: bool,
    pub counters: HotspotSnapshot,
}

/// Which propagation phase a duration belongs to.
#[derive(Clone, Copy, Debug, PartialEq, Eq)]
pub enum PropagationPhase {
    PortScan,
    Register,
    FixedPoint,
    SparseAnalyze,
    Bounds,
}

/// What a sparse elimination pass was triggered by.
#[derive(Clone, Copy, Debug, PartialEq, Eq)]
pub enum SparsePassCause {
    Initial,
    ValueDeductions,
    RatioDeductions,
    ValueAndRatioDeductions,
}

/// Why a graph was canonicalized.
#[derive(Clone, Copy, Debug, PartialEq, Eq)]
pub enum GraphCanonPurpose {
    State,
    OpenPort,
    MarkedLink,
    Other,
}

/// Shape and phase durations of one sparse elimination pass.
#[derive(Clone, Copy, Debug, Default, PartialEq, Eq)]
pub struct SparseProfile {
    pub total_ns: u128,
    pub preparation_ns: u128,
    pub forward_ns: u128,
    pub back_reduction_ns: u128,
    pub deductions_ns: u128,
    pub input_rows: usize,
    pub active_rows: usize,
    pub variable_count: usize,
    pub nonzero_terms: usize,
}

/// The bucket of `value` under three ascending boundaries: the first
/// boundary it is below, or the overflow bucket.
pub open spec fn shape_bucket(value: usize, boundaries: [usize; 3]) -> int {
    if value < boundaries@[0] {
        0
    } else if value < boundaries@[1] {
        1
    } else if value < boundaries@[2] {
        2
    } else {
        3
    }
}

/// The bucket of `value` under three ascending boundaries.
pub fn shape_bucket_index(value: usize, boundaries: [usize; 3]) -> (index: usize)
    ensures
        index == shape_bucket(value, boundaries),
{
    let mut index: usize = 0;
    while index < 3
        invariant
            index <= 3,
            forall|k: int| 0 <= k < index ==> value >= boundaries@[k],
        decreases 3 - index,
    {
        if value < boundaries[index] {
            return index;
        }
        index = index + 1;
    }
    index
}

/// Starts a fresh profiling session and clears prior counters.
pub fn install_recorder(recorder: &mut HotspotRecorder)
    ensures
        final(recorder).enabled,
        all_zero(final(recorder).counters),
{
    clear_buckets(recorder);
    recorder.enabled = true;
}

/// Stops recording, clears the counters, and returns their values.
pub fn take_snapshot(recorder: &mut HotspotRecorder) -> (snapshot: HotspotSnapshot)
    ensures
        !final(recorder).enabled,
        all_zero(final(recorder).counters),
        snapshot == old(recorder).counters,
{
    recorder.enabled = false;
    let snapshot = load_snapshot(recorder);
    clear_buckets(recorder);
    snapshot
}

/// Returns the live counters without stopping the session.
pub fn peek_snapshot(recorder: &HotspotRecorder) -> (snapshot: HotspotSnapshot)
    ensures
        snapshot == recorder.counters,
{
    load_snapshot(recorder)
}

fn load_snapshot(recorder: &HotspotRecorder) -> (snapshot: HotspotSnapshot)
    ensures
        snapshot == recorder.counters,
{
    recorder.counters
}

fn clear_buckets(recorder: &mut HotspotRecorder)
    ensures
        final(recorder).enabled == old(recorder).enabled,
        all_zero(final(recorder).counters),
{
    recorder.counters = zero_snapshot();
}

impl HotspotRecorder {
    /// A recorder that is not recording, with every counter zero.
    pub fn new() -> (recorder: Self)
        ensures
            !recorder.enabled,
            all_zero(recorder.counters),
    {
        HotspotRecorder { enabled: false, counters: zero_snapshot() }
    }

    /// Whether recording is enabled.
    pub fn recorder_enabled(&self) -> (enabled: bool)
        ensures
            enabled == self.enabled,
    {
        self.enabled
    }

    /// Adds one snapshot phase. `elapsed_ns` saturates at `u64::MAX`.
    pub fn record_snapshot(&mut self, elapsed_ns: u128)
        ensures
            final(self).enabled == old(self).enabled,
            final(self).counters == if old(self).enabled {
                HotspotSnapshot { snapshot_ns: wrapping(old(self).counters.snapshot_ns, saturated_ns(elapsed_ns)), ..old(self).counters }
            } else {
                old(self).counters
            },
    {
        if self.enabled {
            self.counters.snapshot_ns = self.counters.snapshot_ns.wrapping_add(duration_ns(elapsed_ns));
        }
    }

    /// Adds one state canonicalization. `elapsed_ns` saturates at `u64::MAX`.
    pub fn record_state_canonicalize(&mut self, elapsed_ns: u128)
        ensures
            final(self).enabled == old(self).enabled,
            final(self).counters == if old(self).enabled {
                HotspotSnapshot { state_canonicalize_ns: wrapping(old(self).counters.state_canonicalize_ns, saturated_ns(elapsed_ns)), ..old(self).counters }
            } else {
                old(self).counters
            },
    {
        if self.enabled {
            self.counters.state_canonicalize_ns = self.counters.state_canonicalize_ns.wrapping_add(duration_ns(elapsed_ns));
        }
    }

    /// Adds one legal-decision enumeration. `elapsed_ns` saturates at `u64::MAX`.
    pub fn record_legal_decisions(&mut self, elapsed_ns: u128)
        ensures
            final(self).enabled == old(self).enabled,
            final(self).counters == if old(self).enabled {
                HotspotSnapshot { legal_decisions_ns: wrapping(old(self).counters.legal_decisions_ns, saturated_ns(elapsed_ns)), ..old(self).counters }
            } else {
                old(self).counters
            },
    {
        if self.enabled {
            self.counters.legal_decisions_ns = self.counters.legal_decisions_ns.wrapping_add(duration_ns(elapsed_ns));
        }
    }

    /// Adds one decision application. `elapsed_ns` saturates at `u64::MAX`.
    pub fn record_apply_decision(&mut self, elapsed_ns: u128)
        ensures
            final(self).enabled == old(self).enabled,
            final(self).counters == if old(self).enabled {
                HotspotSnapshot { apply_decision_ns: wrapping(old(self).counters.apply_decision_ns, saturated_ns(elapsed_ns)), ..old(self).counters }
            } else {
                old(self).counters
            },
    {
        if self.enabled {
            self.counters.apply_decision_ns = self.counters.apply_decision_ns.wrapping_add(duration_ns(elapsed_ns));
        }
    }

    /// Adds one propagation synchronization. `elapsed_ns` saturates at `u64::MAX`.
    pub fn record_propagation_sync(&mut self, elapsed_ns: u128)
        ensures
            final(self).enabled == old(self).enabled,
            final(self).counters == if old(self).enabled {
                HotspotSnapshot { propagation_sync_ns: wrapping(old(self).counters.propagation_sync_ns, saturated_ns(elapsed_ns)), ..old(self).counters }
            } else {
                old(self).counters
            },
    {
        if self.enabled {
            self.counters.propagation_sync_ns = self.counters.propagation_sync_ns.wrapping_add(duration_ns(elapsed_ns));
        }
    }

    /// Adds one SCC algebra solve. `elapsed_ns` saturates at `u64::MAX`.
    pub fn record_scc_algebra(&mut self, elapsed_ns: u128)
        ensures
            final(self).enabled == old(self).enabled,
            final(self).counters == if old(self).enabled {
                HotspotSnapshot { scc_algebra_ns: wrapping(old(self).counters.scc_algebra_ns, saturated_ns(elapsed_ns)), ..old(self).counters }
            } else {
                old(self).counters
            },
    {
        if self.enabled {
            self.counters.scc_algebra_ns = self.counters.scc_algebra_ns.wrapping_add(duration_ns(elapsed_ns));
        }
    }

    /// Adds one reachability analysis. `elapsed_ns` saturates at `u64::MAX`.
    pub fn record_reachability(&mut self, elapsed_ns: u128)
        ensures
            final(self).enabled == old(self).enabled,
            final(self).counters == if old(self).enabled {
                HotspotSnapshot { reachability_ns: wrapping(old(self).counters.reachability_ns, saturated_ns(elapsed_ns)), ..old(self).counters }
            } else {
                old(self).counters
            },
    {
        if self.enabled {
            self.counters.reachability_ns = self.counters.reachability_ns.wrapping_add(duration_ns(elapsed_ns));
        }
    }

    /// Adds one complete-state evaluation. `elapsed_ns` saturates at `u64::MAX`.
    pub fn record_evaluate_complete(&mut self, elapsed_ns: u128)
        ensures
            final(self).enabled == old(self).enabled,
            final(self).counters == if old(self).enabled {
                HotspotSnapshot { evaluate_complete_ns: wrapping(old(self).counters.evaluate_complete_ns, saturated_ns(elapsed_ns)), ..old(self).counters }
            } else {
                old(self).counters
            },
    {
        if self.enabled {
            self.counters.evaluate_complete_ns = self.counters.evaluate_complete_ns.wrapping_add(duration_ns(elapsed_ns));
        }
    }

    /// Counts one propagation synchronization call.
    pub fn record_propagation_sync_call(&mut self)
        ensures
            final(self).enabled == old(self).enabled,
            final(self).counters == if old(self).enabled {
                HotspotSnapshot { propagation_sync_calls: wrapping(old(self).counters.propagation_sync_calls, 1), ..old(self).counters }
            } else {
                old(self).counters
            },
    {
        if self.enabled {
            self.counters.propagation_sync_calls = self.counters.propagation_sync_calls.wrapping_add(1);
        }
    }

    /// Counts one fixed-point pass.
    pub fn record_propagation_fixed_point_pass(&mut self)
        ensures
            final(self).enabled == old(self).enabled,
            final(self).counters == if old(self).enabled {
                HotspotSnapshot { propagation_fixed_point_passes: wrapping(old(self).counters.propagation_fixed_point_passes, 1), ..old(self).counters }
            } else {
                old(self).counters
            },
    {
        if self.enabled {
            self.counters.propagation_fixed_point_passes = self.counters.propagation_fixed_point_passes.wrapping_add(1);
        }
    }

    /// Counts one witness branch.
    pub fn record_witness_branch(&mut self)
        ensures
            final(self).enabled == old(self).enabled,
            final(self).counters == if old(self).enabled {
                HotspotSnapshot { witness_branches: wrapping(old(self).counters.witness_branches, 1), ..old(self).counters }
            } else {
                old(self).counters
            },
    {
        if self.enabled {
            self.counters.witness_branches = self.counters.witness_branches.wrapping_add(1);
        }
    }

    /// Counts one witness leaf.
    pub fn record_witness_leaf(&mut self)
        ensures
            final(self).enabled == old(self).enabled,
            final(self).counters == if old(self).enabled {
                HotspotSnapshot { witness_leaves: wrapping(old(self).counters.witness_leaves, 1), ..old(self).counters }
            } else {
                old(self).counters
            },
    {
        if self.enabled {
            self.counters.witness_leaves = self.counters.witness_leaves.wrapping_add(1);
        }
    }

    /// Adds one propagation phase to its own bucket.
    pub fn record_propagation_phase(&mut self, elapsed_ns: u128, phase: PropagationPhase)
        ensures
            final(self).enabled == old(self).enabled,
            !old(self).enabled ==> final(self).counters == old(self).counters,
            old(self).enabled ==> final(self).counters == match phase {
                PropagationPhase::PortScan => HotspotSnapshot {
                    propagation_port_scan_ns: wrapping(old(self).counters.propagation_port_scan_ns, saturated_ns(elapsed_ns)),
                    ..old(self).counters
                },
                PropagationPhase::Register => HotspotSnapshot {
                    propagation_register_ns: wrapping(old(self).counters.propagation_register_ns, saturated_ns(elapsed_ns)),
                    ..old(self).counters
                },
                PropagationPhase::FixedPoint => HotspotSnapshot {
                    propagation_fixed_point_ns: wrapping(old(self).counters.propagation_fixed_point_ns, saturated_ns(elapsed_ns)),
                    ..old(self).counters
                },
                PropagationPhase::SparseAnalyze => HotspotSnapshot {
                    propagation_sparse_analyze_ns: wrapping(old(self).counters.propagation_sparse_analyze_ns, saturated_ns(elapsed_ns)),
                    ..old(self).counters
                },
                PropagationPhase::Bounds => HotspotSnapshot {
                    propagation_bounds_ns: wrapping(old(self).counters.propagation_bounds_ns, saturated_ns(elapsed_ns)),
                    ..old(self).counters
                },
            },
    {
        if !self.enabled {
            return;
        }
        let ns = duration_ns(elapsed_ns);
        match phase {
            PropagationPhase::PortScan => {
                self.counters.propagation_port_scan_ns = self.counters.propagation_port_scan_ns.wrapping_add(ns);
            },
            PropagationPhase::Register => {
                self.counters.propagation_register_ns = self.counters.propagation_register_ns.wrapping_add(ns);
            },
            PropagationPhase::FixedPoint => {
                self.counters.propagation_fixed_point_ns = self.counters.propagation_fixed_point_ns.wrapping_add(ns);
            },
            PropagationPhase::SparseAnalyze => {
                self.counters.propagation_sparse_analyze_ns = self.counters.propagation_sparse_analyze_ns.wrapping_add(ns);
            },
            PropagationPhase::Bounds => {
                self.counters.propagation_bounds_ns = self.counters.propagation_bounds_ns.wrapping_add(ns);
            },
        }
    }

    /// Adds one SCC canonicalization: its duration and one call.
    pub fn record_scc_canonicalize(&mut self, elapsed_ns: u128)
        ensures
            final(self).enabled == old(self).enabled,
            final(self).counters == if old(self).enabled {
                HotspotSnapshot {
                    scc_canonicalize_ns: wrapping(old(self).counters.scc_canonicalize_ns, saturated_ns(elapsed_ns)),
                    scc_canonicalize_calls: wrapping(old(self).counters.scc_canonicalize_calls, 1),
                    ..old(self).counters
                }
            } else {
                old(self).counters
            },
    {
        if !self.enabled {
            return;
        }
        self.counters.scc_canonicalize_ns = self.counters.scc_canonicalize_ns.wrapping_add(duration_ns(elapsed_ns));
        self.counters.scc_canonicalize_calls = self.counters.scc_canonicalize_calls.wrapping_add(1);
    }

    /// Adds one graph canonicalization to the total and to its purpose's buckets.
    pub fn record_graph_canon(&mut self, elapsed_ns: u128, purpose: GraphCanonPurpose)
        ensures
            final(self).enabled == old(self).enabled,
            !old(self).enabled ==> final(self).counters == old(self).counters,
            old(self).enabled ==> {
                let c = old(self).counters;
                let ns = saturated_ns(elapsed_ns);
                let total = HotspotSnapshot {
                    graph_canon_ns: wrapping(c.graph_canon_ns, ns),
                    graph_canon_calls: wrapping(c.graph_canon_calls, 1),
                    ..c
                };
                final(self).counters == match purpose {
                    GraphCanonPurpose::State => HotspotSnapshot {
                        state_graph_canon_ns: wrapping(c.state_graph_canon_ns, ns),
                        state_graph_canon_calls: wrapping(c.state_graph_canon_calls, 1),
                        ..total
                    },
                    GraphCanonPurpose::OpenPort => HotspotSnapshot {
                        open_port_graph_canon_ns: wrapping(c.open_port_graph_canon_ns, ns),
                        open_port_graph_canon_calls: wrapping(c.open_port_graph_canon_calls, 1),
                        ..total
                    },
                    GraphCanonPurpose::MarkedLink => HotspotSnapshot {
                        marked_link_graph_canon_ns: wrapping(c.marked_link_graph_canon_ns, ns),
                        marked_link_graph_canon_calls: wrapping(c.marked_link_graph_canon_calls, 1),
                        ..total
                    },
                    GraphCanonPurpose::Other => HotspotSnapshot {
                        other_graph_canon_ns: wrapping(c.other_graph_canon_ns, ns),
                        other_graph_canon_calls: wrapping(c.other_graph_canon_calls, 1),
                        ..total
                    },
                }
            },
    {
        if !self.enabled {
            return;
        }
        let ns = duration_ns(elapsed_ns);
        self.counters.graph_canon_ns = self.counters.graph_canon_ns.wrapping_add(ns);
        self.counters.graph_canon_calls = self.counters.graph_canon_calls.wrapping_add(1);
        match purpose {
            GraphCanonPurpose::State => {
                self.counters.state_graph_canon_ns = self.counters.state_graph_canon_ns.wrapping_add(ns);
                self.counters.state_graph_canon_calls = self.counters.state_graph_canon_calls.wrapping_add(1);
            },
            GraphCanonPurpose::OpenPort => {
                self.counters.open_port_graph_canon_ns = self.counters.open_port_graph_canon_ns.wrapping_add(ns);
                self.counters.open_port_graph_canon_calls = self.counters.open_port_graph_canon_calls.wrapping_add(1);
            },
            GraphCanonPurpose::MarkedLink => {
                self.counters.marked_link_graph_canon_ns = self.counters.marked_link_graph_canon_ns.wrapping_add(ns);
                self.counters.marked_link_graph_canon_calls = self.counters.marked_link_graph_canon_calls.wrapping_add(1);
            },
            GraphCanonPurpose::Other => {
                self.counters.other_graph_canon_ns = self.counters.other_graph_canon_ns.wrapping_add(ns);
                self.counters.other_graph_canon_calls = self.counters.other_graph_canon_calls.wrapping_add(1);
            },
        }
    }

    /// Adds one sparse elimination pass: its phase durations, its shape, its
    /// cause, and its total duration in the row, variable and term buckets.
    pub fn record_sparse_profile(&mut self, profile: &SparseProfile, cause: SparsePassCause)
        ensures
            final(self).enabled == old(self).enabled,
            !old(self).enabled ==> final(self).counters == old(self).counters,
            old(self).enabled ==> sparse_recorded(old(self).counters, final(self).counters, *profile, cause),
    {
        if !self.enabled {
            return;
        }
        let total_ns = duration_ns(profile.total_ns);
        self.counters.propagation_sparse_profiled_calls = self.counters.propagation_sparse_profiled_calls.wrapping_add(1);
        self.counters.propagation_sparse_preparation_ns = self.counters.propagation_sparse_preparation_ns.wrapping_add(duration_ns(profile.preparation_ns));
        self.counters.propagation_sparse_forward_ns = self.counters.propagation_sparse_forward_ns.wrapping_add(duration_ns(profile.forward_ns));
        self.counters.propagation_sparse_back_reduction_ns = self.counters.propagation_sparse_back_reduction_ns.wrapping_add(duration_ns(profile.back_reduction_ns));
        self.counters.propagation_sparse_deductions_ns = self.counters.propagation_sparse_deductions_ns.wrapping_add(duration_ns(profile.deductions_ns));
        self.counters.propagation_sparse_input_rows = self.counters.propagation_sparse_input_rows.wrapping_add(count(profile.input_rows));
        self.counters.propagation_sparse_active_rows = self.counters.propagation_sparse_active_rows.wrapping_add(count(profile.active_rows));
        self.counters.propagation_sparse_variables = self.counters.propagation_sparse_variables.wrapping_add(count(profile.variable_count));
        self.counters.propagation_sparse_nonzero_terms = self.counters.propagation_sparse_nonzero_terms.wrapping_add(count(profile.nonzero_terms));
        let cause_index: usize = match cause {
            SparsePassCause::Initial => 0,
            SparsePassCause::ValueDeductions => 1,
            SparsePassCause::RatioDeductions => 2,
            SparsePassCause::ValueAndRatioDeductions => 3,
        };
        self.counters.propagation_sparse_cause_calls[cause_index] = self.counters.propagation_sparse_cause_calls[cause_index].wrapping_add(1);
        let row = shape_bucket_index(profile.active_rows, [16, 32, 48]);
        self.counters.propagation_sparse_row_bucket_calls[row] = self.counters.propagation_sparse_row_bucket_calls[row].wrapping_add(1);
        self.counters.propagation_sparse_row_bucket_ns[row] = self.counters.propagation_sparse_row_bucket_ns[row].wrapping_add(total_ns);
        let variable = shape_bucket_index(profile.variable_count, [16, 32, 48]);
        self.counters.propagation_sparse_variable_bucket_calls[variable] = self.counters.propagation_sparse_variable_bucket_calls[variable].wrapping_add(1);
        self.counters.propagation_sparse_variable_bucket_ns[variable] = self.counters.propagation_sparse_variable_bucket_ns[variable].wrapping_add(total_ns);
        let term = shape_bucket_index(profile.nonzero_terms, [64, 128, 192]);
        self.counters.propagation_sparse_term_bucket_calls[term] = self.counters.propagation_sparse_term_bucket_calls[term].wrapping_add(1);
        self.counters.propagation_sparse_term_bucket_ns[term] = self.counters.propagation_sparse_term_bucket_ns[term].wrapping_add(total_ns);
    }
}

/// Index of the cause counter of a sparse pass.
pub open spec fn cause_slot(cause: SparsePassCause) -> int {
    match cause {
        SparsePassCause::Initial => 0,
        SparsePassCause::ValueDeductions => 1,
        SparsePassCause::RatioDeductions => 2,
        SparsePassCause::ValueAndRatioDeductions => 3,
    }
}

/// `counts` with slot `slot` advanced by `amount`.
pub open spec fn bumped(counts: [u64; 4], slot: int, amount: u64) -> Seq<u64> {
    counts@.update(slot, wrapping(counts@[slot], amount))
}

/// Saturating `usize` to `u64` count.
pub open spec fn count_of(value: usize) -> u64 {
    if value > u64::MAX {
        u64::MAX
    } else {
        value as u64
    }
}

/// `after` is `before` with one sparse pass recorded.
pub open spec fn sparse_recorded(
    before: HotspotSnapshot,
    after: HotspotSnapshot,
    profile: SparseProfile,
    cause: SparsePassCause,
) -> bool {
    let total = saturated_ns(profile.total_ns);
    let row = shape_bucket(profile.active_rows, [16, 32, 48]);
    let variable = shape_bucket(profile.variable_count, [16, 32, 48]);
    let term = shape_bucket(profile.nonzero_terms, [64, 128, 192]);
    &&& after.propagation_sparse_profiled_calls == wrapping(before.propagation_sparse_profiled_calls, 1)
    &&& after.propagation_sparse_preparation_ns == wrapping(before.propagation_sparse_preparation_ns, saturated_ns(profile.preparation_ns))
    &&& after.propagation_sparse_forward_ns == wrapping(before.propagation_sparse_forward_ns, saturated_ns(profile.forward_ns))
    &&& after.propagation_sparse_back_reduction_ns == wrapping(before.propagation_sparse_back_reduction_ns, saturated_ns(profile.back_reduction_ns))
    &&& after.propagation_sparse_deductions_ns == wrapping(before.propagation_sparse_deductions_ns, saturated_ns(profile.deductions_ns))
    &&& after.propagation_sparse_input_rows == wrapping(before.propagation_sparse_input_rows, count_of(profile.input_rows))
    &&& after.propagation_sparse_active_rows == wrapping(before.propagation_sparse_active_rows, count_of(profile.active_rows))
    &&& after.propagation_sparse_variables == wrapping(before.propagation_sparse_variables, count_of(profile.variable_count))
    &&& after.propagation_sparse_nonzero_terms == wrapping(before.propagation_sparse_nonzero_terms, count_of(profile.nonzero_terms))
    &&& after.propagation_sparse_cause_calls@ == bumped(before.propagation_sparse_cause_calls, cause_slot(cause), 1)
    &&& after.propagation_sparse_row_bucket_calls@ == bumped(before.propagation_sparse_row_bucket_calls, row, 1)
    &&& after.propagation_sparse_row_bucket_ns@ == bumped(before.propagation_sparse_row_bucket_ns, row, total)
    &&& after.propagation_sparse_variable_bucket_calls@ == bumped(before.propagation_sparse_variable_bucket_calls, variable, 1)
    &&& after.propagation_sparse_variable_bucket_ns@ == bumped(before.propagation_sparse_variable_bucket_ns, variable, total)
    &&& after.propagation_sparse_term_bucket_calls@ == bumped(before.propagation_sparse_term_bucket_calls, term, 1)
    &&& after.propagation_sparse_term_bucket_ns@ == bumped(before.propagation_sparse_term_bucket_ns, term, total)
    &&& after == HotspotSnapshot {
        propagation_sparse_profiled_calls: after.propagation_sparse_profiled_calls,
        propagation_sparse_preparation_ns: after.propagation_sparse_preparation_ns,
        propagation_sparse_forward_ns: after.propagation_sparse_forward_ns,
        propagation_sparse_back_reduction_ns: after.propagation_sparse_back_reduction_ns,
        propagation_sparse_deductions_ns: after.propagation_sparse_deductions_ns,
        propagation_sparse_input_rows: after.propagation_sparse_input_rows,
        propagation_sparse_active_rows: after.propagation_sparse_active_rows,
        propagation_sparse_variables: after.propagation_sparse_variables,
        propagation_sparse_nonzero_terms: after.propagation_sparse_nonzero_terms,
        propagation_sparse_cause_calls: after.propagation_sparse_cause_calls,
        propagation_sparse_row_bucket_calls: after.propagation_sparse_row_bucket_calls,
        propagation_sparse_row_bucket_ns: after.propagation_sparse_row_bucket_ns,
        propagation_sparse_variable_bucket_calls: after.propagation_sparse_variable_bucket_calls,
        propagation_sparse_variable_bucket_ns: after.propagation_sparse_variable_bucket_ns,
        propagation_sparse_term_bucket_calls: after.propagation_sparse_term_bucket_calls,
        propagation_sparse_term_bucket_ns: after.propagation_sparse_term_bucket_ns,
        ..before
    }
}

} // verus!
