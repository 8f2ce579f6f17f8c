//! One objective group of a branch: its root jobs, their dispatch queue and
//! the proof cover that decides when the group is exhausted.

use vstd::prelude::*;

use std::collections::VecDeque;

use crate::failure::Failure;
use crate::leaf::{Completion, Counts, LeafSpec, SolveMode};
use crate::planner::roots::{
    AdaptiveChoice, AdaptiveLedger, ProofSummary, Root, RootLedger, adaptive_finish, count_live, covered_units, expand_all, live_count, refine_roots,
    same_root_ledger, source_not_after, source_rank, stably_sorted, static_finish,
};
use crate::planner::{GroupEvidence, JobEvidence, LeafId, LeafTask};
use crate::profile::{AccountedProfile, AccountedProfileGroup, nodes_of};

verus! {

/// Where a job stands in its lifetime.
#[derive(Clone, Copy, Debug, PartialEq, Eq)]
pub enum JobState {
    Queued,
    Running,
    Retired(Option<Completion>),
    Skipped,
}

/// One root search of a group, or one child of an adaptive root.
#[derive(Clone, Copy, Debug)]
pub struct Job {
    pub root: Root,
    pub parent: usize,
    pub trigger_ms: Option<u64>,
    pub state: JobState,
    pub witnessed: bool,
}

/// The proof cover of a group: fixed roots, or roots that may be split.
pub enum Coverage {
    Static(RootLedger),
    Adaptive(AdaptiveLedger),
}

/// Whether a possible profile is split by the producer of its first output.
pub open spec fn fans_out(impossible: bool, workers: usize, outputs: usize) -> bool {
    !impossible && workers > 1 && outputs > 0
}

/// Producers that may own an output of `task`'s layouts.
pub open spec fn producer_count(task: AccountedProfile, inputs: usize) -> int {
    inputs + nodes_of(task.profile)
}

/// The roots one profile contributes: one per producer, highest first, or itself.
pub open spec fn profile_roots(
    profile: int,
    task: AccountedProfile,
    impossible: bool,
    inputs: usize,
    outputs: usize,
    workers: usize,
) -> Seq<Root> {
    if fans_out(impossible, workers, outputs) {
        let sources = producer_count(task, inputs);
        Seq::new(
            sources as nat,
            |k: int|
                Root {
                    profile: profile as usize,
                    source: Some((sources - 1 - k) as usize),
                    second_source: None,
                    impossible: false,
                },
        )
    } else {
        seq![Root { profile: profile as usize, source: None, second_source: None, impossible }]
    }
}

/// The roots of the first `n` profiles, in profile order.
pub open spec fn roots_through(
    tasks: Seq<AccountedProfile>,
    impossible: Seq<bool>,
    inputs: usize,
    outputs: usize,
    workers: usize,
    n: int,
) -> Seq<Root>
    decreases n,
{
    if n <= 0 {
        Seq::empty()
    } else {
        roots_through(tasks, impossible, inputs, outputs, workers, n - 1) + profile_roots(
            n - 1,
            tasks[n - 1],
            impossible[n - 1],
            inputs,
            outputs,
            workers,
        )
    }
}

/// Some split profile has more producers than a `usize` counts.
pub open spec fn producer_overflow(
    tasks: Seq<AccountedProfile>,
    impossible: Seq<bool>,
    inputs: usize,
    outputs: usize,
    workers: usize,
) -> bool {
    exists|p: int|
        0 <= p < tasks.len() && fans_out(impossible[p], workers, outputs) && producer_count(
            tasks[p],
            inputs,
        ) > usize::MAX
}

/// Whether a group's roots may later be split by their second producer.
pub open spec fn adaptive_cover(
    mode: SolveMode,
    counts: Counts,
    workers: usize,
    outputs: usize,
    roots: Seq<Root>,
) -> bool {
    mode == SolveMode::AllMinNL && counts == Counts::Boolean && workers > 1 && outputs >= 2
        && live_count(roots) >= workers
}

/// Number of running jobs.
pub open spec fn running_count(jobs: Seq<Job>) -> nat
    decreases jobs.len(),
{
    if jobs.len() == 0 {
        0
    } else {
        running_count(jobs.drop_last()) + if jobs.last().state is Running {
            1nat
        } else {
            0nat
        }
    }
}

/// A fresh job for root `parent`.
pub open spec fn fresh_job(parent: int, root: Root) -> Job {
    Job { root, parent: parent as usize, trigger_ms: None, state: JobState::Queued, witnessed: false }
}

/// Whether live roots are too few for the workers, so that each is split up front.
pub open spec fn refined_cover(
    mode: SolveMode,
    counts: Counts,
    workers: usize,
    outputs: usize,
    roots: Seq<Root>,
) -> bool {
    mode == SolveMode::AllMinNL && counts == Counts::Boolean && workers > 1 && outputs >= 2
        && live_count(roots) < workers
}

/// The profile of each root.
pub open spec fn owners_of(roots: Seq<Root>) -> Seq<usize> {
    roots.map_values(|root: Root| root.profile)
}

/// An objective group: its profiles, roots, jobs and cover.
pub struct Group {
    id: u64,
    nodes: u32,
    links: u32,
    tasks: Vec<AccountedProfile>,
    parents: Vec<Root>,
    jobs: Vec<Job>,
    queue: VecDeque<usize>,
    coverage: Coverage,
    active: usize,
    gate_ms: Option<u64>,
    optimum: bool,
    completed_before: u64,
    inputs: usize,
    mode: SolveMode,
    workers: usize,
    counts: Counts,
}

impl Group {
    pub closed spec fn group_id(&self) -> u64 {
        self.id
    }

    pub closed spec fn node_goal(&self) -> u32 {
        self.nodes
    }

    pub closed spec fn link_goal(&self) -> u32 {
        self.links
    }

    /// The profiles of the group.
    pub closed spec fn tasks(&self) -> Seq<AccountedProfile> {
        self.tasks@
    }

    /// The roots of the group's cover.
    pub closed spec fn parents(&self) -> Seq<Root> {
        self.parents@
    }

    /// Every job ever created, by index.
    pub closed spec fn jobs(&self) -> Seq<Job> {
        self.jobs@
    }

    /// Jobs waiting for a worker, in dispatch order.
    pub closed spec fn queue(&self) -> Seq<usize> {
        self.queue@
    }

    pub closed spec fn coverage(&self) -> Coverage {
        self.coverage
    }

    pub closed spec fn running(&self) -> nat {
        self.active as nat
    }

    /// When the first validated witness arrived.
    pub closed spec fn gate(&self) -> Option<u64> {
        self.gate_ms
    }

    pub closed spec fn found_optimum(&self) -> bool {
        self.optimum
    }

    /// Profiles exhausted before the group opened.
    pub closed spec fn exhausted_before(&self) -> u64 {
        self.completed_before
    }

    pub closed spec fn input_count(&self) -> usize {
        self.inputs
    }

    pub closed spec fn run_mode(&self) -> SolveMode {
        self.mode
    }

    pub closed spec fn worker_count(&self) -> usize {
        self.workers
    }

    pub closed spec fn count_encoding(&self) -> Counts {
        self.counts
    }

    pub open spec fn is_adaptive(&self) -> bool {
        self.coverage() is Adaptive
    }

    /// Every root of the cover is completed.
    pub open spec fn all_covered(&self) -> bool {
        match self.coverage() {
            Coverage::Static(ledger) => forall|i: int|
                0 <= i < ledger.completed_roots().len() ==> #[trigger] ledger.completed_roots()[i],
            Coverage::Adaptive(ledger) => forall|i: int|
                0 <= i < ledger.base_ledger().completed_roots().len()
                    ==> #[trigger] ledger.base_ledger().completed_roots()[i],
        }
    }

    /// Roots whose cover is already decided, which no job of theirs may still start.
    pub open spec fn decided(&self) -> Seq<bool> {
        Seq::new(
            self.parents().len(),
            |p: int|
                match self.coverage() {
                    Coverage::Static(_) => false,
                    Coverage::Adaptive(ledger) => ledger.choices()[p] is Some,
                },
        )
    }

    /// Job `id` of this group is running.
    pub open spec fn is_running(&self, id: LeafId) -> bool {
        &&& id.group == self.group_id()
        &&& id.index < self.jobs().len()
        &&& self.jobs()[id.index as int].state is Running
    }

    /// What a group keeps from its opening to its close.
    pub open spec fn same_setting(&self, other: Group) -> bool {
        &&& self.group_id() == other.group_id()
        &&& self.node_goal() == other.node_goal()
        &&& self.link_goal() == other.link_goal()
        &&& self.tasks() == other.tasks()
        &&& self.parents() == other.parents()
        &&& self.exhausted_before() == other.exhausted_before()
        &&& self.input_count() == other.input_count()
        &&& self.run_mode() == other.run_mode()
        &&& self.worker_count() == other.worker_count()
        &&& self.count_encoding() == other.count_encoding()
    }

    /// The leaf task of job `index`.
    pub open spec fn task_for(&self, index: usize) -> LeafTask {
        let job = self.jobs()[index as int];
        LeafTask {
            id: LeafId { group: self.group_id(), index },
            nodes: self.node_goal(),
            links: self.link_goal(),
            root: job.root,
            spec: LeafSpec {
                profile: self.tasks()[job.root.profile as int],
                source: job.root.source,
                second_source: job.root.second_source,
                mode: self.run_mode(),
                counts: self.count_encoding(),
            },
        }
    }

    /// Root `p` may be split by its second producer: it is possible, has a
    /// first producer, and is neither decided nor split yet.
    pub open spec fn eligible(&self, p: int) -> bool {
        match self.coverage() {
            Coverage::Static(_) => false,
            Coverage::Adaptive(ledger) => {
                &&& !self.parents()[p].impossible
                &&& self.parents()[p].source is Some
                &&& ledger.choices()[p] is None
                &&& ledger.child_marks()[p] is None
            },
        }
    }

    /// Number of children of root `p`: one per producer.
    pub open spec fn child_total(&self, p: int) -> int {
        producer_count(self.tasks()[self.parents()[p].profile as int], self.input_count())
    }

    /// The child jobs of root `p`, one per second producer.
    pub open spec fn children_of(&self, p: int, trigger: Option<u64>) -> Seq<Job> {
        Seq::new(
            self.child_total(p) as nat,
            |s: int|
                Job {
                    root: Root { second_source: Some(s as usize), ..self.parents()[p] },
                    parent: p as usize,
                    trigger_ms: trigger,
                    state: JobState::Queued,
                    witnessed: false,
                },
        )
    }

    /// The child jobs of every eligible root among the first `n`, in root order.
    pub open spec fn new_children(&self, n: int) -> Seq<Job>
        decreases n,
    {
        if n <= 0 {
            Seq::empty()
        } else {
            self.new_children(n - 1) + if self.eligible(n - 1) {
                self.children_of(n - 1, self.gate())
            } else {
                Seq::empty()
            }
        }
    }

    /// Child marks once every eligible root among the first `n` is split.
    pub open spec fn registered_marks(&self, n: int) -> Seq<Option<Seq<bool>>> {
        match self.coverage() {
            Coverage::Static(_) => Seq::empty(),
            Coverage::Adaptive(ledger) => Seq::new(
                self.parents().len(),
                |p: int|
                    if p < n && self.eligible(p) {
                        Some(Seq::new(self.child_total(p) as nat, |i: int| false))
                    } else {
                        ledger.child_marks()[p]
                    },
            ),
        }
    }

    /// `self` is `before` with every eligible root split into queued children.
    pub open spec fn split_from(&self, before: Group) -> bool {
        &&& self.same_setting(before)
        &&& self.jobs() == before.jobs() + before.new_children(before.parents().len() as int)
        &&& child_order(self.queue(), self.jobs(), before.jobs().len() as int)
        &&& self.running() == before.running()
        &&& self.gate() == before.gate()
        &&& self.found_optimum() == before.found_optimum()
        &&& match (before.coverage(), self.coverage()) {
            (Coverage::Adaptive(l0), Coverage::Adaptive(l1)) => {
                &&& same_root_ledger(l1.base_ledger(), l0.base_ledger())
                &&& l1.choices() == l0.choices()
                &&& l1.child_marks() == before.registered_marks(before.parents().len() as int)
            },
            _ => false,
        }
    }

    /// What job `i` reports when the group closes.
    pub open spec fn job_evidence(&self, i: int) -> JobEvidence {
        let job = self.jobs()[i];
        let (committed, child_count) = match self.coverage() {
            Coverage::Static(_) => (job.state == JobState::Retired(Some(Completion::Exhausted)), 0nat),
            Coverage::Adaptive(ledger) => (
                ledger.choices()[job.parent as int] == Some(
                    if job.root.second_source is Some {
                        AdaptiveChoice::Children
                    } else {
                        AdaptiveChoice::Parent
                    },
                ),
                match ledger.child_marks()[job.parent as int] {
                    Some(marks) => marks.len(),
                    None => 0nat,
                },
            ),
        };
        JobEvidence {
            index: i as usize,
            parent: job.parent,
            child_count: child_count as usize,
            committed,
            trigger_ms: job.trigger_ms,
        }
    }

    /// No root completed, decided or split yet.
    pub open spec fn fresh_cover(&self) -> bool {
        let n = self.parents().len();
        match self.coverage() {
            Coverage::Static(ledger) => ledger.completed_roots() == Seq::new(n, |i: int| false),
            Coverage::Adaptive(ledger) => {
                &&& ledger.base_ledger().completed_roots() == Seq::new(n, |i: int| false)
                &&& ledger.choices() == Seq::new(n, |i: int| None::<AdaptiveChoice>)
                &&& ledger.child_marks() == Seq::new(n, |i: int| None::<Seq<bool>>)
            },
        }
    }

    /// The group's structural invariant.
    pub closed spec fn wf(&self) -> bool {
        &&& forall|i: int| 0 <= i < self.parents@.len() ==> self.parents@[i].profile < self.tasks@.len()
        &&& forall|i: int|
            0 <= i < self.jobs@.len() ==> self.jobs@[i].parent < self.parents@.len()
                && self.jobs@[i].root.profile < self.tasks@.len()
        &&& forall|k: int|
            0 <= k < self.queue@.len() ==> self.queue@[k] < self.jobs@.len()
                && self.jobs@[self.queue@[k] as int].state is Queued
        &&& forall|a: int, b: int| 0 <= a < b < self.queue@.len() ==> self.queue@[a] != self.queue@[b]
        &&& self.active == running_count(self.jobs@)
        &&& match self.coverage {
            Coverage::Static(ledger) => {
                &&& ledger.wf()
                &&& ledger.owners() == owners_of(self.parents@)
                &&& ledger.profile_count() == self.tasks@.len()
                &&& self.jobs@.len() == self.parents@.len()
                &&& forall|i: int|
                    0 <= i < self.jobs@.len() ==> self.jobs@[i].parent == i && self.jobs@[i].root
                        == self.parents@[i]
            },
            Coverage::Adaptive(ledger) => {
                &&& ledger.wf()
                &&& ledger.base_ledger().owners() == owners_of(self.parents@)
                &&& ledger.base_ledger().profile_count() == self.tasks@.len()
                &&& ledger.choices().len() == self.parents@.len()
                &&& ledger.child_marks().len() == self.parents@.len()
                &&& forall|p: int|
                    0 <= p < self.parents@.len() && !self.parents@[p].impossible
                        && self.parents@[p].source is Some ==> producer_count(
                        self.tasks@[self.parents@[p].profile as int],
                        self.inputs,
                    ) <= usize::MAX
                &&& forall|p: int|
                    0 <= p < ledger.child_marks().len() && ledger.child_marks()[p] is Some
                        ==> ledger.child_marks()[p]->0.len() <= self.jobs@.len()
            },
        }
    }
}

proof fn lemma_running_count_all_queued(jobs: Seq<Job>)
    requires
        forall|i: int| 0 <= i < jobs.len() ==> jobs[i].state is Queued,
    ensures
        running_count(jobs) == 0,
    decreases jobs.len(),
{
    if jobs.len() > 0 {
        lemma_running_count_all_queued(jobs.drop_last());
    }
}

proof fn lemma_roots_through(
    tasks: Seq<AccountedProfile>,
    impossible: Seq<bool>,
    inputs: usize,
    outputs: usize,
    workers: usize,
    n: int,
)
    requires
        0 <= n <= tasks.len(),
        tasks.len() <= usize::MAX,
        impossible.len() == tasks.len(),
    ensures
        forall|i: int|
            0 <= i < roots_through(tasks, impossible, inputs, outputs, workers, n).len() ==> {
                let root = #[trigger] roots_through(tasks, impossible, inputs, outputs, workers, n)[i];
                &&& root.profile < n
                &&& root.second_source is None
                &&& root.source is Some ==> !root.impossible && fans_out(
                    impossible[root.profile as int],
                    workers,
                    outputs,
                )
            },
    decreases n,
{
    if n > 0 {
        lemma_roots_through(tasks, impossible, inputs, outputs, workers, n - 1);
        let prefix = roots_through(tasks, impossible, inputs, outputs, workers, n - 1);
        let last = profile_roots(n - 1, tasks[n - 1], impossible[n - 1], inputs, outputs, workers);
        assert forall|i: int|
            0 <= i < roots_through(tasks, impossible, inputs, outputs, workers, n).len() implies {
                let root = #[trigger] roots_through(tasks, impossible, inputs, outputs, workers, n)[i];
                &&& root.profile < n
                &&& root.second_source is None
                &&& root.source is Some ==> !root.impossible && fans_out(
                    impossible[root.profile as int],
                    workers,
                    outputs,
                )
            } by {
            if i >= prefix.len() {
                assert(roots_through(tasks, impossible, inputs, outputs, workers, n)[i] == last[i
                    - prefix.len()]);
                assert(last[i - prefix.len()].profile == n - 1);
            } else {
                assert(roots_through(tasks, impossible, inputs, outputs, workers, n)[i] == prefix[i]);
            }
        }
    }
}

proof fn lemma_running_count_same_states(a: Seq<Job>, b: Seq<Job>)
    requires
        a.len() == b.len(),
        forall|i: int| 0 <= i < a.len() ==> (a[i].state is Running <==> b[i].state is Running),
    ensures
        running_count(a) == running_count(b),
    decreases a.len(),
{
    if a.len() > 0 {
        lemma_running_count_same_states(a.drop_last(), b.drop_last());
    }
}

proof fn lemma_running_count_update(jobs: Seq<Job>, i: int, job: Job)
    requires
        0 <= i < jobs.len(),
    ensures
        running_count(jobs.update(i, job)) + (if jobs[i].state is Running {
            1int
        } else {
            0int
        }) == running_count(jobs) + (if job.state is Running {
            1int
        } else {
            0int
        }),
    decreases jobs.len(),
{
    if i < jobs.len() - 1 {
        lemma_running_count_update(jobs.drop_last(), i, job);
        assert(jobs.update(i, job).drop_last() =~= jobs.drop_last().update(i, job));
    } else {
        assert(jobs.update(i, job).drop_last() =~= jobs.drop_last());
    }
}

/// What retiring running job `id` with `result` does to a group and its proof.
pub open spec fn retire_step(
    before: Group,
    id: LeafId,
    result: Result<Completion, Failure>,
    stopping: bool,
    proof_before: ProofSummary,
    after: Group,
    proof_after: ProofSummary,
    outcome: Result<(), Failure>,
) -> bool {
    let index = id.index as int;
    let job = before.jobs()[index];
    let completion = match result {
        Ok(c) => Some(c),
        Err(_) => None,
    };
    &&& after.jobs() == before.jobs().update(index, Job { state: JobState::Retired(completion), ..job })
    &&& after.running() + 1 == before.running()
    &&& after.queue() == before.queue()
    &&& after.gate() == before.gate()
    &&& match result {
        Ok(Completion::Exhausted) => {
            &&& after.found_optimum() == before.found_optimum()
            &&& match (before.coverage(), after.coverage()) {
                (Coverage::Static(l0), Coverage::Static(l1)) => static_finish(
                    l0,
                    index,
                    proof_before,
                    l1,
                    proof_after,
                    outcome,
                ),
                (Coverage::Adaptive(l0), Coverage::Adaptive(l1)) => adaptive_finish(
                    l0,
                    job.parent as int,
                    job.root.second_source,
                    proof_before,
                    l1,
                    proof_after,
                    outcome,
                ),
                _ => false,
            }
        },
        Ok(Completion::Optimum) => {
            &&& after.coverage() == before.coverage()
            &&& proof_after == proof_before
            &&& if before.run_mode() == SolveMode::OneMinNL && job.witnessed {
                outcome is Ok && after.found_optimum()
            } else {
                (outcome matches Err(f) && f is Worker) && after.found_optimum()
                    == before.found_optimum()
            }
        },
        Err(f) => {
            &&& after.coverage() == before.coverage()
            &&& proof_after == proof_before
            &&& after.found_optimum() == before.found_optimum()
            &&& if f is Cancelled && (stopping || before.found_optimum() || before.all_covered()) {
                outcome is Ok
            } else {
                outcome == Err::<(), Failure>(f)
            }
        },
    }
}

/// Starts queued jobs in queue order while a worker is free, skipping jobs
/// whose root's cover is already decided: the jobs, the rest of the queue,
/// the running count and the started jobs.
pub open spec fn take_pass(
    jobs: Seq<Job>,
    queue: Seq<usize>,
    active: int,
    workers: int,
    decided: Seq<bool>,
) -> (Seq<Job>, Seq<usize>, int, Seq<usize>)
    decreases queue.len(),
{
    if active >= workers || queue.len() == 0 {
        (jobs, queue, active, Seq::empty())
    } else {
        let index = queue[0] as int;
        let job = jobs[index];
        if decided[job.parent as int] {
            take_pass(
                jobs.update(index, Job { state: JobState::Skipped, ..job }),
                queue.drop_first(),
                active,
                workers,
                decided,
            )
        } else {
            let rest = take_pass(
                jobs.update(index, Job { state: JobState::Running, ..job }),
                queue.drop_first(),
                active + 1,
                workers,
                decided,
            );
            (rest.0, rest.1, rest.2, seq![queue[0]] + rest.3)
        }
    }
}

/// Job `a` is dispatched before job `b`: by second producer, then by index.
pub open spec fn dispatched_before(jobs: Seq<Job>, a: usize, b: usize) -> bool {
    let ra = source_rank(jobs[a as int].root.second_source);
    let rb = source_rank(jobs[b as int].root.second_source);
    ra < rb || (ra == rb && a < b)
}

/// `order` holds each job from `base` on once, by second producer, then by index.
pub open spec fn child_order(order: Seq<usize>, jobs: Seq<Job>, base: int) -> bool {
    &&& forall|k: int| 0 <= k < order.len() ==> base <= #[trigger] order[k] < jobs.len()
    &&& forall|j: usize| base <= j < jobs.len() ==> #[trigger] order.contains(j)
    &&& forall|a: int, b: int|
        0 <= a < b < order.len() ==> dispatched_before(jobs, #[trigger] order[a], #[trigger] order[b])
}

proof fn lemma_new_children_same(a: Group, b: Group, n: int)
    requires
        a.same_setting(b),
        a.coverage() == b.coverage(),
        a.gate() == b.gate(),
    ensures
        a.new_children(n) == b.new_children(n),
        a.registered_marks(n) == b.registered_marks(n),
    decreases n,
{
    if n > 0 {
        lemma_new_children_same(a, b, n - 1);
        assert(a.children_of(n - 1, a.gate()) =~= b.children_of(n - 1, b.gate()));
    }
    assert(a.registered_marks(n) =~= b.registered_marks(n));
}

/// What one dispatch does: start queued jobs while workers are free; when
/// workers stay idle with nothing queued once a witness has arrived,
/// split every eligible adaptive root and start its children by second
/// producer.
pub open spec fn dispatch_step(before: Group, after: Group, tasks: Seq<LeafTask>) -> bool {
    let workers = before.worker_count() as int;
    let decided = before.decided();
    let first = take_pass(before.jobs(), before.queue(), before.running() as int, workers, decided);
    let split = first.2 < workers && first.1.len() == 0 && before.gate() is Some
        && before.is_adaptive();
    &&& after.same_setting(before)
    &&& after.gate() == before.gate()
    &&& after.found_optimum() == before.found_optimum()
    &&& !split ==> {
        &&& after.jobs() == first.0
        &&& after.queue() == first.1
        &&& after.running() == first.2
        &&& after.coverage() == before.coverage()
        &&& tasks == first.3.map_values(|i: usize| after.task_for(i))
    }
    &&& split ==> {
        let n = before.parents().len() as int;
        let grown = first.0 + before.new_children(n);
        &&& exists|order: Seq<usize>|
            #![trigger child_order(order, grown, first.0.len() as int)]
            child_order(order, grown, first.0.len() as int) && {
                let second = take_pass(grown, order, first.2, workers, decided);
                &&& after.jobs() == second.0
                &&& after.queue() == second.1
                &&& after.running() == second.2
                &&& tasks == (first.3 + second.3).map_values(|i: usize| after.task_for(i))
            }
        &&& match (before.coverage(), after.coverage()) {
            (Coverage::Adaptive(l0), Coverage::Adaptive(l1)) => {
                &&& same_root_ledger(l1.base_ledger(), l0.base_ledger())
                &&& l1.choices() == l0.choices()
                &&& l1.child_marks() == before.registered_marks(n)
            },
            _ => false,
        }
    }
}

proof fn lemma_new_children_queued(g: Group, n: int)
    ensures
        forall|i: int|
            0 <= i < g.new_children(n).len() ==> (#[trigger] g.new_children(n)[i]).state is Queued,
    decreases n,
{
    if n > 0 {
        lemma_new_children_queued(g, n - 1);
        let prefix = g.new_children(n - 1);
        assert forall|i: int| 0 <= i < g.new_children(n).len() implies (#[trigger] g.new_children(
            n,
        )[i]).state is Queued by {
            if i < prefix.len() {
                assert(g.new_children(n)[i] == prefix[i]);
            }
        }
    }
}

proof fn lemma_running_count_append_queued(jobs: Seq<Job>, more: Seq<Job>)
    requires
        forall|i: int| 0 <= i < more.len() ==> more[i].state is Queued,
    ensures
        running_count(jobs + more) == running_count(jobs),
    decreases more.len(),
{
    if more.len() > 0 {
        lemma_running_count_append_queued(jobs, more.drop_last());
        assert((jobs + more).drop_last() =~= jobs + more.drop_last());
    } else {
        assert(jobs + more =~= jobs);
    }
}

/// The roots of the given profiles, or `None` where a producer count overflows.
fn initial_roots(
    tasks: &Vec<AccountedProfile>,
    impossible: &[bool],
    inputs: usize,
    outputs: usize,
    workers: usize,
) -> (roots: Option<Vec<Root>>)
    requires
        impossible@.len() == tasks@.len(),
    ensures
        roots is None <==> producer_overflow(tasks@, impossible@, inputs, outputs, workers),
        roots matches Some(r) ==> r@ == roots_through(
            tasks@,
            impossible@,
            inputs,
            outputs,
            workers,
            tasks@.len() as int,
        ),
{
    let mut roots: Vec<Root> = Vec::new();
    let mut profile: usize = 0;
    while profile < tasks.len()
        invariant
            profile <= tasks@.len(),
            impossible@.len() == tasks@.len(),
            roots@ == roots_through(tasks@, impossible@, inputs, outputs, workers, profile as int),
            forall|p: int|
                0 <= p < profile ==> !(fans_out(impossible@[p], workers, outputs) && producer_count(
                    tasks@[p],
                    inputs,
                ) > usize::MAX),
        decreases tasks@.len() - profile,
    {
        let task = tasks[profile];
        let ghost prefix = roots@;
        if !impossible[profile] && workers > 1 && outputs > 0 {
            let nodes = task.profile.node_count();
            if nodes > (usize::MAX - inputs) as u64 {
                assert(fans_out(impossible@[profile as int], workers, outputs) && producer_count(
                    tasks@[profile as int],
                    inputs,
                ) > usize::MAX);
                return None;
            }
            let sources = inputs + nodes as usize;
            let mut k: usize = 0;
            while k < sources
                invariant
                    k <= sources,
                    sources == producer_count(task, inputs),
                    roots@ == prefix + Seq::new(
                        k as nat,
                        |j: int|
                            Root {
                                profile: profile,
                                source: Some((sources - 1 - j) as usize),
                                second_source: None,
                                impossible: false,
                            },
                    ),
                decreases sources - k,
            {
                roots.push(
                    Root {
                        profile,
                        source: Some(sources - 1 - k),
                        second_source: None,
                        impossible: false,
                    },
                );
                k = k + 1;
                assert(roots@ =~= prefix + Seq::new(
                    k as nat,
                    |j: int|
                        Root {
                            profile: profile,
                            source: Some((sources - 1 - j) as usize),
                            second_source: None,
                            impossible: false,
                        },
                ));
            }
            assert(roots@ =~= prefix + profile_roots(
                profile as int,
                task,
                impossible@[profile as int],
                inputs,
                outputs,
                workers,
            ));
        } else {
            roots.push(
                Root { profile, source: None, second_source: None, impossible: impossible[profile] },
            );
            assert(roots@ =~= prefix + profile_roots(
                profile as int,
                task,
                impossible@[profile as int],
                inputs,
                outputs,
                workers,
            ));
        }
        profile = profile + 1;
    }
    Some(roots)
}

impl Group {
    pub fn id(&self) -> (id: u64)
        ensures
            id == self.group_id(),
    {
        self.id
    }

    pub fn nodes(&self) -> (nodes: u32)
        ensures
            nodes == self.node_goal(),
    {
        self.nodes
    }

    pub fn links(&self) -> (links: u32)
        ensures
            links == self.link_goal(),
    {
        self.links
    }

    /// Number of running jobs.
    pub fn active(&self) -> (active: usize)
        ensures
            active == self.running(),
    {
        self.active
    }

    /// Whether a single-optimum witness ended the group.
    pub fn optimum(&self) -> (optimum: bool)
        ensures
            optimum == self.found_optimum(),
    {
        self.optimum
    }

    /// Number of jobs created so far.
    pub fn job_count(&self) -> (count: usize)
        ensures
            count == self.jobs().len(),
    {
        self.jobs.len()
    }

    /// Whether every root of the cover is completed.
    pub fn covered(&self) -> (done: bool)
        requires
            self.wf(),
        ensures
            done == self.all_covered(),
    {
        match &self.coverage {
            Coverage::Static(ledger) => ledger.complete(),
            Coverage::Adaptive(ledger) => ledger.base().complete(),
        }
    }

    /// Whether the proof exhausted exactly this group's profiles since it opened.
    pub fn profile_count_matches(&self, proof: &ProofSummary) -> (matches: bool)
        requires
            proof.profiles_exhausted >= self.exhausted_before(),
        ensures
            matches == (proof.profiles_exhausted - self.exhausted_before() == self.tasks().len()),
    {
        proof.profiles_exhausted - self.completed_before == self.tasks.len() as u64
    }

    /// Accepts only events of a running job of this group.
    pub fn require_running(&self, id: LeafId) -> (result: Result<(), Failure>)
        ensures
            result is Ok <==> self.is_running(id),
            result matches Err(f) ==> f is Worker,
    {
        if id.group != self.id || id.index >= self.jobs.len() {
            return Err(Failure::Worker("unknown, stale or retired leaf event".to_owned()));
        }
        match self.jobs[id.index].state {
            JobState::Running => Ok(()),
            _ => Err(Failure::Worker("unknown, stale or retired leaf event".to_owned())),
        }
    }

    /// Records a validated witness of a running job; the first one allows
    /// alternative covers.
    pub fn witness(&mut self, id: LeafId, now_ms: u64) -> (result: Result<(), Failure>)
        requires
            old(self).wf(),
        ensures
            final(self).wf(),
            result is Ok <==> old(self).is_running(id),
            result matches Err(f) ==> f is Worker && *final(self) == *old(self),
            result is Ok ==> {
                &&& final(self).same_setting(*old(self))
                &&& final(self).jobs() == old(self).jobs().update(
                    id.index as int,
                    Job { witnessed: true, ..old(self).jobs()[id.index as int] },
                )
                &&& final(self).gate() == match old(self).gate() {
                    Some(t) => Some(t),
                    None => Some(now_ms),
                }
                &&& final(self).queue() == old(self).queue()
                &&& final(self).coverage() == old(self).coverage()
                &&& final(self).running() == old(self).running()
                &&& final(self).found_optimum() == old(self).found_optimum()
            },
    {
        let checked = self.require_running(id);
        if checked.is_err() {
            return checked;
        }
        let mut job = self.jobs[id.index];
        job.witnessed = true;
        let ghost before = self.jobs@;
        self.jobs.set(id.index, job);
        proof {
            lemma_running_count_same_states(before, self.jobs@);
        }
        if self.gate_ms.is_none() {
            self.gate_ms = Some(now_ms);
        }
        Ok(())
    }

    fn is_decided(&self, parent: usize) -> (decided: bool)
        requires
            self.wf(),
            parent < self.parents().len(),
        ensures
            decided == self.decided()[parent as int],
    {
        match &self.coverage {
            Coverage::Static(_) => false,
            Coverage::Adaptive(ledger) => ledger.is_decided(parent),
        }
    }

    /// Starts queued jobs while workers are free.
    fn start_queued(&mut self, tasks: &mut Vec<LeafTask>)
        requires
            old(self).wf(),
        ensures
            final(self).wf(),
            final(self).same_setting(*old(self)),
            final(self).coverage() == old(self).coverage(),
            final(self).gate() == old(self).gate(),
            final(self).found_optimum() == old(self).found_optimum(),
            ({
                let pass = take_pass(
                    old(self).jobs(),
                    old(self).queue(),
                    old(self).running() as int,
                    old(self).worker_count() as int,
                    old(self).decided(),
                );
                &&& final(self).jobs() == pass.0
                &&& final(self).queue() == pass.1
                &&& final(self).running() == pass.2
                &&& final(tasks)@ == old(tasks)@ + pass.3.map_values(|i: usize| final(self).task_for(i))
            }),
            forall|i: int|
                0 <= i < final(self).jobs().len() ==> final(self).jobs()[i].root == old(self).jobs()[i].root
                    && final(self).jobs()[i].parent == old(self).jobs()[i].parent,
            final(self).jobs().len() == old(self).jobs().len(),
            ({
                let pass = take_pass(
                    old(self).jobs(),
                    old(self).queue(),
                    old(self).running() as int,
                    old(self).worker_count() as int,
                    old(self).decided(),
                );
                forall|k: int| 0 <= k < pass.3.len() ==> pass.3[k] < final(self).jobs().len()
            }),
    {
        let ghost start = *self;
        let ghost start_tasks = tasks@;
        let ghost workers = self.workers as int;
        let ghost decided = self.decided();
        let ghost mut started: Seq<usize> = Seq::empty();
        loop
            invariant
                self.wf(),
                self.same_setting(start),
                self.coverage() == start.coverage(),
                self.gate() == start.gate(),
                self.found_optimum() == start.found_optimum(),
                self.decided() == decided,
                workers == self.workers,
                self.jobs().len() == start.jobs().len(),
                forall|i: int|
                    0 <= i < self.jobs().len() ==> self.jobs()[i].root == start.jobs()[i].root
                        && self.jobs()[i].parent == start.jobs()[i].parent,
                ({
                    let whole = take_pass(start.jobs(), start.queue(), start.running() as int, workers, decided);
                    let rest = take_pass(self.jobs(), self.queue(), self.running() as int, workers, decided);
                    whole == (rest.0, rest.1, rest.2, started + rest.3)
                }),
                tasks@ == start_tasks + started.map_values(|i: usize| self.task_for(i)),
                forall|k: int| 0 <= k < started.len() ==> started[k] < self.jobs().len(),
            ensures
                self.wf(),
                self.same_setting(start),
                self.coverage() == start.coverage(),
                self.gate() == start.gate(),
                self.found_optimum() == start.found_optimum(),
                self.jobs().len() == start.jobs().len(),
                forall|i: int|
                    0 <= i < self.jobs().len() ==> self.jobs()[i].root == start.jobs()[i].root
                        && self.jobs()[i].parent == start.jobs()[i].parent,
                ({
                    let whole = take_pass(start.jobs(), start.queue(), start.running() as int, workers, decided);
                    whole == (self.jobs(), self.queue(), self.running() as int, started)
                }),
                tasks@ == start_tasks + started.map_values(|i: usize| self.task_for(i)),
                forall|k: int| 0 <= k < started.len() ==> started[k] < self.jobs().len(),
            decreases self.queue@.len(),
        {
            if self.active >= self.workers {
                break;
            }
            let ghost before = *self;
            let ghost before_queue = before.queue@;
            let ghost old_started = started;
            let popped = self.queue.pop_front();
            let index = match popped {
                Some(index) => index,
                None => {
                    break;
                },
            };
            assert(before_queue[0] == index);
            let job = self.jobs[index];
            assert(job.parent < self.parents@.len());
            let decided_now = self.is_decided(job.parent);
            proof {
                assert forall|k: int| 0 <= k < self.queue@.len() implies self.queue@[k] != index by {
                    assert(self.queue@[k] == before_queue[k + 1]);
                }
            }
            if decided_now {
                proof {
                    lemma_running_count_update(self.jobs@, index as int, Job { state: JobState::Skipped, ..job });
                }
                self.jobs.set(index, Job { state: JobState::Skipped, ..job });
            } else {
                proof {
                    lemma_running_count_update(self.jobs@, index as int, Job { state: JobState::Running, ..job });
                }
                self.jobs.set(index, Job { state: JobState::Running, ..job });
                self.active = self.active + 1;
                tasks.push(
                    LeafTask {
                        id: LeafId { group: self.id, index },
                        nodes: self.nodes,
                        links: self.links,
                        root: job.root,
                        spec: LeafSpec {
                            profile: self.tasks[job.root.profile],
                            source: job.root.source,
                            second_source: job.root.second_source,
                            mode: self.mode,
                            counts: self.counts,
                        },
                    },
                );
                proof {
                    started = started.push(index);
                }
            }
            proof {
                assert(self.queue@ =~= before_queue.drop_first());
                assert forall|k: int| 0 <= k < old_started.len() implies self.task_for(old_started[k])
                    == before.task_for(old_started[k]) by {
                    assert(self.jobs@[old_started[k] as int].root == before.jobs@[old_started[k] as int].root);
                }
                if decided_now {
                    assert(started.map_values(|i: usize| self.task_for(i)) =~= old_started.map_values(
                        |i: usize| before.task_for(i),
                    ));
                } else {
                    assert(started.map_values(|i: usize| self.task_for(i)) =~= old_started.map_values(
                        |i: usize| before.task_for(i),
                    ).push(self.task_for(index)));
                }
            }
        }

    }

    /// The jobs from `base` on, by second producer, then by index.
    fn order_children(&self, base: usize) -> (order: Vec<usize>)
        requires
            base <= self.jobs().len(),
        ensures
            child_order(order@, self.jobs(), base as int),
    {
        let ghost jobs = self.jobs@;
        let mut order: Vec<usize> = Vec::new();
        let mut next: usize = base;
        while next < self.jobs.len()
            invariant
                jobs == self.jobs@,
                base <= next <= jobs.len(),
                forall|k: int| 0 <= k < order@.len() ==> base <= #[trigger] order@[k] < next,
                forall|j: usize| base <= j < next ==> #[trigger] order@.contains(j),
                forall|a: int, b: int|
                    0 <= a < b < order@.len() ==> dispatched_before(jobs, #[trigger] order@[a], #[trigger] order@[b]),
            decreases jobs.len() - next,
        {
            let key = self.jobs[next].root.second_source;
            let mut p: usize = 0;
            while p < order.len() && source_not_after(self.jobs[order[p]].root.second_source, key)
                invariant
                    jobs == self.jobs@,
                    next < jobs.len(),
                    key == jobs[next as int].root.second_source,
                    p <= order@.len(),
                    forall|k: int| 0 <= k < order@.len() ==> base <= #[trigger] order@[k] < next,
                    forall|i: int|
                        0 <= i < p ==> source_rank(jobs[order@[i] as int].root.second_source) <= source_rank(key),
                decreases order@.len() - p,
            {
                p = p + 1;
            }
            let ghost before = order@;
            order.insert(p, next);
            proof {
                assert forall|a: int, b: int| 0 <= a < b < order@.len() implies dispatched_before(
                    jobs,
                    #[trigger] order@[a],
                    #[trigger] order@[b],
                ) by {
                    if b < p {
                        assert(order@[a] == before[a] && order@[b] == before[b]);
                    } else if b == p {
                        assert(order@[a] == before[a]);
                    } else if a < p {
                        assert(order@[a] == before[a] && order@[b] == before[b - 1]);
                    } else if a == p {
                        assert(order@[b] == before[b - 1]);
                        if b - 1 > p {
                            assert(dispatched_before(jobs, before[p as int], before[b - 1]));
                        }
                    } else {
                        assert(order@[a] == before[a - 1] && order@[b] == before[b - 1]);
                    }
                }
                assert forall|j: usize| base <= j < next + 1 implies #[trigger] order@.contains(j) by {
                    if j == next {
                        assert(order@[p as int] == next);
                    } else {
                        assert(before.contains(j));
                        let k = choose|k: int| 0 <= k < before.len() && before[k] == j;
                        if k < p {
                            assert(order@[k] == j);
                        } else {
                            assert(order@[k + 1] == j);
                        }
                    }
                }
                assert forall|k: int| 0 <= k < order@.len() implies base <= #[trigger] order@[k] < next + 1 by {
                    if k < p {
                        assert(order@[k] == before[k]);
                    } else if k > p {
                        assert(order@[k] == before[k - 1]);
                    }
                }
            }
            next = next + 1;
        }
        order
    }

    /// Once a witness has arrived, splits every eligible root of an
    /// adaptive cover and queues the children by second producer.
    fn queue_children(&mut self) -> (added: bool)
        requires
            old(self).wf(),
            old(self).queue().len() == 0,
        ensures
            final(self).wf(),
            old(self).gate() is Some && old(self).is_adaptive() ==> {
                &&& final(self).split_from(*old(self))
                &&& added == (old(self).new_children(old(self).parents().len() as int).len() > 0)
            },
            !(old(self).gate() is Some && old(self).is_adaptive()) ==> *final(self) == *old(self)
                && !added,
    {
        let trigger = match self.gate_ms {
            Some(trigger) => trigger,
            None => {
                return false;
            },
        };
        let adaptive = match &self.coverage {
            Coverage::Static(_) => false,
            Coverage::Adaptive(_) => true,
        };
        if !adaptive {
            return false;
        }
        let ghost start = *self;
        let base = self.jobs.len();
        self.split_roots(trigger);
        let order = self.order_children(base);
        proof {
            lemma_new_children_queued(start, start.parents().len() as int);
            assert forall|k: int| 0 <= k < order@.len() implies self.jobs@[order@[k] as int].state is Queued by {
                let i = order@[k] - base;
                assert(self.jobs@[order@[k] as int] == start.new_children(start.parents().len() as int)[i]);
            }
        }
        let ghost split_cover = self.coverage();
        let mut k: usize = 0;
        while k < order.len()
            invariant
                k <= order@.len(),
                self.wf(),
                self.queue() == order@.take(k as int),
                child_order(order@, self.jobs(), base as int),
                forall|i: int| 0 <= i < order@.len() ==> self.jobs@[order@[i] as int].state is Queued,
                self.same_setting(start),
                self.jobs() == start.jobs() + start.new_children(start.parents().len() as int),
                self.running() == start.running(),
                self.gate() == start.gate(),
                self.found_optimum() == start.found_optimum(),
                self.coverage() == split_cover,
            decreases order@.len() - k,
        {
            self.queue.push_back(order[k]);
            proof {
                assert(self.queue@ =~= order@.take(k + 1));
                assert forall|a: int, b: int| 0 <= a < b < self.queue@.len() implies self.queue@[a]
                    != self.queue@[b] by {
                    assert(dispatched_before(self.jobs@, order@[a], order@[b]));
                }
            }
            k = k + 1;
        }
        proof {
            assert(order@.take(k as int) =~= order@);
            let total = start.new_children(start.parents().len() as int).len();
            if total > 0 {
                assert(order@.contains(base));
            }
            if order@.len() > 0 {
                assert(base <= order@[0] < self.jobs@.len());
            }
        }
        self.queue.len() > 0
    }

    /// Splits every eligible root into queued child jobs, in root order.
    fn split_roots(&mut self, trigger: u64)
        requires
            old(self).wf(),
            old(self).is_adaptive(),
            old(self).gate() == Some(trigger),
            old(self).queue().len() == 0,
        ensures
            final(self).wf(),
            final(self).same_setting(*old(self)),
            final(self).jobs() == old(self).jobs() + old(self).new_children(old(self).parents().len() as int),
            final(self).queue() == old(self).queue(),
            final(self).running() == old(self).running(),
            final(self).gate() == old(self).gate(),
            final(self).found_optimum() == old(self).found_optimum(),
            match (old(self).coverage(), final(self).coverage()) {
                (Coverage::Adaptive(l0), Coverage::Adaptive(l1)) => {
                    &&& same_root_ledger(l1.base_ledger(), l0.base_ledger())
                    &&& l1.choices() == l0.choices()
                    &&& l1.child_marks() == old(self).registered_marks(old(self).parents().len() as int)
                },
                _ => false,
            },
    {
        let ghost start = *self;
        let mut parent: usize = 0;
        while parent < self.parents.len()
            invariant
                self.wf(),
                self.same_setting(start),
                start.is_adaptive(),
                start.wf(),
                start.gate() == Some(trigger),
                parent <= self.parents@.len(),
                self.jobs() == start.jobs() + start.new_children(parent as int),
                self.queue() == start.queue(),
                self.running() == start.running(),
                self.gate() == start.gate(),
                self.found_optimum() == start.found_optimum(),
                match (start.coverage(), self.coverage()) {
                    (Coverage::Adaptive(l0), Coverage::Adaptive(l1)) => {
                        &&& same_root_ledger(l1.base_ledger(), l0.base_ledger())
                        &&& l1.choices() == l0.choices()
                        &&& l1.child_marks() == start.registered_marks(parent as int)
                    },
                    _ => false,
                },
            decreases self.parents@.len() - parent,
        {
            let root = self.parents[parent];
            let eligible = match &self.coverage {
                Coverage::Static(_) => false,
                Coverage::Adaptive(ledger) => !root.impossible && root.source.is_some()
                    && !ledger.is_decided(parent) && !ledger.has_children(parent),
            };
            let ghost prefix = self.jobs@;
            proof {
                assert(eligible == start.eligible(parent as int));
            }
            if eligible {
                let nodes = self.tasks[root.profile].profile.node_count();
                let count = self.inputs + nodes as usize;
                assert(count == start.child_total(parent as int));
                let mut source: usize = 0;
                let ghost cov = self.coverage();
                while source < count
                    invariant
                        self.wf(),
                        self.same_setting(start),
                        start.wf(),
                        root == start.parents()[parent as int],
                        parent < start.parents().len(),
                        source <= count,
                        count == start.child_total(parent as int),
                        self.jobs() == prefix + start.children_of(parent as int, Some(trigger)).take(
                            source as int,
                        ),
                        prefix.len() <= self.jobs@.len(),
                        self.queue() == start.queue(),
                        self.running() == start.running(),
                        self.gate() == start.gate(),
                        self.found_optimum() == start.found_optimum(),
                        self.coverage() == cov,
                        self.is_adaptive(),
                    decreases count - source,
                {
                    let ghost before = self.jobs@;
                    self.jobs.push(
                        Job {
                            root: Root { second_source: Some(source), ..root },
                            parent,
                            trigger_ms: Some(trigger),
                            state: JobState::Queued,
                            witnessed: false,
                        },
                    );
                    proof {
                        assert(self.jobs@.drop_last() =~= before);
                        assert(self.jobs@ =~= prefix + start.children_of(parent as int, Some(trigger)).take(
                            source + 1,
                        ));
                    }
                    source = source + 1;
                }
                assert(start.children_of(parent as int, Some(trigger)).take(count as int) =~= start.children_of(
                    parent as int,
                    Some(trigger),
                ));
                if let Coverage::Adaptive(ledger) = &mut self.coverage {
                    ledger.register_children(parent, count);
                }
            }
            proof {
                assert(self.jobs() =~= start.jobs() + start.new_children(parent + 1));
                if let Coverage::Adaptive(l1) = self.coverage() {
                    assert(l1.child_marks() =~= start.registered_marks(parent + 1));
                }
            }
            parent = parent + 1;
        }
    }

    /// What the group reports when it closes: each job, its cover decision
    /// and when its alternative cover was triggered.
    pub fn evidence(&self) -> (evidence: GroupEvidence)
        requires
            self.wf(),
        ensures
            evidence.group == self.group_id(),
            evidence.nodes == self.node_goal(),
            evidence.links == self.link_goal(),
            evidence.adaptive == self.is_adaptive(),
            evidence.jobs@ == Seq::new(self.jobs().len(), |i: int| self.job_evidence(i)),
    {
        let adaptive = match &self.coverage {
            Coverage::Static(_) => false,
            Coverage::Adaptive(_) => true,
        };
        let mut jobs: Vec<JobEvidence> = Vec::new();
        let mut index: usize = 0;
        while index < self.jobs.len()
            invariant
                self.wf(),
                index <= self.jobs@.len(),
                jobs@ == Seq::new(index as nat, |i: int| self.job_evidence(i)),
            decreases self.jobs@.len() - index,
        {
            let job = self.jobs[index];
            let (committed, child_count) = match &self.coverage {
                Coverage::Static(_) => (
                    match job.state {
                        JobState::Retired(Some(Completion::Exhausted)) => true,
                        _ => false,
                    },
                    0,
                ),
                Coverage::Adaptive(ledger) => (
                    ledger.committed(job.parent, job.root.second_source),
                    ledger.child_count(job.parent),
                ),
            };
            jobs.push(
                JobEvidence {
                    index,
                    parent: job.parent,
                    child_count,
                    committed,
                    trigger_ms: job.trigger_ms,
                },
            );
            assert(jobs@ =~= Seq::new((index + 1) as nat, |i: int| self.job_evidence(i)));
            index = index + 1;
        }
        GroupEvidence { group: self.id, nodes: self.nodes, links: self.links, adaptive, jobs }
    }

    /// Hands out leaf tasks for free workers, unless the cover is complete or
    /// an optimum ended the group. Unstarted roots stay ahead of every child.
    pub fn dispatch(&mut self) -> (tasks: Vec<LeafTask>)
        requires
            old(self).wf(),
        ensures
            final(self).wf(),
            old(self).all_covered() || old(self).found_optimum() ==> tasks@.len() == 0
                && *final(self) == *old(self),
            !(old(self).all_covered() || old(self).found_optimum()) ==> dispatch_step(
                *old(self),
                *final(self),
                tasks@,
            ),
    {
        let mut tasks: Vec<LeafTask> = Vec::new();
        if self.covered() || self.optimum {
            return tasks;
        }
        let ghost start = *self;
        let ghost workers = self.workers as int;
        let ghost n = self.parents@.len() as int;
        let ghost pass1 = take_pass(start.jobs(), start.queue(), start.running() as int, workers, start.decided());
        self.start_queued(&mut tasks);
        let ghost first = *self;
        proof {
            assert(tasks@ =~= pass1.3.map_values(|i: usize| first.task_for(i)));
        }
        if self.active < self.workers && self.queue.len() == 0 {
            let added = self.queue_children();
            let ghost split = *self;
            proof {
                if first.gate() is Some && first.is_adaptive() {
                    lemma_new_children_same(first, start, n);
                    assert(split.jobs() == pass1.0 + start.new_children(n));
                    assert(child_order(split.queue(), pass1.0 + start.new_children(n), pass1.0.len() as int));
                }
            }
            if added {
                self.start_queued(&mut tasks);
                proof {
                    assert(split.decided() =~= start.decided());
                    let second = take_pass(split.jobs(), split.queue(), split.running() as int, workers, split.decided());
                    assert forall|k: int| 0 <= k < pass1.3.len() implies first.task_for(pass1.3[k])
                        == self.task_for(pass1.3[k]) by {
                        let i = pass1.3[k];
                        assert(split.jobs()[i as int] == first.jobs()[i as int]);
                    }
                    assert(tasks@ =~= (pass1.3 + second.3).map_values(|i: usize| self.task_for(i)));
                }
            } else {
                proof {
                    if first.gate() is Some && first.is_adaptive() {
                        if split.queue().len() > 0 {
                            assert(pass1.0.len() <= split.queue()[0] < split.jobs().len());
                        }
                        assert(split.queue().len() == 0);
                        let second = take_pass(split.jobs(), split.queue(), split.running() as int, workers, start.decided());
                        assert(second.3 =~= Seq::<usize>::empty());
                        assert(tasks@ =~= (pass1.3 + second.3).map_values(|i: usize| self.task_for(i)));
                    }
                }
            }
        }
        tasks
    }

    /// Retires a running job whose backend session the host has disposed:
    /// an exhausted leaf completes its root in the cover, an early optimum
    /// ends a single-optimum group only after a validated witness, and a
    /// cancellation is expected only while the group stops.
    pub fn retire(
        &mut self,
        id: LeafId,
        result: Result<Completion, Failure>,
        stopping: bool,
        proof: &mut ProofSummary,
    ) -> (outcome: Result<(), Failure>)
        requires
            old(self).wf(),
            old(proof).root_partitions_exhausted + old(self).jobs().len() <= u64::MAX,
            old(proof).profiles_exhausted < u64::MAX,
        ensures
            final(self).wf(),
            final(self).same_setting(*old(self)),
            !old(self).is_running(id) ==> (outcome matches Err(f) && f is Worker) && *final(self)
                == *old(self) && *final(proof) == *old(proof),
            old(self).is_running(id) ==> retire_step(
                *old(self),
                id,
                result,
                stopping,
                *old(proof),
                *final(self),
                *final(proof),
                outcome,
            ),
    {
        let checked = self.require_running(id);
        if checked.is_err() {
            return checked;
        }
        let ghost start = *self;
        let index = id.index;
        let job = self.jobs[index];
        let completion = match &result {
            Ok(c) => Some(*c),
            Err(_) => None,
        };
        proof {
            lemma_running_count_update(self.jobs@, index as int, Job { state: JobState::Retired(completion), ..job });
        }
        proof {
            if let Coverage::Adaptive(l) = start.coverage {
                let marks = l.child_marks()[job.parent as int];
                assert(covered_units(marks) <= start.jobs@.len());
            }
        }
        self.jobs.set(index, Job { state: JobState::Retired(completion), ..job });
        self.active = self.active - 1;
        proof {
            assert forall|k: int| 0 <= k < self.queue@.len() implies self.queue@[k] != index by {
                assert(start.jobs@[self.queue@[k] as int].state is Queued);
            }
        }
        match result {
            Ok(Completion::Exhausted) => {
                match &mut self.coverage {
                    Coverage::Static(ledger) => ledger.finish(index, proof),
                    Coverage::Adaptive(ledger) => ledger.finish(job.parent, job.root.second_source, proof),
                }
            },
            Ok(Completion::Optimum) => {
                if self.mode == SolveMode::OneMinNL && job.witnessed {
                    self.optimum = true;
                    Ok(())
                } else {
                    Err(Failure::Worker("early stop without a validated single-optimum witness".to_owned()))
                }
            },
            Err(failure) => {
                let covered = self.covered();
                match failure {
                    Failure::Cancelled => {
                        if stopping || self.optimum || covered {
                            Ok(())
                        } else {
                            Err(Failure::Cancelled)
                        }
                    },
                    Failure::Worker(detail) => Err(Failure::Worker(detail)),
                }
            },
        }
    }

    /// Opens the group of one link count: every possible profile is split by
    /// the producer of its first output when workers can share it, and the
    /// cover may later split roots again by a second producer.
    pub fn new(
        id: u64,
        nodes: u32,
        group: AccountedProfileGroup,
        impossible: &[bool],
        inputs: usize,
        outputs: usize,
        mode: SolveMode,
        workers: usize,
        counts: Counts,
        proof: &ProofSummary,
    ) -> (result: Result<Group, Failure>)
        requires
            impossible@.len() == group.profiles@.len(),
        ensures
            result is Err <==> producer_overflow(group.profiles@, impossible@, inputs, outputs, workers),
            result matches Err(f) ==> f is Worker,
            result matches Ok(g) ==> {
                let roots = roots_through(
                    group.profiles@,
                    impossible@,
                    inputs,
                    outputs,
                    workers,
                    group.profiles@.len() as int,
                );
                &&& g.wf()
                &&& g.group_id() == id
                &&& g.node_goal() == nodes
                &&& g.link_goal() == group.link_count
                &&& g.tasks() == group.profiles@
                &&& g.input_count() == inputs
                &&& g.run_mode() == mode
                &&& g.worker_count() == workers
                &&& g.count_encoding() == counts
                &&& g.is_adaptive() == adaptive_cover(mode, counts, workers, outputs, roots)
                &&& refined_cover(mode, counts, workers, outputs, roots) ==> stably_sorted(
                    g.parents(),
                    expand_all(roots, group.profiles@, inputs),
                )
                &&& !refined_cover(mode, counts, workers, outputs, roots) ==> g.parents() == roots
                &&& g.jobs() == Seq::new(g.parents().len(), |i: int| fresh_job(i, g.parents()[i]))
                &&& g.queue() == Seq::new(g.parents().len(), |i: int| i as usize)
                &&& g.fresh_cover()
                &&& g.running() == 0
                &&& g.gate() is None
                &&& !g.found_optimum()
                &&& g.exhausted_before() == proof.profiles_exhausted
            },
    {
        let AccountedProfileGroup { link_count: links, profiles: tasks } = group;
        let roots = match initial_roots(&tasks, impossible, inputs, outputs, workers) {
            Some(roots) => roots,
            None => {
                return Err(Failure::Worker("producer index overflow".to_owned()));
            },
        };
        let profile_total = tasks.len();
        proof {
            lemma_roots_through(tasks@, impossible@, inputs, outputs, workers, tasks@.len() as int);
            assert forall|i: int|
                0 <= i < roots@.len() && !roots@[i].impossible && roots@[i].source is Some implies {
                    &&& roots@[i].profile < tasks@.len()
                    &&& inputs + nodes_of(tasks@[roots@[i].profile as int].profile) <= usize::MAX
                } by {
                let p = roots@[i].profile as int;
                assert(fans_out(impossible@[p], workers, outputs));
                assert(!(0 <= p < tasks@.len() && fans_out(impossible@[p], workers, outputs)
                    && producer_count(tasks@[p], inputs) > usize::MAX));
            }
        }
        let live = count_live(&roots);
        let adaptive = mode == SolveMode::AllMinNL && counts == Counts::Boolean && workers > 1
            && outputs >= 2 && live >= workers;
        let ghost initial = roots@;
        let parents = if !adaptive && mode == SolveMode::AllMinNL && counts == Counts::Boolean {
            refine_roots(roots, tasks.as_slice(), inputs, outputs, workers)
        } else {
            roots
        };
        proof {
            assert forall|i: int| 0 <= i < parents@.len() implies parents@[i].profile < tasks@.len() by {
                if !adaptive && mode == SolveMode::AllMinNL && counts == Counts::Boolean {
                    let j = choose|j: int| 0 <= j < initial.len() && initial[j].profile == parents@[i].profile;
                    assert(initial[j].profile < tasks@.len());
                }
            }
        }
        let coverage = if adaptive {
            Coverage::Adaptive(AdaptiveLedger::new(&parents, tasks.len()))
        } else {
            Coverage::Static(RootLedger::new(&parents, tasks.len()))
        };
        let mut jobs: Vec<Job> = Vec::new();
        let mut queue: VecDeque<usize> = VecDeque::new();
        while jobs.len() < parents.len()
            invariant
                jobs@.len() <= parents@.len(),
                queue@.len() == jobs@.len(),
                jobs@ == Seq::new(jobs@.len(), |i: int| fresh_job(i, parents@[i])),
                queue@ == Seq::new(jobs@.len(), |i: int| i as usize),
            decreases parents@.len() - jobs@.len(),
        {
            let index = jobs.len();
            jobs.push(
                Job {
                    root: parents[index],
                    parent: index,
                    trigger_ms: None,
                    state: JobState::Queued,
                    witnessed: false,
                },
            );
            queue.push_back(index);
            assert(jobs@ =~= Seq::new(jobs@.len(), |i: int| fresh_job(i, parents@[i])));
            assert(queue@ =~= Seq::new(jobs@.len(), |i: int| i as usize));
        }
        proof {
            lemma_running_count_all_queued(jobs@);
        }
        let g = Group {
            id,
            nodes,
            links,
            tasks,
            parents,
            jobs,
            queue,
            coverage,
            active: 0,
            gate_ms: None,
            optimum: false,
            completed_before: proof.profiles_exhausted,
            inputs,
            mode,
            workers,
            counts,
        };
        proof {
            assert(owners_of(g.parents@) =~= g.parents@.map_values(|root: Root| root.profile));
        }
        Ok(g)
    }
}

proof fn lemma_take_pass_count(
    jobs: Seq<Job>,
    queue: Seq<usize>,
    active: int,
    workers: int,
    decided: Seq<bool>,
)
    ensures
        ({
            let pass = take_pass(jobs, queue, active, workers, decided);
            &&& pass.2 == active + pass.3.len()
            &&& active < workers ==> pass.2 <= workers
        }),
    decreases queue.len(),
{
    if !(active >= workers || queue.len() == 0) {
        let index = queue[0] as int;
        let job = jobs[index];
        if decided[job.parent as int] {
            lemma_take_pass_count(
                jobs.update(index, Job { state: JobState::Skipped, ..job }),
                queue.drop_first(),
                active,
                workers,
                decided,
            );
        } else {
            lemma_take_pass_count(
                jobs.update(index, Job { state: JobState::Running, ..job }),
                queue.drop_first(),
                active + 1,
                workers,
                decided,
            );
        }
    }
}

/// A dispatch starts one job per task it hands out, and never more jobs
/// than there are free workers.
pub proof fn law_dispatch_within_workers(before: Group, after: Group, tasks: Seq<LeafTask>)
    requires
        dispatch_step(before, after, tasks),
    ensures
        after.running() == before.running() + tasks.len(),
        before.running() < before.worker_count() ==> after.running() <= before.worker_count(),
        before.running() >= before.worker_count() ==> tasks.len() == 0,
{
    let workers = before.worker_count() as int;
    let decided = before.decided();
    let first = take_pass(before.jobs(), before.queue(), before.running() as int, workers, decided);
    lemma_take_pass_count(before.jobs(), before.queue(), before.running() as int, workers, decided);
    let split = first.2 < workers && first.1.len() == 0 && before.gate() is Some
        && before.is_adaptive();
    if split {
        let n = before.parents().len() as int;
        let grown = first.0 + before.new_children(n);
        let order = choose|order: Seq<usize>|
            #![trigger child_order(order, grown, first.0.len() as int)]
            child_order(order, grown, first.0.len() as int) && {
                let second = take_pass(grown, order, first.2, workers, decided);
                &&& after.jobs() == second.0
                &&& after.queue() == second.1
                &&& after.running() == second.2
                &&& tasks == (first.3 + second.3).map_values(|i: usize| after.task_for(i))
            };
        lemma_take_pass_count(grown, order, first.2, workers, decided);
    }
}

/// Sequences strictly ordered for dispatch and holding the same jobs are equal.
proof fn lemma_dispatch_order_unique(a: Seq<usize>, b: Seq<usize>, jobs: Seq<Job>)
    requires
        forall|x: int, y: int| 0 <= x < y < a.len() ==> dispatched_before(jobs, #[trigger] a[x], #[trigger] a[y]),
        forall|x: int, y: int| 0 <= x < y < b.len() ==> dispatched_before(jobs, #[trigger] b[x], #[trigger] b[y]),
        forall|j: usize| #![trigger a.contains(j)] #![trigger b.contains(j)] a.contains(j) <==> b.contains(j),
    ensures
        a == b,
    decreases a.len(),
{
    if a.len() == 0 {
        if b.len() > 0 {
            assert(b.contains(b[0]));
        }
        assert(a =~= b);
    } else if b.len() == 0 {
        assert(a.contains(a[0]));
    } else {
        let la = a.last();
        let lb = b.last();
        assert(a.contains(la));
        assert(b.contains(lb));
        if la != lb {
            let k = choose|k: int| 0 <= k < b.len() && b[k] == la;
            let m = choose|m: int| 0 <= m < a.len() && a[m] == lb;
            assert(k < b.len() - 1);
            assert(m < a.len() - 1);
            assert(dispatched_before(jobs, b[k], b[b.len() - 1]));
            assert(dispatched_before(jobs, a[m], a[a.len() - 1]));
        }
        let a2 = a.drop_last();
        let b2 = b.drop_last();
        assert forall|j: usize| #![trigger a2.contains(j)] #![trigger b2.contains(j)] a2.contains(j) <==> b2.contains(j) by {
            if a2.contains(j) {
                let x = choose|x: int| 0 <= x < a2.len() && a2[x] == j;
                assert(a[x] == j);
                assert(dispatched_before(jobs, a[x], a[a.len() - 1]));
                assert(b.contains(j));
                let y = choose|y: int| 0 <= y < b.len() && b[y] == j;
                assert(y != b.len() - 1);
                assert(b2[y] == j);
            }
            if b2.contains(j) {
                let x = choose|x: int| 0 <= x < b2.len() && b2[x] == j;
                assert(b[x] == j);
                assert(dispatched_before(jobs, b[x], b[b.len() - 1]));
                assert(a.contains(j));
                let y = choose|y: int| 0 <= y < a.len() && a[y] == j;
                assert(y != a.len() - 1);
                assert(a2[y] == j);
            }
        }
        lemma_dispatch_order_unique(a2, b2, jobs);
        assert(a =~= a2.push(la));
        assert(b =~= b2.push(lb));
    }
}

/// The order in which split children are queued is determined: by second
/// producer, then by job index.
pub proof fn law_child_order_is_determined(a: Seq<usize>, b: Seq<usize>, jobs: Seq<Job>, base: int)
    requires
        child_order(a, jobs, base),
        child_order(b, jobs, base),
    ensures
        a == b,
{
    assert forall|j: usize| #![trigger a.contains(j)] #![trigger b.contains(j)] a.contains(j) <==> b.contains(j) by {
        if a.contains(j) {
            let x = choose|x: int| 0 <= x < a.len() && a[x] == j;
            assert(base <= a[x] < jobs.len());
        }
        if b.contains(j) {
            let x = choose|x: int| 0 <= x < b.len() && b[x] == j;
            assert(base <= b[x] < jobs.len());
        }
    }
    lemma_dispatch_order_unique(a, b, jobs);
}

} // verus!
