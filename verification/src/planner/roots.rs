//! Disjoint proof covers: every registered root must be completed exactly
//! once before its profile counts as exhausted.

use vstd::prelude::*;

use crate::failure::Failure;
use crate::profile::{AccountedProfile, nodes_of};

verus! {

/// One root partition of a fixed profile's proof cover.
#[derive(Clone, Copy, Debug, PartialEq, Eq)]
pub struct Root {
    pub profile: usize,
    pub source: Option<usize>,
    pub second_source: Option<usize>,
    pub impossible: bool,
}

/// Exhaustion counters of a branch's proof.
#[derive(Clone, Copy, Debug, Default, PartialEq, Eq)]
pub struct ProofSummary {
    pub root_partitions_exhausted: u64,
    pub profiles_exhausted: u64,
}

/// Number of roots among the first `n` that `profile` owns and that are not completed.
pub open spec fn open_count(owners: Seq<usize>, completed: Seq<bool>, profile: int, n: int) -> nat
    decreases n,
{
    if n <= 0 {
        0
    } else {
        open_count(owners, completed, profile, n - 1) + if owners[n - 1] == profile
            && !completed[n - 1] {
            1nat
        } else {
            0nat
        }
    }
}

proof fn lemma_open_count_update(
    owners: Seq<usize>,
    completed: Seq<bool>,
    root: int,
    profile: int,
    n: int,
)
    requires
        0 <= root < completed.len(),
        !completed[root],
        n <= completed.len(),
    ensures
        open_count(owners, completed.update(root, true), profile, n) == open_count(
            owners,
            completed,
            profile,
            n,
        ) - if root < n && owners[root] == profile {
            1int
        } else {
            0int
        },
        root < n && owners[root] == profile ==> open_count(owners, completed, profile, n) >= 1,
    decreases n,
{
    if n > 0 {
        lemma_open_count_update(owners, completed, root, profile, n - 1);
    }
}

proof fn lemma_open_count_positive(owners: Seq<usize>, completed: Seq<bool>, profile: int, n: int)
    requires
        n <= owners.len(),
        n <= completed.len(),
    ensures
        open_count(owners, completed, profile, n) > 0 <==> exists|i: int|
            0 <= i < n && owners[i] == profile && !completed[i],
    decreases n,
{
    if n > 0 {
        lemma_open_count_positive(owners, completed, profile, n - 1);
        if open_count(owners, completed, profile, n - 1) > 0 {
            let i = choose|i: int| 0 <= i < n - 1 && owners[i] == profile && !completed[i];
            assert(0 <= i < n && owners[i] == profile && !completed[i]);
        }
        if exists|i: int| 0 <= i < n && owners[i] == profile && !completed[i] {
            let i = choose|i: int| 0 <= i < n && owners[i] == profile && !completed[i];
            if i < n - 1 {
                assert(open_count(owners, completed, profile, n - 1) > 0);
            }
        }
    }
}

/// Static root ledger: each profile is exhausted when its last root completes.
pub struct RootLedger {
    owners: Vec<usize>,
    completed: Vec<bool>,
    remaining: Vec<usize>,
}

impl RootLedger {
    /// The owning profile of each root.
    pub closed spec fn owners(&self) -> Seq<usize> {
        self.owners@
    }

    /// Which roots have completed.
    pub closed spec fn completed_roots(&self) -> Seq<bool> {
        self.completed@
    }

    /// Number of profiles the ledger tracks.
    pub closed spec fn profile_count(&self) -> nat {
        self.remaining@.len()
    }

    /// Open roots of `profile`.
    pub open spec fn open_roots(&self, profile: int) -> nat {
        open_count(self.owners(), self.completed_roots(), profile, self.owners().len() as int)
    }

    /// Each profile's remaining count is exactly its number of open roots.
    pub closed spec fn wf(&self) -> bool {
        &&& self.owners@.len() == self.completed@.len()
        &&& forall|i: int| 0 <= i < self.owners@.len() ==> self.owners@[i] < self.remaining@.len()
        &&& forall|p: int|
            0 <= p < self.remaining@.len() ==> self.remaining@[p] == open_count(
                self.owners@,
                self.completed@,
                p,
                self.owners@.len() as int,
            )
    }

    /// A ledger in which no root has completed yet.
    pub fn new(roots: &[Root], profiles: usize) -> (ledger: Self)
        requires
            forall|i: int| 0 <= i < roots@.len() ==> roots@[i].profile < profiles,
        ensures
            ledger.wf(),
            ledger.owners() == roots@.map_values(|root: Root| root.profile),
            ledger.completed_roots() == Seq::new(roots@.len(), |i: int| false),
            ledger.profile_count() == profiles,
    {
        let mut remaining: Vec<usize> = Vec::new();
        while remaining.len() < profiles
            invariant
                remaining.len() <= profiles,
                forall|p: int| 0 <= p < remaining@.len() ==> remaining@[p] == 0,
            decreases profiles - remaining.len(),
        {
            remaining.push(0);
        }
        let mut owners: Vec<usize> = Vec::new();
        let mut completed: Vec<bool> = Vec::new();
        let mut i: usize = 0;
        while i < roots.len()
            invariant
                i <= roots.len(),
                remaining.len() == profiles,
                forall|k: int| 0 <= k < roots@.len() ==> roots@[k].profile < profiles,
                owners@ == roots@.subrange(0, i as int).map_values(|root: Root| root.profile),
                completed@ == Seq::new(i as nat, |k: int| false),
                forall|p: int|
                    0 <= p < remaining@.len() ==> remaining@[p] == open_count(
                        owners@,
                        completed@,
                        p,
                        i as int,
                    ),
                forall|p: int| 0 <= p < remaining@.len() ==> remaining@[p] <= i,
            decreases roots.len() - i,
        {
            let profile = roots[i].profile;
            let ghost old_owners = owners@;
            let ghost old_completed = completed@;
            owners.push(profile);
            completed.push(false);
            remaining.set(profile, remaining[profile] + 1);
            proof {
                assert(owners@ =~= roots@.subrange(0, i + 1).map_values(|root: Root| root.profile));
                assert(completed@ =~= Seq::new((i + 1) as nat, |k: int| false));
                assert forall|p: int| 0 <= p < remaining@.len() implies remaining@[p] == open_count(
                    owners@,
                    completed@,
                    p,
                    i + 1,
                ) by {
                    assert(owners@.subrange(0, i as int) =~= old_owners);
                    assert(completed@.subrange(0, i as int) =~= old_completed);
                    lemma_open_count_prefix(old_owners, old_completed, owners@, completed@, p, i as int);
                }
            }
            i = i + 1;
        }
        assert(roots@.subrange(0, i as int) =~= roots@);
        RootLedger { owners, completed, remaining }
    }

    /// Records the completion of `root`.
    pub fn finish(&mut self, root: usize, proof: &mut ProofSummary) -> (result: Result<(), Failure>)
        requires
            old(self).wf(),
            root < old(self).owners().len() && !old(self).completed_roots()[root as int] ==> {
                &&& old(proof).root_partitions_exhausted < u64::MAX
                &&& old(proof).profiles_exhausted < u64::MAX
            },
        ensures
            final(self).wf(),
            static_finish(*old(self), root as int, *old(proof), *final(self), *final(proof), result),
    {
        if root >= self.completed.len() {
            return Err(Failure::Worker("unknown Solver root completion".to_owned()));
        }
        if self.completed[root] {
            return Err(Failure::Worker("duplicate Solver root completion".to_owned()));
        }
        let ghost before = self.completed@;
        let owner = self.owners[root];
        proof {
            lemma_open_count_update(self.owners@, before, root as int, owner as int, self.owners@.len() as int);
        }
        self.completed.set(root, true);
        proof.root_partitions_exhausted = proof.root_partitions_exhausted + 1;
        let left = self.remaining[owner] - 1;
        self.remaining.set(owner, left);
        if left == 0 {
            proof.profiles_exhausted = proof.profiles_exhausted + 1;
        }
        proof {
            assert forall|p: int| 0 <= p < self.remaining@.len() implies self.remaining@[p] == open_count(
                self.owners@,
                self.completed@,
                p,
                self.owners@.len() as int,
            ) by {
                lemma_open_count_update(self.owners@, before, root as int, p, self.owners@.len() as int);
            }
        }
        Ok(())
    }

    /// Whether every registered root has completed.
    pub fn complete(&self) -> (done: bool)
        requires
            self.wf(),
        ensures
            done == forall|i: int| 0 <= i < self.completed_roots().len() ==> self.completed_roots()[i],
    {
        let mut p: usize = 0;
        while p < self.remaining.len()
            invariant
                self.wf(),
                p <= self.remaining.len(),
                forall|q: int| 0 <= q < p ==> self.remaining@[q] == 0,
            decreases self.remaining.len() - p,
        {
            if self.remaining[p] != 0 {
                proof {
                    lemma_open_count_positive(self.owners@, self.completed@, p as int, self.owners@.len() as int);
                    let i = choose|i: int|
                        0 <= i < self.owners@.len() && self.owners@[i] == p && !self.completed@[i];
                    assert(!self.completed_roots()[i]);
                }
                return false;
            }
            p = p + 1;
        }
        proof {
            assert forall|i: int| 0 <= i < self.completed@.len() implies self.completed@[i] by {
                let owner = self.owners@[i] as int;
                lemma_open_count_positive(self.owners@, self.completed@, owner, self.owners@.len() as int);
                if !self.completed@[i] {
                    assert(self.remaining@[owner] > 0);
                }
            }
        }
        true
    }
}

proof fn lemma_open_count_prefix(
    owners: Seq<usize>,
    completed: Seq<bool>,
    longer_owners: Seq<usize>,
    longer_completed: Seq<bool>,
    profile: int,
    n: int,
)
    requires
        0 <= n,
        owners.len() == n,
        completed.len() == n,
        longer_owners.len() == n + 1,
        longer_completed.len() == n + 1,
        longer_owners.subrange(0, n) == owners,
        longer_completed.subrange(0, n) == completed,
    ensures
        open_count(longer_owners, longer_completed, profile, n + 1) == open_count(
            owners,
            completed,
            profile,
            n,
        ) + if longer_owners[n] == profile && !longer_completed[n] {
            1int
        } else {
            0int
        },
{
    lemma_open_count_same(owners, completed, longer_owners, longer_completed, profile, n);
}

proof fn lemma_open_count_same(
    owners: Seq<usize>,
    completed: Seq<bool>,
    other_owners: Seq<usize>,
    other_completed: Seq<bool>,
    profile: int,
    n: int,
)
    requires
        0 <= n <= owners.len(),
        n <= completed.len(),
        n <= other_owners.len(),
        n <= other_completed.len(),
        forall|i: int| 0 <= i < n ==> owners[i] == other_owners[i] && completed[i] == other_completed[i],
    ensures
        open_count(owners, completed, profile, n) == open_count(other_owners, other_completed, profile, n),
    decreases n,
{
    if n > 0 {
        lemma_open_count_same(owners, completed, other_owners, other_completed, profile, n - 1);
    }
}


/// Which proof discharged an adaptive parent root.
#[derive(Clone, Copy, Debug, PartialEq, Eq)]
pub enum AdaptiveChoice {
    /// The parent's own search finished.
    Parent,
    /// Every child of its partition finished.
    Children,
}

/// A parent root and the complete set of its children are alternative
/// proofs; whichever finishes first owns the root, and the other is ignored.
pub struct AdaptiveLedger {
    base: RootLedger,
    choice: Vec<Option<AdaptiveChoice>>,
    children: Vec<Option<Vec<bool>>>,
}

/// Children's completion marks, if registered.
pub open spec fn marks_view(children: Option<Vec<bool>>) -> Option<Seq<bool>> {
    match children {
        Some(marks) => Some(marks@),
        None => None,
    }
}

/// Whether every mark is set.
pub open spec fn all_marked(marks: Seq<bool>) -> bool {
    forall|i: int| 0 <= i < marks.len() ==> marks[i]
}

/// Number of roots that finishing `parent` with its children accounts for.
pub open spec fn covered_units(marks: Option<Seq<bool>>) -> int {
    match marks {
        Some(m) => if m.len() > 0 {
            m.len() as int
        } else {
            1
        },
        None => 1,
    }
}

impl AdaptiveLedger {
    /// The underlying static ledger.
    pub closed spec fn base_ledger(&self) -> RootLedger {
        self.base
    }

    /// The proof that owns each parent, once decided.
    pub closed spec fn choices(&self) -> Seq<Option<AdaptiveChoice>> {
        self.choice@
    }

    /// Completion marks of each parent's registered children.
    pub closed spec fn child_marks(&self) -> Seq<Option<Seq<bool>>> {
        self.children@.map_values(|c: Option<Vec<bool>>| marks_view(c))
    }

    /// A parent is decided exactly when its base root completed.
    pub closed spec fn wf(&self) -> bool {
        &&& self.base.wf()
        &&& self.choice@.len() == self.base.owners().len()
        &&& self.children@.len() == self.base.owners().len()
        &&& forall|i: int|
            0 <= i < self.choice@.len() ==> (self.choice@[i] is Some
                <==> self.base.completed_roots()[i])
    }

    /// A ledger with no decided parent and no registered children.
    pub fn new(roots: &[Root], profiles: usize) -> (ledger: Self)
        requires
            forall|i: int| 0 <= i < roots@.len() ==> roots@[i].profile < profiles,
        ensures
            ledger.wf(),
            ledger.base_ledger().owners() == roots@.map_values(|root: Root| root.profile),
            ledger.base_ledger().completed_roots() == Seq::new(roots@.len(), |i: int| false),
            ledger.base_ledger().profile_count() == profiles,
            ledger.choices() == Seq::new(roots@.len(), |i: int| None::<AdaptiveChoice>),
            ledger.child_marks() == Seq::new(roots@.len(), |i: int| None::<Seq<bool>>),
    {
        let base = RootLedger::new(roots, profiles);
        let mut choice: Vec<Option<AdaptiveChoice>> = Vec::new();
        let mut children: Vec<Option<Vec<bool>>> = Vec::new();
        while choice.len() < roots.len()
            invariant
                choice.len() == children.len(),
                choice.len() <= roots.len(),
                forall|i: int| 0 <= i < choice@.len() ==> choice@[i] is None,
                forall|i: int| 0 <= i < children@.len() ==> children@[i] is None,
            decreases roots.len() - choice.len(),
        {
            choice.push(None);
            children.push(None);
        }
        let ledger = AdaptiveLedger { base, choice, children };
        assert(ledger.choices() =~= Seq::new(roots@.len(), |i: int| None::<AdaptiveChoice>));
        assert(ledger.child_marks() =~= Seq::new(roots@.len(), |i: int| None::<Seq<bool>>));
        ledger
    }

    /// The underlying static ledger.
    pub fn base(&self) -> (base: &RootLedger)
        ensures
            *base == self.base_ledger(),
            self.wf() ==> base.wf(),
    {
        &self.base
    }

    /// Registers `count` open children for `parent`.
    pub fn register_children(&mut self, parent: usize, count: usize)
        requires
            old(self).wf(),
            parent < old(self).choices().len(),
        ensures
            final(self).wf(),
            final(self).base_ledger() == old(self).base_ledger(),
            final(self).choices() == old(self).choices(),
            final(self).child_marks() == old(self).child_marks().update(
                parent as int,
                Some(Seq::new(count as nat, |i: int| false)),
            ),
    {
        let mut marks: Vec<bool> = Vec::new();
        while marks.len() < count
            invariant
                marks.len() <= count,
                forall|i: int| 0 <= i < marks@.len() ==> !marks@[i],
            decreases count - marks.len(),
        {
            marks.push(false);
        }
        assert(marks@ =~= Seq::new(count as nat, |i: int| false));
        self.children.set(parent, Some(marks));
        assert(self.child_marks() =~= old(self).child_marks().update(
            parent as int,
            Some(Seq::new(count as nat, |i: int| false)),
        ));
    }

    /// Whether `parent` has been decided.
    pub fn is_decided(&self, parent: usize) -> (decided: bool)
        requires
            parent < self.choices().len(),
        ensures
            decided == self.choices()[parent as int] is Some,
    {
        self.choice[parent].is_some()
    }

    /// Whether children of `parent` are registered.
    pub fn has_children(&self, parent: usize) -> (registered: bool)
        requires
            parent < self.child_marks().len(),
        ensures
            registered == self.child_marks()[parent as int] is Some,
    {
        self.children[parent].is_some()
    }

    /// Number of registered children of `parent` (zero when none are registered).
    pub fn child_count(&self, parent: usize) -> (count: usize)
        requires
            parent < self.child_marks().len(),
        ensures
            count == match self.child_marks()[parent as int] {
                Some(m) => m.len(),
                None => 0,
            },
    {
        match &self.children[parent] {
            Some(marks) => marks.len(),
            None => 0,
        }
    }

    /// Records that `parent` (`child` is `None`) or one of its children finished.
    pub fn finish(
        &mut self,
        parent: usize,
        child: Option<usize>,
        proof: &mut ProofSummary,
    ) -> (result: Result<(), Failure>)
        requires
            old(self).wf(),
            parent < old(self).choices().len() && old(self).choices()[parent as int] is None ==> {
                &&& old(proof).profiles_exhausted < u64::MAX
                &&& old(proof).root_partitions_exhausted + covered_units(old(self).child_marks()[parent as int])
                    <= u64::MAX
            },
        ensures
            final(self).wf(),
            adaptive_finish(*old(self), parent as int, child, *old(proof), *final(self), *final(proof), result),
    {
        if parent >= self.choice.len() {
            return Err(Failure::Worker("unknown adaptive parent".to_owned()));
        }
        if self.choice[parent].is_some() {
            return Ok(());
        }
        let ghost start = *self;
        let selected: AdaptiveChoice;
        let units: usize;
        match child {
            Some(child) => {
                let mut marks = match self.children[parent].take() {
                    Some(marks) => marks,
                    None => {
                        assert(self.child_marks() =~= start.child_marks());
                        return Err(Failure::Worker("unregistered adaptive children".to_owned()));
                    },
                };
                assert(start.child_marks()[parent as int] == Some(marks@));
                assert(self.child_marks() =~= start.child_marks().update(parent as int, None));
                if child >= marks.len() {
                    self.children.set(parent, Some(marks));
                    assert(self.child_marks() =~= start.child_marks());
                    return Err(Failure::Worker("unknown adaptive child".to_owned()));
                }
                if marks[child] {
                    self.children.set(parent, Some(marks));
                    assert(self.child_marks() =~= start.child_marks());
                    return Err(Failure::Worker("duplicate adaptive child".to_owned()));
                }
                let ghost original_marks = marks@;
                marks.set(child, true);
                let mut all_done = true;
                let mut k: usize = 0;
                while k < marks.len()
                    invariant
                        k <= marks.len(),
                        all_done == forall|i: int| 0 <= i < k ==> marks@[i],
                    decreases marks.len() - k,
                {
                    if !marks[k] {
                        all_done = false;
                    }
                    k = k + 1;
                }
                let count = marks.len();
                let ghost final_marks = marks@;
                self.children.set(parent, Some(marks));
                assert(final_marks == original_marks.update(child as int, true));
                assert(self.child_marks() =~= start.child_marks().update(parent as int, Some(final_marks)));
                if !all_done {
                    return Ok(());
                }
                selected = AdaptiveChoice::Children;
                units = count;
            },
            None => {
                selected = AdaptiveChoice::Parent;
                units = 1;
            },
        }
        let finished = self.base.finish(parent, proof);
        if finished.is_err() {
            return finished;
        }
        proof.root_partitions_exhausted = proof.root_partitions_exhausted + (units - 1) as u64;
        self.choice.set(parent, Some(selected));
        Ok(())
    }

    /// Whether the proof that owns `parent` is the parent itself (`child` is
    /// `None`) or its children.
    pub fn committed(&self, parent: usize, child: Option<usize>) -> (owned: bool)
        requires
            parent < self.choices().len(),
        ensures
            owned == (self.choices()[parent as int] == Some(
                if child is Some {
                    AdaptiveChoice::Children
                } else {
                    AdaptiveChoice::Parent
                },
            )),
    {
        let wanted = match child {
            Some(_) => AdaptiveChoice::Children,
            None => AdaptiveChoice::Parent,
        };
        match self.choice[parent] {
            Some(AdaptiveChoice::Parent) => match wanted {
                AdaptiveChoice::Parent => true,
                AdaptiveChoice::Children => false,
            },
            Some(AdaptiveChoice::Children) => match wanted {
                AdaptiveChoice::Parent => false,
                AdaptiveChoice::Children => true,
            },
            None => false,
        }
    }
}

/// Two root ledgers with the same owners, completions and profile count.
/// What completing `root` of a static ledger does: it is accepted once, and
/// exhausts its profile when it was the profile's last open root.
pub open spec fn static_finish(
    before: RootLedger,
    root: int,
    proof_before: ProofSummary,
    after: RootLedger,
    proof_after: ProofSummary,
    result: Result<(), Failure>,
) -> bool {
    &&& after.owners() == before.owners()
    &&& after.profile_count() == before.profile_count()
    &&& result is Ok <==> 0 <= root < before.owners().len() && !before.completed_roots()[root]
    &&& result is Ok ==> {
        &&& after.completed_roots() == before.completed_roots().update(root, true)
        &&& proof_after.root_partitions_exhausted == proof_before.root_partitions_exhausted + 1
        &&& proof_after.profiles_exhausted == proof_before.profiles_exhausted + if before.open_roots(
            before.owners()[root] as int,
        ) == 1 {
            1int
        } else {
            0int
        }
    }
    &&& result is Err ==> {
        &&& after.completed_roots() == before.completed_roots()
        &&& proof_after == proof_before
        &&& result matches Err(Failure::Worker(_))
    }
}

/// What finishing `parent` or one of its children does to an adaptive ledger.
pub open spec fn adaptive_finish(
    before: AdaptiveLedger,
    parent: int,
    child: Option<usize>,
    proof_before: ProofSummary,
    after: AdaptiveLedger,
    proof_after: ProofSummary,
    result: Result<(), Failure>,
) -> bool {
    &&& after.base_ledger().owners() == before.base_ledger().owners()
    &&& after.base_ledger().profile_count() == before.base_ledger().profile_count()
    &&& !(0 <= parent < before.choices().len()) ==> result is Err && same_adaptive(after, before)
        && proof_after == proof_before
    &&& 0 <= parent < before.choices().len() && before.choices()[parent] is Some ==> result is Ok
        && same_adaptive(after, before) && proof_after == proof_before
    &&& 0 <= parent < before.choices().len() && before.choices()[parent] is None ==> adaptive_step(
        before,
        parent,
        child,
        proof_before,
        after,
        proof_after,
        result,
    )
}

pub open spec fn same_root_ledger(a: RootLedger, b: RootLedger) -> bool {
    &&& a.owners() == b.owners()
    &&& a.completed_roots() == b.completed_roots()
    &&& a.profile_count() == b.profile_count()
}

/// Two adaptive ledgers in the same state.
pub open spec fn same_adaptive(a: AdaptiveLedger, b: AdaptiveLedger) -> bool {
    &&& same_root_ledger(a.base_ledger(), b.base_ledger())
    &&& a.choices() == b.choices()
    &&& a.child_marks() == b.child_marks()
}

/// One step of an undecided parent: a finished parent decides it at once; a
/// finished child is marked, and the last open child decides it for the
/// children; malformed reports are refused without any effect.
pub open spec fn adaptive_step(
    before: AdaptiveLedger,
    parent: int,
    child: Option<usize>,
    proof_before: ProofSummary,
    after: AdaptiveLedger,
    proof_after: ProofSummary,
    result: Result<(), Failure>,
) -> bool {
    let base_before = before.base_ledger();
    let owner = base_before.owners()[parent] as int;
    let profile_step = if base_before.open_roots(owner) == 1 {
        1int
    } else {
        0int
    };
    let decide = |chosen: AdaptiveChoice, units: int|
        {
            &&& result is Ok
            &&& after.base_ledger().completed_roots() == base_before.completed_roots().update(
                parent,
                true,
            )
            &&& after.choices() == before.choices().update(parent, Some(chosen))
            &&& proof_after.root_partitions_exhausted == proof_before.root_partitions_exhausted
                + units
            &&& proof_after.profiles_exhausted == proof_before.profiles_exhausted + profile_step
        };
    match child {
        None => decide(AdaptiveChoice::Parent, 1) && after.child_marks() == before.child_marks(),
        Some(c) => match before.child_marks()[parent] {
            None => result is Err && same_adaptive(after, before) && proof_after == proof_before,
            Some(marks) => if c >= marks.len() || marks[c as int] {
                result is Err && same_adaptive(after, before) && proof_after == proof_before
            } else {
                let marked = marks.update(c as int, true);
                &&& after.child_marks() == before.child_marks().update(parent, Some(marked))
                &&& if all_marked(marked) {
                    decide(AdaptiveChoice::Children, marks.len() as int)
                } else {
                    result is Ok && same_root_ledger(after.base_ledger(), base_before)
                        && after.choices() == before.choices() && proof_after == proof_before
                }
            },
        },
    }
}


// ---------------------------------------------------------------------------
// Static refinement of roots by the second output's producer.
// ---------------------------------------------------------------------------
/// Number of children a root is split into: one per possible producer of the
/// second output, or none for an impossible or unsourced root.
pub open spec fn child_sources(root: Root, tasks: Seq<AccountedProfile>, inputs: usize) -> int {
    if root.impossible || root.source is None {
        0
    } else {
        inputs + nodes_of(tasks[root.profile as int].profile)
    }
}

/// A root itself, or its children fixing each possible second producer.
pub open spec fn expansion(root: Root, tasks: Seq<AccountedProfile>, inputs: usize) -> Seq<Root> {
    let sources = child_sources(root, tasks, inputs);
    if sources == 0 {
        seq![root]
    } else {
        Seq::new(sources as nat, |s: int| Root { second_source: Some(s as usize), ..root })
    }
}

/// Every root expanded, in order.
pub open spec fn expand_all(roots: Seq<Root>, tasks: Seq<AccountedProfile>, inputs: usize) -> Seq<Root>
    decreases roots.len(),
{
    if roots.len() == 0 {
        Seq::empty()
    } else {
        expand_all(roots.drop_last(), tasks, inputs) + expansion(roots.last(), tasks, inputs)
    }
}

/// Sort rank of a second source: an absent one comes first.
pub open spec fn source_rank(source: Option<usize>) -> int {
    match source {
        Some(s) => s as int,
        None => -1,
    }
}

/// Roots whose second source is `source`, in their order.
pub open spec fn with_source(roots: Seq<Root>, source: Option<usize>) -> Seq<Root> {
    roots.filter(|root: Root| root.second_source == source)
}

/// `arranged` is `roots` stably sorted by second source.
pub open spec fn stably_sorted(arranged: Seq<Root>, roots: Seq<Root>) -> bool {
    &&& forall|i: int, j: int|
        0 <= i < j < arranged.len() ==> source_rank(arranged[i].second_source) <= source_rank(
            arranged[j].second_source,
        )
    &&& forall|source: Option<usize>| #[trigger] with_source(arranged, source) == with_source(roots, source)
}

/// Some root of `roots` belongs to `profile`.
pub open spec fn profile_in(roots: Seq<Root>, profile: usize) -> bool {
    exists|j: int| 0 <= j < roots.len() && roots[j].profile == profile
}

/// Number of roots that are not known impossible.
pub open spec fn live_count(roots: Seq<Root>) -> int
    decreases roots.len(),
{
    if roots.len() == 0 {
        0
    } else {
        live_count(roots.drop_last()) + if roots.last().impossible {
            0int
        } else {
            1int
        }
    }
}

/// Number of roots that are not known impossible.
pub fn count_live(roots: &[Root]) -> (live: usize)
    ensures
        live == live_count(roots@),
{
    let mut live: usize = 0;
    let mut i: usize = 0;
    while i < roots.len()
        invariant
            i <= roots.len(),
            live <= i,
            live == live_count(roots@.subrange(0, i as int)),
        decreases roots.len() - i,
    {
        assert(roots@.subrange(0, i + 1).drop_last() =~= roots@.subrange(0, i as int));
        if !roots[i].impossible {
            live = live + 1;
        }
        i = i + 1;
    }
    assert(roots@.subrange(0, i as int) =~= roots@);
    live
}

pub(crate) fn source_not_after(a: Option<usize>, b: Option<usize>) -> (r: bool)
    ensures
        r == (source_rank(a) <= source_rank(b)),
{
    match (a, b) {
        (None, _) => true,
        (Some(_), None) => false,
        (Some(x), Some(y)) => x <= y,
    }
}

proof fn lemma_with_source_insert(out: Seq<Root>, p: int, x: Root, source: Option<usize>)
    requires
        0 <= p <= out.len(),
        forall|i: int| 0 <= i < p ==> source_rank(out[i].second_source) <= source_rank(x.second_source),
        forall|i: int| p <= i < out.len() ==> source_rank(out[i].second_source) > source_rank(x.second_source),
    ensures
        with_source(out.insert(p, x), source) == if source == x.second_source {
            with_source(out, source).push(x)
        } else {
            with_source(out, source)
        },
{
    let pred = |root: Root| root.second_source == source;
    let front = out.subrange(0, p);
    let back = out.subrange(p, out.len() as int);
    assert(out.insert(p, x) =~= front + seq![x] + back);
    assert(out =~= front + back);
    Seq::filter_distributes_over_add(front + seq![x], back, pred);
    Seq::filter_distributes_over_add(front, seq![x], pred);
    Seq::filter_distributes_over_add(front, back, pred);
    assert(seq![x].filter(pred) =~= if pred(x) { seq![x] } else { Seq::empty() }) by {
        reveal_with_fuel(Seq::filter, 2);
    }
    if source == x.second_source {
        assert forall|i: int| 0 <= i < back.len() implies !pred(back[i]) by {
            assert(back[i] == out[p + i]);
        }
        back.lemma_all_neg_filter_empty(pred);
        assert(with_source(out.insert(p, x), source) =~= with_source(out, source).push(x));
    } else {
        assert(with_source(out.insert(p, x), source) =~= with_source(out, source));
    }
}

/// Splits live roots by the second output's unique producer when the
/// workers outnumber them, so that children partition their parent.
pub fn refine_roots(
    roots: Vec<Root>,
    tasks: &[AccountedProfile],
    inputs: usize,
    outputs: usize,
    workers: usize,
) -> (refined: Vec<Root>)
    requires
        forall|i: int|
            0 <= i < roots@.len() && !roots@[i].impossible && roots@[i].source is Some ==> {
                &&& roots@[i].profile < tasks@.len()
                &&& inputs + nodes_of(tasks@[roots@[i].profile as int].profile) <= usize::MAX
            },
    ensures
        workers <= 1 || outputs < 2 || live_count(roots@) >= workers ==> refined@ == roots@,
        !(workers <= 1 || outputs < 2 || live_count(roots@) >= workers) ==> stably_sorted(
            refined@,
            expand_all(roots@, tasks@, inputs),
        ),
        forall|i: int|
            0 <= i < refined@.len() ==> profile_in(roots@, refined@[i].profile),
{
    let live = count_live(&roots);
    if workers <= 1 || outputs < 2 || live >= workers {
        return roots;
    }
    let ghost all = expand_all(roots@, tasks@, inputs);
    let mut expanded: Vec<Root> = Vec::new();
    let mut r: usize = 0;
    while r < roots.len()
        invariant
            r <= roots.len(),
            forall|i: int|
                0 <= i < roots@.len() && !roots@[i].impossible && roots@[i].source is Some ==> {
                    &&& roots@[i].profile < tasks@.len()
                    &&& inputs + nodes_of(tasks@[roots@[i].profile as int].profile) <= usize::MAX
                },
            expanded@ == expand_all(roots@.subrange(0, r as int), tasks@, inputs),
            forall|i: int|
                0 <= i < expanded@.len() ==> profile_in(roots@, expanded@[i].profile),
        decreases roots.len() - r,
    {
        let root = roots[r];
        let ghost prefix = expanded@;
        assert(roots@.subrange(0, r + 1).drop_last() =~= roots@.subrange(0, r as int));
        let sources: usize = if root.impossible || root.source.is_none() {
            0
        } else {
            inputs + tasks[root.profile].profile.node_count() as usize
        };
        if sources == 0 {
            expanded.push(root);
            assert(expanded@ =~= prefix + expansion(root, tasks@, inputs));
            assert(expanded@[expanded@.len() - 1].profile == roots@[r as int].profile);
        } else {
            let mut source: usize = 0;
            while source < sources
                invariant
                    source <= sources,
                    sources == child_sources(root, tasks@, inputs),
                    expanded@ == prefix + Seq::new(
                        source as nat,
                        |s: int| Root { second_source: Some(s as usize), ..root },
                    ),
                    r < roots@.len(),
                    root == roots@[r as int],
                    forall|i: int|
                        0 <= i < expanded@.len() ==> profile_in(roots@, expanded@[i].profile),
                decreases sources - source,
            {
                expanded.push(Root { second_source: Some(source), ..root });
                assert(expanded@[expanded@.len() - 1].profile == roots@[r as int].profile);
                assert(expanded@ =~= prefix + Seq::new(
                    (source + 1) as nat,
                    |s: int| Root { second_source: Some(s as usize), ..root },
                ));
                source = source + 1;
            }
        }
        r = r + 1;
    }
    assert(roots@.subrange(0, r as int) =~= roots@);
    let mut refined: Vec<Root> = Vec::new();
    let mut k: usize = 0;
    while k < expanded.len()
        invariant
            k <= expanded.len(),
            forall|a: int, b: int|
                0 <= a < b < refined@.len() ==> source_rank(refined@[a].second_source) <= source_rank(
                    refined@[b].second_source,
                ),
            forall|source: Option<usize>| #[trigger]
                with_source(refined@, source) == with_source(expanded@.subrange(0, k as int), source),
            forall|i: int|
                0 <= i < expanded@.len() ==> profile_in(roots@, expanded@[i].profile),
            forall|i: int|
                0 <= i < refined@.len() ==> profile_in(roots@, refined@[i].profile),
        decreases expanded.len() - k,
    {
        let x = expanded[k];
        let mut p: usize = 0;
        while p < refined.len() && source_not_after(refined[p].second_source, x.second_source)
            invariant
                p <= refined.len(),
                forall|i: int| 0 <= i < p ==> source_rank(refined@[i].second_source) <= source_rank(x.second_source),
            decreases refined.len() - p,
        {
            p = p + 1;
        }
        let ghost before = refined@;
        proof {
            assert forall|i: int| p <= i < before.len() implies source_rank(before[i].second_source) > source_rank(
                x.second_source,
            ) by {
                assert(source_rank(before[p as int].second_source) > source_rank(x.second_source));
                if i > p {
                    assert(source_rank(before[p as int].second_source) <= source_rank(before[i].second_source));
                }
            }
        }
        refined.insert(p, x);
        proof {
            assert forall|i: int| 0 <= i < refined@.len() implies profile_in(roots@, refined@[i].profile) by {
                if i < p {
                    assert(refined@[i] == before[i]);
                } else if i == p {
                    assert(refined@[i] == expanded@[k as int]);
                } else {
                    assert(refined@[i] == before[i - 1]);
                }
            }
            assert(expanded@.subrange(0, k + 1) =~= expanded@.subrange(0, k as int).push(x));
            assert forall|source: Option<usize>| #[trigger]
                with_source(refined@, source) == with_source(expanded@.subrange(0, k + 1), source) by {
                lemma_with_source_insert(before, p as int, x, source);
                let pred = |root: Root| root.second_source == source;
                expanded@.subrange(0, k as int).lemma_filter_push(x, pred);
            }
            assert forall|a: int, b: int|
                0 <= a < b < refined@.len() implies source_rank(refined@[a].second_source) <= source_rank(
                    refined@[b].second_source,
                ) by {
                if b < p {
                } else if b == p {
                } else if a < p {
                    assert(refined@[b] == before[b - 1]);
                } else if a == p {
                    assert(refined@[b] == before[b - 1]);
                } else {
                    assert(refined@[a] == before[a - 1]);
                    assert(refined@[b] == before[b - 1]);
                }
            }
        }
        k = k + 1;
    }
    assert(expanded@.subrange(0, k as int) =~= expanded@);
    refined
}

} // verus!
