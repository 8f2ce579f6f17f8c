//! Canonical, proof-carrying no-goods.
//!
//! Learned entries are optional accelerators. A conflict core may contain every
//! active decision: that broad core is still sound, and no minimum core is
//! required. Keys are canonical induced identities of the proof's decision
//! set, and provenance remains attached to every stored key.

use vstd::prelude::*;

use crate::sorted::{
    RankedId, insert_sorted_unique, lemma_strictly_increasing_no_duplicates, sorted_unique,
    strictly_increasing,
};
use crate::topology::{DecisionId, StateKey};

verus! {

/// Semantic lifetime of a learned contradiction.
#[derive(Clone, Copy, Debug, PartialEq, Eq, PartialOrd, Ord, Hash)]
pub enum NoGoodScope {
    /// May use exact rates, capacity, profile, and external bindings.
    SolveLocal,
    /// Depends only on physical structure and remaining inventory.
    GlobalStructural,
}

/// Exact theorem used to reject the state.
#[derive(Clone, Copy, Debug, PartialEq, Eq, PartialOrd, Ord, Hash)]
pub enum ConflictRule {
    ExactPropagation,
    ExactCapacity,
    DynamicSccInconsistency,
    ConnectivityImpossibility,
    PortCompletionImpossibility,
}

/// Stable compact provenance-node index.
#[derive(Clone, Copy, Debug, PartialEq, Eq, PartialOrd, Ord, Hash)]
pub struct ProofNodeId(pub u32);

impl RankedId for ProofNodeId {
    open spec fn rank(self) -> int {
        self.0 as int
    }

    fn rank_value(&self) -> (r: u64) {
        self.0 as u64
    }

    proof fn lemma_rank_injective(a: Self, b: Self) {
    }
}

/// One node in a compact exact-fact provenance DAG.
#[derive(Clone, Debug, PartialEq, Eq, PartialOrd, Ord, Hash)]
pub enum ProvenanceNode {
    /// Problem/profile axioms allowed by the declared scope.
    ScopeAxiom(NoGoodScope),
    /// One active structural link decision.
    Decision(DecisionId),
    /// Exact derived fact or contradiction with sorted parent references.
    Derived { rule: ConflictRule, parents: Vec<ProofNodeId> },
}

/// Mathematical value of a [`ProvenanceNode`].
pub enum NodeView {
    ScopeAxiom(NoGoodScope),
    Decision(DecisionId),
    Derived(ConflictRule, Seq<ProofNodeId>),
}

impl View for ProvenanceNode {
    type V = NodeView;

    open spec fn view(&self) -> NodeView {
        match self {
            ProvenanceNode::ScopeAxiom(scope) => NodeView::ScopeAxiom(*scope),
            ProvenanceNode::Decision(decision) => NodeView::Decision(*decision),
            ProvenanceNode::Derived { rule, parents } => NodeView::Derived(*rule, parents@),
        }
    }
}

/// The views of a node sequence.
pub open spec fn node_views(nodes: Seq<ProvenanceNode>) -> Seq<NodeView> {
    nodes.map_values(|node: ProvenanceNode| node@)
}

/// Self-contained compact proof graph for one learned conflict.
#[derive(Clone, Debug, PartialEq, Eq, PartialOrd, Ord, Hash)]
pub struct ProvenanceDag {
    pub nodes: Vec<ProvenanceNode>,
    pub root: ProofNodeId,
}

/// Mathematical value of a [`ProvenanceDag`].
pub struct DagView {
    pub nodes: Seq<NodeView>,
    pub root: ProofNodeId,
}

impl View for ProvenanceDag {
    type V = DagView;

    open spec fn view(&self) -> DagView {
        DagView { nodes: node_views(self.nodes@), root: self.root }
    }
}

/// Canonical broad conflict core retained with a no-good.
#[derive(Clone, Debug, PartialEq, Eq, PartialOrd, Ord, Hash)]
pub struct ConflictCore {
    pub scope: NoGoodScope,
    pub rule: ConflictRule,
    pub decisions: Vec<DecisionId>,
    pub provenance: ProvenanceDag,
}

/// Mathematical value of a [`ConflictCore`].
pub struct CoreView {
    pub scope: NoGoodScope,
    pub rule: ConflictRule,
    pub decisions: Seq<DecisionId>,
    pub provenance: DagView,
}

impl View for ConflictCore {
    type V = CoreView;

    open spec fn view(&self) -> CoreView {
        CoreView {
            scope: self.scope,
            rule: self.rule,
            decisions: self.decisions@,
            provenance: self.provenance@,
        }
    }
}

/// One proof-carrying canonical no-good.
#[derive(Clone, Debug, PartialEq, Eq, PartialOrd, Ord, Hash)]
pub struct LearnedNoGood {
    pub core: ConflictCore,
}

impl View for LearnedNoGood {
    type V = CoreView;

    open spec fn view(&self) -> CoreView {
        self.core@
    }
}

// ---------------------------------------------------------------------------
// The total order that the derived `Ord` implementations define.
// ---------------------------------------------------------------------------
/// -1, 0 or 1 as `a` is below, equal to or above `b`.
pub open spec fn three_way(a: int, b: int) -> int {
    if a < b {
        -1
    } else if a > b {
        1
    } else {
        0
    }
}

/// Lexicographic order of two sequences under an element order; a proper
/// prefix comes first.
pub open spec fn lex<T>(a: Seq<T>, b: Seq<T>, elem: spec_fn(T, T) -> int) -> int
    decreases a.len(),
{
    if a.len() == 0 {
        if b.len() == 0 {
            0
        } else {
            -1
        }
    } else if b.len() == 0 {
        1
    } else if elem(a[0], b[0]) != 0 {
        elem(a[0], b[0])
    } else {
        lex(a.drop_first(), b.drop_first(), elem)
    }
}

pub open spec fn scope_rank(scope: NoGoodScope) -> int {
    match scope {
        NoGoodScope::SolveLocal => 0,
        NoGoodScope::GlobalStructural => 1,
    }
}

pub open spec fn rule_rank(rule: ConflictRule) -> int {
    match rule {
        ConflictRule::ExactPropagation => 0,
        ConflictRule::ExactCapacity => 1,
        ConflictRule::DynamicSccInconsistency => 2,
        ConflictRule::ConnectivityImpossibility => 3,
        ConflictRule::PortCompletionImpossibility => 4,
    }
}

/// Order of two identifiers of the same ranked kind.
pub open spec fn rank_order<T: RankedId>(a: T, b: T) -> int {
    three_way(a.rank(), b.rank())
}

pub open spec fn node_variant(node: NodeView) -> int {
    match node {
        NodeView::ScopeAxiom(_) => 0,
        NodeView::Decision(_) => 1,
        NodeView::Derived(_, _) => 2,
    }
}

/// The derived order of [`ProvenanceNode`]: variant first, then its fields.
pub open spec fn node_order(a: NodeView, b: NodeView) -> int {
    match (a, b) {
        (NodeView::ScopeAxiom(x), NodeView::ScopeAxiom(y)) => three_way(
            scope_rank(x),
            scope_rank(y),
        ),
        (NodeView::Decision(x), NodeView::Decision(y)) => three_way(x.0 as int, y.0 as int),
        (NodeView::Derived(r, p), NodeView::Derived(s, q)) => if rule_rank(r) != rule_rank(s) {
            three_way(rule_rank(r), rule_rank(s))
        } else {
            lex(p, q, |x: ProofNodeId, y: ProofNodeId| rank_order(x, y))
        },
        _ => three_way(node_variant(a), node_variant(b)),
    }
}

/// The derived order of [`ProvenanceDag`]: nodes, then root.
pub open spec fn dag_order(a: DagView, b: DagView) -> int {
    let by_nodes = lex(a.nodes, b.nodes, |x: NodeView, y: NodeView| node_order(x, y));
    if by_nodes != 0 {
        by_nodes
    } else {
        three_way(a.root.0 as int, b.root.0 as int)
    }
}

/// The derived order of [`ConflictCore`] (and so of [`LearnedNoGood`]).
pub open spec fn core_order(a: CoreView, b: CoreView) -> int {
    if scope_rank(a.scope) != scope_rank(b.scope) {
        three_way(scope_rank(a.scope), scope_rank(b.scope))
    } else if rule_rank(a.rule) != rule_rank(b.rule) {
        three_way(rule_rank(a.rule), rule_rank(b.rule))
    } else {
        let by_decisions = lex(
            a.decisions,
            b.decisions,
            |x: DecisionId, y: DecisionId| rank_order(x, y),
        );
        if by_decisions != 0 {
            by_decisions
        } else {
            dag_order(a.provenance, b.provenance)
        }
    }
}

fn scope_rank_value(scope: NoGoodScope) -> (r: u8)
    ensures
        r as int == scope_rank(scope),
{
    match scope {
        NoGoodScope::SolveLocal => 0,
        NoGoodScope::GlobalStructural => 1,
    }
}

fn rule_rank_value(rule: ConflictRule) -> (r: u8)
    ensures
        r as int == rule_rank(rule),
{
    match rule {
        ConflictRule::ExactPropagation => 0,
        ConflictRule::ExactCapacity => 1,
        ConflictRule::DynamicSccInconsistency => 2,
        ConflictRule::ConnectivityImpossibility => 3,
        ConflictRule::PortCompletionImpossibility => 4,
    }
}

fn three_way_value(a: u64, b: u64) -> (r: i8)
    ensures
        r as int == three_way(a as int, b as int),
{
    if a < b {
        -1
    } else if a > b {
        1
    } else {
        0
    }
}

proof fn lemma_lex_step<T>(a: Seq<T>, b: Seq<T>, elem: spec_fn(T, T) -> int, i: int)
    requires
        0 <= i < a.len(),
        i < b.len(),
        elem(a[i], b[i]) == 0,
    ensures
        lex(a.skip(i), b.skip(i), elem) == lex(a.skip(i + 1), b.skip(i + 1), elem),
{
    assert(a.skip(i).drop_first() =~= a.skip(i + 1));
    assert(b.skip(i).drop_first() =~= b.skip(i + 1));
}

/// Lexicographic order of two ranked-identifier vectors.
pub(crate) fn ranked_lex<T: RankedId>(a: &Vec<T>, b: &Vec<T>) -> (r: i8)
    ensures
        r as int == lex(a@, b@, |x: T, y: T| rank_order(x, y)),
{
    let ghost elem = |x: T, y: T| rank_order(x, y);
    let mut i: usize = 0;
    assert(a@.skip(0) =~= a@);
    assert(b@.skip(0) =~= b@);
    while i < a.len() && i < b.len()
        invariant
            i <= a.len(),
            i <= b.len(),
            elem == (|x: T, y: T| rank_order(x, y)),
            lex(a@, b@, elem) == lex(a@.skip(i as int), b@.skip(i as int), elem),
        decreases a.len() - i,
    {
        let c = three_way_value(a[i].rank_value(), b[i].rank_value());
        if c != 0 {
            assert(a@.skip(i as int)[0] == a@[i as int]);
            assert(b@.skip(i as int)[0] == b@[i as int]);
            return c;
        }
        proof {
            lemma_lex_step(a@, b@, elem, i as int);
        }
        i = i + 1;
    }
    if i < a.len() {
        1
    } else if i < b.len() {
        -1
    } else {
        0
    }
}

/// The derived order of two provenance nodes.
fn node_order_value(a: &ProvenanceNode, b: &ProvenanceNode) -> (r: i8)
    ensures
        r as int == node_order(a@, b@),
{
    match (a, b) {
        (ProvenanceNode::ScopeAxiom(x), ProvenanceNode::ScopeAxiom(y)) => three_way_value(
            scope_rank_value(*x) as u64,
            scope_rank_value(*y) as u64,
        ),
        (ProvenanceNode::Decision(x), ProvenanceNode::Decision(y)) => three_way_value(x.0, y.0),
        (
            ProvenanceNode::Derived { rule: r, parents: p },
            ProvenanceNode::Derived { rule: s, parents: q },
        ) => {
            let rr = rule_rank_value(*r);
            let sr = rule_rank_value(*s);
            if rr != sr {
                three_way_value(rr as u64, sr as u64)
            } else {
                ranked_lex(p, q)
            }
        },
        _ => {
            let va: u64 = match a {
                ProvenanceNode::ScopeAxiom(_) => 0,
                ProvenanceNode::Decision(_) => 1,
                ProvenanceNode::Derived { .. } => 2,
            };
            let vb: u64 = match b {
                ProvenanceNode::ScopeAxiom(_) => 0,
                ProvenanceNode::Decision(_) => 1,
                ProvenanceNode::Derived { .. } => 2,
            };
            three_way_value(va, vb)
        },
    }
}

/// Lexicographic order of two node vectors.
fn nodes_lex(a: &Vec<ProvenanceNode>, b: &Vec<ProvenanceNode>) -> (r: i8)
    ensures
        r as int == lex(
            node_views(a@),
            node_views(b@),
            |x: NodeView, y: NodeView| node_order(x, y),
        ),
{
    let ghost elem = |x: NodeView, y: NodeView| node_order(x, y);
    let ghost va = node_views(a@);
    let ghost vb = node_views(b@);
    let mut i: usize = 0;
    assert(va.skip(0) =~= va);
    assert(vb.skip(0) =~= vb);
    while i < a.len() && i < b.len()
        invariant
            i <= a.len(),
            i <= b.len(),
            va == node_views(a@),
            vb == node_views(b@),
            elem == (|x: NodeView, y: NodeView| node_order(x, y)),
            lex(va, vb, elem) == lex(va.skip(i as int), vb.skip(i as int), elem),
        decreases a.len() - i,
    {
        let c = node_order_value(&a[i], &b[i]);
        if c != 0 {
            assert(va.skip(i as int)[0] == va[i as int]);
            assert(vb.skip(i as int)[0] == vb[i as int]);
            return c;
        }
        proof {
            lemma_lex_step(va, vb, elem, i as int);
        }
        i = i + 1;
    }
    if i < a.len() {
        1
    } else if i < b.len() {
        -1
    } else {
        0
    }
}

/// Whether `a` precedes `b` in the derived order of learned no-goods.
fn learned_precedes(a: &LearnedNoGood, b: &LearnedNoGood) -> (r: bool)
    ensures
        r == (core_order(a@, b@) < 0),
{
    let sa = scope_rank_value(a.core.scope);
    let sb = scope_rank_value(b.core.scope);
    if sa != sb {
        return sa < sb;
    }
    let ra = rule_rank_value(a.core.rule);
    let rb = rule_rank_value(b.core.rule);
    if ra != rb {
        return ra < rb;
    }
    let by_decisions = ranked_lex(&a.core.decisions, &b.core.decisions);
    if by_decisions != 0 {
        return by_decisions < 0;
    }
    let by_nodes = nodes_lex(&a.core.provenance.nodes, &b.core.provenance.nodes);
    if by_nodes != 0 {
        return by_nodes < 0;
    }
    a.core.provenance.root.0 < b.core.provenance.root.0
}


/// Whether the parent chain of the root of `dag` reaches a node that is the
/// decision `decision`.
pub open spec fn reached_decision(dag: DagView, decision: DecisionId) -> bool {
    exists|i: int|
        0 <= i < dag.nodes.len() && #[trigger] reaches(dag.nodes, dag.root.0 as int, i)
            && dag.nodes[i] == NodeView::Decision(decision)
}

/// Whether the node sequence holds the axiom of `scope`.
pub open spec fn holds_scope_axiom(nodes: Seq<NodeView>, scope: NoGoodScope) -> bool {
    exists|i: int| 0 <= i < nodes.len() && nodes[i] == NodeView::ScopeAxiom(scope)
}

impl ProvenanceDag {
    /// Returns the structural decisions reachable from this proof root,
    /// ascending and without repeats.
    pub fn decisions(&self) -> (decisions: Vec<DecisionId>)
        ensures
            strictly_increasing(decisions@),
            forall|d: DecisionId| #[trigger]
                decisions@.contains(d) <==> reached_decision(self@, d),
    {
        let marks = reachable_marks(&self.nodes, self.root);
        let ghost nodes_view = self@.nodes;
        let ghost r = self.root.0 as int;
        let mut found: Vec<DecisionId> = Vec::new();
        let mut i: usize = 0;
        while i < self.nodes.len()
            invariant
                i <= self.nodes.len(),
                nodes_view == self@.nodes,
                r == self.root.0 as int,
                marks.len() == self.nodes.len(),
                forall|k: int| 0 <= k < self.nodes.len() ==> (#[trigger] marks@[k] <==> reaches(nodes_view, r, k)),
                forall|d: DecisionId| #[trigger]
                    found@.contains(d) <==> exists|k: int|
                        0 <= k < i && #[trigger] marks@[k] && nodes_view[k] == NodeView::Decision(d),
            decreases self.nodes.len() - i,
        {
            let ghost before = found@;
            if marks[i] {
                match &self.nodes[i] {
                    ProvenanceNode::Decision(decision) => {
                        found.push(*decision);
                    },
                    ProvenanceNode::ScopeAxiom(_) | ProvenanceNode::Derived { .. } => {},
                }
            }
            proof {
                assert(nodes_view[i as int] == self.nodes@[i as int]@);
                assert forall|d: DecisionId| #[trigger]
                    found@.contains(d) <==> exists|k: int|
                        0 <= k < i + 1 && #[trigger] marks@[k] && nodes_view[k] == NodeView::Decision(d) by {
                    if found@.contains(d) {
                        let j = choose|j: int| 0 <= j < found@.len() && found@[j] == d;
                        if j < before.len() {
                            assert(before[j] == d);
                            assert(before.contains(d));
                        } else {
                            assert(marks@[i as int] && nodes_view[i as int] == NodeView::Decision(d));
                        }
                    }
                    if exists|k: int|
                        0 <= k < i + 1 && #[trigger] marks@[k] && nodes_view[k] == NodeView::Decision(d) {
                        let k = choose|k: int|
                            0 <= k < i + 1 && #[trigger] marks@[k] && nodes_view[k] == NodeView::Decision(d);
                        if k < i {
                            assert(before.contains(d));
                            let j = choose|j: int| 0 <= j < before.len() && before[j] == d;
                            assert(found@[j] == d);
                        } else {
                            assert(found@[found@.len() - 1] == d);
                        }
                    }
                }
            }
            i = i + 1;
        }
        proof {
            assert forall|d: DecisionId| #[trigger]
                found@.contains(d) <==> reached_decision(self@, d) by {
                if found@.contains(d) {
                    let k = choose|k: int|
                        0 <= k < i && #[trigger] marks@[k] && nodes_view[k] == NodeView::Decision(d);
                    assert(reaches(nodes_view, r, k));
                    assert(nodes_view.len() == self.nodes.len());
                    assert(0 <= k < self@.nodes.len() && reaches(self@.nodes, self@.root.0 as int, k)
                        && self@.nodes[k] == NodeView::Decision(d));
                }
                if reached_decision(self@, d) {
                    let k = choose|k: int|
                        0 <= k < nodes_view.len() && #[trigger] reaches(nodes_view, r, k)
                            && nodes_view[k] == NodeView::Decision(d);
                    assert(nodes_view.len() == self.nodes.len());
                    assert(marks@[k]);
                    assert(0 <= k < i && marks@[k] && nodes_view[k] == NodeView::Decision(d));
                }
            }
        }
        sorted_unique(&found)
    }
}

/// Marks, for each node, whether the parent chain of `root` reaches it.
/// Parent references outside the sequence lead nowhere.
pub fn reachable_marks(nodes: &Vec<ProvenanceNode>, root: ProofNodeId) -> (marks: Vec<bool>)
    ensures
        marks.len() == nodes.len(),
        forall|i: int|
            0 <= i < nodes.len() ==> (#[trigger] marks@[i] <==> reaches(node_views(nodes@), root.0 as int, i)),
{
    let ghost nv = node_views(nodes@);
    let ghost r = root.0 as int;
    let n = nodes.len();
    let mut marks: Vec<bool> = Vec::new();
    while marks.len() < n
        invariant
            marks.len() <= n,
            forall|k: int| 0 <= k < marks.len() ==> !marks@[k],
        decreases n - marks.len(),
    {
        marks.push(false);
    }
    let mut pending: Vec<ProofNodeId> = Vec::new();
    pending.push(root);
    assert(pending@[0] == root);
    assert forall|members: Set<int>|
        #[trigger] closed_under_parents(nv, members) && members.contains(r)
            implies members.contains(r) by {}
    while pending.len() > 0
        invariant
            nv == node_views(nodes@),
            n == nodes.len(),
            nv.len() == n,
            r == root.0 as int,
            marks.len() == n,
            forall|k: int| 0 <= k < pending.len() ==> reaches(nv, r, (#[trigger] pending@[k]).0 as int),
            forall|i: int| 0 <= i < n && #[trigger] marks@[i] ==> reaches(nv, r, i),
            r >= n || marks@[r] || pending@.contains(root),
            forall|i: int, k: int|
                #![trigger marks@[i], parents_of(nv[i])[k]]
                0 <= i < n && marks@[i] && 0 <= k < parents_of(nv[i]).len() ==> (
                parents_of(nv[i])[k].0 >= n || marks@[parents_of(nv[i])[k].0 as int]
                    || pending@.contains(parents_of(nv[i])[k])),
        decreases count_unmarked(marks@), pending.len(),
    {
        let ghost before_pending = pending@;
        let popped = pending.pop();
        let node = match popped {
            Some(node) => node,
            None => {
                assert(false);
                root
            },
        };
        assert(before_pending =~= pending@.push(node));
        assert(reaches(nv, r, node.0 as int)) by {
            assert(before_pending[before_pending.len() - 1] == node);
        }
        let index = node.0 as usize;
        if index >= n || marks[index] {
            proof {
                assert forall|i: int, k: int|
                    0 <= i < n && marks@[i] && 0 <= k < parents_of(nv[i]).len()
                    implies (parents_of(nv[i])[k].0 >= n || marks@[parents_of(nv[i])[k].0 as int]
                    || pending@.contains(parents_of(nv[i])[k])) by {
                    let p = parents_of(nv[i])[k];
                    if p.0 < n && !marks@[p.0 as int] {
                        assert(before_pending.contains(p));
                        let m = choose|m: int| 0 <= m < before_pending.len() && before_pending[m] == p;
                        if m < pending@.len() {
                            assert(pending@[m] == p);
                        } else {
                            assert(p == node);
                        }
                    }
                }
                if r < n && !marks@[r] {
                    assert(before_pending.contains(root));
                    let m = choose|m: int| 0 <= m < before_pending.len() && before_pending[m] == root;
                    if m < pending@.len() {
                        assert(pending@[m] == root);
                    } else {
                        assert(node == root);
                    }
                }
            }
        } else {
            let ghost before_marks = marks@;
            marks.set(index, true);
            proof {
                lemma_mark_decreases(before_marks, index as int);
            }
            let ghost after_pop = pending@;
            match &nodes[index] {
                ProvenanceNode::Derived { parents, .. } => {
                    assert(nv[index as int] == nodes@[index as int]@);
                    let mut k: usize = 0;
                    while k < parents.len()
                        invariant
                            parents_of(nv[index as int]) == parents@,
                            k <= parents.len(),
                            pending@ == after_pending_prefix(after_pop, parents@, k as int),
                        decreases parents.len() - k,
                    {
                        pending.push(parents[k]);
                        assert(pending@ =~= after_pending_prefix(after_pop, parents@, k + 1));
                        k = k + 1;
                    }
                    proof {
                        assert(pending@ =~= after_pop + parents@);
                    }
                },
                ProvenanceNode::ScopeAxiom(_) | ProvenanceNode::Decision(_) => {
                    assert(nv[index as int] == nodes@[index as int]@);
                    assert(parents_of(nv[index as int]).len() == 0);
                    assert(pending@ =~= after_pop + parents_of(nv[index as int]));
                },
            }
            proof {
                let ps = parents_of(nv[index as int]);
                assert(pending@ =~= after_pop + ps);
                assert forall|k: int| 0 <= k < pending@.len() implies reaches(
                    nv,
                    r,
                    (#[trigger] pending@[k]).0 as int,
                ) by {
                    if k < after_pop.len() {
                        assert(before_pending[k] == pending@[k]);
                    } else {
                        let j = k - after_pop.len();
                        assert(pending@[k] == ps[j]);
                        assert forall|members: Set<int>|
                            #[trigger] closed_under_parents(nv, members) && members.contains(r)
                                implies members.contains(ps[j].0 as int) by {
                            assert(members.contains(index as int));
                        }
                    }
                }
                assert forall|i: int, k: int|
                    0 <= i < n && marks@[i] && 0 <= k < parents_of(nv[i]).len()
                    implies (parents_of(nv[i])[k].0 >= n || marks@[parents_of(nv[i])[k].0 as int]
                    || pending@.contains(parents_of(nv[i])[k])) by {
                    let p = parents_of(nv[i])[k];
                    if i == index {
                        assert(pending@[after_pop.len() + k] == p);
                    } else if p.0 < n && !marks@[p.0 as int] {
                        assert(before_marks[i]);
                        assert(!before_marks[p.0 as int]);
                        assert(before_pending.contains(p));
                        let m = choose|m: int| 0 <= m < before_pending.len() && before_pending[m] == p;
                        if m < after_pop.len() {
                            assert(pending@[m] == p);
                        } else {
                            assert(p == node);
                        }
                    }
                }
                if r < n && !marks@[r] {
                    assert(before_pending.contains(root));
                    let m = choose|m: int| 0 <= m < before_pending.len() && before_pending[m] == root;
                    if m < after_pop.len() {
                        assert(pending@[m] == root);
                    } else {
                        assert(node == root);
                    }
                }
            }
        }
    }
    // The marked nodes, with every reference outside the sequence, form a
    // parent-closed set that holds the root.
    let ghost closed = Set::new(|i: int| !(0 <= i < n) || marks@[i]);
    proof {
        assert(closed_under_parents(nv, closed)) by {
            assert forall|i: int, k: int|
                closed.contains(i) && 0 <= i < nv.len() && 0 <= k < parents_of(nv[i]).len()
                implies closed.contains(parents_of(nv[i])[k].0 as int) by {
                assert(marks@[i]);
                assert(!pending@.contains(parents_of(nv[i])[k]));
            }
        }
        assert(!pending@.contains(root));
        assert(closed.contains(r));
        assert forall|i: int| 0 <= i < nodes.len() implies (#[trigger] marks@[i] <==> reaches(nv, r, i)) by {
            if reaches(nv, r, i) {
                assert(closed.contains(i));
            }
        }
    }
    marks
}

/// The provenance that a broad core built from `decisions` carries.
pub open spec fn broad_provenance(
    scope: NoGoodScope,
    rule: ConflictRule,
    decisions: Seq<DecisionId>,
) -> DagView {
    DagView {
        nodes: seq![NodeView::ScopeAxiom(scope)] + decisions.map_values(
            |d: DecisionId| NodeView::Decision(d),
        ) + seq![
            NodeView::Derived(
                rule,
                Seq::new(decisions.len() + 1, |i: int| ProofNodeId(i as u32)),
            ),
        ],
        root: ProofNodeId((decisions.len() + 1) as u32),
    }
}

impl ConflictCore {
    /// Constructs a stable broad core from every active decision.
    ///
    /// The scope axiom represents exact fixed problem/profile semantics for a
    /// local conflict, or only structural invariants for a structural conflict.
    /// Retaining extra decisions can reduce reuse but cannot create a false hit.
    pub fn from_active_decisions(
        scope: NoGoodScope,
        rule: ConflictRule,
        decisions: Vec<DecisionId>,
    ) -> (core: ConflictCore)
        requires
            decisions@.to_set().len() < u32::MAX,
        ensures
            core.scope == scope,
            core.rule == rule,
            strictly_increasing(core.decisions@),
            forall|d: DecisionId| #[trigger]
                core.decisions@.contains(d) <==> decisions@.contains(d),
            core.provenance@ == broad_provenance(scope, rule, core.decisions@),
    {
        let active = decisions;
        let decisions = sorted_unique(&active);
        proof {
            lemma_strictly_increasing_no_duplicates(decisions@);
            decisions@.unique_seq_to_set();
            assert(decisions@.to_set() =~= active@.to_set());
        }
        let count = decisions.len();
        let mut nodes: Vec<ProvenanceNode> = Vec::new();
        nodes.push(ProvenanceNode::ScopeAxiom(scope));
        let mut i: usize = 0;
        while i < count
            invariant
                count == decisions.len(),
                count < u32::MAX,
                i <= count,
                node_views(nodes@) == seq![NodeView::ScopeAxiom(scope)] + decisions@.subrange(
                    0,
                    i as int,
                ).map_values(|d: DecisionId| NodeView::Decision(d)),
            decreases count - i,
        {
            let ghost prev = nodes@;
            nodes.push(ProvenanceNode::Decision(decisions[i]));
            assert(node_views(nodes@) =~= node_views(prev).push(
                NodeView::Decision(decisions@[i as int]),
            ));
            assert(decisions@.subrange(0, i + 1) =~= decisions@.subrange(0, i as int).push(
                decisions@[i as int],
            ));
            assert(node_views(nodes@) =~= seq![NodeView::ScopeAxiom(scope)] + decisions@.subrange(
                0,
                i + 1,
            ).map_values(|d: DecisionId| NodeView::Decision(d)));
            i = i + 1;
        }
        assert(decisions@.subrange(0, count as int) =~= decisions@);
        let total = nodes.len();
        let mut parents: Vec<ProofNodeId> = Vec::new();
        let mut index: usize = 0;
        while index < total
            invariant
                total == count + 1,
                count < u32::MAX,
                index <= total,
                parents@ =~= Seq::new(index as nat, |k: int| ProofNodeId(k as u32)),
            decreases total - index,
        {
            parents.push(ProofNodeId(index as u32));
            index = index + 1;
        }
        let root = ProofNodeId(total as u32);
        nodes.push(ProvenanceNode::Derived { rule, parents });
        let core = ConflictCore { scope, rule, decisions, provenance: ProvenanceDag { nodes, root } };
        assert(core.provenance@.nodes =~= broad_provenance(scope, rule, core.decisions@).nodes);
        core
    }

    /// Builds a core from the exact proof retained by propagation, recovering
    /// precisely its decision leaves.
    pub fn from_provenance(
        scope: NoGoodScope,
        rule: ConflictRule,
        provenance: ProvenanceDag,
    ) -> (core: ConflictCore)
        requires
            holds_scope_axiom(provenance@.nodes, scope),
        ensures
            core.scope == scope,
            core.rule == rule,
            core.provenance@ == provenance@,
            strictly_increasing(core.decisions@),
            forall|d: DecisionId| #[trigger]
                core.decisions@.contains(d) <==> reached_decision(provenance@, d),
    {
        let decisions = provenance.decisions();
        ConflictCore { scope, rule, decisions, provenance }
    }
}


/// Parent references of a node; only derived facts have parents.
pub open spec fn parents_of(node: NodeView) -> Seq<ProofNodeId> {
    match node {
        NodeView::Derived(_, parents) => parents,
        _ => Seq::empty(),
    }
}

/// Every parent reference points to an earlier node.
pub open spec fn parents_precede(nodes: Seq<NodeView>) -> bool {
    forall|i: int, k: int|
        #![trigger parents_of(nodes[i])[k]]
        0 <= i < nodes.len() && 0 <= k < parents_of(nodes[i]).len() ==> parents_of(
            nodes[i],
        )[k].0 < i
}

/// No node value is stored twice.
pub open spec fn distinct_nodes(nodes: Seq<NodeView>) -> bool {
    forall|i: int, j: int| 0 <= i < nodes.len() && 0 <= j < nodes.len() && i != j ==> nodes[i] != nodes[j]
}

/// Shape of a recorder's node sequence: a scope axiom first, node ids that fit
/// `u32`, no repeated node, and parents before children.
pub open spec fn recorder_shape(nodes: Seq<NodeView>) -> bool {
    &&& 1 <= nodes.len() <= u32::MAX as int + 1
    &&& nodes[0] is ScopeAxiom
    &&& distinct_nodes(nodes)
    &&& parents_precede(nodes)
}

/// The node sequence after interning `node`.
pub open spec fn interned(nodes: Seq<NodeView>, node: NodeView) -> Seq<NodeView> {
    if nodes.contains(node) {
        nodes
    } else {
        nodes.push(node)
    }
}

/// The identity that interning `node` returns.
pub open spec fn interned_id(nodes: Seq<NodeView>, node: NodeView) -> int {
    if nodes.contains(node) {
        choose|i: int| 0 <= i < nodes.len() && nodes[i] == node
    } else {
        nodes.len() as int
    }
}

/// Interning each node of `added` in turn.
pub open spec fn replay(nodes: Seq<NodeView>, added: Seq<NodeView>) -> Seq<NodeView>
    decreases added.len(),
{
    if added.len() == 0 {
        nodes
    } else {
        interned(replay(nodes, added.drop_last()), added.last())
    }
}

/// The ascending, duplicate-free arrangement of a parent list.
pub open spec fn canonical_parents(parents: Seq<ProofNodeId>) -> Seq<ProofNodeId> {
    choose|sorted: Seq<ProofNodeId>|
        strictly_increasing(sorted) && forall|p: ProofNodeId| sorted.contains(p) <==> parents.contains(p)
}

/// Whether two provenance nodes have the same value.
fn same_node(a: &ProvenanceNode, b: &ProvenanceNode) -> (same: bool)
    ensures
        same == (a@ == b@),
{
    match (a, b) {
        (ProvenanceNode::ScopeAxiom(x), ProvenanceNode::ScopeAxiom(y)) => scope_rank_value(*x)
            == scope_rank_value(*y),
        (ProvenanceNode::Decision(x), ProvenanceNode::Decision(y)) => x.0 == y.0,
        (
            ProvenanceNode::Derived { rule: r, parents: p },
            ProvenanceNode::Derived { rule: s, parents: q },
        ) => {
            if rule_rank_value(*r) != rule_rank_value(*s) {
                return false;
            }
            if p.len() != q.len() {
                assert(p@.len() != q@.len());
                assert(p@ != q@);
                return false;
            }
            assert(a@ == NodeView::Derived(*r, p@));
            assert(b@ == NodeView::Derived(*s, q@));
            let mut i: usize = 0;
            while i < p.len()
                invariant
                    a@ == NodeView::Derived(*r, p@),
                    b@ == NodeView::Derived(*s, q@),
                    p.len() == q.len(),
                    i <= p.len(),
                    forall|k: int| 0 <= k < i ==> p@[k] == q@[k],
                decreases p.len() - i,
            {
                if p[i].0 != q[i].0 {
                    assert(p@[i as int] != q@[i as int]);
                    assert(p@ != q@);
                    return false;
                }
                i = i + 1;
            }
            assert(p@ =~= q@);
            true
        },
        _ => false,
    }
}

/// Append-only, interned proof storage shared by all facts in one branch.
///
/// Parents always precede children. A checkpoint is therefore one length, and
/// rollback restores both node identity and interning exactly. The node
/// sequence is its own interning index: a node's identity is its position.
pub struct ProvenanceRecorder {
    nodes: Vec<ProvenanceNode>,
    scope_root: ProofNodeId,
}

impl View for ProvenanceRecorder {
    type V = Seq<NodeView>;

    closed spec fn view(&self) -> Seq<NodeView> {
        node_views(self.nodes@)
    }
}

impl ProvenanceRecorder {
    /// Internal consistency of the recorder.
    pub closed spec fn wf(&self) -> bool {
        recorder_shape(self@) && self.scope_root.0 == 0
    }

    /// A recorder holding only the axiom of `scope`.
    pub fn new(scope: NoGoodScope) -> (recorder: Self)
        ensures
            recorder.wf(),
            recorder@ == seq![NodeView::ScopeAxiom(scope)],
    {
        let mut nodes: Vec<ProvenanceNode> = Vec::new();
        nodes.push(ProvenanceNode::ScopeAxiom(scope));
        let recorder = ProvenanceRecorder { nodes, scope_root: ProofNodeId(0) };
        assert(recorder@ =~= seq![NodeView::ScopeAxiom(scope)]);
        recorder
    }

    /// The identity of the scope axiom.
    pub fn scope_root(&self) -> (root: ProofNodeId)
        requires
            self.wf(),
        ensures
            root.0 == 0,
            (root.0 as int) < self@.len(),
            self@[root.0 as int] is ScopeAxiom,
    {
        self.scope_root
    }

    /// The current length, to which [`Self::rollback`] can later return.
    pub fn checkpoint(&self) -> (checkpoint: usize)
        ensures
            checkpoint == self@.len(),
    {
        self.nodes.len()
    }

    /// Forgets every node recorded after `checkpoint`.
    pub fn rollback(&mut self, checkpoint: usize)
        requires
            old(self).wf(),
            0 < checkpoint <= old(self)@.len(),
        ensures
            final(self).wf(),
            final(self)@ == old(self)@.subrange(0, checkpoint as int),
    {
        self.nodes.truncate(checkpoint);
        assert(self@ =~= old(self)@.subrange(0, checkpoint as int));
    }

    /// The identity of the node of one structural decision.
    pub fn decision(&mut self, decision: DecisionId) -> (id: ProofNodeId)
        requires
            old(self).wf(),
            old(self)@.len() <= u32::MAX || old(self)@.contains(NodeView::Decision(decision)),
        ensures
            final(self).wf(),
            final(self)@ == interned(old(self)@, NodeView::Decision(decision)),
            id.0 == interned_id(old(self)@, NodeView::Decision(decision)),
    {
        self.intern(ProvenanceNode::Decision(decision))
    }

    /// The identity of the fact derived by `rule` from `parents`; parents are
    /// stored ascending and without repeats.
    pub fn derived(&mut self, rule: ConflictRule, parents: Vec<ProofNodeId>) -> (id: ProofNodeId)
        requires
            old(self).wf(),
            forall|k: int| 0 <= k < parents@.len() ==> parents@[k].0 < old(self)@.len(),
            old(self)@.len() <= u32::MAX || old(self)@.contains(
                NodeView::Derived(rule, canonical_parents(parents@)),
            ),
        ensures
            final(self).wf(),
            final(self)@ == interned(
                old(self)@,
                NodeView::Derived(rule, canonical_parents(parents@)),
            ),
            id.0 == interned_id(old(self)@, NodeView::Derived(rule, canonical_parents(parents@))),
    {
        let sorted = sorted_unique(&parents);
        proof {
            let c = canonical_parents(parents@);
            assert(strictly_increasing(sorted@) && forall|p: ProofNodeId|
                sorted@.contains(p) <==> parents@.contains(p));
            assert(strictly_increasing(c) && forall|p: ProofNodeId|
                c.contains(p) <==> parents@.contains(p));
            crate::sorted::lemma_strictly_increasing_unique(sorted@, c);
            assert forall|k: int| 0 <= k < sorted@.len() implies sorted@[k].0 < old(self)@.len() by {
                assert(sorted@.contains(sorted@[k]));
                assert(parents@.contains(sorted@[k]));
            }
        }
        self.intern(ProvenanceNode::Derived { rule, parents: sorted })
    }

    fn intern(&mut self, node: ProvenanceNode) -> (id: ProofNodeId)
        requires
            old(self).wf(),
            forall|k: int|
                0 <= k < parents_of(node@).len() ==> parents_of(node@)[k].0 < old(self)@.len(),
            old(self)@.len() <= u32::MAX || old(self)@.contains(node@),
            !(node@ is ScopeAxiom) || old(self)@.contains(node@),
        ensures
            final(self).wf(),
            final(self)@ == interned(old(self)@, node@),
            id.0 == interned_id(old(self)@, node@),
    {
        let mut i: usize = 0;
        while i < self.nodes.len()
            invariant
                self.wf(),
                i <= self.nodes.len(),
                forall|k: int| 0 <= k < i ==> self@[k] != node@,
            decreases self.nodes.len() - i,
        {
            if same_node(&self.nodes[i], &node) {
                assert(self@[i as int] == node@);
                assert(self@.contains(node@));
                let ghost c = choose|c: int| 0 <= c < self@.len() && self@[c] == node@;
                assert(c == i);
                return ProofNodeId(i as u32);
            }
            i = i + 1;
        }
        assert(!self@.contains(node@));
        let id = ProofNodeId(self.nodes.len() as u32);
        let ghost before = self@;
        self.nodes.push(node);
        assert(self@ =~= before.push(node@));
        proof {
            assert forall|a: int, b: int|
                0 <= a < self@.len() && 0 <= b < self@.len() && a != b implies self@[a]
                != self@[b] by {
                if a == before.len() {
                    assert(before.contains(self@[b]) || b == before.len());
                } else if b == before.len() {
                    assert(before.contains(self@[a]));
                }
            }
        }
        id
    }
}

/// Every recorder operation only appends, so rolling back to a checkpoint
/// taken when the recorder held `before` restores exactly `before`; interning
/// the same nodes again then yields the same state and the same identities.
pub proof fn law_rollback_restores_checkpoint(before: Seq<NodeView>, added: Seq<NodeView>)
    ensures
        replay(before, added).len() >= before.len(),
        replay(before, added).subrange(0, before.len() as int) == before,
        replay(replay(before, added).subrange(0, before.len() as int), added) == replay(
            before,
            added,
        ),
    decreases added.len(),
{
    if added.len() > 0 {
        law_rollback_restores_checkpoint(before, added.drop_last());
        let prev = replay(before, added.drop_last());
        assert(interned(prev, added.last()).subrange(0, before.len() as int) =~= prev.subrange(
            0,
            before.len() as int,
        ));
    } else {
        assert(before.subrange(0, before.len() as int) =~= before);
    }
}


/// Every parent of a member of `members` is a member too.
pub open spec fn closed_under_parents(nodes: Seq<NodeView>, members: Set<int>) -> bool {
    forall|i: int, k: int|
        #![trigger members.contains(i), parents_of(nodes[i])[k]]
        members.contains(i) && 0 <= i < nodes.len() && 0 <= k < parents_of(nodes[i]).len()
            ==> members.contains(parents_of(nodes[i])[k].0 as int)
}

/// Node `i` lies in every parent-closed set that holds `root`, i.e. the
/// parent chain of `root` reaches it.
pub open spec fn reaches(nodes: Seq<NodeView>, root: int, i: int) -> bool {
    forall|members: Set<int>|
        #[trigger] closed_under_parents(nodes, members) && members.contains(root)
            ==> members.contains(i)
}

/// `renamed` is `original` with each parent reference `p` replaced by the
/// position of `p` in `kept`.
pub open spec fn renamed_node(original: NodeView, renamed: NodeView, kept: Seq<int>) -> bool {
    match (original, renamed) {
        (NodeView::ScopeAxiom(a), NodeView::ScopeAxiom(b)) => a == b,
        (NodeView::Decision(a), NodeView::Decision(b)) => a == b,
        (NodeView::Derived(r, p), NodeView::Derived(s, q)) => {
            &&& r == s
            &&& p.len() == q.len()
            &&& forall|k: int|
                0 <= k < q.len() ==> (0 <= (#[trigger] q[k]).0 < kept.len() && kept[q[k].0 as int]
                    == p[k].0)
        },
        _ => false,
    }
}

/// `kept` lists, ascending, exactly the nodes that the parent chain of `root` reaches.
pub open spec fn reachable_in_order(nodes: Seq<NodeView>, root: int, kept: Seq<int>) -> bool {
    &&& forall|a: int, b: int| 0 <= a < b < kept.len() ==> kept[a] < kept[b]
    &&& forall|j: int|
        0 <= j < kept.len() ==> 0 <= #[trigger] kept[j] < nodes.len() && reaches(nodes, root, kept[j])
    &&& forall|i: int| 0 <= i < nodes.len() && reaches(nodes, root, i) ==> kept.contains(i)
}

/// `dag` is the proof of `root` cut out of `nodes`: the reachable nodes in
/// their original order, parents renumbered, and the root last.
pub open spec fn is_extraction(nodes: Seq<NodeView>, root: int, dag: DagView) -> bool {
    exists|kept: Seq<int>| #[trigger] extraction_by(nodes, root, dag, kept)
}

/// `dag` keeps, in order, the original nodes listed by `kept`.
pub open spec fn extraction_by(nodes: Seq<NodeView>, root: int, dag: DagView, kept: Seq<int>) -> bool {
    &&& reachable_in_order(nodes, root, kept)
    &&& kept.len() == dag.nodes.len()
    &&& kept.len() > 0
    &&& kept.last() == root
    &&& dag.root.0 == kept.len() - 1
    &&& forall|j: int|
        0 <= j < kept.len() ==> renamed_node(nodes[kept[j]], #[trigger] dag.nodes[j], kept)
}

/// Number of `false` entries.
pub open spec fn count_unmarked(marks: Seq<bool>) -> nat
    decreases marks.len(),
{
    if marks.len() == 0 {
        0
    } else {
        count_unmarked(marks.drop_last()) + if marks.last() {
            0nat
        } else {
            1nat
        }
    }
}

pub proof fn lemma_mark_decreases(marks: Seq<bool>, i: int)
    requires
        0 <= i < marks.len(),
        !marks[i],
    ensures
        count_unmarked(marks.update(i, true)) + 1 == count_unmarked(marks),
    decreases marks.len(),
{
    let updated = marks.update(i, true);
    if i == marks.len() - 1 {
        assert(updated.drop_last() =~= marks.drop_last());
    } else {
        assert(updated.drop_last() =~= marks.drop_last().update(i, true));
        lemma_mark_decreases(marks.drop_last(), i);
    }
}

/// In a shape-respecting node sequence every node reached from `root` is at most `root`.
proof fn lemma_reached_not_after_root(nodes: Seq<NodeView>, root: int, i: int)
    requires
        parents_precede(nodes),
        reaches(nodes, root, i),
    ensures
        i <= root,
{
    let below = Set::new(|x: int| x <= root);
    assert(closed_under_parents(nodes, below)) by {
        assert forall|x: int, k: int|
            below.contains(x) && 0 <= x < nodes.len() && 0 <= k < parents_of(nodes[x]).len()
            implies below.contains(parents_of(nodes[x])[k].0 as int) by {
            assert(parents_of(nodes[x])[k].0 < x);
        }
    }
    assert(below.contains(root));
}

impl ProvenanceRecorder {
    /// Cuts out the self-contained proof of `root`: exactly the nodes its
    /// parent chain reaches, in their original order, renumbered.
    pub fn extract(&self, root: ProofNodeId) -> (dag: ProvenanceDag)
        requires
            self.wf(),
            root.0 < self@.len(),
        ensures
            is_extraction(self@, root.0 as int, dag@),
            parents_precede(dag@.nodes),
    {
        let ghost nodes_view = self@;
        let ghost r = root.0 as int;
        let n = self.nodes.len();
        let root_index = root.0 as usize;
        let mut reachable: Vec<bool> = Vec::new();
        while reachable.len() < n
            invariant
                reachable.len() <= n,
                forall|k: int| 0 <= k < reachable.len() ==> !reachable@[k],
            decreases n - reachable.len(),
        {
            reachable.push(false);
        }
        let mut pending: Vec<ProofNodeId> = Vec::new();
        pending.push(root);
        assert(pending@[0] == ProofNodeId(r as u32));
        assert forall|members: Set<int>|
            #[trigger] closed_under_parents(nodes_view, members) && members.contains(r)
                implies members.contains(r) by {}
        while pending.len() > 0
            invariant
                self.wf(),
                nodes_view == self@,
                n == self@.len(),
                r == root_index,
                0 <= r < n,
                reachable.len() == n,
                forall|k: int|
                    0 <= k < pending.len() ==> (#[trigger] pending@[k]).0 < n && reaches(
                        nodes_view,
                        r,
                        pending@[k].0 as int,
                    ),
                forall|i: int| 0 <= i < n && #[trigger] reachable@[i] ==> reaches(nodes_view, r, i),
                reachable@[r] || pending@.contains(ProofNodeId(r as u32)),
                forall|i: int, k: int|
                    #![trigger reachable@[i], parents_of(nodes_view[i])[k]]
                    0 <= i < n && reachable@[i] && 0 <= k < parents_of(nodes_view[i]).len() ==> (
                    reachable@[parents_of(nodes_view[i])[k].0 as int] || pending@.contains(
                        parents_of(nodes_view[i])[k],
                    )),
            decreases count_unmarked(reachable@), pending.len(),
        {
            let ghost before_pending = pending@;
            let popped = pending.pop();
            let node = match popped {
                Some(node) => node,
                None => {
                    assert(false);
                    root
                },
            };
            assert(before_pending =~= pending@.push(node));
            let index = node.0 as usize;
            assert(reaches(nodes_view, r, index as int)) by {
                assert(before_pending[before_pending.len() - 1] == node);
            }
            if reachable[index] {
                proof {
                    assert forall|i: int, k: int|
                        0 <= i < n && reachable@[i] && 0 <= k < parents_of(nodes_view[i]).len()
                        implies (reachable@[parents_of(nodes_view[i])[k].0 as int]
                        || pending@.contains(parents_of(nodes_view[i])[k])) by {
                        let p = parents_of(nodes_view[i])[k];
                        if !reachable@[p.0 as int] {
                            assert(before_pending.contains(p));
                            let m = choose|m: int| 0 <= m < before_pending.len() && before_pending[m] == p;
                            if m < pending@.len() {
                                assert(pending@[m] == p);
                            } else {
                                assert(p == node);
                            }
                        }
                    }
                    if !reachable@[r] {
                        assert(before_pending.contains(ProofNodeId(r as u32)));
                        let m = choose|m: int|
                            0 <= m < before_pending.len() && before_pending[m] == ProofNodeId(
                                r as u32,
                            );
                        if m < pending@.len() {
                            assert(pending@[m] == ProofNodeId(r as u32));
                        }
                    }
                }
            } else {
                let ghost before_marks = reachable@;
                reachable.set(index, true);
                proof {
                    lemma_mark_decreases(before_marks, index as int);
                }
                let ghost after_pop = pending@;
                match &self.nodes[index] {
                    ProvenanceNode::Derived { parents, .. } => {
                        assert(nodes_view[index as int] == self.nodes@[index as int]@);
                        let mut k: usize = 0;
                        while k < parents.len()
                            invariant
                                self.wf(),
                                nodes_view == self@,
                                n == self@.len(),
                                0 <= r < n,
                                index < n,
                                parents_of(nodes_view[index as int]) == parents@,
                                reaches(nodes_view, r, index as int),
                                k <= parents.len(),
                                pending@ == after_pending_prefix(after_pop, parents@, k as int),
                            decreases parents.len() - k,
                        {
                            pending.push(parents[k]);
                            assert(pending@ =~= after_pending_prefix(
                                after_pop,
                                parents@,
                                k + 1,
                            ));
                            k = k + 1;
                        }
                        proof {
                            assert(pending@ =~= after_pop + parents@);
                        }
                    },
                    ProvenanceNode::ScopeAxiom(_) | ProvenanceNode::Decision(_) => {
                        assert(parents_of(nodes_view[index as int]).len() == 0);
                        assert(pending@ =~= after_pop + parents_of(nodes_view[index as int]));
                    },
                }
                proof {
                    let ps = parents_of(nodes_view[index as int]);
                    assert(pending@ =~= after_pop + ps);
                    assert forall|k: int| 0 <= k < pending@.len() implies (#[trigger] pending@[k]).0
                        < n && reaches(nodes_view, r, pending@[k].0 as int) by {
                        if k < after_pop.len() {
                            assert(before_pending[k] == pending@[k]);
                        } else {
                            let j = k - after_pop.len();
                            assert(pending@[k] == ps[j]);
                            assert(ps[j].0 < index);
                            assert forall|members: Set<int>|
                                #[trigger] closed_under_parents(nodes_view, members)
                                    && members.contains(r) implies members.contains(
                                ps[j].0 as int,
                            ) by {
                                assert(members.contains(index as int));
                            }
                        }
                    }
                    assert forall|i: int, k: int|
                        0 <= i < n && reachable@[i] && 0 <= k < parents_of(nodes_view[i]).len()
                        implies (reachable@[parents_of(nodes_view[i])[k].0 as int]
                        || pending@.contains(parents_of(nodes_view[i])[k])) by {
                        let p = parents_of(nodes_view[i])[k];
                        if i == index {
                            assert(pending@[after_pop.len() + k] == p);
                        } else if !reachable@[p.0 as int] {
                            assert(before_marks[i]);
                            assert(!before_marks[p.0 as int]);
                            assert(before_pending.contains(p));
                            let m = choose|m: int| 0 <= m < before_pending.len() && before_pending[m] == p;
                            if m < after_pop.len() {
                                assert(pending@[m] == p);
                            } else {
                                assert(p == node);
                                assert(reachable@[p.0 as int]);
                            }
                        }
                    }
                    if !reachable@[r] {
                        assert(before_pending.contains(ProofNodeId(r as u32)));
                        let m = choose|m: int|
                            0 <= m < before_pending.len() && before_pending[m] == ProofNodeId(
                                r as u32,
                            );
                        if m < after_pop.len() {
                            assert(pending@[m] == ProofNodeId(r as u32));
                        }
                    }
                }
            }
        }
        // The marked set is closed under parents and holds the root, so it is
        // exactly the set the root reaches.
        let ghost marked = Set::new(|i: int| 0 <= i < n && reachable@[i]);
        proof {
            assert(closed_under_parents(nodes_view, marked)) by {
                assert forall|i: int, k: int|
                    marked.contains(i) && 0 <= i < nodes_view.len() && 0 <= k < parents_of(
                        nodes_view[i],
                    ).len() implies marked.contains(parents_of(nodes_view[i])[k].0 as int) by {
                    let p = parents_of(nodes_view[i])[k];
                    assert(reachable@[i]);
                    assert(p.0 < i);
                    assert(!pending@.contains(p));
                }
            }
            assert(!pending@.contains(ProofNodeId(r as u32)));
            assert(marked.contains(r));
        }
        let mut remap: Vec<u32> = Vec::new();
        while remap.len() < n
            invariant
                remap.len() <= n,
            decreases n - remap.len(),
        {
            remap.push(0);
        }
        let mut nodes: Vec<ProvenanceNode> = Vec::new();
        let ghost mut kept: Seq<int> = Seq::empty();
        let mut old_index: usize = 0;
        while old_index < n
            invariant
                self.wf(),
                nodes_view == self@,
                n == self@.len(),
                0 <= r < n,
                reachable.len() == n,
                remap.len() == n,
                old_index <= n,
                closed_under_parents(nodes_view, marked),
                marked.contains(r),
                forall|i: int| #[trigger] marked.contains(i) <==> 0 <= i < n && reachable@[i],
                forall|i: int| 0 <= i < n && #[trigger] reachable@[i] ==> reaches(nodes_view, r, i),
                forall|a: int, b: int| 0 <= a < b < kept.len() ==> kept[a] < kept[b],
                forall|j: int| 0 <= j < kept.len() ==> 0 <= #[trigger] kept[j] < old_index && reachable@[kept[j]],
                forall|i: int| 0 <= i < old_index && reachable@[i] ==> kept.contains(i),
                nodes.len() == kept.len(),
                kept.len() <= old_index,
                forall|j: int| 0 <= j < kept.len() ==> remap@[#[trigger] kept[j]] == j,
                forall|j: int|
                    0 <= j < kept.len() ==> renamed_node(
                        nodes_view[kept[j]],
                        #[trigger] node_views(nodes@)[j],
                        kept,
                    ),
            decreases n - old_index,
        {
            if reachable[old_index] {
                let new_id = nodes.len() as u32;
                remap.set(old_index, new_id);
                let ghost next_kept = kept.push(old_index as int);
                let remapped = match &self.nodes[old_index] {
                    ProvenanceNode::Derived { rule, parents } => {
                        assert(nodes_view[old_index as int] == NodeView::Derived(*rule, parents@));
                        let mut mapped: Vec<ProofNodeId> = Vec::new();
                        let mut k: usize = 0;
                        while k < parents.len()
                            invariant
                                self.wf(),
                                nodes_view == self@,
                                n == self@.len(),
                                old_index < n,
                                remap.len() == n,
                                nodes_view[old_index as int] == NodeView::Derived(*rule, parents@),
                                reachable@[old_index as int],
                                reachable.len() == n,
                                closed_under_parents(nodes_view, marked),
                                forall|i: int| #[trigger] marked.contains(i) <==> 0 <= i < n && reachable@[i],
                                forall|i: int| 0 <= i < old_index && reachable@[i] ==> kept.contains(i),
                                forall|j: int| 0 <= j < kept.len() ==> remap@[#[trigger] kept[j]] == j,
                                kept.len() <= old_index,
                                k <= parents.len(),
                                mapped.len() == k,
                                forall|m: int|
                                    0 <= m < k ==> 0 <= (#[trigger] mapped@[m]).0 < kept.len() && kept[mapped@[m].0 as int] == parents@[m].0,
                            decreases parents.len() - k,
                        {
                            let parent = parents[k];
                            proof {
                                assert(parents_of(nodes_view[old_index as int])[k as int] == parent);
                                assert(parent.0 < old_index);
                                assert(marked.contains(old_index as int));
                                assert(marked.contains(parent.0 as int));
                                assert(kept.contains(parent.0 as int));
                            }
                            let target = remap[parent.0 as usize];
                            proof {
                                let j = choose|j: int| 0 <= j < kept.len() && kept[j] == parent.0 as int;
                                assert(remap@[kept[j]] == j);
                                assert(target == j);
                            }
                            mapped.push(ProofNodeId(target));
                            k = k + 1;
                        }
                        ProvenanceNode::Derived { rule: *rule, parents: mapped }
                    },
                    ProvenanceNode::ScopeAxiom(scope) => ProvenanceNode::ScopeAxiom(*scope),
                    ProvenanceNode::Decision(decision) => ProvenanceNode::Decision(*decision),
                };
                assert(renamed_node(nodes_view[old_index as int], remapped@, kept));
                let ghost before_nodes = nodes@;
                let ghost old_kept = kept;
                nodes.push(remapped);
                proof {
                    assert(node_views(nodes@) =~= node_views(before_nodes).push(remapped@));
                    kept = next_kept;
                    assert forall|j: int| 0 <= j < kept.len() implies renamed_node(
                        nodes_view[kept[j]],
                        #[trigger] node_views(nodes@)[j],
                        kept,
                    ) by {
                        if j < old_kept.len() {
                            assert(node_views(nodes@)[j] == node_views(before_nodes)[j]);
                            assert(kept[j] == old_kept[j]);
                            lemma_renamed_extends(
                                nodes_view[old_kept[j]],
                                node_views(before_nodes)[j],
                                old_kept,
                                old_index as int,
                            );
                        } else {
                            assert(node_views(nodes@)[j] == remapped@);
                            assert(kept[j] == old_index);
                            lemma_renamed_extends(
                                nodes_view[old_index as int],
                                remapped@,
                                old_kept,
                                old_index as int,
                            );
                        }
                    }
                    assert forall|i: int| 0 <= i < old_index + 1 && reachable@[i] implies kept.contains(i) by {
                        if i == old_index {
                            assert(kept[kept.len() - 1] == i);
                        } else {
                            assert(old_kept.contains(i));
                            let j = choose|j: int| 0 <= j < old_kept.len() && old_kept[j] == i;
                            assert(kept[j] == i);
                        }
                    }
                    assert forall|j: int| 0 <= j < kept.len() implies remap@[#[trigger] kept[j]] == j by {
                        if j < old_kept.len() {
                            assert(kept[j] == old_kept[j]);
                            assert(old_kept[j] < old_index);
                        }
                    }
                }
            }
            old_index = old_index + 1;
        }
        proof {
            assert(kept.contains(r));
            let jr = choose|j: int| 0 <= j < kept.len() && kept[j] == r;
            assert forall|j: int| 0 <= j < kept.len() implies kept[j] <= r by {
                lemma_reached_not_after_root(nodes_view, r, kept[j]);
            }
            if jr < kept.len() - 1 {
                assert(kept[jr] < kept[kept.len() - 1]);
            }
            assert(jr == kept.len() - 1);
            assert(remap@[r] == jr);
        }
        let dag = ProvenanceDag { nodes, root: ProofNodeId(remap[root_index]) };
        proof {
            assert(reachable_in_order(nodes_view, r, kept));
            assert(dag@.nodes == node_views(dag.nodes@));
            assert(extraction_by(nodes_view, r, dag@, kept));
            assert forall|j: int, k: int|
                #![trigger parents_of(dag@.nodes[j])[k]]
                0 <= j < dag@.nodes.len() && 0 <= k < parents_of(dag@.nodes[j]).len()
                implies parents_of(dag@.nodes[j])[k].0 < j by {
                assert(renamed_node(nodes_view[kept[j]], dag@.nodes[j], kept));
                let q = parents_of(dag@.nodes[j]);
                let p = parents_of(nodes_view[kept[j]]);
                assert(p.len() == q.len() && kept[q[k].0 as int] == p[k].0) by {
                    match nodes_view[kept[j]] {
                        NodeView::Derived(_, _) => {
                            assert(q[k] == q[k]);
                        },
                        _ => {},
                    }
                }
                assert(p[k].0 < kept[j]);
                if q[k].0 >= j {
                    if q[k].0 > j {
                        assert(kept[j] < kept[q[k].0 as int]);
                    }
                }
            }
        }
        dag
    }
}

/// `pending` after the first `k` parents were pushed onto `base`.
pub open spec fn after_pending_prefix(
    base: Seq<ProofNodeId>,
    parents: Seq<ProofNodeId>,
    k: int,
) -> Seq<ProofNodeId> {
    base + parents.subrange(0, k)
}

proof fn lemma_renamed_extends(original: NodeView, renamed: NodeView, kept: Seq<int>, next: int)
    requires
        renamed_node(original, renamed, kept),
    ensures
        renamed_node(original, renamed, kept.push(next)),
{
    match original {
        NodeView::Derived(r, p) => match renamed {
            NodeView::Derived(s, q) => {
                assert forall|k: int| 0 <= k < q.len() implies (0 <= q[k].0 < kept.push(next).len()
                    && kept.push(next)[q[k].0 as int] == p[k].0) by {
                    assert(renamed_node(original, renamed, kept));
                    assert(0 <= q[k].0 < kept.len() && kept[q[k].0 as int] == p[k].0);
                }
            },
            _ => {},
        },
        _ => {},
    }
}


/// Canonical identity of the decisions in one conflict core.
///
/// `decision_count` is stored explicitly so lookup can enumerate only current
/// link subsets of relevant cardinalities. `state` is the canonical induced
/// core projection, never the incidental full state where the proof was found.
#[derive(Clone, Debug, PartialEq, Eq, PartialOrd, Ord, Hash)]
pub struct CanonicalNoGoodKey {
    decision_count: u32,
    state: StateKey,
}

impl View for CanonicalNoGoodKey {
    type V = (u32, Seq<u8>);

    closed spec fn view(&self) -> (u32, Seq<u8>) {
        (self.decision_count, self.state@)
    }
}

impl CanonicalNoGoodKey {
    /// Builds a key when the core cardinality fits the stable count type.
    pub fn new(decision_count: usize, state: StateKey) -> (key: Option<Self>)
        ensures
            key is Some <==> decision_count <= u32::MAX,
            key matches Some(k) ==> k@ == (decision_count as u32, state@),
    {
        if decision_count > u32::MAX as usize {
            return None;
        }
        Some(CanonicalNoGoodKey { decision_count: decision_count as u32, state })
    }

    /// Number of distinct structural decisions represented by the key.
    pub fn decision_count(&self) -> (count: u32)
        ensures
            count == self@.0,
    {
        self.decision_count
    }

    /// Canonical induced-state identity of the represented decisions.
    pub fn state(&self) -> (state: &StateKey)
        ensures
            state@ == self@.1,
    {
        &self.state
    }

    fn same_as(&self, other: &CanonicalNoGoodKey) -> (same: bool)
        ensures
            same == (self@ == other@),
    {
        self.decision_count == other.decision_count && self.state.same_as(&other.state)
    }
}

/// The stored value of one table entry.
pub open spec fn entry_view(entry: (CanonicalNoGoodKey, LearnedNoGood)) -> ((u32, Seq<u8>), CoreView) {
    (entry.0@, entry.1@)
}

/// The keyed contents of an entry list, later entries winning.
pub open spec fn entries_map(entries: Seq<((u32, Seq<u8>), CoreView)>) -> Map<(u32, Seq<u8>), CoreView>
    decreases entries.len(),
{
    if entries.len() == 0 {
        Map::empty()
    } else {
        entries_map(entries.drop_last()).insert(entries.last().0, entries.last().1)
    }
}

/// No key is stored twice.
pub open spec fn distinct_keys(entries: Seq<((u32, Seq<u8>), CoreView)>) -> bool {
    forall|i: int, j: int|
        0 <= i < entries.len() && 0 <= j < entries.len() && i != j ==> entries[i].0 != entries[j].0
}

/// The table after learning `core` under `key`: the smaller of the stored and
/// the new proof in the derived order is kept, so the result does not depend
/// on the order in which equal-key proofs arrive.
pub open spec fn retained(
    table: Map<(u32, Seq<u8>), CoreView>,
    key: (u32, Seq<u8>),
    core: CoreView,
) -> Map<(u32, Seq<u8>), CoreView> {
    if table.dom().contains(key) && core_order(core, table[key]) >= 0 {
        table
    } else {
        table.insert(key, core)
    }
}

/// The core cardinalities stored in `table` that are at most `maximum`.
pub open spec fn counts_through(table: Map<(u32, Seq<u8>), CoreView>, maximum: int, count: usize) -> bool {
    count <= maximum && exists|key: (u32, Seq<u8>)| #[trigger] table.dom().contains(key) && key.0 == count
}

proof fn lemma_entries_map(entries: Seq<((u32, Seq<u8>), CoreView)>)
    requires
        distinct_keys(entries),
    ensures
        entries_map(entries).dom().finite(),
        entries_map(entries).len() == entries.len(),
        forall|key: (u32, Seq<u8>)| #[trigger]
            entries_map(entries).dom().contains(key) <==> exists|i: int|
                0 <= i < entries.len() && entries[i].0 == key,
        forall|i: int| 0 <= i < entries.len() ==> #[trigger] entries_map(entries)[entries[i].0] == entries[i].1,
    decreases entries.len(),
{
    if entries.len() > 0 {
        let rest = entries.drop_last();
        assert(distinct_keys(rest));
        lemma_entries_map(rest);
        let last = entries.last();
        assert(!entries_map(rest).dom().contains(last.0)) by {
            if entries_map(rest).dom().contains(last.0) {
                let i = choose|i: int| 0 <= i < rest.len() && rest[i].0 == last.0;
                assert(entries[i].0 == entries[entries.len() - 1].0);
            }
        }
        assert forall|key: (u32, Seq<u8>)| #[trigger]
            entries_map(entries).dom().contains(key) <==> exists|i: int|
                0 <= i < entries.len() && entries[i].0 == key by {
            if entries_map(entries).dom().contains(key) && key != last.0 {
                let i = choose|i: int| 0 <= i < rest.len() && rest[i].0 == key;
                assert(entries[i].0 == key);
            }
            if exists|i: int| 0 <= i < entries.len() && entries[i].0 == key {
                let i = choose|i: int| 0 <= i < entries.len() && entries[i].0 == key;
                if i < rest.len() {
                    assert(rest[i].0 == key);
                }
            }
        }
        assert forall|i: int| 0 <= i < entries.len() implies #[trigger] entries_map(entries)[entries[i].0]
            == entries[i].1 by {
            if i < rest.len() {
                assert(rest[i] == entries[i]);
                assert(entries[i].0 != last.0);
            }
        }
    }
}

proof fn lemma_entries_map_update(
    entries: Seq<((u32, Seq<u8>), CoreView)>,
    i: int,
    value: CoreView,
)
    requires
        distinct_keys(entries),
        0 <= i < entries.len(),
    ensures
        distinct_keys(entries.update(i, (entries[i].0, value))),
        entries_map(entries.update(i, (entries[i].0, value))) == entries_map(entries).insert(
            entries[i].0,
            value,
        ),
    decreases entries.len(),
{
    let updated = entries.update(i, (entries[i].0, value));
    assert(distinct_keys(updated)) by {
        assert forall|a: int, b: int|
            0 <= a < updated.len() && 0 <= b < updated.len() && a != b implies updated[a].0
            != updated[b].0 by {
            assert(updated[a].0 == entries[a].0);
            assert(updated[b].0 == entries[b].0);
        }
    }
    if i == entries.len() - 1 {
        assert(updated.drop_last() =~= entries.drop_last());
        assert(entries_map(updated) =~= entries_map(entries).insert(entries[i].0, value));
    } else {
        let rest = entries.drop_last();
        assert(updated.drop_last() =~= rest.update(i, (rest[i].0, value)));
        assert(distinct_keys(rest));
        lemma_entries_map_update(rest, i, value);
        assert(entries[i].0 != entries.last().0);
        assert(entries_map(updated) =~= entries_map(entries).insert(entries[i].0, value));
    }
}

/// Position of `key` among the entries, if stored.
fn position_of(entries: &Vec<(CanonicalNoGoodKey, LearnedNoGood)>, key: &CanonicalNoGoodKey) -> (found: Option<usize>)
    ensures
        found matches Some(i) ==> i < entries@.len() && entries@[i as int].0@ == key@,
        found is None ==> forall|i: int| 0 <= i < entries@.len() ==> entries@[i].0@ != key@,
{
    let mut i: usize = 0;
    while i < entries.len()
        invariant
            i <= entries.len(),
            forall|k: int| 0 <= k < i ==> entries@[k].0@ != key@,
        decreases entries.len() - i,
    {
        if entries[i].0.same_as(key) {
            return Some(i);
        }
        i = i + 1;
    }
    None
}

/// Keeps the smaller of the stored and the candidate proof for `key`.
fn retain_deterministic(
    entries: &mut Vec<(CanonicalNoGoodKey, LearnedNoGood)>,
    key: CanonicalNoGoodKey,
    candidate: LearnedNoGood,
)
    requires
        distinct_keys(old(entries)@.map_values(|e: (CanonicalNoGoodKey, LearnedNoGood)| entry_view(e))),
    ensures
        distinct_keys(final(entries)@.map_values(|e: (CanonicalNoGoodKey, LearnedNoGood)| entry_view(e))),
        entries_map(final(entries)@.map_values(|e: (CanonicalNoGoodKey, LearnedNoGood)| entry_view(e)))
            == retained(
            entries_map(old(entries)@.map_values(|e: (CanonicalNoGoodKey, LearnedNoGood)| entry_view(e))),
            key@,
            candidate@,
        ),
{
    let ghost before = old(entries)@.map_values(|e: (CanonicalNoGoodKey, LearnedNoGood)| entry_view(e));
    proof {
        lemma_entries_map(before);
    }
    match position_of(entries, &key) {
        Some(i) => {
            if learned_precedes(&candidate, &entries[i].1) {
                let ghost stored_key = entries@[i as int].0;
                entries.set(i, (key, candidate));
                proof {
                    lemma_entries_map_update(before, i as int, candidate@);
                    assert(entries@.map_values(|e: (CanonicalNoGoodKey, LearnedNoGood)| entry_view(e))
                        =~= before.update(i as int, (before[i as int].0, candidate@)));
                }
            } else {
                assert(entries@.map_values(|e: (CanonicalNoGoodKey, LearnedNoGood)| entry_view(e)) == before);
            }
        },
        None => {
            assert(!entries_map(before).dom().contains(key@));
            entries.push((key, candidate));
            proof {
                let after = entries@.map_values(|e: (CanonicalNoGoodKey, LearnedNoGood)| entry_view(e));
                assert(after =~= before.push((key@, candidate@)));
                assert(after.drop_last() =~= before);
                assert(distinct_keys(after)) by {
                    assert forall|a: int, b: int|
                        0 <= a < after.len() && 0 <= b < after.len() && a != b implies after[a].0
                        != after[b].0 by {
                        if a == before.len() {
                            assert(entries@[b].0@ != key@);
                        } else if b == before.len() {
                            assert(entries@[a].0@ != key@);
                        }
                    }
                }
            }
        },
    }
}

/// Sorted core cardinalities that can fit in a current state of `maximum` links.
fn decision_counts_through(
    entries: &Vec<(CanonicalNoGoodKey, LearnedNoGood)>,
    maximum: usize,
) -> (counts: Vec<usize>)
    requires
        distinct_keys(entries@.map_values(|e: (CanonicalNoGoodKey, LearnedNoGood)| entry_view(e))),
    ensures
        strictly_increasing(counts@),
        forall|count: usize| #[trigger] counts@.contains(count) <==> counts_through(
            entries_map(entries@.map_values(|e: (CanonicalNoGoodKey, LearnedNoGood)| entry_view(e))),
            maximum as int,
            count,
        ),
{
    let ghost view = entries@.map_values(|e: (CanonicalNoGoodKey, LearnedNoGood)| entry_view(e));
    proof {
        lemma_entries_map(view);
    }
    let mut counts: Vec<usize> = Vec::new();
    let mut i: usize = 0;
    while i < entries.len()
        invariant
            i <= entries.len(),
            view == entries@.map_values(|e: (CanonicalNoGoodKey, LearnedNoGood)| entry_view(e)),
            forall|count: usize| #[trigger] counts@.contains(count) <==> (count <= maximum && exists|k: int|
                0 <= k < i && view[k].0.0 == count),
        decreases entries.len() - i,
    {
        let count = entries[i].0.decision_count();
        let ghost before = counts@;
        if (count as u64) <= (maximum as u64) {
            counts.push(count as usize);
        }
        proof {
            assert(view[i as int].0.0 == count);
            assert forall|c: usize| #[trigger] counts@.contains(c) <==> (c <= maximum && exists|k: int|
                0 <= k < i + 1 && view[k].0.0 == c) by {
                if counts@.contains(c) {
                    let m = choose|m: int| 0 <= m < counts@.len() && counts@[m] == c;
                    if m < before.len() {
                        assert(before.contains(c));
                    }
                }
                if c <= maximum && exists|k: int| 0 <= k < i + 1 && view[k].0.0 == c {
                    let k = choose|k: int| 0 <= k < i + 1 && view[k].0.0 == c;
                    if k < i {
                        assert(before.contains(c));
                        let m = choose|m: int| 0 <= m < before.len() && before[m] == c;
                        assert(counts@[m] == c);
                    } else {
                        assert(counts@[counts@.len() - 1] == c);
                    }
                }
            }
        }
        i = i + 1;
    }
    let sorted = sorted_unique(&counts);
    proof {
        let table = entries_map(view);
        assert forall|count: usize| #[trigger] sorted@.contains(count) <==> counts_through(table, maximum as int, count) by {
            if counts@.contains(count) {
                let k = choose|k: int| 0 <= k < view.len() && view[k].0.0 == count;
                assert(table.dom().contains(view[k].0));
            }
            if counts_through(table, maximum as int, count) {
                let key = choose|key: (u32, Seq<u8>)| #[trigger] table.dom().contains(key) && key.0 == count;
                let k = choose|k: int| 0 <= k < view.len() && view[k].0 == key;
                assert(view[k].0.0 == count);
            }
        }
    }
    sorted
}

/// Per-profile exact-rate/capacity decision-core no-goods.
pub struct SolveLocalNoGoods {
    entries: Vec<(CanonicalNoGoodKey, LearnedNoGood)>,
}

impl View for SolveLocalNoGoods {
    type V = Map<(u32, Seq<u8>), CoreView>;

    closed spec fn view(&self) -> Map<(u32, Seq<u8>), CoreView> {
        entries_map(self.entries@.map_values(|e: (CanonicalNoGoodKey, LearnedNoGood)| entry_view(e)))
    }
}

impl Default for SolveLocalNoGoods {
    fn default() -> (store: Self)
        ensures
            store.wf(),
            store@ == Map::<(u32, Seq<u8>), CoreView>::empty(),
    {
        let store = SolveLocalNoGoods { entries: Vec::new() };
        assert(store.entries@.map_values(|e: (CanonicalNoGoodKey, LearnedNoGood)| entry_view(e)) =~= Seq::empty());
        store
    }
}

impl SolveLocalNoGoods {
    /// No key is stored twice.
    pub closed spec fn wf(&self) -> bool {
        distinct_keys(self.entries@.map_values(|e: (CanonicalNoGoodKey, LearnedNoGood)| entry_view(e)))
    }

    pub fn contains(&self, key: &CanonicalNoGoodKey) -> (found: bool)
        requires
            self.wf(),
        ensures
            found == self@.dom().contains(key@),
    {
        proof {
            lemma_entries_map(self.entries@.map_values(|e: (CanonicalNoGoodKey, LearnedNoGood)| entry_view(e)));
        }
        let found = position_of(&self.entries, key);
        proof {
            if let Some(i) = found {
                assert(self.entries@.map_values(|e: (CanonicalNoGoodKey, LearnedNoGood)| entry_view(e))[i as int].0 == key@);
            }
        }
        found.is_some()
    }

    /// Stores the proof of a local conflict; of two proofs for one key the
    /// smaller in the derived order is kept.
    pub fn learn(&mut self, key: CanonicalNoGoodKey, core: ConflictCore)
        requires
            old(self).wf(),
        ensures
            final(self).wf(),
            final(self)@ == retained(old(self)@, key@, core@),
            final(self)@.dom().finite(),
    {
        retain_deterministic(&mut self.entries, key, LearnedNoGood { core });
        proof {
            lemma_entries_map(self.entries@.map_values(|e: (CanonicalNoGoodKey, LearnedNoGood)| entry_view(e)));
        }
    }

    /// Sorted core cardinalities that can fit in a current state of `maximum` links.
    pub fn decision_counts_through(&self, maximum: usize) -> (counts: Vec<usize>)
        requires
            self.wf(),
        ensures
            strictly_increasing(counts@),
            forall|count: usize| #[trigger] counts@.contains(count) <==> counts_through(self@, maximum as int, count),
    {
        decision_counts_through(&self.entries, maximum)
    }

    pub fn len(&self) -> (count: usize)
        requires
            self.wf(),
        ensures
            count == self@.len(),
            self@.dom().finite(),
    {
        proof {
            lemma_entries_map(self.entries@.map_values(|e: (CanonicalNoGoodKey, LearnedNoGood)| entry_view(e)));
        }
        self.entries.len()
    }

    pub fn is_empty(&self) -> (empty: bool)
        requires
            self.wf(),
        ensures
            empty == (self@.len() == 0),
    {
        proof {
            lemma_entries_map(self.entries@.map_values(|e: (CanonicalNoGoodKey, LearnedNoGood)| entry_view(e)));
        }
        self.entries.len() == 0
    }

    /// The proof stored for `key`, if any.
    pub fn get(&self, key: &CanonicalNoGoodKey) -> (stored: Option<&LearnedNoGood>)
        requires
            self.wf(),
        ensures
            stored is Some <==> self@.dom().contains(key@),
            stored matches Some(learned) ==> learned@ == self@[key@],
    {
        let ghost view = self.entries@.map_values(|e: (CanonicalNoGoodKey, LearnedNoGood)| entry_view(e));
        proof {
            lemma_entries_map(view);
        }
        match position_of(&self.entries, key) {
            Some(i) => {
                assert(view[i as int].0 == key@);
                Some(&self.entries[i].1)
            },
            None => {
                proof {
                    if self@.dom().contains(key@) {
                        let i = choose|i: int| 0 <= i < view.len() && view[i].0 == key@;
                        assert(self.entries@[i].0@ == key@);
                    }
                }
                None
            },
        }
    }
}

/// Problem-independent structural decision cores shared by proof workers.
pub struct StructuralNoGoodStore {
    entries: Vec<(CanonicalNoGoodKey, LearnedNoGood)>,
}

impl View for StructuralNoGoodStore {
    type V = Map<(u32, Seq<u8>), CoreView>;

    closed spec fn view(&self) -> Map<(u32, Seq<u8>), CoreView> {
        entries_map(self.entries@.map_values(|e: (CanonicalNoGoodKey, LearnedNoGood)| entry_view(e)))
    }
}

impl Default for StructuralNoGoodStore {
    fn default() -> (store: Self)
        ensures
            store.wf(),
            store@ == Map::<(u32, Seq<u8>), CoreView>::empty(),
    {
        let store = StructuralNoGoodStore { entries: Vec::new() };
        assert(store.entries@.map_values(|e: (CanonicalNoGoodKey, LearnedNoGood)| entry_view(e)) =~= Seq::empty());
        store
    }
}

impl StructuralNoGoodStore {
    /// No key is stored twice.
    pub closed spec fn wf(&self) -> bool {
        distinct_keys(self.entries@.map_values(|e: (CanonicalNoGoodKey, LearnedNoGood)| entry_view(e)))
    }

    pub fn contains(&self, key: &CanonicalNoGoodKey) -> (found: bool)
        requires
            self.wf(),
        ensures
            found == self@.dom().contains(key@),
    {
        proof {
            lemma_entries_map(self.entries@.map_values(|e: (CanonicalNoGoodKey, LearnedNoGood)| entry_view(e)));
        }
        let found = position_of(&self.entries, key);
        proof {
            if let Some(i) = found {
                assert(self.entries@.map_values(|e: (CanonicalNoGoodKey, LearnedNoGood)| entry_view(e))[i as int].0 == key@);
            }
        }
        found.is_some()
    }

    /// Stores the proof of a structural conflict; of two proofs for one key
    /// the smaller in the derived order is kept.
    pub fn learn(&mut self, key: CanonicalNoGoodKey, core: ConflictCore)
        requires
            old(self).wf(),
        ensures
            final(self).wf(),
            final(self)@ == retained(old(self)@, key@, core@),
            final(self)@.dom().finite(),
    {
        retain_deterministic(&mut self.entries, key, LearnedNoGood { core });
        proof {
            lemma_entries_map(self.entries@.map_values(|e: (CanonicalNoGoodKey, LearnedNoGood)| entry_view(e)));
        }
    }

    pub fn len(&self) -> (count: usize)
        requires
            self.wf(),
        ensures
            count == self@.len(),
            self@.dom().finite(),
    {
        proof {
            lemma_entries_map(self.entries@.map_values(|e: (CanonicalNoGoodKey, LearnedNoGood)| entry_view(e)));
        }
        self.entries.len()
    }

    pub fn is_empty(&self) -> (empty: bool)
        requires
            self.wf(),
        ensures
            empty == (self@.len() == 0),
    {
        proof {
            lemma_entries_map(self.entries@.map_values(|e: (CanonicalNoGoodKey, LearnedNoGood)| entry_view(e)));
        }
        self.entries.len() == 0
    }

    /// Sorted core cardinalities that can fit in a current state of `maximum` links.
    pub fn decision_counts_through(&self, maximum: usize) -> (counts: Vec<usize>)
        requires
            self.wf(),
        ensures
            strictly_increasing(counts@),
            forall|count: usize| #[trigger] counts@.contains(count) <==> counts_through(self@, maximum as int, count),
    {
        decision_counts_through(&self.entries, maximum)
    }

    /// The proof stored for `key`, if any.
    pub fn get(&self, key: &CanonicalNoGoodKey) -> (stored: Option<&LearnedNoGood>)
        requires
            self.wf(),
        ensures
            stored is Some <==> self@.dom().contains(key@),
            stored matches Some(learned) ==> learned@ == self@[key@],
    {
        let ghost view = self.entries@.map_values(|e: (CanonicalNoGoodKey, LearnedNoGood)| entry_view(e));
        proof {
            lemma_entries_map(view);
        }
        match position_of(&self.entries, key) {
            Some(i) => {
                assert(view[i as int].0 == key@);
                Some(&self.entries[i].1)
            },
            None => {
                proof {
                    if self@.dom().contains(key@) {
                        let i = choose|i: int| 0 <= i < view.len() && view[i].0 == key@;
                        assert(self.entries@[i].0@ == key@);
                    }
                }
                None
            },
        }
    }
}


// ---------------------------------------------------------------------------
// The derived order is a total order, so keeping the smaller proof makes the
// stored proof independent of the order of learning.
// ---------------------------------------------------------------------------
/// `order` is antisymmetric, identifies only equal values, and is transitive.
pub open spec fn is_total_order<T>(order: spec_fn(T, T) -> int) -> bool {
    &&& forall|x: T, y: T| #[trigger] order(x, y) == -order(y, x)
    &&& forall|x: T, y: T| #[trigger] order(x, y) == 0 ==> x == y
    &&& forall|x: T, y: T, z: T|
        #[trigger] order(x, y) < 0 && #[trigger] order(y, z) < 0 ==> order(x, z) < 0
}

pub(crate) proof fn lemma_lex_antisymmetric<T>(a: Seq<T>, b: Seq<T>, order: spec_fn(T, T) -> int)
    requires
        is_total_order(order),
    ensures
        lex(a, b, order) == -lex(b, a, order),
    decreases a.len(),
{
    if a.len() > 0 && b.len() > 0 && order(a[0], b[0]) == 0 {
        assert(order(b[0], a[0]) == 0);
        lemma_lex_antisymmetric(a.drop_first(), b.drop_first(), order);
    } else if a.len() > 0 && b.len() > 0 {
        assert(order(a[0], b[0]) == -order(b[0], a[0]));
    }
}

pub(crate) proof fn lemma_lex_zero_equal<T>(a: Seq<T>, b: Seq<T>, order: spec_fn(T, T) -> int)
    requires
        is_total_order(order),
        lex(a, b, order) == 0,
    ensures
        a == b,
    decreases a.len(),
{
    if a.len() > 0 {
        assert(b.len() > 0);
        assert(order(a[0], b[0]) == 0);
        lemma_lex_zero_equal(a.drop_first(), b.drop_first(), order);
        assert(a =~= seq![a[0]] + a.drop_first());
        assert(b =~= seq![b[0]] + b.drop_first());
    } else {
        assert(b.len() == 0);
        assert(a =~= b);
    }
}

pub(crate) proof fn lemma_lex_transitive<T>(a: Seq<T>, b: Seq<T>, c: Seq<T>, order: spec_fn(T, T) -> int)
    requires
        is_total_order(order),
        lex(a, b, order) < 0,
        lex(b, c, order) < 0,
    ensures
        lex(a, c, order) < 0,
    decreases a.len(),
{
    if a.len() > 0 && c.len() > 0 {
        assert(b.len() > 0);
        let (x, y, z) = (a[0], b[0], c[0]);
        if order(x, y) == 0 && order(y, z) == 0 {
            assert(x == y && y == z);
            lemma_lex_transitive(a.drop_first(), b.drop_first(), c.drop_first(), order);
        } else if order(x, y) == 0 {
            assert(x == y);
        } else if order(y, z) == 0 {
            assert(y == z);
        } else {
            assert(order(x, y) < 0 && order(y, z) < 0);
        }
    } else if a.len() > 0 {
        assert(b.len() > 0);
    }
}

pub(crate) proof fn lemma_rank_order_total<T: RankedId>()
    ensures
        is_total_order(|x: T, y: T| rank_order(x, y)),
{
    let ord = |x: T, y: T| rank_order(x, y);
    assert forall|x: T, y: T| #[trigger] ord(x, y) == 0 implies x == y by {
        T::lemma_rank_injective(x, y);
    }
}

proof fn lemma_node_order_total()
    ensures
        is_total_order(|x: NodeView, y: NodeView| node_order(x, y)),
{
    let parent_order = |x: ProofNodeId, y: ProofNodeId| rank_order(x, y);
    lemma_rank_order_total::<ProofNodeId>();
    let ord = |x: NodeView, y: NodeView| node_order(x, y);
    assert forall|x: NodeView, y: NodeView| #[trigger] ord(x, y) == -ord(y, x) by {
        if let (NodeView::Derived(_, p), NodeView::Derived(_, q)) = (x, y) {
            lemma_lex_antisymmetric(p, q, parent_order);
        }
    }
    assert forall|x: NodeView, y: NodeView| #[trigger] ord(x, y) == 0 implies x == y by {
        match (x, y) {
            (NodeView::ScopeAxiom(a), NodeView::ScopeAxiom(b)) => {},
            (NodeView::Decision(a), NodeView::Decision(b)) => {},
            (NodeView::Derived(r, p), NodeView::Derived(s, q)) => {
                lemma_lex_zero_equal(p, q, parent_order);
            },
            _ => {},
        }
    }
    assert forall|x: NodeView, y: NodeView, z: NodeView|
        #[trigger] ord(x, y) < 0 && #[trigger] ord(y, z) < 0 implies ord(x, z) < 0 by {
        match (x, y, z) {
            (NodeView::Derived(r, p), NodeView::Derived(s, q), NodeView::Derived(t, u)) => {
                if rule_rank(r) == rule_rank(s) && rule_rank(s) == rule_rank(t) {
                    lemma_lex_transitive(p, q, u, parent_order);
                }
            },
            _ => {},
        }
    }
}

proof fn lemma_core_order_total()
    ensures
        is_total_order(|x: CoreView, y: CoreView| core_order(x, y)),
{
    let decision_order = |x: DecisionId, y: DecisionId| rank_order(x, y);
    let node_ord = |x: NodeView, y: NodeView| node_order(x, y);
    lemma_rank_order_total::<DecisionId>();
    lemma_node_order_total();
    let ord = |x: CoreView, y: CoreView| core_order(x, y);
    assert forall|x: CoreView, y: CoreView| #[trigger] ord(x, y) == -ord(y, x) by {
        lemma_lex_antisymmetric(x.decisions, y.decisions, decision_order);
        lemma_lex_antisymmetric(x.provenance.nodes, y.provenance.nodes, node_ord);
    }
    assert forall|x: CoreView, y: CoreView| #[trigger] ord(x, y) == 0 implies x == y by {
        lemma_lex_antisymmetric(x.decisions, y.decisions, decision_order);
        if lex(x.decisions, y.decisions, decision_order) == 0 {
            lemma_lex_zero_equal(x.decisions, y.decisions, decision_order);
            if lex(x.provenance.nodes, y.provenance.nodes, node_ord) == 0 {
                lemma_lex_zero_equal(x.provenance.nodes, y.provenance.nodes, node_ord);
            }
        }
    }
    assert forall|x: CoreView, y: CoreView, z: CoreView|
        #[trigger] ord(x, y) < 0 && #[trigger] ord(y, z) < 0 implies ord(x, z) < 0 by {
        let dxy = lex(x.decisions, y.decisions, decision_order);
        let dyz = lex(y.decisions, z.decisions, decision_order);
        if dxy == 0 {
            lemma_lex_zero_equal(x.decisions, y.decisions, decision_order);
        }
        if dyz == 0 {
            lemma_lex_zero_equal(y.decisions, z.decisions, decision_order);
        }
        if dxy < 0 && dyz < 0 {
            lemma_lex_transitive(x.decisions, y.decisions, z.decisions, decision_order);
        }
        let nxy = lex(x.provenance.nodes, y.provenance.nodes, node_ord);
        let nyz = lex(y.provenance.nodes, z.provenance.nodes, node_ord);
        if nxy == 0 {
            lemma_lex_zero_equal(x.provenance.nodes, y.provenance.nodes, node_ord);
        }
        if nyz == 0 {
            lemma_lex_zero_equal(y.provenance.nodes, z.provenance.nodes, node_ord);
        }
        if nxy < 0 && nyz < 0 {
            lemma_lex_transitive(x.provenance.nodes, y.provenance.nodes, z.provenance.nodes, node_ord);
        }
    }
}

/// Learning two proofs in either order leaves the same table: for one key the
/// smallest proof in the derived order is kept whichever arrives first, and
/// proofs for different keys do not interact.
pub proof fn law_learning_order_independent(
    table: Map<(u32, Seq<u8>), CoreView>,
    first_key: (u32, Seq<u8>),
    first: CoreView,
    second_key: (u32, Seq<u8>),
    second: CoreView,
)
    ensures
        retained(retained(table, first_key, first), second_key, second) == retained(
            retained(table, second_key, second),
            first_key,
            first,
        ),
{
    lemma_core_order_total();
    let ord = |x: CoreView, y: CoreView| core_order(x, y);
    assert(ord(first, second) == -ord(second, first));
    if first_key == second_key {
        if table.dom().contains(first_key) {
            let stored = table[first_key];
            assert(ord(first, stored) == -ord(stored, first));
            assert(ord(second, stored) == -ord(stored, second));
            if ord(first, second) == 0 {
                assert(first == second);
            }
            if ord(first, stored) == 0 {
                assert(first == stored);
            }
            if ord(second, stored) == 0 {
                assert(second == stored);
            }
            if ord(first, stored) < 0 && ord(second, first) < 0 {
                assert(ord(second, stored) < 0);
            }
            if ord(second, stored) < 0 && ord(first, second) < 0 {
                assert(ord(first, stored) < 0);
            }
            if ord(stored, first) < 0 && ord(first, second) < 0 {
                assert(ord(stored, second) < 0);
            }
            if ord(stored, second) < 0 && ord(second, first) < 0 {
                assert(ord(stored, first) < 0);
            }
        } else {
            if ord(first, second) == 0 {
                assert(first == second);
            }
        }
        assert(retained(retained(table, first_key, first), second_key, second) =~= retained(
            retained(table, second_key, second),
            first_key,
            first,
        ));
    } else {
        assert(retained(retained(table, first_key, first), second_key, second) =~= retained(
            retained(table, second_key, second),
            first_key,
            first,
        ));
    }
}

} // verus!
