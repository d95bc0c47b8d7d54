use vstd::prelude::*;

use std::collections::{BTreeMap, BTreeSet, HashMap};

use crate::node::Variable;
use crate::source::{Span, Spanned};

use super::{BasicNode, Branch, Component, Direction, Divergence, Location, NodeTarget, Reversibility,
    Statement, Value};


verus! {

broadcast use vstd::std_specs::btree::group_btree_axioms;

/// The variables bound in one scope, with the span of each binding;
/// no variable occurs twice.
pub type Frame = Vec<(Variable, Span)>;

/// Whether a frame holds a variable.
pub open spec fn frame_holds(frame: Seq<(Variable, Span)>, variable: (int, Seq<char>)) -> bool {
    exists|i: int| 0 <= i < frame.len() && (#[trigger] frame[i]).0@ == variable
}

/// Whether no variable occurs twice in a frame.
pub open spec fn frame_distinct(frame: Seq<(Variable, Span)>) -> bool {
    forall|i: int, j: int| 0 <= i < j < frame.len() ==> (#[trigger] frame[i]).0@ != (#[trigger] frame[j]).0@
}

/// The in-edges that a node `k` gains from `source` when `source` branches to
/// `targets`: one for each occurrence of `k` among them.
pub open spec fn incoming(targets: Seq<NodeTarget>, k: usize, source: NodeTarget) -> Seq<NodeTarget>
    decreases targets.len(),
{
    if targets.len() == 0 {
        Seq::empty()
    } else {
        incoming(targets.drop_last(), k, source) + if targets.last() == NodeTarget(k) {
            seq![source]
        } else {
            Seq::empty()
        }
    }
}

/// The retargeting that sends the unresolved target to `target`.
pub open spec fn resolution(target: NodeTarget) -> Map<usize, usize> {
    Map::empty().insert(usize::MAX, target.0)
}

/// The in-edge that a target gains in a direction when a node whose branch
/// there still holds the unresolved target is resolved to it.
pub open spec fn resolved_edges(branch: Branch, source: NodeTarget) -> Seq<NodeTarget> {
    if branch.spec_targets().contains(NodeTarget::spec_unresolved()) {
        seq![source]
    } else {
        Seq::empty()
    }
}

/// Whether joining `target` onto `base` merges the exit node of `base` with the
/// entry node of `target`: neither of them is entered from elsewhere on the
/// side where they meet.
pub open spec fn coalesces(graph: Map<usize, BasicNode>, base: Component, target: Component) -> bool {
    &&& graph[base.exit.0].in_reverse@.len() == 0
    &&& graph[target.entry.0].in_advance@.len() == 0
}

/// The retargeting that sends the entry of `target` to the exit of `base`.
pub open spec fn merging(base: Component, target: Component) -> Map<usize, usize> {
    Map::empty().insert(target.entry.0, base.exit.0)
}

/// Where a frame binds a variable.
fn position_in(frame: &Frame, variable: &Variable) -> (position: Option<usize>)
    ensures
        position matches Some(i) ==> i < frame@.len() && frame@[i as int].0@ == variable@,
        position is None ==> !frame_holds(frame@, variable@),
{
    let mut index: usize = 0;
    while index < frame.len()
        invariant
            index <= frame@.len(),
            forall|i: int| 0 <= i < index ==> (#[trigger] frame@[i]).0@ != variable@,
        decreases frame@.len() - index,
    {
        if frame[index].0.same(variable) {
            return Some(index);
        }
        index += 1;
    }
    None
}

/// The place of a node index among the indices of a graph in increasing order.
pub open spec fn rank(indices: Set<usize>, k: usize) -> nat {
    indices.filter(|j: usize| j < k).len()
}

/// The renumbering of the nodes of a graph by their places in increasing order.
pub open spec fn ranking(indices: Set<usize>) -> Map<usize, usize> {
    Map::new(|k: usize| indices.contains(k), |k: usize| rank(indices, k) as usize)
}

/// Moving the bound of a rank past one index adds that index where the graph holds it.
proof fn lemma_rank_step(indices: Set<usize>, k: usize)
    requires
        indices.finite(),
        k < usize::MAX,
    ensures
        indices.filter(|j: usize| j < k).finite(),
        rank(indices, (k + 1) as usize) == rank(indices, k) + if indices.contains(k) { 1nat } else { 0nat },
        rank(indices, k) <= indices.len(),
{
    let below = indices.filter(|j: usize| j < k);
    let next = indices.filter(|j: usize| j < k + 1);
    vstd::set_lib::lemma_set_subset_finite(indices, below);
    vstd::set_lib::lemma_set_subset_finite(indices, next);
    vstd::set_lib::lemma_len_subset(below, indices);
    if indices.contains(k) {
        assert(next =~= below.insert(k));
    } else {
        assert(next =~= below);
    }
}

/// Every index of a graph ranks below the number of its nodes, and indices
/// that differ rank differently.
proof fn lemma_rank_bound(indices: Set<usize>, k: usize)
    requires
        indices.finite(),
        indices.contains(k),
    ensures
        rank(indices, k) < indices.len(),
{
    let below = indices.filter(|j: usize| j < k);
    vstd::set_lib::lemma_set_subset_finite(indices, below);
    vstd::set_lib::lemma_len_subset(below.insert(k), indices);
}

/// Whether `k` is reached from `start` in at most `steps` steps along the
/// advance branches of the graph.
pub open spec fn reaches(graph: Map<usize, BasicNode>, start: usize, k: usize, steps: nat) -> bool
    decreases steps,
{
    k == start || (steps > 0 && exists|j: usize| #![trigger graph[j]] reaches(graph, start, j, (steps - 1) as nat)
        && graph.contains_key(j) && graph[j].advance.node.spec_targets().contains(NodeTarget(k)))
}

/// Whether `k` is reached from `start` along the advance branches of the graph.
pub open spec fn reachable(graph: Map<usize, BasicNode>, start: usize, k: usize) -> bool {
    exists|steps: nat| reaches(graph, start, k, steps)
}

/// A set of nodes of the graph that holds every advance target of its members.
pub open spec fn closed(graph: Map<usize, BasicNode>, nodes: Set<usize>) -> bool {
    forall|j: usize| #[trigger] nodes.contains(j) ==> graph.contains_key(j) && forall|i: int|
        0 <= i < graph[j].advance.node.spec_targets().len()
            ==> nodes.contains(#[trigger] graph[j].advance.node.spec_targets()[i].0)
}

/// A closed set that holds the start holds everything reached from it.
proof fn lemma_closed_holds_reached(graph: Map<usize, BasicNode>, nodes: Set<usize>, start: usize, k: usize, steps: nat)
    requires
        nodes.contains(start),
        closed(graph, nodes),
        reaches(graph, start, k, steps),
    ensures
        nodes.contains(k),
    decreases steps,
{
    if k != start {
        let j = choose|j: usize| #![trigger graph[j]] reaches(graph, start, j, (steps - 1) as nat)
            && graph.contains_key(j) && graph[j].advance.node.spec_targets().contains(NodeTarget(k));
        lemma_closed_holds_reached(graph, nodes, start, j, (steps - 1) as nat);
        let i = choose|i: int| 0 <= i < graph[j].advance.node.spec_targets().len()
            && graph[j].advance.node.spec_targets()[i] == NodeTarget(k);
        assert(nodes.contains(graph[j].advance.node.spec_targets()[i].0));
    }
}

/// Whether a vector of targets holds the unresolved target.
fn holds_unresolved(targets: &Vec<NodeTarget>) -> (holds: bool)
    ensures
        holds == targets@.contains(NodeTarget::spec_unresolved()),
{
    let mut index: usize = 0;
    while index < targets.len()
        invariant
            index <= targets@.len(),
            forall|i: int| 0 <= i < index ==> targets@[i] != NodeTarget::spec_unresolved(),
        decreases targets@.len() - index,
    {
        if targets[index] == NodeTarget::unresolved() {
            return true;
        }
        index += 1;
    }
    false
}

/// `after` is the frame `before` once `variable` is bound at `span`: a
/// variable already bound there keeps its place and takes the new span, and a
/// new one is added at the end.
pub open spec fn is_binding_in(
    after: Seq<(Variable, Span)>,
    before: Seq<(Variable, Span)>,
    variable: (int, Seq<char>),
    span: Span,
) -> bool {
    if frame_holds(before, variable) {
        &&& after.len() == before.len()
        &&& forall|i: int| 0 <= i < before.len() ==> if (#[trigger] before[i]).0@ == variable {
            after[i] == (before[i].0, span)
        } else {
            after[i] == before[i]
        }
    } else {
        &&& after.len() == before.len() + 1
        &&& after.subrange(0, before.len() as int) == before
        &&& after.last().0@ == variable
        &&& after.last().1 == span
    }
}

/// The innermost scope among the first `count` that binds a variable.
pub open spec fn innermost_binding(scopes: Seq<Seq<(Variable, Span)>>, variable: (int, Seq<char>), count: int) -> Option<int>
    decreases count,
{
    if count <= 0 {
        None
    } else if frame_holds(scopes[count - 1], variable) {
        Some(count - 1)
    } else {
        innermost_binding(scopes, variable, count - 1)
    }
}

/// The place at which a frame binds a variable.
pub open spec fn frame_position(frame: Seq<(Variable, Span)>, variable: (int, Seq<char>)) -> int {
    choose|k: int| 0 <= k < frame.len() && (#[trigger] frame[k]).0@ == variable
}

/// `after` is the scope stack `before` once `variable` is removed from the
/// innermost scope that binds it, if any does.
pub open spec fn is_consumption(
    after: Seq<Seq<(Variable, Span)>>,
    before: Seq<Seq<(Variable, Span)>>,
    variable: (int, Seq<char>),
) -> bool {
    match innermost_binding(before, variable, before.len() as int) {
        None => after == before,
        Some(j) => {
            &&& after.len() == before.len()
            &&& forall|i: int| 0 <= i < before.len() && i != j ==> #[trigger] after[i] == before[i]
            &&& after[j] == before[j].remove(frame_position(before[j], variable))
        },
    }
}

/// The statements that release the variables of a frame, in order.
pub open spec fn releases(statements: Seq<Spanned<Statement>>, frame: Seq<(Variable, Span)>) -> bool {
    &&& statements.len() == frame.len()
    &&& forall|i: int| 0 <= i < frame.len() ==> {
        let statement = #[trigger] statements[i];
        &&& statement.node is ImplicitDrop
        &&& statement.node->ImplicitDrop_0.variable@ == frame[i].0@
        &&& statement.node->ImplicitDrop_0.projections@.len() == 0
        &&& statement.span == frame[i].1
    }
}

/// The state of lowering one function to a graph of nodes.
#[derive(Debug)]
pub struct BasicContext {
    next_temporary: usize,
    next_component: usize,
    pub reversibility: Reversibility,
    nodes: BTreeMap<usize, BasicNode>,
    frames: Vec<Frame>,
}

impl BasicContext {
    /// The nodes of the graph by the index of their target.
    pub closed spec fn graph(&self) -> Map<usize, BasicNode> {
        self.nodes@
    }

    /// Whether the function is lowered to run backwards as well.
    pub closed spec fn spec_reversibility(&self) -> Reversibility {
        self.reversibility
    }

    /// The index of the next temporary variable.
    pub closed spec fn temporaries(&self) -> nat {
        self.next_temporary as nat
    }

    /// The highest node index handed out so far; the next node takes the one above it.
    pub closed spec fn allocated(&self) -> nat {
        self.next_component as nat
    }

    /// The stack of scopes, innermost last.
    pub closed spec fn scopes(&self) -> Seq<Seq<(Variable, Span)>> {
        self.frames@.map_values(|frame: Frame| frame@)
    }

    /// Every node index lies in the range handed out, and no scope binds a
    /// variable twice.
    pub closed spec fn wf(&self) -> bool {
        &&& self.next_component < usize::MAX
        &&& forall|k: usize| #[trigger] self.nodes@.contains_key(k) ==> 1 <= k <= self.next_component
        &&& forall|i: int| 0 <= i < self.frames@.len() ==> frame_distinct(#[trigger] self.frames@[i]@)
    }

    pub fn new(reversibility: Reversibility) -> (context: BasicContext)
        ensures
            context.wf(),
            context.spec_reversibility() == reversibility,
            context.graph() == Map::<usize, BasicNode>::empty(),
            context.temporaries() == 0,
            context.allocated() == 0,
            context.scopes() == seq![Seq::<(Variable, Span)>::empty()],
    {
        let mut frames = Vec::new();
        frames.push(Vec::new());
        let context = BasicContext {
            next_temporary: 0,
            next_component: 0,
            reversibility,
            nodes: BTreeMap::new(),
            frames,
        };
        assert(context.scopes() =~= seq![Seq::<(Variable, Span)>::empty()]);
        context
    }

    pub fn is_reversible(&self) -> (reversible: bool)
        ensures
            reversible == (self.spec_reversibility() == Reversibility::Reversible),
    {
        self.reversibility == Reversibility::Reversible
    }

    /// A fresh temporary variable: each call gives the next index.
    pub fn temporary(&mut self) -> (variable: Variable)
        requires
            old(self).temporaries() < usize::MAX,
        ensures
            variable == Variable::Temporary(old(self).temporaries() as usize),
            final(self).temporaries() == old(self).temporaries() + 1,
            final(self).graph() == old(self).graph(),
            final(self).allocated() == old(self).allocated(),
            final(self).scopes() == old(self).scopes(),
            final(self).spec_reversibility() == old(self).spec_reversibility(),
            old(self).wf() ==> final(self).wf(),
    {
        self.next_temporary += 1;
        Variable::new_temporary(self.next_temporary - 1)
    }

    /// Creates an empty component: a single fresh node at the next index.
    pub fn component(&mut self) -> (component: Component)
        requires
            old(self).wf(),
            old(self).allocated() + 1 < usize::MAX,
        ensures
            final(self).wf(),
            component.entry == component.exit,
            component.entry.0 == old(self).allocated() + 1,
            !old(self).graph().contains_key(component.entry.0),
            final(self).graph().contains_key(component.entry.0),
            final(self).graph()[component.entry.0].is_fresh(),
            final(self).graph().remove(component.entry.0) == old(self).graph(),
            final(self).allocated() == old(self).allocated() + 1,
            final(self).temporaries() == old(self).temporaries(),
            final(self).scopes() == old(self).scopes(),
            final(self).spec_reversibility() == old(self).spec_reversibility(),
    {
        self.next_component += 1;
        let target = NodeTarget(self.next_component);
        self.nodes.insert(target.0, BasicNode::new());
        assert(self.nodes@.remove(target.0) =~= old(self).nodes@);
        Component::new(target, target)
    }

    /// Takes a node out of the graph.
    fn take(&mut self, target: usize) -> (node: BasicNode)
        requires
            old(self).graph().contains_key(target),
        ensures
            node == old(self).graph()[target],
            final(self).graph() == old(self).graph().remove(target),
            final(self).next_temporary == old(self).next_temporary,
            final(self).next_component == old(self).next_component,
            final(self).frames == old(self).frames,
            final(self).spec_reversibility() == old(self).spec_reversibility(),
    {
        self.nodes.remove(&target).unwrap()
    }

    /// Puts a node into the graph.
    fn put(&mut self, target: usize, node: BasicNode)
        ensures
            final(self).graph() == old(self).graph().insert(target, node),
            final(self).next_temporary == old(self).next_temporary,
            final(self).next_component == old(self).next_component,
            final(self).frames == old(self).frames,
            final(self).spec_reversibility() == old(self).spec_reversibility(),
    {
        self.nodes.insert(target, node);
    }

    /// Links the endpoint of `base` in a direction to the opposite endpoint of
    /// `target` with a jump, and records the edge at the target.
    pub fn link(&mut self, direction: Direction, base: &Component, target: &Component, span: Span)
        requires
            old(self).wf(),
            old(self).graph().contains_key(base.spec_endpoint(direction).0),
            old(self).graph().contains_key(target.spec_endpoint(direction.flip()).0),
            old(self).graph()[base.spec_endpoint(direction).0].spec_branch(direction).node is Unreachable,
        ensures
            final(self).wf(),
            final(self).graph().dom() == old(self).graph().dom(),
            forall|k: usize| #[trigger] old(self).graph().contains_key(k) ==> final(self).graph()[k].is_update_of(
                old(self).graph()[k],
                direction,
                if k == base.spec_endpoint(direction).0 {
                    Some(Spanned { node: Branch::Jump(target.spec_endpoint(direction.flip())), span })
                } else {
                    None
                },
                if k == target.spec_endpoint(direction.flip()).0 {
                    seq![base.spec_endpoint(direction)]
                } else {
                    Seq::empty()
                },
            ),
            final(self).temporaries() == old(self).temporaries(),
            final(self).allocated() == old(self).allocated(),
            final(self).scopes() == old(self).scopes(),
            final(self).spec_reversibility() == old(self).spec_reversibility(),
    {
        let (exit, entry) = (base.endpoint(direction), target.endpoint(direction.invert()));
        let mut node = self.take(exit.0);
        *node.branch(direction) = Spanned::new(Branch::Jump(entry), span);
        self.put(exit.0, node);
        let ghost middle = self.nodes@;
        let mut node = self.take(entry.0);
        node.in_edges(direction).push(exit);
        self.put(entry.0, node);
        assert(self.nodes@.dom() =~= old(self).nodes@.dom());
        assert forall|k: usize| #[trigger] old(self).graph().contains_key(k) implies self.graph()[k].is_update_of(
            old(self).graph()[k],
            direction,
            if k == exit.0 {
                Some(Spanned { node: Branch::Jump(entry), span })
            } else {
                None
            },
            if k == entry.0 {
                seq![exit]
            } else {
                Seq::empty()
            },
        ) by {
            let before = old(self).graph()[k];
            let after = self.graph()[k];
            if k == entry.0 {
                assert(after.spec_in_edges(direction) =~= middle[k].spec_in_edges(direction) + seq![exit]);
            } else {
                assert(after.spec_in_edges(direction) =~= before.spec_in_edges(direction) + Seq::empty());
            }
        }
    }

    /// Sets the branch of the endpoint of `base` in a direction to a divergence,
    /// and records the edge at each of its resolved targets.
    pub fn divergence(&mut self, direction: Direction, base: &Component, divergence: Divergence, span: Span)
        requires
            old(self).wf(),
            old(self).graph().contains_key(base.spec_endpoint(direction).0),
            forall|i: int| 0 <= i < super::branch::divergence_targets(divergence).len()
                && #[trigger] super::branch::divergence_targets(divergence)[i] != NodeTarget::spec_unresolved()
                ==> old(self).graph().contains_key(super::branch::divergence_targets(divergence)[i].0),
        ensures
            final(self).wf(),
            final(self).graph().dom() == old(self).graph().dom(),
            forall|k: usize| #[trigger] old(self).graph().contains_key(k) ==> final(self).graph()[k].is_update_of(
                old(self).graph()[k],
                direction,
                if k == base.spec_endpoint(direction).0 {
                    Some(Spanned { node: Branch::Divergence(divergence), span })
                } else {
                    None
                },
                incoming(super::branch::divergence_targets(divergence), k, base.spec_endpoint(direction)),
            ),
            final(self).temporaries() == old(self).temporaries(),
            final(self).allocated() == old(self).allocated(),
            final(self).scopes() == old(self).scopes(),
            final(self).spec_reversibility() == old(self).spec_reversibility(),
    {
        let exit = base.endpoint(direction);
        let targets = divergence.targets();
        let ghost all = targets@;
        let mut index: usize = 0;
        while index < targets.len()
            invariant
                self.wf(),
                index <= all.len(),
                targets@ == all,
                all == super::branch::divergence_targets(divergence),
                self.graph().dom() == old(self).graph().dom(),
                forall|i: int| 0 <= i < all.len() && #[trigger] all[i] != NodeTarget::spec_unresolved()
                    ==> old(self).graph().contains_key(all[i].0),
                forall|k: usize| #[trigger] old(self).graph().contains_key(k) ==> self.graph()[k].is_update_of(
                    old(self).graph()[k],
                    direction,
                    None,
                    incoming(all.subrange(0, index as int), k, exit),
                ),
                self.next_temporary == old(self).next_temporary,
                self.next_component == old(self).next_component,
                self.frames == old(self).frames,
                self.reversibility == old(self).reversibility,
            decreases all.len() - index,
        {
            let target = targets[index];
            let ghost before = self.nodes@;
            if target != NodeTarget::unresolved() {
                let mut node = self.take(target.0);
                node.in_edges(direction).push(exit);
                self.put(target.0, node);
            }
            index += 1;
            assert forall|k: usize| #[trigger] old(self).graph().contains_key(k) implies self.graph()[k].is_update_of(
                old(self).graph()[k],
                direction,
                None,
                incoming(all.subrange(0, index as int), k, exit),
            ) by {
                let prefix = all.subrange(0, index as int);
                assert(prefix.drop_last() =~= all.subrange(0, index - 1));
                assert(k != usize::MAX);
                if target == NodeTarget(k) {
                    assert(self.graph()[k].spec_in_edges(direction)
                        =~= old(self).graph()[k].spec_in_edges(direction) + incoming(prefix, k, exit));
                } else {
                    assert(self.graph()[k].spec_in_edges(direction)
                        =~= old(self).graph()[k].spec_in_edges(direction) + incoming(prefix, k, exit));
                }
            }
            assert(self.nodes@.dom() =~= old(self).nodes@.dom());
        }
        assert(all.subrange(0, all.len() as int) =~= all);
        let mut node = self.take(exit.0);
        *node.branch(direction) = Spanned::new(Branch::Divergence(divergence), span);
        self.put(exit.0, node);
        assert(self.nodes@.dom() =~= old(self).nodes@.dom());
    }

    /// Replaces the unresolved targets of a node's branches with `target`, and
    /// records the new edges at `target`.
    pub fn resolve(&mut self, node: &NodeTarget, target: NodeTarget)
        requires
            old(self).wf(),
            old(self).graph().contains_key(node.0),
            old(self).graph().contains_key(target.0),
        ensures
            final(self).wf(),
            final(self).graph().dom() == old(self).graph().dom(),
            forall|k: usize| #[trigger] old(self).graph().contains_key(k) ==> {
                let before = old(self).graph()[k];
                let after = final(self).graph()[k];
                let resolved = old(self).graph()[node.0];
                &&& after.statements@ == before.statements@
                &&& k == node.0 ==> after.advance.span == before.advance.span
                    && after.reverse.span == before.reverse.span
                    && after.advance.node.is_retargeting_of(before.advance.node, resolution(target))
                    && after.reverse.node.is_retargeting_of(before.reverse.node, resolution(target))
                &&& k != node.0 ==> after.advance == before.advance && after.reverse == before.reverse
                &&& after.in_advance@ == before.in_advance@ + if k == target.0 {
                    resolved_edges(resolved.advance.node, *node)
                } else {
                    Seq::empty()
                }
                &&& after.in_reverse@ == before.in_reverse@ + if k == target.0 {
                    resolved_edges(resolved.reverse.node, *node)
                } else {
                    Seq::empty()
                }
            },
            final(self).temporaries() == old(self).temporaries(),
            final(self).allocated() == old(self).allocated(),
            final(self).scopes() == old(self).scopes(),
            final(self).spec_reversibility() == old(self).spec_reversibility(),
    {
        let resolved = self.take(node.0);
        let advance = holds_unresolved(&resolved.advance.node.targets());
        let reverse = holds_unresolved(&resolved.reverse.node.targets());
        self.put(node.0, resolved);
        let ghost start = self.nodes@;
        assert(start =~= old(self).nodes@);
        if advance {
            let mut other = self.take(target.0);
            other.in_edges(Direction::Advance).push(*node);
            self.put(target.0, other);
        }
        let ghost middle = self.nodes@;
        if reverse {
            let mut other = self.take(target.0);
            other.in_edges(Direction::Reverse).push(*node);
            self.put(target.0, other);
        }
        let ghost late = self.nodes@;
        let mut targets = HashMap::new();
        targets.insert(usize::MAX, target.0);
        assert(targets@ =~= resolution(target));
        let mut resolved = self.take(node.0);
        resolved.retarget(&targets);
        self.put(node.0, resolved);
        assert(self.nodes@.dom() =~= old(self).nodes@.dom());
        assert forall|k: usize| #[trigger] old(self).graph().contains_key(k) implies ({
            let before = old(self).graph()[k];
            let after = self.graph()[k];
            let resolved = old(self).graph()[node.0];
            &&& after.in_advance@ == before.in_advance@ + if k == target.0 {
                resolved_edges(resolved.advance.node, *node)
            } else {
                Seq::empty()
            }
            &&& after.in_reverse@ == before.in_reverse@ + if k == target.0 {
                resolved_edges(resolved.reverse.node, *node)
            } else {
                Seq::empty()
            }
        }) by {
            let before = old(self).graph()[k];
            let after = self.graph()[k];
            assert(after.in_advance@ =~= late[k].in_advance@);
            assert(after.in_reverse@ =~= late[k].in_reverse@);
            if k == target.0 {
                assert(late[k].in_advance@ =~= before.in_advance@ + resolved_edges(
                    old(self).graph()[node.0].advance.node, *node));
                assert(late[k].in_reverse@ =~= before.in_reverse@ + resolved_edges(
                    old(self).graph()[node.0].reverse.node, *node));
            } else {
                assert(late[k].in_advance@ =~= before.in_advance@ + Seq::empty());
                assert(late[k].in_reverse@ =~= before.in_reverse@ + Seq::empty());
            }
        }
    }

    /// Joins `target` onto the exit of `base`. Where the two meeting nodes are
    /// entered from nowhere else on that side they are merged into one: the
    /// statements and advance branch of the entry of `target` move to the exit
    /// of `base`, and the branches that entered it are retargeted. Otherwise
    /// the two nodes are linked with a jump in each direction.
    pub fn join(&mut self, base: Component, target: Component, span: Span) -> (joined: Component)
        requires
            old(self).wf(),
            old(self).graph().contains_key(base.exit.0),
            old(self).graph().contains_key(target.entry.0),
            coalesces(old(self).graph(), base, target) ==> base.exit != target.entry,
            old(self).graph()[target.entry.0].reverse.node is Unreachable,
            old(self).graph()[base.exit.0].advance.node is Unreachable,
            coalesces(old(self).graph(), base, target) ==> forall|i: int|
                0 <= i < old(self).graph()[target.entry.0].in_reverse@.len() ==> {
                    let source = #[trigger] old(self).graph()[target.entry.0].in_reverse@[i];
                    &&& old(self).graph().contains_key(source.0)
                    &&& source != target.entry
                },
        ensures
            final(self).wf(),
            final(self).temporaries() == old(self).temporaries(),
            final(self).allocated() == old(self).allocated(),
            final(self).scopes() == old(self).scopes(),
            final(self).spec_reversibility() == old(self).spec_reversibility(),
            coalesces(old(self).graph(), base, target) ==> {
                let graph = old(self).graph();
                let (before, entered) = (graph[base.exit.0], graph[target.entry.0]);
                let after = final(self).graph()[base.exit.0];
                &&& joined == if target.exit != target.entry {
                    Component { entry: base.entry, exit: target.exit }
                } else {
                    base
                }
                &&& final(self).graph().dom() == graph.dom().remove(target.entry.0)
                &&& forall|k: usize| #[trigger] graph.contains_key(k) && k != target.entry.0 && k != base.exit.0
                    ==> if entered.in_reverse@.contains(NodeTarget(k)) {
                        final(self).graph()[k].is_retargeting_of(graph[k], merging(base, target))
                    } else {
                        final(self).graph()[k] == graph[k]
                    }
                &&& after.statements@ == before.statements@ + entered.statements@
                &&& after.advance == entered.advance
                &&& if entered.in_reverse@.contains(base.exit) {
                    after.reverse.span == before.reverse.span
                        && after.reverse.node.is_retargeting_of(before.reverse.node, merging(base, target))
                } else {
                    after.reverse == before.reverse
                }
                &&& after.in_reverse@ == before.in_reverse@ + entered.in_reverse@
                &&& after.in_advance@ == before.in_advance@
            },
            !coalesces(old(self).graph(), base, target) && base.exit == target.entry ==> {
                let graph = old(self).graph();
                let (before, after) = (graph[base.exit.0], final(self).graph()[base.exit.0]);
                &&& joined == Component { entry: base.entry, exit: target.exit }
                &&& final(self).graph().dom() == graph.dom()
                &&& forall|k: usize| #[trigger] graph.contains_key(k) && k != base.exit.0
                    ==> final(self).graph()[k].is_update_of(graph[k], Direction::Advance, None, Seq::empty())
                &&& after.statements@ == before.statements@
                &&& after.advance == (Spanned { node: Branch::Jump(target.entry), span })
                &&& after.reverse == (Spanned { node: Branch::Jump(base.exit), span })
                &&& after.in_advance@ == before.in_advance@.push(base.exit)
                &&& after.in_reverse@ == before.in_reverse@.push(target.entry)
            },
            !coalesces(old(self).graph(), base, target) && base.exit != target.entry ==> {
                let graph = old(self).graph();
                let (before, entered) = (graph[base.exit.0], graph[target.entry.0]);
                let (after, later) = (final(self).graph()[base.exit.0], final(self).graph()[target.entry.0]);
                &&& joined == Component { entry: base.entry, exit: target.exit }
                &&& final(self).graph().dom() == graph.dom()
                &&& forall|k: usize| #[trigger] graph.contains_key(k) && k != target.entry.0 && k != base.exit.0
                    ==> final(self).graph()[k].is_update_of(graph[k], Direction::Advance, None, Seq::empty())
                &&& after.statements@ == before.statements@
                &&& after.advance == (Spanned { node: Branch::Jump(target.entry), span })
                &&& after.reverse == before.reverse
                &&& after.in_advance@ == before.in_advance@
                &&& after.in_reverse@ == before.in_reverse@.push(target.entry)
                &&& later.statements@ == entered.statements@
                &&& later.reverse == (Spanned { node: Branch::Jump(base.exit), span })
                &&& later.advance == entered.advance
                &&& later.in_advance@ == entered.in_advance@.push(base.exit)
                &&& later.in_reverse@ == entered.in_reverse@
            },
    {
        let mut base = base;
        let coalesce = {
            let base_node = self.nodes.get(&base.exit.0).unwrap();
            let target_node = self.nodes.get(&target.entry.0).unwrap();
            base_node.in_reverse.len() == 0 && target_node.in_advance.len() == 0
        };
        if coalesce {
            let ghost graph = self.nodes@;
            let mut target_node = self.take(target.entry.0);
            let mut targets = HashMap::new();
            targets.insert(target.entry.0, base.exit.0);
            assert(targets@ =~= merging(base, target));
            let ghost sources = target_node.in_reverse@;
            let mut index: usize = 0;
            while index < target_node.in_reverse.len()
                invariant
                    self.wf(),
                    index <= sources.len(),
                    target_node.in_reverse@ == sources,
                    targets@ == merging(base, target),
                    base.exit != target.entry,
                    self.graph().dom() == graph.dom().remove(target.entry.0),
                    forall|i: int| 0 <= i < sources.len() ==> {
                        let source = #[trigger] sources[i];
                        &&& graph.contains_key(source.0)
                        &&& source != target.entry
                    },
                    forall|k: usize| #[trigger] graph.contains_key(k) && k != target.entry.0
                        ==> if sources.subrange(0, index as int).contains(NodeTarget(k)) {
                            self.graph()[k].is_retargeting_of(graph[k], merging(base, target))
                        } else {
                            self.graph()[k] == graph[k]
                        },
                    self.next_temporary == old(self).next_temporary,
                    self.next_component == old(self).next_component,
                    self.frames == old(self).frames,
                    self.reversibility == old(self).reversibility,
                decreases sources.len() - index,
            {
                let source = target_node.in_reverse[index];
                let ghost before = self.nodes@;
                let mut node = self.take(source.0);
                node.retarget(&targets);
                self.put(source.0, node);
                index += 1;
                assert forall|k: usize| #[trigger] graph.contains_key(k) && k != target.entry.0
                    implies if sources.subrange(0, index as int).contains(NodeTarget(k)) {
                        self.graph()[k].is_retargeting_of(graph[k], merging(base, target))
                    } else {
                        self.graph()[k] == graph[k]
                    } by {
                    let prefix = sources.subrange(0, index as int);
                    let shorter = sources.subrange(0, index - 1);
                    assert(prefix == shorter.push(source));
                    if k == source.0 {
                        assert(prefix.contains(NodeTarget(k))) by {
                            assert(prefix[index - 1] == source);
                        }
                        if shorter.contains(NodeTarget(k)) {
                            BasicNode::lemma_retarget_twice(graph[k], before[k], self.graph()[k], merging(base, target));
                        }
                    } else {
                        if prefix.contains(NodeTarget(k)) {
                            let j = choose|j: int| 0 <= j < prefix.len() && prefix[j] == NodeTarget(k);
                            assert(shorter[j] == NodeTarget(k));
                        } else {
                            if shorter.contains(NodeTarget(k)) {
                                let j = choose|j: int| 0 <= j < shorter.len() && shorter[j] == NodeTarget(k);
                                assert(prefix[j] == NodeTarget(k));
                            }
                        }
                    }
                }
                assert(self.nodes@.dom() =~= graph.dom().remove(target.entry.0));
            }
            assert(sources.subrange(0, sources.len() as int) =~= sources);
            let ghost retargeted = self.nodes@;
            let mut base_node = self.take(base.exit.0);
            base_node.in_reverse.append(&mut target_node.in_reverse);
            base_node.statements.append(&mut target_node.statements);
            base_node.advance = target_node.advance;
            self.put(base.exit.0, base_node);
            if target.exit != target.entry {
                base.exit = target.exit;
            }
            assert(self.nodes@.dom() =~= graph.dom().remove(target.entry.0));
            base
        } else {
            let ghost graph = self.nodes@;
            self.link(Direction::Advance, &base, &target, span);
            let ghost middle = self.nodes@;
            self.link(Direction::Reverse, &target, &base, span);
            proof {
                let (be, te) = (base.exit.0, target.entry.0);
                if be != te {
                    assert(self.graph()[be].in_reverse@ =~= graph[be].in_reverse@.push(target.entry));
                    assert(self.graph()[te].in_advance@ =~= graph[te].in_advance@.push(base.exit));
                } else {
                    assert(self.graph()[be].in_reverse@ =~= graph[be].in_reverse@.push(target.entry));
                    assert(self.graph()[be].in_advance@ =~= graph[be].in_advance@.push(base.exit));
                }
                assert forall|k: usize| #[trigger] graph.contains_key(k) && k != te && k != be
                    implies self.graph()[k].is_update_of(graph[k], Direction::Advance, None, Seq::empty()) by {
                    assert(middle[k].is_update_of(graph[k], Direction::Advance, None, Seq::empty()));
                    assert(self.graph()[k].is_update_of(middle[k], Direction::Reverse, None, Seq::empty()));
                    assert(self.graph()[k].in_advance@ =~= graph[k].in_advance@ + Seq::empty());
                }
            }
            base.exit = target.exit;
            base
        }
    }

    /// Binds a variable in the innermost scope.
    fn bind(&mut self, variable: Variable, span: Span)
        requires
            old(self).wf(),
            old(self).frames@.len() > 0,
        ensures
            final(self).wf(),
            final(self).frames@.len() == old(self).frames@.len(),
            is_binding_in(final(self).frames@.last()@, old(self).frames@.last()@, variable@, span),
            forall|i: int| 0 <= i < old(self).frames@.len() - 1 ==> #[trigger] final(self).frames@[i] == old(self).frames@[i],
            final(self).nodes == old(self).nodes,
            final(self).next_temporary == old(self).next_temporary,
            final(self).next_component == old(self).next_component,
            final(self).reversibility == old(self).reversibility,
    {
        let mut frame = self.frames.pop().unwrap();
        let ghost before = frame@;
        assert(frame_distinct(before)) by {
            assert(before == old(self).frames@[old(self).frames@.len() - 1]@);
        }
        match position_in(&frame, &variable) {
            Some(index) => {
                let bound = frame.remove(index);
                frame.insert(index, (bound.0, span));
                assert forall|i: int, j: int| 0 <= i < j < frame@.len() implies (#[trigger] frame@[i]).0@
                    != (#[trigger] frame@[j]).0@ by {
                    assert(frame@[i].0@ == before[i].0@);
                    assert(frame@[j].0@ == before[j].0@);
                }
                assert forall|i: int| 0 <= i < before.len() implies if (#[trigger] before[i]).0@ == variable@ {
                    frame@[i] == (before[i].0, span)
                } else {
                    frame@[i] == before[i]
                } by {
                    if i != index && before[i].0@ == variable@ {
                        assert(before[index as int].0@ == variable@);
                    }
                }
            },
            None => {
                frame.push((variable, span));
                assert(frame@.subrange(0, before.len() as int) =~= before);
                assert forall|i: int, j: int| 0 <= i < j < frame@.len() implies (#[trigger] frame@[i]).0@
                    != (#[trigger] frame@[j]).0@ by {
                    if j == before.len() {
                        assert(before[i].0@ != variable@);
                    }
                }
            },
        }
        self.frames.push(frame);
        assert forall|i: int| 0 <= i < self.frames@.len() implies frame_distinct(#[trigger] self.frames@[i]@) by {
            if i < self.frames@.len() - 1 {
                assert(self.frames@[i] == old(self).frames@[i]);
            }
        }
    }

    /// Pushes a statement on the exit of a component: the statement goes into a
    /// fresh node that is joined onto the exit. A binding records its variable
    /// in the innermost scope.
    pub fn push(&mut self, component: Component, statement: Spanned<Statement>) -> (pushed: Component)
        requires
            old(self).wf(),
            old(self).allocated() + 1 < usize::MAX,
            old(self).graph().contains_key(component.exit.0),
            old(self).graph()[component.exit.0].advance.node is Unreachable,
            statement.node is Binding ==> old(self).scopes().len() > 0,
        ensures
            final(self).wf(),
            final(self).temporaries() == old(self).temporaries(),
            final(self).allocated() == old(self).allocated() + 1,
            final(self).spec_reversibility() == old(self).spec_reversibility(),
            !(statement.node is Binding) ==> final(self).scopes() == old(self).scopes(),
            statement.node is Binding ==> {
                &&& final(self).scopes().len() == old(self).scopes().len()
                &&& final(self).scopes().drop_last() == old(self).scopes().drop_last()
                &&& is_binding_in(final(self).scopes().last(), old(self).scopes().last(),
                    statement.node->Binding_0@, statement.span)
            },
            old(self).graph()[component.exit.0].in_reverse@.len() == 0 ==> {
                let (before, after) = (old(self).graph()[component.exit.0], final(self).graph()[component.exit.0]);
                &&& pushed == component
                &&& final(self).graph().dom() == old(self).graph().dom()
                &&& forall|k: usize| #[trigger] old(self).graph().contains_key(k) && k != component.exit.0
                    ==> final(self).graph()[k] == old(self).graph()[k]
                &&& after.statements@ == before.statements@.push(statement)
                &&& after.advance == (Spanned { node: Branch::Unreachable, span: Span::spec_internal() })
                &&& after.reverse == before.reverse
                &&& after.in_advance@ == before.in_advance@
                &&& after.in_reverse@ == before.in_reverse@
            },
            old(self).graph()[component.exit.0].in_reverse@.len() != 0 ==> {
                let fresh = NodeTarget((old(self).allocated() + 1) as usize);
                let (before, after) = (old(self).graph()[component.exit.0], final(self).graph()[component.exit.0]);
                let added = final(self).graph()[fresh.0];
                &&& pushed == Component { entry: component.entry, exit: fresh }
                &&& !old(self).graph().contains_key(fresh.0)
                &&& final(self).graph().dom() == old(self).graph().dom().insert(fresh.0)
                &&& forall|k: usize| #[trigger] old(self).graph().contains_key(k) && k != component.exit.0
                    ==> final(self).graph()[k].is_update_of(old(self).graph()[k], Direction::Advance, None, Seq::empty())
                &&& after.statements@ == before.statements@
                &&& after.advance == (Spanned { node: Branch::Jump(fresh), span: statement.span })
                &&& after.reverse == before.reverse
                &&& after.in_advance@ == before.in_advance@
                &&& after.in_reverse@ == before.in_reverse@.push(fresh)
                &&& added.statements@ == seq![statement]
                &&& added.reverse == (Spanned { node: Branch::Jump(component.exit), span: statement.span })
                &&& added.advance == (Spanned { node: Branch::Unreachable, span: Span::spec_internal() })
                &&& added.in_advance@ == seq![component.exit]
                &&& added.in_reverse@.len() == 0
            },
    {
        if let Statement::Binding(variable, _) = &statement.node {
            let variable = variable.duplicate();
            self.bind(variable, statement.span);
            assert(self.scopes().drop_last() =~= old(self).scopes().drop_last());
        }
        let ghost bound = self.nodes@;
        let (other, span) = (self.component(), statement.span);
        let mut node = self.take(other.exit.0);
        node.statements.push(statement);
        self.put(other.exit.0, node);
        proof {
            let fresh = other.exit.0;
            assert(self.graph()[fresh].statements@ =~= seq![statement]);
        }
        let joined = self.join(component, other, span);
        proof {
            let fresh = other.exit.0;
            if old(self).graph()[component.exit.0].in_reverse@.len() == 0 {
                assert(self.graph()[component.exit.0].statements@
                    =~= old(self).graph()[component.exit.0].statements@.push(statement));
            }
            assert(self.graph().dom() =~= if old(self).graph()[component.exit.0].in_reverse@.len() == 0 {
                old(self).graph().dom()
            } else {
                old(self).graph().dom().insert(fresh)
            });
        }
        joined
    }

    /// Removes a variable from the innermost scope that binds it; where none
    /// does, nothing changes.
    pub fn consume_variable(&mut self, variable: &Variable)
        requires
            old(self).wf(),
        ensures
            final(self).wf(),
            final(self).graph() == old(self).graph(),
            final(self).temporaries() == old(self).temporaries(),
            final(self).allocated() == old(self).allocated(),
            final(self).spec_reversibility() == old(self).spec_reversibility(),
            final(self).scopes().len() == old(self).scopes().len(),
            is_consumption(final(self).scopes(), old(self).scopes(), variable@),
    {
        let mut index = self.frames.len();
        while index > 0
            invariant
                self == old(self),
                self.wf(),
                index <= self.frames@.len(),
                innermost_binding(self.scopes(), variable@, self.scopes().len() as int)
                    == innermost_binding(self.scopes(), variable@, index as int),
            decreases index,
        {
            match position_in(&self.frames[index - 1], variable) {
                Some(position) => {
                    let ghost scopes = self.scopes();
                    assert(self.frames@[index - 1]@ == scopes[index - 1]);
                    assert(frame_holds(scopes[index - 1], variable@));
                    let mut frame = self.frames.remove(index - 1);
                    frame.remove(position);
                    self.frames.insert(index - 1, frame);
                    assert forall|i: int| 0 <= i < scopes.len() && i != index - 1
                        implies #[trigger] self.scopes()[i] == scopes[i] by {
                        assert(self.frames@[i] == old(self).frames@[i]);
                    }
                    assert(self.scopes()[index - 1] =~= scopes[index - 1].remove(position as int));
                    assert(innermost_binding(scopes, variable@, index as int) == Some(index - 1));
                    assert(scopes[index - 1][position as int].0@ == variable@);
                    let ghost j = index - 1;
                    assert(frame_position(scopes[j], variable@) == position) by {
                        assert(scopes[j][position as int].0@ == variable@);
                        let k = frame_position(scopes[j], variable@);
                        assert(frame_distinct(old(self).frames@[j]@));
                        assert(old(self).frames@[j]@ == scopes[j]);
                        if k != position {
                            if k < position {
                                assert(scopes[j][k].0@ != scopes[j][position as int].0@);
                            } else {
                                assert(scopes[j][position as int].0@ != scopes[j][k].0@);
                            }
                        }
                    }
                    assert(frame_distinct(self.frames@[index - 1]@)) by {
                        let before = old(self).frames@[index - 1]@;
                        assert(frame_distinct(before));
                        let after = self.frames@[index - 1]@;
                        assert forall|i: int, j: int| 0 <= i < j < after.len() implies (#[trigger] after[i]).0@
                            != (#[trigger] after[j]).0@ by {
                            if i < position {
                                if j < position {
                                } else {
                                    assert(after[j] == before[j + 1]);
                                }
                            } else {
                                assert(after[i] == before[i + 1]);
                                assert(after[j] == before[j + 1]);
                            }
                        }
                    }
                    assert forall|i: int| 0 <= i < self.frames@.len() implies frame_distinct(#[trigger] self.frames@[i]@) by {
                        if i != index - 1 {
                            assert(self.frames@[i] == old(self).frames@[i]);
                        }
                    }
                    return;
                },
                None => {
                    index -= 1;
                },
            }
        }
        assert(is_consumption(self.scopes(), old(self).scopes(), variable@));
    }

    /// Removes the variable of a location value from the innermost scope that binds it.
    pub fn consume_value(&mut self, value: &Value)
        requires
            old(self).wf(),
        ensures
            final(self).wf(),
            final(self).graph() == old(self).graph(),
            final(self).temporaries() == old(self).temporaries(),
            final(self).allocated() == old(self).allocated(),
            final(self).spec_reversibility() == old(self).spec_reversibility(),
            value is Location ==> is_consumption(final(self).scopes(), old(self).scopes(),
                value->Location_0.variable@),
            value is Item ==> final(self).scopes() == old(self).scopes(),
    {
        if let Value::Location(location) = value {
            self.consume_variable(&location.variable);
        }
    }

    /// Closes the innermost scope. The component returned is one fresh node;
    /// when the function is reversible it releases each variable that the
    /// scope still binds, in the order of the scope.
    pub fn pop_frame(&mut self) -> (component: Component)
        requires
            old(self).wf(),
            old(self).scopes().len() > 0,
            old(self).allocated() + 1 + old(self).scopes().last().len() < usize::MAX,
        ensures
            final(self).wf(),
            final(self).temporaries() == old(self).temporaries(),
            final(self).spec_reversibility() == old(self).spec_reversibility(),
            final(self).scopes() == old(self).scopes().drop_last(),
            ({
                let fresh = NodeTarget((old(self).allocated() + 1) as usize);
                let node = final(self).graph()[fresh.0];
                &&& component == Component { entry: fresh, exit: fresh }
                &&& !old(self).graph().contains_key(fresh.0)
                &&& final(self).graph().dom() == old(self).graph().dom().insert(fresh.0)
                &&& forall|k: usize| #[trigger] old(self).graph().contains_key(k) ==> final(self).graph()[k]
                    == old(self).graph()[k]
                &&& old(self).spec_reversibility() == Reversibility::Entropic ==> {
                    &&& node.is_fresh()
                    &&& final(self).allocated() == old(self).allocated() + 1
                }
                &&& old(self).spec_reversibility() == Reversibility::Reversible ==> {
                    &&& releases(node.statements@, old(self).scopes().last())
                    &&& node.advance == (Spanned { node: Branch::Unreachable, span: Span::spec_internal() })
                    &&& node.reverse == (Spanned { node: Branch::Unreachable, span: Span::spec_internal() })
                    &&& node.in_advance@.len() == 0
                    &&& node.in_reverse@.len() == 0
                    &&& final(self).allocated() == old(self).allocated() + 1 + old(self).scopes().last().len()
                }
            }),
    {
        let frame = self.frames.pop().unwrap();
        let ghost popped = self.nodes@;
        assert(self.scopes() =~= old(self).scopes().drop_last());
        assert(frame@ == old(self).scopes().last());
        if !self.is_reversible() {
            return self.component();
        }
        let mut component = self.component();
        let fresh = component.entry;
        let mut index: usize = 0;
        while index < frame.len()
            invariant
                self.wf(),
                index <= frame@.len(),
                frame@ == old(self).scopes().last(),
                component == (Component { entry: fresh, exit: fresh }),
                fresh.0 == old(self).allocated() + 1,
                !old(self).graph().contains_key(fresh.0),
                self.graph().dom() == old(self).graph().dom().insert(fresh.0),
                forall|k: usize| #[trigger] old(self).graph().contains_key(k) ==> self.graph()[k]
                    == old(self).graph()[k],
                releases(self.graph()[fresh.0].statements@, frame@.subrange(0, index as int)),
                self.graph()[fresh.0].advance == (Spanned { node: Branch::Unreachable, span: Span::spec_internal() }),
                self.graph()[fresh.0].reverse == (Spanned { node: Branch::Unreachable, span: Span::spec_internal() }),
                self.graph()[fresh.0].in_advance@.len() == 0,
                self.graph()[fresh.0].in_reverse@.len() == 0,
                self.allocated() == old(self).allocated() + 1 + index,
                old(self).allocated() + 1 + frame@.len() < usize::MAX,
                self.scopes() == old(self).scopes().drop_last(),
                self.temporaries() == old(self).temporaries(),
                self.spec_reversibility() == old(self).spec_reversibility(),
            decreases frame@.len() - index,
        {
            let variable = frame[index].0.duplicate();
            let statement = Statement::ImplicitDrop(Location::new(variable));
            let ghost before = self.graph()[fresh.0].statements@;
            let ghost previous = self.nodes@;
            component = self.push(component, Spanned::new(statement, frame[index].1));
            index += 1;
            proof {
                assert forall|k: usize| #[trigger] old(self).graph().contains_key(k) implies self.graph()[k]
                    == old(self).graph()[k] by {
                    assert(previous.contains_key(k));
                    assert(k != fresh.0);
                    assert(previous[k] == old(self).graph()[k]);
                }
                let statements = self.graph()[fresh.0].statements@;
                let prefix = frame@.subrange(0, index as int);
                assert forall|i: int| 0 <= i < prefix.len() implies {
                    let statement = #[trigger] statements[i];
                    &&& statement.node is ImplicitDrop
                    &&& statement.node->ImplicitDrop_0.variable@ == prefix[i].0@
                    &&& statement.node->ImplicitDrop_0.projections@.len() == 0
                    &&& statement.span == prefix[i].1
                } by {
                    if i < index - 1 {
                        assert(statements[i] == before[i]);
                        assert(prefix[i] == frame@.subrange(0, index - 1)[i]);
                    }
                }
            }
        }
        assert(frame@.subrange(0, frame@.len() as int) =~= frame@);
        component
    }

    /// Renumbers the nodes by their places in increasing index order, retargets
    /// their branches to match, and gives them up as a vector together with
    /// the renumbered component.
    pub fn flatten(self, component: Component) -> (flat: (Vec<BasicNode>, Component))
        requires
            self.wf(),
            self.graph().contains_key(component.entry.0),
            self.graph().contains_key(component.exit.0),
        ensures
            flat.0@.len() == self.graph().dom().len(),
            flat.1 == (Component {
                entry: NodeTarget(rank(self.graph().dom(), component.entry.0) as usize),
                exit: NodeTarget(rank(self.graph().dom(), component.exit.0) as usize),
            }),
            forall|k: usize| #[trigger] self.graph().contains_key(k) ==> {
                &&& rank(self.graph().dom(), k) < flat.0@.len()
                &&& flat.0@[rank(self.graph().dom(), k) as int].is_retargeting_of(
                    self.graph()[k],
                    ranking(self.graph().dom()),
                )
            },
    {
        let ghost graph = self.nodes@;
        let ghost indices = graph.dom();
        let mut context = self;
        let mut targets = HashMap::new();
        let mut count: usize = 0;
        let mut k: usize = 0;
        assert(indices.filter(|j: usize| j < 0) =~= Set::empty());
        assert(targets@ =~= Map::new(|j: usize| indices.contains(j) && j < 0, |j: usize| rank(indices, j) as usize));
        while k <= context.next_component
            invariant
                context.wf(),
                context.nodes@ == graph,
                indices == graph.dom(),
                indices.finite(),
                k <= context.next_component + 1,
                count == rank(indices, k),
                count <= k,
                targets@ == Map::new(|j: usize| indices.contains(j) && j < k, |j: usize| rank(indices, j) as usize),
            decreases context.next_component + 1 - k,
        {
            proof {
                lemma_rank_step(indices, k);
                if indices.contains(k) {
                    lemma_rank_bound(indices, k);
                }
            }
            if context.nodes.contains_key(&k) {
                targets.insert(k, count);
                count += 1;
            }
            k += 1;
            assert(targets@ =~= Map::new(|j: usize| indices.contains(j) && j < k, |j: usize| rank(indices, j) as usize));
        }
        assert(targets@ =~= ranking(indices));
        let ghost total = count;
        assert(indices.filter(|j: usize| j < k) =~= indices);
        let mut nodes: Vec<BasicNode> = Vec::new();
        let mut k: usize = 0;
        assert(indices.filter(|j: usize| j < 0) =~= Set::empty());
        assert(context.nodes@.dom() =~= indices.filter(|j: usize| j >= 0));
        while k <= context.next_component
            invariant
                context.wf(),
                indices == graph.dom(),
                indices.finite(),
                total == indices.len(),
                forall|j: usize| #[trigger] indices.contains(j) ==> j <= context.next_component,
                targets@ == ranking(indices),
                k <= context.next_component + 1,
                nodes@.len() == rank(indices, k),
                context.nodes@.dom() == indices.filter(|j: usize| j >= k),
                forall|j: usize| #[trigger] context.nodes@.contains_key(j) ==> context.nodes@[j] == graph[j],
                forall|j: usize| #[trigger] indices.contains(j) && j < k ==> {
                    &&& rank(indices, j) < nodes@.len()
                    &&& nodes@[rank(indices, j) as int].is_retargeting_of(graph[j], ranking(indices))
                },
            decreases context.next_component + 1 - k,
        {
            proof {
                lemma_rank_step(indices, k);
            }
            if context.nodes.contains_key(&k) {
                let mut node = context.take(k);
                node.retarget(&targets);
                nodes.push(node);
            }
            k += 1;
            assert(context.nodes@.dom() =~= indices.filter(|j: usize| j >= k));
        }
        proof {
            assert(indices.filter(|j: usize| j < k) =~= indices);
            assert forall|j: usize| #[trigger] graph.contains_key(j) implies {
                &&& rank(indices, j) < nodes@.len()
                &&& nodes@[rank(indices, j) as int].is_retargeting_of(graph[j], ranking(indices))
            } by {
                assert(j <= context.next_component);
            }
        }
        let entry = NodeTarget(*targets.get(&component.entry.0).unwrap());
        let exit = NodeTarget(*targets.get(&component.exit.0).unwrap());
        (nodes, Component::new(entry, exit))
    }

    /// Inverts every node that is reached from the entry of the component
    /// along advance branches: its statements are reversed and its directions
    /// exchanged. The component itself is returned as it was.
    pub fn invert(&mut self, component: Component) -> (inverted: Component)
        requires
            old(self).wf(),
            forall|k: usize, steps: nat| #[trigger] reaches(old(self).graph(), component.entry.0, k, steps)
                ==> old(self).graph().contains_key(k),
        ensures
            final(self).wf(),
            inverted == component,
            final(self).graph().dom() == old(self).graph().dom(),
            forall|k: usize| #[trigger] old(self).graph().contains_key(k) ==> if reachable(
                old(self).graph(),
                component.entry.0,
                k,
            ) {
                final(self).graph()[k].is_inversion_of(old(self).graph()[k])
            } else {
                final(self).graph()[k] == old(self).graph()[k]
            },
            final(self).temporaries() == old(self).temporaries(),
            final(self).allocated() == old(self).allocated(),
            final(self).scopes() == old(self).scopes(),
            final(self).spec_reversibility() == old(self).spec_reversibility(),
    {
        let ghost graph = self.nodes@;
        let ghost start = component.entry.0;
        let mut visited: BTreeSet<usize> = BTreeSet::new();
        let mut stack: Vec<NodeTarget> = Vec::new();
        stack.push(component.entry);
        let ghost mut depths: Map<usize, nat> = Map::empty();
        let ghost mut stack_depths: Seq<nat> = seq![0nat];
        assert(reaches(graph, start, start, 0));
        assert forall|k: usize, steps: nat| #[trigger] reaches(graph, start, k, steps) implies graph.contains_key(k) by {
            assert(reaches(old(self).graph(), component.entry.0, k, steps));
        }
        assert(stack@[0] == component.entry);
        while stack.len() > 0
            invariant
                self.wf(),
                self.graph().dom() == graph.dom(),
                graph == old(self).graph(),
                start == component.entry.0,
                graph.dom().finite(),
                forall|k: usize, steps: nat| #[trigger] reaches(graph, start, k, steps) ==> graph.contains_key(k),
                visited@.subset_of(graph.dom()),
                forall|k: usize| #[trigger] graph.contains_key(k) ==> if visited@.contains(k) {
                    self.graph()[k].is_inversion_of(graph[k])
                } else {
                    self.graph()[k] == graph[k]
                },
                forall|k: usize| #[trigger] visited@.contains(k) ==> depths.contains_key(k) && reaches(
                    graph,
                    start,
                    k,
                    depths[k],
                ),
                stack_depths.len() == stack@.len(),
                forall|i: int| 0 <= i < stack@.len() ==> reaches(graph, start, (#[trigger] stack@[i]).0, stack_depths[i]),
                visited@.contains(start) || stack@.contains(component.entry),
                forall|j: usize, i: int| #[trigger] visited@.contains(j) && 0 <= i < graph[j].advance.node.spec_targets().len()
                    ==> visited@.contains(#[trigger] graph[j].advance.node.spec_targets()[i].0)
                        || stack@.contains(graph[j].advance.node.spec_targets()[i]),
                self.next_temporary == old(self).next_temporary,
                self.next_component == old(self).next_component,
                self.frames == old(self).frames,
                self.reversibility == old(self).reversibility,
            decreases graph.dom().len() - visited@.len(), stack@.len(),
        {
            let ghost before_stack = stack@;
            let node = stack.pop().unwrap();
            let ghost depth = stack_depths.last();
            proof {
                stack_depths = stack_depths.drop_last();
                vstd::set_lib::lemma_len_subset(visited@, graph.dom());
            }
            if !visited.contains(&node.0) {
                assert(reaches(graph, start, node.0, depth));
                visited.insert(node.0);
                proof {
                    depths = depths.insert(node.0, depth);
                    vstd::set_lib::lemma_len_subset(visited@, graph.dom());
                }
                let mut inverted = self.take(node.0);
                inverted.invert();
                let targets = inverted.reverse.node.targets();
                self.put(node.0, inverted);
                assert(targets@ == graph[node.0].advance.node.spec_targets());
                assert forall|t: NodeTarget| #[trigger] before_stack.contains(t) && t != node implies stack@.contains(t) by {
                    let x = choose|x: int| 0 <= x < before_stack.len() && before_stack[x] == t;
                    assert(x < stack@.len());
                    assert(stack@[x] == t);
                }
                let mut index: usize = 0;
                while index < targets.len()
                    invariant
                        index <= targets@.len(),
                        targets@ == graph[node.0].advance.node.spec_targets(),
                        graph.contains_key(node.0),
                        reaches(graph, start, node.0, depth),
                        stack_depths.len() == stack@.len(),
                        forall|i: int| 0 <= i < stack@.len() ==> reaches(graph, start, (#[trigger] stack@[i]).0, stack_depths[i]),
                        forall|i: int| 0 <= i < index ==> stack@.contains(#[trigger] targets@[i]),
                        forall|t: NodeTarget| #[trigger] before_stack.contains(t) && t != node ==> stack@.contains(t),
                    decreases targets@.len() - index,
                {
                    let ghost previous = stack@;
                    stack.push(targets[index]);
                    proof {
                        stack_depths = stack_depths.push(depth + 1);
                        assert(graph[node.0].advance.node.spec_targets().contains(targets@[index as int]));
                        assert(reaches(graph, start, targets@[index as int].0, depth + 1));
                        assert(stack@[stack@.len() - 1] == targets@[index as int]);
                        assert forall|t: NodeTarget| #[trigger] previous.contains(t) implies stack@.contains(t) by {
                            let i = choose|i: int| 0 <= i < previous.len() && previous[i] == t;
                            assert(stack@[i] == t);
                        }
                    }
                    index += 1;
                }
                proof {
                    assert forall|j: usize, i: int| #[trigger] visited@.contains(j) && 0 <= i
                        < graph[j].advance.node.spec_targets().len() implies visited@.contains(
                        #[trigger] graph[j].advance.node.spec_targets()[i].0,
                    ) || stack@.contains(graph[j].advance.node.spec_targets()[i]) by {
                        let t = graph[j].advance.node.spec_targets()[i];
                        if j == node.0 {
                            assert(stack@.contains(targets@[i]));
                        } else if !visited@.contains(t.0) {
                            assert(before_stack.contains(t));
                            if t == node {
                                assert(visited@.contains(t.0));
                            }
                        }
                    }
                }
            } else {
                proof {
                    assert forall|j: usize, i: int| #[trigger] visited@.contains(j) && 0 <= i
                        < graph[j].advance.node.spec_targets().len() implies visited@.contains(
                        #[trigger] graph[j].advance.node.spec_targets()[i].0,
                    ) || stack@.contains(graph[j].advance.node.spec_targets()[i]) by {
                        let t = graph[j].advance.node.spec_targets()[i];
                        if !visited@.contains(t.0) {
                            assert(before_stack.contains(t));
                            let x = choose|x: int| 0 <= x < before_stack.len() && before_stack[x] == t;
                            assert(x < stack@.len());
                            assert(stack@[x] == t);
                        }
                    }
                    if !visited@.contains(start) {
                        let x = choose|x: int| 0 <= x < before_stack.len() && before_stack[x] == component.entry;
                        assert(x < stack@.len());
                        assert(stack@[x] == component.entry);
                    }
                }
            }
            assert(self.nodes@.dom() =~= graph.dom());
        }
        proof {
            assert(closed(graph, visited@));
            assert forall|k: usize| #[trigger] graph.contains_key(k) implies if reachable(graph, start, k) {
                self.graph()[k].is_inversion_of(graph[k])
            } else {
                self.graph()[k] == graph[k]
            } by {
                if reachable(graph, start, k) {
                    let steps = choose|steps: nat| reaches(graph, start, k, steps);
                    lemma_closed_holds_reached(graph, visited@, start, k, steps);
                } else if visited@.contains(k) {
                    assert(reaches(graph, start, k, depths[k]));
                }
            }
        }
        component
    }

    /// Opens a new, empty scope.
    pub fn push_frame(&mut self)
        ensures
            final(self).scopes() == old(self).scopes().push(Seq::empty()),
            final(self).graph() == old(self).graph(),
            final(self).temporaries() == old(self).temporaries(),
            final(self).allocated() == old(self).allocated(),
            final(self).spec_reversibility() == old(self).spec_reversibility(),
            old(self).wf() ==> final(self).wf(),
    {
        self.frames.push(Vec::new());
        assert(self.scopes() =~= old(self).scopes().push(Seq::empty()));
    }
}

} // verus!
