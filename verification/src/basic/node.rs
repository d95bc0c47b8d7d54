use vstd::prelude::*;

use std::collections::HashMap;

use crate::source::{Span, Spanned};

use super::{Branch, Direction, Statement};


verus! {

/// The index of a node in the node graph of a function.
#[derive(Debug, Copy, Clone, PartialEq, Eq, Structural)]
pub struct NodeTarget(pub usize);

impl NodeTarget {
    /// The index of the node, in decimal.
    pub fn text(&self) -> (text: String)
        ensures
            text@ == crate::source::decimal(self.0 as nat),
    {
        proof {
            reveal_strlit("");
        }
        let text = crate::source::numbered_text("", self.0, "");
        assert(text@ =~= crate::source::decimal(self.0 as nat));
        text
    }

    /// The target of a branch whose destination is not known yet.
    pub open spec fn spec_unresolved() -> NodeTarget {
        NodeTarget(usize::MAX)
    }

    #[verifier::when_used_as_spec(spec_unresolved)]
    pub fn unresolved() -> (target: NodeTarget)
        ensures
            target == NodeTarget::spec_unresolved(),
    {
        NodeTarget(usize::MAX)
    }
}

/// A node of the graph: a sequence of statements entered through its reverse
/// branch and left through its advance branch when advancing, and the other
/// way round when reversing.
#[derive(Debug)]
pub struct BasicNode {
    pub statements: Vec<Spanned<Statement>>,
    pub reverse: Spanned<Branch>,
    pub advance: Spanned<Branch>,
    pub in_reverse: Vec<NodeTarget>,
    pub in_advance: Vec<NodeTarget>,
}

impl BasicNode {
    /// A node with no statements whose branches are both unreachable.
    pub open spec fn is_fresh(self) -> bool {
        &&& self.statements@.len() == 0
        &&& self.reverse.node is Unreachable
        &&& self.advance.node is Unreachable
        &&& self.reverse.span == Span::spec_internal()
        &&& self.advance.span == Span::spec_internal()
        &&& self.in_reverse@.len() == 0
        &&& self.in_advance@.len() == 0
    }

    /// The branch taken when leaving the node in a direction.
    pub open spec fn spec_branch(self, direction: Direction) -> Spanned<Branch> {
        match direction {
            Direction::Advance => self.advance,
            Direction::Reverse => self.reverse,
        }
    }

    /// The nodes whose branch in a direction may enter this node.
    pub open spec fn spec_in_edges(self, direction: Direction) -> Seq<NodeTarget> {
        match direction {
            Direction::Advance => self.in_advance@,
            Direction::Reverse => self.in_reverse@,
        }
    }

    /// This node with its statements reversed and its two directions exchanged.
    pub open spec fn is_inversion_of(self, other: BasicNode) -> bool {
        &&& self.statements@ == other.statements@.reverse()
        &&& self.advance == other.reverse
        &&& self.reverse == other.advance
        &&& self.in_advance == other.in_reverse
        &&& self.in_reverse == other.in_advance
    }

    /// `self` is `other` with its branch in `direction` replaced where `branch`
    /// holds one, and `edges` appended to its in-edges in that direction.
    pub open spec fn is_update_of(
        self,
        other: BasicNode,
        direction: Direction,
        branch: Option<Spanned<Branch>>,
        edges: Seq<NodeTarget>,
    ) -> bool {
        &&& self.statements@ == other.statements@
        &&& self.spec_branch(direction) == (match branch {
            Some(branch) => branch,
            None => other.spec_branch(direction),
        })
        &&& self.spec_branch(direction.flip()) == other.spec_branch(direction.flip())
        &&& self.spec_in_edges(direction) == other.spec_in_edges(direction) + edges
        &&& self.spec_in_edges(direction.flip()) == other.spec_in_edges(direction.flip())
    }

    /// `self` is `other` with the targets of both of its branches sent through
    /// the retargeting map.
    pub open spec fn is_retargeting_of(self, other: BasicNode, targets: Map<usize, usize>) -> bool {
        &&& self.statements@ == other.statements@
        &&& self.advance.span == other.advance.span
        &&& self.reverse.span == other.reverse.span
        &&& self.advance.node.is_retargeting_of(other.advance.node, targets)
        &&& self.reverse.node.is_retargeting_of(other.reverse.node, targets)
        &&& self.in_advance@ == other.in_advance@
        &&& self.in_reverse@ == other.in_reverse@
    }

    /// Inverting a node twice gives it back.
    pub proof fn lemma_invert_twice(first: BasicNode, second: BasicNode, third: BasicNode)
        requires
            second.is_inversion_of(first),
            third.is_inversion_of(second),
        ensures
            third.statements@ == first.statements@,
            third.advance == first.advance,
            third.reverse == first.reverse,
            third.in_advance == first.in_advance,
            third.in_reverse == first.in_reverse,
    {
        assert(third.statements@ =~= first.statements@.reverse().reverse());
        assert(first.statements@.reverse().reverse() =~= first.statements@);
    }

    /// Retargeting a node twice with a map that settles is retargeting it once.
    pub proof fn lemma_retarget_twice(first: BasicNode, second: BasicNode, third: BasicNode, targets: Map<usize, usize>)
        requires
            super::branch::settles(targets),
            second.is_retargeting_of(first, targets),
            third.is_retargeting_of(second, targets),
        ensures
            third.is_retargeting_of(first, targets),
    {
        super::branch::lemma_retarget_twice(first.advance.node, second.advance.node, third.advance.node, targets);
        super::branch::lemma_retarget_twice(first.reverse.node, second.reverse.node, third.reverse.node, targets);
    }

    pub fn new() -> (node: BasicNode)
        ensures
            node.is_fresh(),
    {
        BasicNode {
            statements: Vec::new(),
            reverse: Spanned::new(Branch::Unreachable, Span::internal()),
            advance: Spanned::new(Branch::Unreachable, Span::internal()),
            in_reverse: Vec::new(),
            in_advance: Vec::new(),
        }
    }

    /// The branch of the node in a direction, to be changed in place.
    pub fn branch(&mut self, direction: Direction) -> (branch: &mut Spanned<Branch>)
        ensures
            *branch == old(self).spec_branch(direction),
            direction == Direction::Advance ==> *final(self) == (BasicNode {
                advance: *final(branch),
                ..*old(self)
            }),
            direction == Direction::Reverse ==> *final(self) == (BasicNode {
                reverse: *final(branch),
                ..*old(self)
            }),
    {
        match direction {
            Direction::Advance => &mut self.advance,
            Direction::Reverse => &mut self.reverse,
        }
    }

    /// The in-edges of the node in a direction, to be changed in place.
    pub fn in_edges(&mut self, direction: Direction) -> (edges: &mut Vec<NodeTarget>)
        ensures
            *edges == (match direction {
                Direction::Advance => old(self).in_advance,
                Direction::Reverse => old(self).in_reverse,
            }),
            direction == Direction::Advance ==> *final(self) == (BasicNode {
                in_advance: *final(edges),
                ..*old(self)
            }),
            direction == Direction::Reverse ==> *final(self) == (BasicNode {
                in_reverse: *final(edges),
                ..*old(self)
            }),
    {
        match direction {
            Direction::Advance => &mut self.in_advance,
            Direction::Reverse => &mut self.in_reverse,
        }
    }

    /// Replaces the targets of both branches that the map holds by their images.
    pub fn retarget(&mut self, targets: &HashMap<usize, usize>)
        ensures
            final(self).is_retargeting_of(*old(self), targets@),
            final(self).advance.node.spec_targets() == old(self).advance.node.spec_targets().map_values(
                |target: NodeTarget| super::branch::mapped_target(target, targets@),
            ),
            final(self).reverse.node.spec_targets() == old(self).reverse.node.spec_targets().map_values(
                |target: NodeTarget| super::branch::mapped_target(target, targets@),
            ),
    {
        self.advance.node.retarget(targets);
        self.reverse.node.retarget(targets);
    }

    /// Reverses the statements and exchanges the advance and reverse branches and edges.
    pub fn invert(&mut self)
        ensures
            final(self).is_inversion_of(*old(self)),
    {
        std::mem::swap(&mut self.advance, &mut self.reverse);
        std::mem::swap(&mut self.in_advance, &mut self.in_reverse);
        crate::sequence::reverse_in_place(&mut self.statements);
    }
}

} // verus!
