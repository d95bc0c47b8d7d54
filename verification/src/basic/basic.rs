use vstd::prelude::*;

use crate::node::{Intrinsic, TypeResolution};

use super::{BasicNode, NodeTarget};

verus! {

/// The direction of execution through a reversible program.
#[derive(Debug, Copy, Clone, PartialEq, Eq, Structural)]
pub enum Direction {
    Advance,
    Reverse,
}

impl Direction {
    /// The opposite direction.
    pub open spec fn flip(self) -> Direction {
        match self {
            Direction::Advance => Direction::Reverse,
            Direction::Reverse => Direction::Advance,
        }
    }

    /// The composition of two directions: advancing when both agree.
    pub open spec fn compose(self, other: Direction) -> Direction {
        if self == other { Direction::Advance } else { Direction::Reverse }
    }
}

/// Turning a direction around twice gives it back.
pub proof fn lemma_flip_twice(direction: Direction)
    ensures
        direction.flip().flip() == direction,
{
}

/// Composing directions is commutative and associative, advancing leaves a
/// direction as it is, reversing turns it around, and a direction composed
/// with itself advances.
pub proof fn lemma_compose(first: Direction, second: Direction, third: Direction)
    ensures
        first.compose(second) == second.compose(first),
        first.compose(second).compose(third) == first.compose(second.compose(third)),
        first.compose(Direction::Advance) == first,
        first.compose(Direction::Reverse) == first.flip(),
        first.compose(first) == Direction::Advance,
{
}

impl Direction {
    /// The opposite direction.
    pub fn invert(self) -> (result: Direction)
        ensures
            result == self.flip(),
    {
        match self {
            Direction::Advance => Direction::Reverse,
            Direction::Reverse => Direction::Advance,
        }
    }
}

impl core::ops::Not for Direction {
    type Output = Direction;

    fn not(self) -> (result: Direction)
        ensures
            result == self.flip(),
    {
        match self {
            Direction::Advance => Direction::Reverse,
            Direction::Reverse => Direction::Advance,
        }
    }
}

impl core::ops::BitXor for Direction {
    type Output = Direction;

    fn bitxor(self, other: Direction) -> (result: Direction)
        ensures
            result == self.compose(other),
    {
        match self == other {
            true => Direction::Advance,
            false => Direction::Reverse,
        }
    }
}

impl vstd::std_specs::ops::NotSpecImpl for Direction {
    open spec fn obeys_not_spec() -> bool {
        true
    }

    open spec fn not_req(self) -> bool {
        true
    }

    open spec fn not_spec(self) -> Direction {
        self.flip()
    }
}

impl vstd::std_specs::ops::BitXorSpecImpl for Direction {
    open spec fn obeys_bitxor_spec() -> bool {
        true
    }

    open spec fn bitxor_req(self, other: Direction) -> bool {
        true
    }

    open spec fn bitxor_spec(self, other: Direction) -> Direction {
        self.compose(other)
    }
}

/// Whether a function is lowered so that it can run backwards, or only forwards.
#[derive(Debug, Copy, Clone, PartialEq, Eq, Structural)]
pub enum Reversibility {
    Reversible,
    Entropic,
}

impl Reversibility {
    /// The reversibility that lowering in a direction calls for: advancing
    /// alone discards information, reversing keeps it.
    pub open spec fn of_direction(direction: Direction) -> Reversibility {
        match direction {
            Direction::Advance => Reversibility::Entropic,
            Direction::Reverse => Reversibility::Reversible,
        }
    }
}

impl From<Direction> for Reversibility {
    fn from(direction: Direction) -> (reversibility: Reversibility) {
        match direction {
            Direction::Advance => Reversibility::Entropic,
            Direction::Reverse => Reversibility::Reversible,
        }
    }
}

impl vstd::std_specs::convert::FromSpecImpl<Direction> for Reversibility {
    open spec fn obeys_from_spec() -> bool {
        true
    }

    open spec fn from_spec(direction: Direction) -> Reversibility {
        Reversibility::of_direction(direction)
    }
}

/// A function lowered to a graph of nodes.
#[derive(Debug)]
pub struct BasicFunction {
    pub parameters: Vec<TypeResolution>,
    pub component: Component,
    pub nodes: Vec<BasicNode>,
}

impl BasicFunction {
    /// The type of the parameters taken together: a tuple of them.
    pub fn parameter_type(&self) -> (resolution: TypeResolution)
        ensures
            resolution.0 == crate::node::StructurePath::Intrinsic(Intrinsic::Tuple),
            crate::node::same_parameters(resolution.1@, self.parameters@),
    {
        let path = Intrinsic::Tuple.structure();
        let mut parameters = Vec::new();
        let mut index: usize = 0;
        while index < self.parameters.len()
            invariant
                index <= self.parameters@.len(),
                parameters@.len() == index,
                crate::node::same_parameters(parameters@, self.parameters@.subrange(0, index as int)),
            decreases self.parameters@.len() - index,
        {
            let parameter = self.parameters[index].duplicate();
            let ghost before = parameters@;
            parameters.push(parameter);
            assert(parameters@.subrange(0, index as int) =~= before);
            assert(self.parameters@.subrange(0, index + 1).subrange(0, index as int)
                =~= self.parameters@.subrange(0, index as int));
            index += 1;
        }
        assert(self.parameters@.subrange(0, index as int) =~= self.parameters@);
        TypeResolution(path, parameters)
    }

    /// The node at a target.
    pub fn node(&self, target: &NodeTarget) -> (node: &BasicNode)
        requires
            target.0 < self.nodes@.len(),
        ensures
            *node == self.nodes@[target.0 as int],
    {
        &self.nodes[target.0]
    }
}

/// A part of a graph, entered through one node and left through another.
#[derive(Debug, Copy, Clone, PartialEq, Eq, Structural)]
pub struct Component {
    pub entry: NodeTarget,
    pub exit: NodeTarget,
}

impl Component {
    /// The node through which a direction leaves the component.
    pub open spec fn spec_endpoint(&self, direction: Direction) -> NodeTarget {
        match direction {
            Direction::Advance => self.exit,
            Direction::Reverse => self.entry,
        }
    }

    pub fn new(entry: NodeTarget, exit: NodeTarget) -> (component: Component)
        ensures
            component.entry == entry,
            component.exit == exit,
    {
        Component { entry, exit }
    }

    #[verifier::when_used_as_spec(spec_endpoint)]
    pub fn endpoint(&self, direction: Direction) -> (target: NodeTarget)
        ensures
            target == self.spec_endpoint(direction),
    {
        match direction {
            Direction::Advance => self.exit,
            Direction::Reverse => self.entry,
        }
    }
}

} // verus!
