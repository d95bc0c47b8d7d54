use vstd::prelude::*;
use vstd::string::StringExecFns;

use std::collections::HashMap;

use super::{Item, NodeTarget, Value};

verus! {

broadcast use vstd::std_specs::hash::group_hash_axioms;

/// Where a node continues in one direction.
#[derive(Debug)]
pub enum Branch {
    Jump(NodeTarget),
    Divergence(Divergence),
    Return(Value),
    Unreachable,
}

/// The target that a retargeting map sends a target to: its image where the
/// map holds its index, and the target itself elsewhere.
pub open spec fn mapped_target(target: NodeTarget, targets: Map<usize, usize>) -> NodeTarget {
    if targets.contains_key(target.0) {
        NodeTarget(targets[target.0])
    } else {
        target
    }
}

/// A retargeting map whose images are never themselves retargeted.
pub open spec fn settles(targets: Map<usize, usize>) -> bool {
    forall|k: usize| #[trigger] targets.contains_key(k) ==> !targets.contains_key(targets[k])
}

/// Retargeting twice with a map that settles is retargeting once.
pub proof fn lemma_retarget_twice(first: Branch, second: Branch, third: Branch, targets: Map<usize, usize>)
    requires
        settles(targets),
        second.is_retargeting_of(first, targets),
        third.is_retargeting_of(second, targets),
    ensures
        third.is_retargeting_of(first, targets),
{
    match first {
        Branch::Divergence(divergence) => {
            let middle = second->Divergence_0;
            let last = third->Divergence_0;
            assert forall|i: int| 0 <= i < last.branches@.len() implies {
                &&& (#[trigger] last.branches@[i]).0 == divergence.branches@[i].0
                &&& last.branches@[i].1 == mapped_target(divergence.branches@[i].1, targets)
            } by {
                assert(middle.branches@[i].1 == mapped_target(divergence.branches@[i].1, targets));
            }
        },
        _ => {},
    }
}

/// Retargeting with a map that holds no target leaves a branch as it is.
pub proof fn lemma_retarget_nothing(first: Branch, second: Branch, targets: Map<usize, usize>)
    requires
        targets.dom().is_empty(),
        second.is_retargeting_of(first, targets),
    ensures
        !(first is Divergence) ==> second == first,
        first matches Branch::Divergence(divergence) ==> second matches Branch::Divergence(result) && {
            &&& result.discriminant == divergence.discriminant
            &&& result.branches@ == divergence.branches@
            &&& result.default == divergence.default
        },
{
    match first {
        Branch::Divergence(divergence) => {
            let result = second->Divergence_0;
            assert(result.branches@ =~= divergence.branches@);
        },
        _ => {},
    }
}

/// The targets of a divergence: those of its discriminants in order, then the default.
pub open spec fn divergence_targets(divergence: Divergence) -> Seq<NodeTarget> {
    divergence.branches@.map_values(|branch: (Discriminant, NodeTarget)| branch.1).push(divergence.default)
}

impl Branch {
    /// The nodes that the branch may continue to, in order.
    pub open spec fn spec_targets(self) -> Seq<NodeTarget> {
        match self {
            Branch::Jump(target) => seq![target],
            Branch::Divergence(divergence) => divergence_targets(divergence),
            Branch::Return(_) => Seq::empty(),
            Branch::Unreachable => Seq::empty(),
        }
    }

    /// `self` is `other` with every target sent through the retargeting map.
    pub open spec fn is_retargeting_of(self, other: Branch, targets: Map<usize, usize>) -> bool {
        match other {
            Branch::Jump(target) => self == Branch::Jump(mapped_target(target, targets)),
            Branch::Divergence(divergence) => self is Divergence
                && self->Divergence_0.is_retargeting_of(divergence, targets),
            _ => self == other,
        }
    }

    pub fn targets(&self) -> (targets: Vec<NodeTarget>)
        ensures
            targets@ == self.spec_targets(),
    {
        match self {
            Branch::Jump(target) => {
                let mut targets = Vec::new();
                targets.push(*target);
                assert(targets@ =~= seq![*target]);
                targets
            },
            Branch::Divergence(divergence) => divergence.targets(),
            Branch::Return(_) | Branch::Unreachable => {
                let targets = Vec::new();
                assert(targets@ =~= Seq::<NodeTarget>::empty());
                targets
            },
        }
    }

    /// Replaces each target that the map holds by its image.
    pub fn retarget(&mut self, targets: &HashMap<usize, usize>)
        ensures
            final(self).is_retargeting_of(*old(self), targets@),
            final(self).spec_targets() == old(self).spec_targets().map_values(
                |target: NodeTarget| mapped_target(target, targets@),
            ),
    {
        match self {
            Branch::Jump(current) => {
                if let Some(target) = targets.get(&current.0) {
                    *current = NodeTarget(*target);
                }
            },
            Branch::Divergence(divergence) => divergence.retarget(targets),
            _ => (),
        }
        proof {
            if let Branch::Jump(_) = *old(self) {
                assert(final(self).spec_targets() =~= old(self).spec_targets().map_values(
                    |target: NodeTarget| mapped_target(target, targets@),
                ));
            }
            if (*old(self)) is Return || (*old(self)) is Unreachable {
                assert(final(self).spec_targets() =~= old(self).spec_targets().map_values(
                    |target: NodeTarget| mapped_target(target, targets@),
                ));
            }
        }
    }

    /// Whether the branch is unreachable.
    pub fn is_unreachable(&self) -> (unreachable: bool)
        ensures
            unreachable == (self is Unreachable),
    {
        match self {
            Branch::Unreachable => true,
            _ => false,
        }
    }
}

/// A branch on the value of a discriminant: to the target of the first
/// discriminant that it equals, else to the default.
#[derive(Debug)]
pub struct Divergence {
    pub discriminant: Value,
    pub branches: Vec<(Discriminant, NodeTarget)>,
    pub default: NodeTarget,
}

impl Divergence {
    /// `self` is `other` with every target sent through the retargeting map.
    pub open spec fn is_retargeting_of(self, other: Divergence, targets: Map<usize, usize>) -> bool {
        &&& self.discriminant == other.discriminant
        &&& self.default == mapped_target(other.default, targets)
        &&& self.branches@.len() == other.branches@.len()
        &&& forall|i: int| 0 <= i < self.branches@.len() ==> {
            &&& (#[trigger] self.branches@[i]).0 == other.branches@[i].0
            &&& self.branches@[i].1 == mapped_target(other.branches@[i].1, targets)
        }
    }

    /// A divergence on a truth value: to `target` when it is true, else to `default`.
    pub fn truth(discriminant: Value, target: NodeTarget, default: NodeTarget) -> (divergence: Divergence)
        ensures
            divergence.discriminant == discriminant,
            divergence.branches@ == seq![(Discriminant(u64::MAX), target)],
            divergence.default == default,
    {
        let mut branches = Vec::new();
        branches.push((Discriminant::item(Item::Truth(true)), target));
        assert(branches@ =~= seq![(Discriminant(u64::MAX), target)]);
        Divergence { discriminant, branches, default }
    }

    pub fn targets(&self) -> (targets: Vec<NodeTarget>)
        ensures
            targets@ == divergence_targets(*self),
    {
        let mut targets = Vec::new();
        let mut index: usize = 0;
        while index < self.branches.len()
            invariant
                index <= self.branches@.len(),
                targets@ == self.branches@.subrange(0, index as int).map_values(
                    |branch: (Discriminant, NodeTarget)| branch.1,
                ),
            decreases self.branches@.len() - index,
        {
            targets.push(self.branches[index].1);
            index += 1;
            assert(targets@ =~= self.branches@.subrange(0, index as int).map_values(
                |branch: (Discriminant, NodeTarget)| branch.1,
            ));
        }
        targets.push(self.default);
        assert(self.branches@.subrange(0, index as int) =~= self.branches@);
        targets
    }

    /// Replaces each target that the map holds by its image.
    pub fn retarget(&mut self, targets: &HashMap<usize, usize>)
        ensures
            final(self).is_retargeting_of(*old(self), targets@),
            divergence_targets(*final(self)) == divergence_targets(*old(self)).map_values(
                |target: NodeTarget| mapped_target(target, targets@),
            ),
    {
        if let Some(target) = targets.get(&self.default.0) {
            self.default = NodeTarget(*target);
        }
        let mut index: usize = 0;
        while index < self.branches.len()
            invariant
                index <= self.branches@.len(),
                self.branches@.len() == old(self).branches@.len(),
                self.discriminant == old(self).discriminant,
                self.default == mapped_target(old(self).default, targets@),
                forall|i: int| 0 <= i < index ==> {
                    &&& (#[trigger] self.branches@[i]).0 == old(self).branches@[i].0
                    &&& self.branches@[i].1 == mapped_target(old(self).branches@[i].1, targets@)
                },
                forall|i: int| index <= i < self.branches@.len() ==> #[trigger] self.branches@[i]
                    == old(self).branches@[i],
            decreases self.branches@.len() - index,
        {
            let (discriminant, current) = self.branches[index];
            if let Some(target) = targets.get(&current.0) {
                self.branches.set(index, (discriminant, NodeTarget(*target)));
            }
            index += 1;
        }
        assert(divergence_targets(*self) =~= divergence_targets(*old(self)).map_values(
            |target: NodeTarget| mapped_target(target, targets@),
        ));
    }
}

/// The value that a divergence compares its discriminant with.
#[derive(Debug, Copy, Clone, PartialEq, Eq, Structural)]
pub struct Discriminant(pub u64);

impl Discriminant {
    /// The discriminant of a truth or unsigned item: false is zero, true has
    /// every bit set, and an unsigned integer is itself.
    pub open spec fn spec_item(item: Item) -> Discriminant {
        match item {
            Item::Truth(truth) => if truth { Discriminant(u64::MAX) } else { Discriminant(0) },
            Item::Unsigned64(value) => Discriminant(value),
            _ => Discriminant(0),
        }
    }

    /// The discriminant as written: `true` for every bit set, otherwise its
    /// value in hexadecimal after `0x`.
    pub open spec fn spec_text(self) -> Seq<char> {
        if self.0 == u64::MAX {
            seq!['t', 'r', 'u', 'e']
        } else {
            seq!['0', 'x'] + crate::source::hexadecimal(self.0 as nat)
        }
    }

    pub fn text(&self) -> (text: String)
        ensures
            text@ == self.spec_text(),
    {
        proof {
            reveal_strlit("true");
        }
        if self.0 == u64::MAX {
            String::from_str("true")
        } else {
            crate::source::hex_text(self.0)
        }
    }

    pub fn item(item: Item) -> (discriminant: Discriminant)
        requires
            item is Truth || item is Unsigned64,
        ensures
            discriminant == Discriminant::spec_item(item),
    {
        assert(!0u64 == u64::MAX) by (bit_vector);
        Discriminant(match item {
            Item::Truth(truth) => match truth {
                false => 0,
                true => !0u64,
            },
            Item::Unsigned64(value) => value,
            _ => 0,
        })
    }
}

} // verus!
