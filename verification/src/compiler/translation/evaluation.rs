use vstd::prelude::*;
use vstd::string::StringExecFns;

use crate::basic::Direction;
use crate::node::Primitive;
use crate::source::{numbered_text, Spanned};

use super::element::instruction;
use super::{Element, FunctionContext};

verus! {

/// Where the value of a translated expression is found.
#[derive(Debug)]
pub enum Evaluation {
    Unit,
    Local(usize),
    Immediate(Spanned<Primitive>),
}

/// The text of the instruction that sets a local to an immediate value.
pub open spec fn reset_text(local: usize, primitive: Primitive) -> Seq<char> {
    seq!['r', 'e', 's', 'e', 't', ' '] + crate::source::decimal(local as nat) + seq![' '] + primitive.spec_text()
}

impl Evaluation {
    /// The local that holds the value: an immediate value is first placed in a
    /// new local of its size by a `reset` instruction, which is added to the
    /// elements.
    pub fn promote(self, elements: &mut Vec<Spanned<Element>>, context: &mut FunctionContext) -> (local: usize)
        requires
            !(self is Unit),
        ensures
            self matches Evaluation::Local(l) ==> local == l && final(elements)@ == old(elements)@
                && *final(context) == *old(context),
            self matches Evaluation::Immediate(primitive) ==> {
                &&& local == old(context).sizes().len()
                &&& final(context).sizes() == old(context).sizes().push(primitive.node.spec_size())
                &&& final(context).labels() == old(context).labels()
                &&& final(context).evaluations() == old(context).evaluations()
                &&& final(context).variables() == old(context).variables()
                &&& final(context).intermediates() == old(context).intermediates()
                &&& super::element::element_views(final(elements)@) == super::element::element_views(old(elements)@).push(super::element::instruction_view(
                    Direction::Advance,
                    Some(Direction::Advance),
                    reset_text(local, primitive.node),
                    primitive.span,
                ))
            },
    {
        match self {
            Evaluation::Unit => 0,
            Evaluation::Local(local) => local,
            Evaluation::Immediate(primitive) => {
                let local = context.register_local(primitive.node.size());
                let mut text = numbered_text("reset ", local, " ");
                text.append(primitive.node.text().as_str());
                proof {
                    reveal_strlit("reset ");
                    reveal_strlit(" ");
                    assert(text@ =~= reset_text(local, primitive.node));
                }
                elements.push(instruction(Direction::Advance, Some(Direction::Advance), text, primitive.span));
                assert(super::element::element_views(elements@) =~= super::element::element_views(old(elements)@).push(super::element::instruction_view(
                    Direction::Advance,
                    Some(Direction::Advance),
                    reset_text(local, primitive.node),
                    primitive.span,
                )));
                local
            },
        }
    }
}

} // verus!
