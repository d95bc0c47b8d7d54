use vstd::prelude::*;
use vstd::string::StringExecFns;

use crate::basic::Direction;
use crate::node::VariableTarget;
use crate::source::{numbered_text, Span, Spanned};

use super::element::instruction;
use super::{Element, FunctionContext};

verus! {

/// The text `swap <left> <right>`.
pub open spec fn swap_text(left: usize, right: usize) -> Seq<char> {
    seq!['s', 'w', 'a', 'p', ' '] + crate::source::decimal(left as nat) + seq![' ']
        + crate::source::decimal(right as nat)
}

/// Translates the exchange of two variables: one instruction that swaps
/// their locals.
pub fn swap(span: Span, left: &VariableTarget, right: &VariableTarget, context: &FunctionContext)
    -> (elements: Vec<Spanned<Element>>)
    requires
        context.binds(left@),
        context.binds(right@),
    ensures
        super::element::element_views(elements@) == seq![super::element::instruction_view(
            Direction::Advance,
            None,
            swap_text(context.spec_variable(left@), context.spec_variable(right@)),
            span,
        )],
{
    let (left, right) = (context.get_variable(left), context.get_variable(right));
    proof {
        reveal_strlit("swap ");
        reveal_strlit(" ");
        reveal_strlit("");
    }
    let mut text = numbered_text("swap ", left, " ");
    text.append(numbered_text("", right, "").as_str());
    assert(text@ =~= swap_text(left, right));
    let mut elements = Vec::new();
    elements.push(instruction(Direction::Advance, None, text, span));
    assert(super::element::element_views(elements@) =~= seq![super::element::instruction_view(
        Direction::Advance,
        None,
        swap_text(left, right),
        span,
    )]);
    elements
}

} // verus!
