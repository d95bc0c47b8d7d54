use vstd::prelude::*;
use vstd::string::StringExecFns;

use crate::basic::Direction;
use crate::node::FunctionCall;
use crate::source::{numbered_text, Span, Spanned};

use super::element::{instruction, other};
use super::{Element, Evaluation, FunctionContext};

verus! {

/// The element that hands an evaluated argument to a call: nothing for a unit
/// value, `drop <local>` for a local, and `drop.i <size> <value>` for an
/// immediate value, at the span of that value.
pub open spec fn argument_view(argument: Evaluation, span: Span) -> (super::element::ElementView, Span) {
    match argument {
        Evaluation::Unit => super::element::other_view(Seq::empty(), span),
        Evaluation::Local(local) => super::element::instruction_view(
            Direction::Advance,
            None,
            seq!['d', 'r', 'o', 'p', ' '] + crate::source::decimal(local as nat),
            span,
        ),
        Evaluation::Immediate(primitive) => super::element::instruction_view(
            Direction::Advance,
            None,
            seq!['d', 'r', 'o', 'p', '.', 'i', ' '] + primitive.node.spec_size().spec_text() + seq![' ']
                + primitive.node.spec_text(),
            primitive.span,
        ),
    }
}

/// Hands an evaluated argument to a call (see `argument_view`). A local that
/// is handed over stops being an intermediate of the innermost frame.
pub fn function_call_argument(argument: Spanned<Evaluation>, context: &mut FunctionContext)
    -> (element: Spanned<Element>)
    requires
        old(context).intermediates().len() > 0,
    ensures
        (element.node@, element.span) == argument_view(argument.node, argument.span),
        final(context).intermediates() == match argument.node {
            Evaluation::Local(local) => old(context).intermediates().drop_last().push(
                old(context).intermediates().last().remove(local),
            ),
            _ => old(context).intermediates(),
        },
        final(context).labels() == old(context).labels(),
        final(context).sizes() == old(context).sizes(),
        final(context).evaluations() == old(context).evaluations(),
        final(context).variables() == old(context).variables(),
{
    proof {
        reveal_strlit("drop ");
        reveal_strlit("drop.i ");
        reveal_strlit(" ");
        reveal_strlit("");
    }
    match argument.node {
        Evaluation::Unit => other(String::new(), argument.span),
        Evaluation::Local(local) => {
            context.drop_intermediate(&local);
            let text = numbered_text("drop ", local, "");
            instruction(Direction::Advance, None, text, argument.span)
        },
        Evaluation::Immediate(primitive) => {
            let mut text = String::from_str("drop.i ");
            text.append(primitive.node.size().text().as_str());
            text.append(" ");
            text.append(primitive.node.text().as_str());
            assert(text@ =~= seq!['d', 'r', 'o', 'p', '.', 'i', ' '] + primitive.node.spec_size().spec_text()
                + seq![' '] + primitive.node.spec_text());
            instruction(Direction::Advance, None, text, primitive.span)
        },
    }
}

/// The innermost intermediate frame once every local among some evaluations
/// has been handed over.
pub open spec fn handed_over(frame: Map<usize, Span>, evaluations: Seq<Evaluation>) -> Map<usize, Span>
    decreases evaluations.len(),
{
    if evaluations.len() == 0 {
        frame
    } else {
        let rest = handed_over(frame, evaluations.drop_last());
        match evaluations.last() {
            Evaluation::Local(local) => rest.remove(local),
            _ => rest,
        }
    }
}

/// Hands the arguments of a call over, the last argument first: each takes
/// the latest evaluation (see `function_call_argument`).
pub fn function_call_arguments(function_call: &FunctionCall, context: &mut FunctionContext)
    -> (elements: Vec<Spanned<Element>>)
    requires
        old(context).evaluations().len() >= function_call.arguments@.len(),
        old(context).intermediates().len() > 0,
    ensures
        ({
            let count = function_call.arguments@.len() as int;
            let evaluations = old(context).evaluations();
            let popped = evaluations.subrange(evaluations.len() - count, evaluations.len() as int).reverse();
            &&& super::element::element_views(elements@) == Seq::new(
                count as nat,
                |k: int| argument_view(popped[k], function_call.arguments@[count - 1 - k].span),
            )
            &&& final(context).evaluations() == evaluations.subrange(0, evaluations.len() - count)
            &&& final(context).intermediates() == old(context).intermediates().drop_last().push(
                handed_over(old(context).intermediates().last(), popped),
            )
        }),
        final(context).labels() == old(context).labels(),
        final(context).sizes() == old(context).sizes(),
        final(context).variables() == old(context).variables(),
{
    let ghost evaluations = old(context).evaluations();
    let ghost frames = old(context).intermediates();
    let count = function_call.arguments.len();
    let ghost popped = evaluations.subrange(evaluations.len() - count, evaluations.len() as int).reverse();
    let mut elements: Vec<Spanned<Element>> = Vec::new();
    let mut index = count;
    while index > 0
        invariant
            count == function_call.arguments@.len(),
            evaluations.len() >= count,
            index <= count,
            popped == evaluations.subrange(evaluations.len() - count, evaluations.len() as int).reverse(),
            context.evaluations() == evaluations.subrange(0, evaluations.len() - (count - index)),
            context.intermediates() == frames.drop_last().push(
                handed_over(frames.last(), popped.subrange(0, (count - index) as int)),
            ),
            frames.len() > 0,
            context.labels() == old(context).labels(),
            context.sizes() == old(context).sizes(),
            context.variables() == old(context).variables(),
            super::element::element_views(elements@) == Seq::new(
                (count - index) as nat,
                |k: int| argument_view(popped[k], function_call.arguments@[count - 1 - k].span),
            ),
        decreases index,
    {
        let ghost done = (count - index) as int;
        let evaluation = context.pop_evaluation();
        assert(evaluation == popped[done]);
        let argument = Spanned::new(evaluation, function_call.arguments[index - 1].span);
        let element = function_call_argument(argument, context);
        let ghost before = super::element::element_views(elements@);
        let ghost view = (element.node@, element.span);
        assert(view == argument_view(popped[done], function_call.arguments@[count - 1 - done].span));
        elements.push(element);
        assert(super::element::element_views(elements@) =~= before.push(view));
        index -= 1;
        assert(popped.subrange(0, done + 1).drop_last() =~= popped.subrange(0, done));
        assert(context.intermediates() =~= frames.drop_last().push(
            handed_over(frames.last(), popped.subrange(0, (count - index) as int)),
        ));
        assert(context.evaluations() =~= evaluations.subrange(0, evaluations.len() - (count - index)));
        assert(super::element::element_views(elements@) =~= Seq::new(
            (count - index) as nat,
            |k: int| argument_view(popped[k], function_call.arguments@[count - 1 - k].span),
        ));
    }
    assert(popped.subrange(0, count as int) =~= popped);
    elements
}

} // verus!
