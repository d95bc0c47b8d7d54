use vstd::prelude::*;
use vstd::string::StringExecFns;

use crate::basic::Direction;
use crate::node::{Function, Primitive, Size};
use crate::source::{numbered_text, Span, Spanned};

use super::element::{instruction, other};
use super::{Element, Evaluation, FunctionContext};

verus! {

/// The text that opens the body of a function: `~<name> {`.
pub open spec fn header_text(name: Seq<char>) -> Seq<char> {
    seq!['~'] + name + seq![' ', '{']
}

/// The text of the instruction that restores a parameter.
pub open spec fn restore_text(index: usize) -> Seq<char> {
    seq!['r', 'e', 's', 't', 'o', 'r', 'e', ' '] + crate::source::decimal(index as nat)
}

/// The text of the instruction that hands back the value of a function.
pub open spec fn return_value_text(value: Evaluation) -> Seq<char> {
    match value {
        Evaluation::Unit => seq!['p', 'a', 's', 's'],
        Evaluation::Local(local) => seq!['d', 'r', 'o', 'p', ' '] + crate::source::decimal(local as nat),
        Evaluation::Immediate(primitive) => immediate_drop_text(primitive.node),
    }
}

/// The text of the instruction that drops an immediate value: `drop.i <size> <value>`.
pub open spec fn immediate_drop_text(primitive: Primitive) -> Seq<char> {
    seq!['d', 'r', 'o', 'p', '.', 'i', ' '] + primitive.spec_size().spec_text() + seq![' '] + primitive.spec_text()
}

/// The text `drop.i <size> <value>`.
pub fn immediate_drop(primitive: &Primitive) -> (text: String)
    ensures
        text@ == immediate_drop_text(*primitive),
{
    proof {
        reveal_strlit("drop.i ");
        reveal_strlit(" ");
    }
    let mut text = String::from_str("drop.i ");
    text.append(primitive.size().text().as_str());
    text.append(" ");
    text.append(primitive.text().as_str());
    assert(text@ =~= immediate_drop_text(*primitive));
    text
}

/// The text of the annotation that declares a local of a size.
pub open spec fn local_text(size: Size) -> Seq<char> {
    seq!['@', 'l', 'o', 'c', 'a', 'l', ' '] + size.spec_text()
}

/// The start of a function: its name, then the way back out of it when
/// reversing. The function that a program starts at exits there; any other
/// returns to its caller.
pub fn function_header(function: &Function) -> (elements: Vec<Spanned<Element>>)
    ensures
        super::element::element_views(elements@) == seq![
            super::element::other_view(header_text(function.identifier.node@), function.identifier.span),
            if function.identifier.node@ == crate::node::entry_point() {
                super::element::instruction_view(Direction::Reverse, None, seq!['e', 'x', 'i', 't'], function.span)
            } else {
                super::element::instruction_view(
                    Direction::Advance,
                    Some(Direction::Reverse),
                    seq!['r', 'e', 't', 'u', 'r', 'n'],
                    function.span,
                )
            },
        ],
{
    proof {
        reveal_strlit("~");
        reveal_strlit(" {");
        reveal_strlit("exit");
        reveal_strlit("return");
    }
    let (mut elements, span) = (Vec::new(), function.identifier.span);
    let mut header = String::from_str("~");
    header.append(function.identifier.node.0.as_str());
    header.append(" {");
    assert(header@ =~= header_text(function.identifier.node@));
    elements.push(other(header, span));
    elements.push(match function.is_entry_point() {
        true => instruction(Direction::Reverse, None, String::from_str("exit"), function.span),
        false => instruction(Direction::Advance, Some(Direction::Reverse), String::from_str("return"), function.span),
    });
    proof {
        assert("exit"@ =~= seq!['e', 'x', 'i', 't']);
        assert("return"@ =~= seq!['r', 'e', 't', 'u', 'r', 'n']);
    }
    assert(super::element::element_views(elements@) =~= seq![
        super::element::other_view(header_text(function.identifier.node@), function.identifier.span),
        if function.identifier.node@ == crate::node::entry_point() {
            super::element::instruction_view(Direction::Reverse, None, seq!['e', 'x', 'i', 't'], function.span)
        } else {
            super::element::instruction_view(
                Direction::Advance,
                Some(Direction::Reverse),
                seq!['r', 'e', 't', 'u', 'r', 'n'],
                function.span,
            )
        },
    ]);
    elements
}

/// The instructions that restore the parameters of a function, in order.
pub fn function_arguments(function: &Function) -> (elements: Vec<Spanned<Element>>)
    ensures
        elements@.len() == function.parameters@.len(),
        forall|i: int| 0 <= i < elements@.len() ==> #[trigger] super::element::element_views(elements@)[i]
            == super::element::instruction_view(Direction::Advance, None, restore_text(i as usize),
                function.parameters@[i].span),
{
    let mut elements = Vec::new();
    let mut index: usize = 0;
    while index < function.parameters.len()
        invariant
            index <= function.parameters@.len(),
            elements@.len() == index,
            forall|i: int| 0 <= i < index ==> #[trigger] super::element::element_views(elements@)[i]
                == super::element::instruction_view(Direction::Advance, None, restore_text(i as usize),
                    function.parameters@[i].span),
        decreases function.parameters@.len() - index,
    {
        proof {
            reveal_strlit("restore ");
            reveal_strlit("");
        }
        let text = numbered_text("restore ", index, "");
        assert(text@ =~= restore_text(index));
        let ghost previous = elements@;
        elements.push(instruction(Direction::Advance, None, text, function.parameters[index].span));
        assert forall|i: int| 0 <= i <= index implies #[trigger] super::element::element_views(elements@)[i]
            == super::element::instruction_view(Direction::Advance, None, restore_text(i as usize),
                function.parameters@[i].span) by {
            if i < index {
                assert(elements@[i] == previous[i]);
                assert(super::element::element_views(previous)[i] == super::element::element_views(elements@)[i]);
            }
        }
        index += 1;
    }
    elements
}

/// The annotations that declare the locals of a function, one for each, in order.
pub fn function_locals(function_span: Span, context: &FunctionContext) -> (elements: Vec<Spanned<Element>>)
    ensures
        elements@.len() == context.sizes().len(),
        forall|i: int| 0 <= i < elements@.len() ==> #[trigger] super::element::element_views(elements@)[i]
            == super::element::other_view(local_text(context.sizes()[i]), function_span),
{
    let mut elements = Vec::new();
    let sizes = context.local_sizes();
    let mut index: usize = 0;
    while index < sizes.len()
        invariant
            sizes@ == context.sizes(),
            index <= sizes@.len(),
            elements@.len() == index,
            forall|i: int| 0 <= i < index ==> #[trigger] super::element::element_views(elements@)[i]
                == super::element::other_view(local_text(context.sizes()[i]), function_span),
        decreases sizes@.len() - index,
    {
        proof {
            reveal_strlit("@local ");
        }
        let mut text = String::from_str("@local ");
        text.append(sizes[index].text().as_str());
        assert(text@ =~= local_text(sizes@[index as int]));
        let ghost previous = elements@;
        elements.push(other(text, function_span));
        assert forall|i: int| 0 <= i <= index implies #[trigger] super::element::element_views(elements@)[i]
            == super::element::other_view(local_text(context.sizes()[i]), function_span) by {
            if i < index {
                assert(elements@[i] == previous[i]);
                assert(super::element::element_views(previous)[i] == super::element::element_views(elements@)[i]);
            }
        }
        index += 1;
    }
    elements
}

/// The end of a function: the return value is handed back, then the function
/// exits (the one that a program starts at) or returns, and its body closes.
pub fn function_return(function: &Function, return_value: Evaluation) -> (elements: Vec<Spanned<Element>>)
    ensures
        super::element::element_views(elements@) == seq![
            super::element::instruction_view(Direction::Advance, None, return_value_text(return_value),
                function.return_span),
            if function.identifier.node@ == crate::node::entry_point() {
                super::element::instruction_view(Direction::Advance, None, seq!['e', 'x', 'i', 't'], function.span)
            } else {
                super::element::instruction_view(
                    Direction::Advance,
                    Some(Direction::Advance),
                    seq!['r', 'e', 't', 'u', 'r', 'n'],
                    function.span,
                )
            },
            super::element::other_view(seq!['}'], function.span),
        ],
{
    proof {
        reveal_strlit("pass");
        reveal_strlit("drop ");
        reveal_strlit("");
        reveal_strlit("exit");
        reveal_strlit("return");
        reveal_strlit("}");
    }
    let ghost value = return_value;
    let mut elements = Vec::new();
    let return_span = function.return_span;
    let text = match return_value {
        Evaluation::Unit => String::from_str("pass"),
        Evaluation::Local(local) => numbered_text("drop ", local, ""),
        Evaluation::Immediate(primitive) => immediate_drop(&primitive.node),
    };
    assert(text@ =~= return_value_text(value));
    elements.push(instruction(Direction::Advance, None, text, return_span));
    elements.push(match function.is_entry_point() {
        true => instruction(Direction::Advance, None, String::from_str("exit"), function.span),
        false => instruction(Direction::Advance, Some(Direction::Advance), String::from_str("return"), function.span),
    });
    elements.push(other(String::from_str("}"), function.span));
    proof {
        assert("exit"@ =~= seq!['e', 'x', 'i', 't']);
        assert("return"@ =~= seq!['r', 'e', 't', 'u', 'r', 'n']);
        assert("}"@ =~= seq!['}']);
    }
    assert(super::element::element_views(elements@) =~= seq![
        super::element::instruction_view(Direction::Advance, None, return_value_text(value),
            function.return_span),
        if function.identifier.node@ == crate::node::entry_point() {
            super::element::instruction_view(Direction::Advance, None, seq!['e', 'x', 'i', 't'], function.span)
        } else {
            super::element::instruction_view(
                Direction::Advance,
                Some(Direction::Advance),
                seq!['r', 'e', 't', 'u', 'r', 'n'],
                function.span,
            )
        },
        super::element::other_view(seq!['}'], function.span),
    ]);
    elements
}

} // verus!
