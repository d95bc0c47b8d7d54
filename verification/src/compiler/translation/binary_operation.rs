use vstd::prelude::*;
use vstd::string::StringExecFns;

use crate::basic::Direction;
use crate::node::{BinaryOperation, BinaryOperator, Size};
use crate::source::{numbered_text, Span, Spanned};

use super::element::instruction;
use super::{Element, Evaluation, FunctionContext};

verus! {

/// The text of an instruction that combines a local with the value of an
/// evaluation: `<name> <local> <other>` for a local, and
/// `<name>.i <local> <value>` for an immediate value.
pub open spec fn operator_text(name: Seq<char>, local: usize, right: Evaluation) -> Seq<char> {
    match right {
        Evaluation::Local(other) => name + seq![' '] + crate::source::decimal(local as nat) + seq![' ']
            + crate::source::decimal(other as nat),
        Evaluation::Immediate(primitive) => name + seq!['.', 'i', ' '] + crate::source::decimal(local as nat)
            + seq![' '] + primitive.node.spec_text(),
        Evaluation::Unit => Seq::empty(),
    }
}

/// Appends the instruction that applies an operation to a local and the value
/// of an evaluation (see `operator_text`).
pub fn binary_operator(
    elements: &mut Vec<Spanned<Element>>,
    instruction_name: &str,
    local_index: usize,
    right_value: Evaluation,
    span: Span,
)
    requires
        !(right_value is Unit),
    ensures
        super::element::element_views(final(elements)@) == super::element::element_views(old(elements)@).push(
            super::element::instruction_view(
                Direction::Advance,
                None,
                operator_text(instruction_name@, local_index, right_value),
                span,
            ),
        ),
{
    proof {
        reveal_strlit(" ");
        reveal_strlit(".i ");
    }
    let text = match &right_value {
        Evaluation::Unit => String::new(),
        Evaluation::Local(local) => {
            let mut text = String::from_str(instruction_name);
            text.append(numbered_text(" ", local_index, " ").as_str());
            text.append(numbered_text("", *local, "").as_str());
            text
        },
        Evaluation::Immediate(primitive) => {
            let mut text = String::from_str(instruction_name);
            text.append(numbered_text(".i ", local_index, " ").as_str());
            text.append(primitive.node.text().as_str());
            text
        },
    };
    proof {
        reveal_strlit("");
    }
    assert(text@ =~= operator_text(instruction_name@, local_index, right_value));
    let ghost before = super::element::element_views(elements@);
    elements.push(instruction(Direction::Advance, None, text, span));
    assert(super::element::element_views(elements@) =~= before.push(super::element::instruction_view(
        Direction::Advance,
        None,
        operator_text(instruction_name@, local_index, right_value),
        span,
    )));
}

/// The text `compare = <left> <right> <result>`.
pub open spec fn compare_text(left: usize, right: usize, result: usize) -> Seq<char> {
    seq!['c', 'o', 'm', 'p', 'a', 'r', 'e', ' ', '=', ' '] + crate::source::decimal(left as nat) + seq![' ']
        + crate::source::decimal(right as nat) + seq![' '] + crate::source::decimal(result as nat)
}

/// Translates an equality: a new boolean local receives the comparison of the
/// left local with the value of the right evaluation (made a local first),
/// and becomes the latest evaluation.
pub fn binary_equality(
    elements: Vec<Spanned<Element>>,
    context: &mut FunctionContext,
    left_index: usize,
    right_value: Evaluation,
    span: Span,
) -> (result: Vec<Spanned<Element>>)
    requires
        !(right_value is Unit),
    ensures
        ({
            let local = old(context).sizes().len() as usize;
            let promoted = match right_value {
                Evaluation::Immediate(primitive) => seq![super::element::instruction_view(
                    Direction::Advance,
                    Some(Direction::Advance),
                    super::evaluation::reset_text((local + 1) as usize, primitive.node),
                    primitive.span,
                )],
                _ => Seq::empty(),
            };
            let right = match right_value {
                Evaluation::Local(other) => other,
                _ => (local + 1) as usize,
            };
            &&& final(context).sizes() == match right_value {
                Evaluation::Immediate(primitive) => old(context).sizes().push(Size::Boolean).push(primitive.node.spec_size()),
                _ => old(context).sizes().push(Size::Boolean),
            }
            &&& final(context).evaluations() == old(context).evaluations().push(Evaluation::Local(local))
            &&& super::element::element_views(result@) == super::element::element_views(elements@) + promoted
                + seq![super::element::instruction_view(Direction::Advance, None, compare_text(left_index, right, local), span)]
        }),
        final(context).labels() == old(context).labels(),
        final(context).variables() == old(context).variables(),
        final(context).intermediates() == old(context).intermediates(),
{
    let mut elements = elements;
    let ghost before = super::element::element_views(elements@);
    let local_index = context.register_local(Size::Boolean);
    context.push_evaluation(Evaluation::Local(local_index));
    let ghost right_copy = right_value;
    let right_index = right_value.promote(&mut elements, context);
    proof {
        reveal_strlit("compare = ");
        reveal_strlit(" ");
        reveal_strlit("");
    }
    let mut text = numbered_text("compare = ", left_index, " ");
    text.append(numbered_text("", right_index, " ").as_str());
    text.append(numbered_text("", local_index, "").as_str());
    assert(text@ =~= compare_text(left_index, right_index, local_index));
    let ghost promoted = super::element::element_views(elements@);
    elements.push(instruction(Direction::Advance, None, text, span));
    assert(super::element::element_views(elements@) =~= promoted.push(
        super::element::instruction_view(Direction::Advance, None, compare_text(left_index, right_index, local_index), span),
    ));
    proof {
        match right_copy {
            Evaluation::Immediate(primitive) => {
                assert(promoted =~= before + seq![super::element::instruction_view(
                    Direction::Advance,
                    Some(Direction::Advance),
                    super::evaluation::reset_text((local_index + 1) as usize, primitive.node),
                    primitive.span,
                )]);
            },
            _ => {
                assert(promoted =~= before + Seq::empty());
            },
        }
    }
    elements
}

/// The name of the instruction of an arithmetic operator.
pub open spec fn arithmetic_name(operator: BinaryOperator) -> Seq<char> {
    match operator {
        BinaryOperator::Add => seq!['a', 'd', 'd'],
        BinaryOperator::Minus => seq!['m', 'i', 'n', 'u', 's'],
        BinaryOperator::Multiply => seq!['m', 'u', 'l', 't', 'i', 'p', 'l', 'y'],
        BinaryOperator::Equal => Seq::empty(),
    }
}

/// The instruction that `binary_operation` emits for an arithmetic operator
/// names what it computes: `add` for an addition, `minus` for a subtraction,
/// `multiply` for a multiplication, followed by a space for a local operand
/// and by `.i` for an immediate one; so two different operators on the same
/// operands never give the same instruction.
pub proof fn lemma_arithmetic_instruction(
    first: BinaryOperator,
    second: BinaryOperator,
    local: usize,
    right: Evaluation,
)
    requires
        !(right is Unit),
        first != BinaryOperator::Equal,
        second != BinaryOperator::Equal,
    ensures
        ({
            let text = operator_text(arithmetic_name(first), local, right);
            let separator = match right {
                Evaluation::Immediate(_) => seq!['.'],
                _ => seq![' '],
            };
            &&& first == BinaryOperator::Add ==> text.subrange(0, 4) == seq!['a', 'd', 'd'] + separator
            &&& first == BinaryOperator::Minus ==> text.subrange(0, 6) == seq!['m', 'i', 'n', 'u', 's'] + separator
            &&& first == BinaryOperator::Multiply ==> text.subrange(0, 9)
                == seq!['m', 'u', 'l', 't', 'i', 'p', 'l', 'y'] + separator
            &&& first != second ==> text != operator_text(arithmetic_name(second), local, right)
        }),
{
    let text = operator_text(arithmetic_name(first), local, right);
    let other = operator_text(arithmetic_name(second), local, right);
    let separator = match right {
        Evaluation::Immediate(_) => seq!['.'],
        _ => seq![' '],
    };
    match first {
        BinaryOperator::Add => assert(text.subrange(0, 4) =~= seq!['a', 'd', 'd'] + separator),
        BinaryOperator::Minus => assert(text.subrange(0, 6) =~= seq!['m', 'i', 'n', 'u', 's'] + separator),
        BinaryOperator::Multiply => assert(text.subrange(0, 9) =~= seq!['m', 'u', 'l', 't', 'i', 'p', 'l', 'y'] + separator),
        _ => {},
    }
    if first != second {
        if (first == BinaryOperator::Add) != (second == BinaryOperator::Add) {
            assert(text[0] != other[0]);
        } else {
            assert(text[1] != other[1]);
        }
    }
}

/// The text `clone <local> <source>`.
pub open spec fn clone_text(local: usize, source: usize) -> Seq<char> {
    seq!['c', 'l', 'o', 'n', 'e', ' '] + crate::source::decimal(local as nat) + seq![' ']
        + crate::source::decimal(source as nat)
}

/// Translates a binary operation whose operands are the two latest
/// evaluations, the left one on top. The left operand is made a local; an
/// equality is translated by `binary_equality`; an arithmetic operation clones
/// the left local into a new local, which becomes the latest evaluation, and
/// applies the operation to it with the right operand.
pub fn binary_operation(operation: &Spanned<BinaryOperation>, context: &mut FunctionContext)
    -> (elements: Vec<Spanned<Element>>)
    requires
        old(context).evaluations().len() >= 2,
        !(old(context).evaluations().last() is Unit),
        !(old(context).evaluations()[old(context).evaluations().len() - 2] is Unit),
        old(context).evaluations().last() matches Evaluation::Local(local) ==> local < old(context).sizes().len(),
    ensures
        ({
            let evaluations = old(context).evaluations();
            let left = evaluations.last();
            let right = evaluations[evaluations.len() - 2];
            let remaining = evaluations.drop_last().drop_last();
            let locals = old(context).sizes().len();
            let (left_local, promoted_left, sizes) = match left {
                Evaluation::Immediate(primitive) => (
                    locals as usize,
                    seq![super::element::instruction_view(
                        Direction::Advance,
                        Some(Direction::Advance),
                        super::evaluation::reset_text(locals as usize, primitive.node),
                        primitive.span,
                    )],
                    old(context).sizes().push(primitive.node.spec_size()),
                ),
                Evaluation::Local(local) => (local, Seq::empty(), old(context).sizes()),
                Evaluation::Unit => (0usize, Seq::empty(), old(context).sizes()),
            };
            let result = sizes.len() as usize;
            if operation.node.operator.node == BinaryOperator::Equal {
                let promoted_right = match right {
                    Evaluation::Immediate(primitive) => seq![super::element::instruction_view(
                        Direction::Advance,
                        Some(Direction::Advance),
                        super::evaluation::reset_text((result + 1) as usize, primitive.node),
                        primitive.span,
                    )],
                    _ => Seq::empty(),
                };
                let right_local = match right {
                    Evaluation::Local(other) => other,
                    _ => (result + 1) as usize,
                };
                &&& final(context).sizes() == match right {
                    Evaluation::Immediate(primitive) => sizes.push(Size::Boolean).push(primitive.node.spec_size()),
                    _ => sizes.push(Size::Boolean),
                }
                &&& final(context).evaluations() == remaining.push(Evaluation::Local(result))
                &&& super::element::element_views(elements@) == promoted_left + promoted_right + seq![
                    super::element::instruction_view(
                        Direction::Advance,
                        None,
                        compare_text(left_local, right_local, result),
                        operation.span,
                    ),
                ]
            } else {
                &&& final(context).sizes() == sizes.push(sizes[left_local as int])
                &&& final(context).evaluations() == remaining.push(Evaluation::Local(result))
                &&& super::element::element_views(elements@) == promoted_left + seq![
                    super::element::instruction_view(
                        Direction::Advance,
                        Some(Direction::Advance),
                        clone_text(result, left_local),
                        operation.span,
                    ),
                    super::element::instruction_view(
                        Direction::Advance,
                        None,
                        operator_text(arithmetic_name(operation.node.operator.node), result, right),
                        operation.node.operator.span,
                    ),
                ]
            }
        }),
        final(context).labels() == old(context).labels(),
        final(context).variables() == old(context).variables(),
        final(context).intermediates() == old(context).intermediates(),
{
    let mut elements: Vec<Spanned<Element>> = Vec::new();
    let left_value = context.pop_evaluation();
    let left_index = left_value.promote(&mut elements, context);
    let right_value = context.pop_evaluation();
    let ghost promoted_left = super::element::element_views(elements@);

    if operation.node.operator.node == BinaryOperator::Equal {
        return binary_equality(elements, context, left_index, right_value, operation.span);
    }

    let local_index = context.clone_local(left_index);
    context.push_evaluation(Evaluation::Local(local_index));
    proof {
        reveal_strlit("clone ");
        reveal_strlit(" ");
        reveal_strlit("");
    }
    let mut text = numbered_text("clone ", local_index, " ");
    text.append(numbered_text("", left_index, "").as_str());
    assert(text@ =~= clone_text(local_index, left_index));
    elements.push(instruction(Direction::Advance, Some(Direction::Advance), text, operation.span));
    let ghost cloned = super::element::element_views(elements@);

    let span = operation.node.operator.span;
    let name = match operation.node.operator.node {
        BinaryOperator::Add => "add",
        BinaryOperator::Minus => "minus",
        BinaryOperator::Multiply => "multiply",
        BinaryOperator::Equal => "",
    };
    proof {
        reveal_strlit("add");
        reveal_strlit("minus");
        reveal_strlit("multiply");
    }
    assert(name@ == arithmetic_name(operation.node.operator.node));
    binary_operator(&mut elements, name, local_index, right_value, span);
    assert(super::element::element_views(elements@) =~= promoted_left + seq![
        super::element::instruction_view(
            Direction::Advance,
            Some(Direction::Advance),
            clone_text(local_index, left_index),
            operation.span,
        ),
        super::element::instruction_view(
            Direction::Advance,
            None,
            operator_text(arithmetic_name(operation.node.operator.node), local_index, right_value),
            span,
        ),
    ]);
    elements
}

} // verus!
