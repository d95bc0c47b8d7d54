use vstd::prelude::*;
use vstd::string::StringExecFns;

use crate::basic::Direction;
use crate::compiler::element::{Element, Instruction};
use crate::node::{BinaryOperator, Identifier, Size};
use crate::source::{decimal, decimal_text, numbered_text, Span, Spanned};

use super::tree::{
    BinaryOperation, Binding, ConditionalLoop, ExplicitDrop, Expression, Function, Mutation, Parameter, Statement,
};

verus! {

/// A variable known to the translator: its name, its local and the span of
/// its binding.
pub type Entry = (Seq<char>, usize, Span);

/// What the translator holds: the size of each local, the variables in the
/// order first bound, the stack of the locals of the expressions translated
/// so far, and the next label.
pub type Translation = (Seq<Size>, Seq<Entry>, Seq<usize>, nat);

/// An element by what it shows: an instruction's direction and polarization
/// (none for other text), its text, and its span.
pub type ElementView = (Option<(Direction, Option<Direction>)>, Seq<char>, Span);

/// The view of a spanned element.
pub open spec fn element_view(element: Spanned<Element>) -> ElementView {
    match element.node {
        Element::Instruction(instruction) => (
            Some((instruction.direction, instruction.polarization)),
            instruction.instruction@,
            element.span,
        ),
        Element::Other(other) => (None, other@, element.span),
    }
}

/// The views of elements.
pub open spec fn element_views(elements: Seq<Spanned<Element>>) -> Seq<ElementView> {
    elements.map_values(|element: Spanned<Element>| element_view(element))
}

/// An instruction by its view.
pub open spec fn instruction_view(direction: Direction, polarization: Option<Direction>, text: Seq<char>, span: Span)
    -> ElementView
{
    (Some((direction, polarization)), text, span)
}

/// Other text by its view.
pub open spec fn other_view(text: Seq<char>, span: Span) -> ElementView {
    (None, text, span)
}

/// Elements with every instruction given a polarization; other text is kept.
pub open spec fn polarized(views: Seq<ElementView>, polarization: Direction) -> Seq<ElementView> {
    views.map_values(|view: ElementView| match view.0 {
        Some((direction, _)) => (Some((direction, Some(polarization))), view.1, view.2),
        None => view,
    })
}

/// The decimal numeral of a signed integer, with a minus sign if negative.
pub open spec fn integer_text(value: int) -> Seq<char> {
    if value < 0 {
        seq!['-'] + decimal((-value) as nat)
    } else {
        decimal(value as nat)
    }
}

/// The position of the entry of a name among the first `count` entries.
pub open spec fn find(entries: Seq<Entry>, name: Seq<char>, count: int) -> Option<int>
    decreases count,
{
    if count <= 0 {
        None
    } else if entries[count - 1].0 == name {
        Some(count - 1)
    } else {
        find(entries, name, count - 1)
    }
}

/// Whether some entry holds a name.
pub open spec fn bound(entries: Seq<Entry>, name: Seq<char>) -> bool {
    find(entries, name, entries.len() as int) is Some
}

/// The local of the entry of a name.
pub open spec fn local_of(entries: Seq<Entry>, name: Seq<char>) -> usize {
    entries[find(entries, name, entries.len() as int)->Some_0].1
}

/// The entries once a name is bound to a local at a span: its entry is
/// replaced where it has one, and added last otherwise.
pub open spec fn entered(entries: Seq<Entry>, name: Seq<char>, local: usize, span: Span) -> Seq<Entry> {
    match find(entries, name, entries.len() as int) {
        Some(position) => entries.update(position, (name, local, span)),
        None => entries.push((name, local, span)),
    }
}

/// The entries once the entry of a name is taken out.
pub open spec fn removed(entries: Seq<Entry>, name: Seq<char>) -> Seq<Entry> {
    match find(entries, name, entries.len() as int) {
        Some(position) => entries.remove(position),
        None => entries,
    }
}

/// The state with the top of the stack taken off.
pub open spec fn popped(state: Translation) -> Translation {
    (state.0, state.1, state.2.drop_last(), state.3)
}

/// The text of an operation on two locals: `<name> <first> <second>`.
pub open spec fn pair_text(name: Seq<char>, first: nat, second: nat) -> Seq<char> {
    name + seq![' '] + decimal(first) + seq![' '] + decimal(second)
}

/// The elements of an expression and the state after it: the local holding
/// its value is pushed on the stack.
pub open spec fn expression_translation(expression: Spanned<Expression>, state: Translation)
    -> (Seq<ElementView>, Translation)
    decreases expression,
{
    match expression.node {
        Expression::Variable(identifier) => (
            Seq::empty(),
            (state.0, state.1, state.2.push(local_of(state.1, identifier@)), state.3),
        ),
        Expression::LiteralInteger(value) => {
            let local = state.0.len();
            (
                seq![instruction_view(
                    Direction::Advance,
                    Some(Direction::Advance),
                    seq!['r', 'e', 's', 'e', 't', ' '] + decimal(local) + seq![' '] + integer_text(value as int),
                    expression.span,
                )],
                (state.0.push(Size::Signed64), state.1, state.2.push(local as usize), state.3),
            )
        },
        Expression::BinaryOperation(operation) => {
            let (left_elements, after_left) = expression_translation(operation.left, state);
            let left = after_left.2.last();
            let (right_elements, after_right) = expression_translation(operation.right, popped(after_left));
            let right = after_right.2.last();
            let stack = after_right.2.drop_last();
            let local = after_right.0.len();
            let elements = left_elements + right_elements;
            let operator_span = operation.operator.span;
            match operation.operator.node {
                BinaryOperator::Equal => (
                    elements.push(instruction_view(
                        Direction::Advance,
                        None,
                        seq!['c', 'o', 'm', 'p', 'a', 'r', 'e', ' ', '='] + seq![' '] + decimal(left as nat)
                            + seq![' '] + decimal(right as nat) + seq![' '] + decimal(local),
                        expression.span,
                    )),
                    (after_right.0.push(Size::Boolean), after_right.1, stack.push(local as usize), after_right.3),
                ),
                BinaryOperator::Add => (
                    elements + seq![
                        instruction_view(Direction::Advance, Some(Direction::Advance),
                            pair_text(seq!['c', 'l', 'o', 'n', 'e'], local, left as nat), expression.span),
                        instruction_view(Direction::Advance, None,
                            pair_text(seq!['a', 'd', 'd'], local, right as nat), operator_span),
                    ],
                    (after_right.0.push(after_right.0[left as int]), after_right.1, stack.push(local as usize), after_right.3),
                ),
                BinaryOperator::Minus => (
                    elements + seq![
                        instruction_view(Direction::Advance, Some(Direction::Advance),
                            pair_text(seq!['c', 'l', 'o', 'n', 'e'], local, left as nat), expression.span),
                        instruction_view(Direction::Advance, None,
                            pair_text(seq!['m', 'i', 'n', 'u', 's'], local, right as nat), operator_span),
                    ],
                    (after_right.0.push(after_right.0[left as int]), after_right.1, stack.push(local as usize), after_right.3),
                ),
                _ => (elements, after_right),
            }
        },
    }
}

/// Whether the translator takes an expression in a state: its variables are
/// bound, and it multiplies nowhere (which the translator does not handle).
pub open spec fn expression_fits(expression: Spanned<Expression>, state: Translation) -> bool
    decreases expression,
{
    match expression.node {
        Expression::Variable(identifier) => bound(state.1, identifier@),
        Expression::LiteralInteger(_) => true,
        Expression::BinaryOperation(operation) => {
            let after_left = expression_translation(operation.left, state).1;
            &&& operation.operator.node != BinaryOperator::Multiply
            &&& expression_fits(operation.left, state)
            &&& expression_fits(operation.right, popped(after_left))
        },
    }
}

/// The elements of a statement and the state after it.
pub open spec fn statement_translation(statement: Spanned<Statement>, state: Translation)
    -> (Seq<ElementView>, Translation)
    decreases statement,
{
    match statement.node {
        Statement::Binding(binding) => {
            let (elements, after) = expression_translation(binding.expression, state);
            (
                elements,
                (after.0, entered(after.1, binding.variable.identifier@, after.2.last(), statement.span),
                    after.2.drop_last(), after.3),
            )
        },
        Statement::Mutation(Mutation::Swap(left, right)) => (
            seq![instruction_view(
                Direction::Advance,
                None,
                pair_text(seq!['s', 'w', 'a', 'p'], local_of(state.1, left@) as nat, local_of(state.1, right@) as nat),
                statement.span,
            )],
            state,
        ),
        Statement::Mutation(Mutation::AddAssign(identifier, expression)) => {
            let (elements, after) = expression_translation(expression, state);
            (
                elements.push(instruction_view(
                    Direction::Advance,
                    None,
                    pair_text(seq!['a', 'd', 'd'], local_of(after.1, identifier@) as nat, after.2.last() as nat),
                    statement.span,
                )) + polarized(elements, Direction::Reverse),
                popped(after),
            )
        },
        Statement::Mutation(Mutation::MultiplyAssign(_, _)) => (Seq::empty(), state),
        Statement::ExplicitDrop(explicit_drop) => {
            let (elements, after) = expression_translation(explicit_drop.expression, state);
            (
                seq![instruction_view(
                    Direction::Advance,
                    Some(Direction::Reverse),
                    pair_text(
                        seq!['c', 'l', 'o', 'n', 'e'],
                        local_of(after.1, explicit_drop.identifier@) as nat,
                        after.2.last() as nat,
                    ),
                    statement.span,
                )] + polarized(elements, Direction::Reverse).reverse(),
                (after.0, removed(after.1, explicit_drop.identifier@), after.2.drop_last(), after.3),
            )
        },
        Statement::ConditionalLoop(conditional_loop) => loop_translation(conditional_loop, statement.span, state),
    }
}

/// The elements of a loop: its start label, the jump to its end when
/// reversing, its end condition, its statements, its start condition run
/// backwards when reversing, the jump back to its start, and its end label.
pub open spec fn loop_translation(conditional_loop: ConditionalLoop, span: Span, state: Translation)
    -> (Seq<ElementView>, Translation)
    decreases conditional_loop,
{
    match conditional_loop.start_condition {
        Some(start_condition) => {
            let (start, end) = (state.3, state.3 + 1);
            let labelled = (state.0, state.1, state.2, state.3 + 2);
            let (end_elements, after_end) = expression_translation(conditional_loop.end_condition, labelled);
            let end_index = after_end.2.last();
            let (body, after_body) = statements_translation(conditional_loop.statements@, popped(after_end));
            let (start_elements, after_start) = expression_translation(start_condition, after_body);
            let start_index = after_start.2.last();
            (
                seq![
                    other_view(decimal(start) + seq![':'], span),
                    instruction_view(Direction::Advance, None, seq!['p', 'a', 's', 's'], span),
                    instruction_view(Direction::Advance, Some(Direction::Reverse),
                        seq!['j', 'u', 'm', 'p', ' '] + decimal(end), span),
                ] + polarized(end_elements, Direction::Advance) + seq![
                    instruction_view(Direction::Advance, Some(Direction::Advance),
                        branch_text(end_index as nat, end), conditional_loop.end_condition.span),
                ] + body + seq![
                    instruction_view(Direction::Advance, Some(Direction::Reverse),
                        branch_text(start_index as nat, start), start_condition.span),
                ] + polarized(start_elements, Direction::Reverse).reverse() + seq![
                    instruction_view(Direction::Advance, Some(Direction::Advance),
                        seq!['j', 'u', 'm', 'p', ' '] + decimal(start), span),
                    other_view(decimal(end) + seq![':'], span),
                ],
                popped(after_start),
            )
        },
        None => (Seq::empty(), state),
    }
}

/// The text of a branch to a label on a truth value held in a local.
pub open spec fn branch_text(local: nat, label: nat) -> Seq<char> {
    seq!['b', 'r', 'a', 'n', 'c', 'h', '.', 'i', ' ', '=', ' '] + decimal(local) + seq![' ', 't', 'r', 'u', 'e', ' ']
        + decimal(label)
}

/// The elements of statements in order, and the state after them.
pub open spec fn statements_translation(statements: Seq<Spanned<Statement>>, state: Translation)
    -> (Seq<ElementView>, Translation)
    decreases statements,
{
    if statements.len() == 0 {
        (Seq::empty(), state)
    } else {
        let (first, middle) = statements_translation(statements.drop_last(), state);
        let (last, after) = statement_translation(statements.last(), middle);
        (first + last, after)
    }
}

/// Whether the translator takes a statement in a state: its variables are
/// bound where they are used, a loop has its start condition, and there are
/// labels left for its loops. Multiplication is not handled.
pub open spec fn statement_fits(statement: Spanned<Statement>, state: Translation) -> bool
    decreases statement,
{
    match statement.node {
        Statement::Binding(binding) => expression_fits(binding.expression, state),
        Statement::Mutation(Mutation::Swap(left, right)) => bound(state.1, left@) && bound(state.1, right@),
        Statement::Mutation(Mutation::AddAssign(identifier, expression)) => expression_fits(expression, state)
            && bound(expression_translation(expression, state).1.1, identifier@),
        Statement::Mutation(Mutation::MultiplyAssign(_, _)) => false,
        Statement::ExplicitDrop(explicit_drop) => expression_fits(explicit_drop.expression, state)
            && bound(expression_translation(explicit_drop.expression, state).1.1, explicit_drop.identifier@),
        Statement::ConditionalLoop(conditional_loop) => loop_fits(conditional_loop, state),
    }
}

/// Whether the translator takes a loop in a state.
pub open spec fn loop_fits(conditional_loop: ConditionalLoop, state: Translation) -> bool
    decreases conditional_loop,
{
    match conditional_loop.start_condition {
        Some(start_condition) => {
            let labelled = (state.0, state.1, state.2, state.3 + 2);
            let after_end = expression_translation(conditional_loop.end_condition, labelled).1;
            let after_body = statements_translation(conditional_loop.statements@, popped(after_end)).1;
            &&& state.3 + 2 <= usize::MAX
            &&& expression_fits(conditional_loop.end_condition, labelled)
            &&& statements_fit(conditional_loop.statements@, popped(after_end))
            &&& expression_fits(start_condition, after_body)
        },
        None => false,
    }
}

/// Whether the translator takes statements in order from a state.
pub open spec fn statements_fit(statements: Seq<Spanned<Statement>>, state: Translation) -> bool
    decreases statements,
{
    if statements.len() == 0 {
        true
    } else {
        &&& statements_fit(statements.drop_last(), state)
        &&& statement_fits(statements.last(), statements_translation(statements.drop_last(), state).1)
    }
}

/// The state once the parameters are bound in order, each to a new local of
/// 64 bits.
pub open spec fn parameters_translation(parameters: Seq<Spanned<Parameter>>, state: Translation) -> Translation
    decreases parameters.len(),
{
    if parameters.len() == 0 {
        state
    } else {
        let before = parameters_translation(parameters.drop_last(), state);
        (
            before.0.push(Size::Unsigned64),
            entered(before.1, parameters.last().node.identifier@, before.0.len() as usize, parameters.last().span),
            before.2,
            before.3,
        )
    }
}

/// The annotation that declares a local of a size with its initial value.
pub open spec fn annotation_text(size: Size) -> Seq<char> {
    seq!['@', 'l', 'o', 'c', 'a', 'l', ' '] + size.spec_text() + if size == Size::Boolean {
        seq![' ', 'f', 'a', 'l', 's', 'e']
    } else {
        seq![' ', '0']
    }
}

/// The drops of the locals of the entries, in their order, but for one kept local.
pub open spec fn drops(entries: Seq<Entry>, kept: usize) -> Seq<ElementView>
    decreases entries.len(),
{
    if entries.len() == 0 {
        Seq::empty()
    } else {
        let rest = drops(entries.drop_last(), kept);
        let entry = entries.last();
        if entry.1 == kept {
            rest
        } else {
            rest.push(instruction_view(
                Direction::Advance,
                None,
                seq!['d', 'r', 'o', 'p', ' '] + decimal(entry.1 as nat),
                entry.2,
            ))
        }
    }
}

/// Whether the translator takes a function in a state.
pub open spec fn function_fits(function: Function, state: Translation) -> bool {
    let registered = parameters_translation(function.parameters@, state);
    &&& statements_fit(function.statements@, registered)
    &&& expression_fits(function.return_value, statements_translation(function.statements@, registered).1)
}

/// The elements of a function: an annotation for every local, the header and
/// the way back out when reversing, the restoring of each parameter, the
/// statements and the return value, a drop of every bound variable but the
/// one returned, then the return and the closing brace.
pub open spec fn function_translation(function: Function, state: Translation) -> (Seq<ElementView>, Translation) {
    let parameters = function.parameters@;
    let registered = parameters_translation(parameters, state);
    let (central, after_statements) = statements_translation(function.statements@, registered);
    let (returned, after_return) = expression_translation(function.return_value, after_statements);
    let return_index = after_return.2.last();
    let sizes = after_return.0;
    (
        Seq::new(sizes.len(), |i: int| other_view(annotation_text(sizes[i]), function.span)) + seq![
            other_view(seq!['~'] + function.identifier.node@ + seq![' ', '{'], function.identifier.span),
            instruction_view(Direction::Reverse, Some(Direction::Reverse), seq!['r', 'e', 't', 'u', 'r', 'n'], function.span),
        ] + Seq::new(parameters.len(), |i: int| instruction_view(
            Direction::Advance,
            None,
            seq!['r', 'e', 's', 't', 'o', 'r', 'e', ' '] + decimal(i as nat),
            parameters[i].span,
        )) + central + returned + drops(after_return.1, return_index) + seq![
            instruction_view(Direction::Advance, None, seq!['d', 'r', 'o', 'p', ' '] + decimal(return_index as nat),
                function.return_value.span),
            instruction_view(Direction::Advance, Some(Direction::Advance), seq!['r', 'e', 't', 'u', 'r', 'n'],
                function.return_value.span),
            other_view(seq!['}'], function.span),
        ],
        popped(after_return),
    )
}

/// `find` reads names only: entries with the same names at every position
/// give the same result.
proof fn lemma_find_names(first: Seq<Entry>, second: Seq<Entry>, name: Seq<char>, count: int)
    requires
        0 <= count <= first.len(),
        count <= second.len(),
        forall|i: int| 0 <= i < count ==> (#[trigger] first[i]).0 == second[i].0,
    ensures
        find(first, name, count) == find(second, name, count),
    decreases count,
{
    if count > 0 {
        lemma_find_names(first, second, name, count - 1);
    }
}

/// Binding a name makes it bound to the given local, whether or not it was
/// bound before, and leaves every other name bound as it was.
pub proof fn lemma_entered(entries: Seq<Entry>, name: Seq<char>, local: usize, span: Span, other: Seq<char>)
    ensures
        bound(entered(entries, name, local, span), name),
        local_of(entered(entries, name, local, span), name) == local,
        other != name ==> bound(entered(entries, name, local, span), other) == bound(entries, other),
        other != name && bound(entries, other)
            ==> local_of(entered(entries, name, local, span), other) == local_of(entries, other),
{
    let after = entered(entries, name, local, span);
    lemma_find(entries, name, entries.len() as int);
    lemma_find(entries, other, entries.len() as int);
    match find(entries, name, entries.len() as int) {
        Some(position) => {
            assert forall|i: int| 0 <= i < entries.len() implies (#[trigger] entries[i]).0 == after[i].0 by {}
            lemma_find_names(entries, after, name, entries.len() as int);
            lemma_find_names(entries, after, other, entries.len() as int);
        },
        None => {
            assert forall|i: int| 0 <= i < entries.len() implies (#[trigger] entries[i]).0 == after[i].0 by {}
            lemma_find_names(entries, after, other, entries.len() as int);
            assert(after[entries.len() as int].0 == name);
        },
    }
}

/// After `let name = expression`, the name is bound to the local that holds
/// the value of the expression, whether or not it was bound before; every
/// other name keeps the local it had.
pub proof fn lemma_binding_rebinds(binding: Binding, span: Span, state: Translation, other: Seq<char>)
    ensures
        ({
            let value = expression_translation(binding.expression, state).1;
            let after = statement_translation(Spanned { node: Statement::Binding(binding), span }, state).1;
            let name = binding.variable.identifier@;
            &&& bound(after.1, name)
            &&& local_of(after.1, name) == value.2.last()
            &&& other != name && bound(state.1, other) ==> bound(after.1, other)
                && local_of(after.1, other) == local_of(state.1, other)
        }),
{
    let value = expression_translation(binding.expression, state).1;
    lemma_expression_keeps_entries(binding.expression, state);
    lemma_entered(value.1, binding.variable.identifier@, value.2.last(), span, other);
}

/// Dropping a name unbinds it, where no name has two entries, and leaves
/// every other name bound to the local it had.
pub proof fn lemma_removed(entries: Seq<Entry>, name: Seq<char>, other: Seq<char>)
    requires
        forall|i: int, j: int| 0 <= i < j < entries.len() ==> (#[trigger] entries[i]).0 != (#[trigger] entries[j]).0,
    ensures
        !bound(removed(entries, name), name),
        other != name ==> bound(removed(entries, name), other) == bound(entries, other),
        other != name && bound(entries, other) ==> local_of(removed(entries, name), other) == local_of(entries, other),
{
    let after = removed(entries, name);
    lemma_find(entries, name, entries.len() as int);
    lemma_find(entries, other, entries.len() as int);
    lemma_find(after, name, after.len() as int);
    lemma_find(after, other, after.len() as int);
    match find(entries, name, entries.len() as int) {
        Some(position) => {
            if let Some(found) = find(after, name, after.len() as int) {
                let k = if found < position { found } else { found + 1 };
                assert(after[found] == entries[k]);
            }
            if other != name {
                assert forall|i: int| 0 <= i < after.len() implies (#[trigger] after[i]).0 != other
                    || find(entries, other, entries.len() as int) is Some by {
                    let k = if i < position { i } else { i + 1 };
                    assert(after[i] == entries[k]);
                }
                if let Some(q) = find(entries, other, entries.len() as int) {
                    let index = if q < position { q } else { q - 1 };
                    assert(q != position);
                    assert(after[index] == entries[q]);
                    if let Some(found) = find(after, other, after.len() as int) {
                        let k = if found < position { found } else { found + 1 };
                        assert(after[found] == entries[k]);
                        assert(k == q);
                    }
                }
            }
        },
        None => {},
    }
}

/// An expression binds nothing and uses no label.
pub proof fn lemma_expression_keeps_entries(expression: Spanned<Expression>, state: Translation)
    ensures
        expression_translation(expression, state).1.1 == state.1,
        expression_translation(expression, state).1.3 == state.3,
    decreases expression,
{
    if let Expression::BinaryOperation(operation) = expression.node {
        lemma_expression_keeps_entries(operation.left, state);
        lemma_expression_keeps_entries(operation.right, popped(expression_translation(operation.left, state).1));
    }
}

/// After `drop name = expression`, the name is no longer bound, and every
/// other name keeps the local it had.
pub proof fn lemma_drop_unbinds(explicit_drop: ExplicitDrop, span: Span, state: Translation, other: Seq<char>)
    requires
        translation_wf(state),
    ensures
        ({
            let value = expression_translation(explicit_drop.expression, state).1;
            let after = statement_translation(Spanned { node: Statement::ExplicitDrop(explicit_drop), span }, state).1;
            let name = explicit_drop.identifier@;
            &&& !bound(after.1, name)
            &&& other != name && bound(state.1, other) ==> bound(after.1, other)
                && local_of(after.1, other) == local_of(state.1, other)
        }),
{
    lemma_expression_keeps_entries(explicit_drop.expression, state);
    lemma_removed(state.1, explicit_drop.identifier@, other);
}

/// The instruction of an arithmetic operation names what it computes: an
/// addition ends in `add`, a subtraction in `minus`; so the two operations
/// on the same operands give different instructions.
pub proof fn lemma_operator_named(
    left: Spanned<Expression>,
    right: Spanned<Expression>,
    operator_span: Span,
    span: Span,
    state: Translation,
)
    ensures
        ({
            let addition = Spanned {
                node: Expression::BinaryOperation(Box::new(BinaryOperation {
                    left, right, operator: Spanned { node: BinaryOperator::Add, span: operator_span },
                })),
                span,
            };
            let subtraction = Spanned {
                node: Expression::BinaryOperation(Box::new(BinaryOperation {
                    left, right, operator: Spanned { node: BinaryOperator::Minus, span: operator_span },
                })),
                span,
            };
            let added = expression_translation(addition, state).0.last().1;
            let subtracted = expression_translation(subtraction, state).0.last().1;
            &&& added.subrange(0, 4) == seq!['a', 'd', 'd', ' ']
            &&& subtracted.subrange(0, 6) == seq!['m', 'i', 'n', 'u', 's', ' ']
            &&& added != subtracted
        }),
{
    let after_left = expression_translation(left, state).1;
    let after_right = expression_translation(right, popped(after_left)).1;
    let local = after_right.0.len();
    let added = pair_text(seq!['a', 'd', 'd'], local, after_right.2.last() as nat);
    let subtracted = pair_text(seq!['m', 'i', 'n', 'u', 's'], local, after_right.2.last() as nat);
    assert(added.subrange(0, 4) =~= seq!['a', 'd', 'd', ' ']);
    assert(subtracted.subrange(0, 6) =~= seq!['m', 'i', 'n', 'u', 's', ' ']);
    assert(added[0] != subtracted[0]);
}

/// Whether a state is sound: no name has two entries, and every local that
/// an entry or the stack names exists.
pub open spec fn translation_wf(state: Translation) -> bool {
    &&& forall|i: int, j: int| 0 <= i < j < state.1.len() ==> (#[trigger] state.1[i]).0 != (#[trigger] state.1[j]).0
    &&& forall|i: int| 0 <= i < state.1.len() ==> (#[trigger] state.1[i]).1 < state.0.len()
    &&& forall|i: int| 0 <= i < state.2.len() ==> #[trigger] state.2[i] < state.0.len()
}

/// `find` gives the position of the entry that holds a name, and finds
/// nothing where no entry does.
pub proof fn lemma_find(entries: Seq<Entry>, name: Seq<char>, count: int)
    requires
        0 <= count <= entries.len(),
    ensures
        find(entries, name, count) matches Some(position) ==> 0 <= position < count && entries[position].0 == name,
        find(entries, name, count) is None ==> forall|i: int| 0 <= i < count ==> (#[trigger] entries[i]).0 != name,
    decreases count,
{
    if count > 0 {
        lemma_find(entries, name, count - 1);
    }
}

proof fn lemma_views_add(first: Seq<Spanned<Element>>, second: Seq<Spanned<Element>>)
    ensures
        element_views(first + second) == element_views(first) + element_views(second),
{
    assert(element_views(first + second) =~= element_views(first) + element_views(second));
}

proof fn lemma_views_push(first: Seq<Spanned<Element>>, element: Spanned<Element>)
    ensures
        element_views(first.push(element)) == element_views(first).push(element_view(element)),
{
    assert(element_views(first.push(element)) =~= element_views(first).push(element_view(element)));
}

proof fn lemma_views_reverse(elements: Seq<Spanned<Element>>)
    ensures
        element_views(elements.reverse()) == element_views(elements).reverse(),
{
    assert(element_views(elements.reverse()) =~= element_views(elements).reverse());
}

/// Appends the decimal numeral of a number.
fn append_number(text: &mut String, n: usize)
    ensures
        final(text)@ == old(text)@ + decimal(n as nat),
{
    let number = decimal_text(n as u64);
    text.append(number.as_str());
}

/// The text `<name> <first> <second>`.
fn pair(name: &str, first: usize, second: usize) -> (text: String)
    ensures
        text@ == pair_text(name@, first as nat, second as nat),
{
    proof {
        reveal_strlit(" ");
    }
    let mut text = String::from_str(name);
    text.append(" ");
    append_number(&mut text, first);
    text.append(" ");
    append_number(&mut text, second);
    text
}

/// The decimal numeral of a signed integer.
fn integer_literal(value: i64) -> (text: String)
    ensures
        text@ == integer_text(value as int),
{
    if value < 0 {
        proof {
            reveal_strlit("-");
        }
        let magnitude: u64 = if value == i64::MIN { 9223372036854775808u64 } else { (-value) as u64 };
        let mut text = String::from_str("-");
        let number = decimal_text(magnitude);
        text.append(number.as_str());
        text
    } else {
        decimal_text(value as u64)
    }
}

/// A spanned instruction.
fn instruction(direction: Direction, polarization: Option<Direction>, text: String, span: Span)
    -> (element: Spanned<Element>)
    ensures
        element_view(element) == instruction_view(direction, polarization, text@, span),
{
    Spanned::new(Element::Instruction(Instruction { direction, polarization, instruction: text }), span)
}

/// Spanned other text.
fn other(text: String, span: Span) -> (element: Spanned<Element>)
    ensures
        element_view(element) == other_view(text@, span),
{
    Spanned::new(Element::Other(text), span)
}

/// A copy of an element.
fn duplicate(element: &Spanned<Element>) -> (copy: Spanned<Element>)
    ensures
        element_view(copy) == element_view(*element),
{
    let node = match &element.node {
        Element::Instruction(instruction) => Element::Instruction(Instruction {
            direction: instruction.direction,
            polarization: instruction.polarization,
            instruction: instruction.instruction.clone(),
        }),
        Element::Other(text) => Element::Other(text.clone()),
    };
    Spanned::new(node, element.span)
}

/// Copies of elements, in order.
fn duplicates(elements: &Vec<Spanned<Element>>) -> (copies: Vec<Spanned<Element>>)
    ensures
        element_views(copies@) == element_views(elements@),
{
    let mut copies: Vec<Spanned<Element>> = Vec::new();
    let mut index: usize = 0;
    while index < elements.len()
        invariant
            index <= elements@.len(),
            copies@.len() == index,
            forall|i: int| 0 <= i < index ==> element_view(#[trigger] copies@[i]) == element_view(elements@[i]),
        decreases elements@.len() - index,
    {
        copies.push(duplicate(&elements[index]));
        index += 1;
    }
    assert(element_views(copies@) =~= element_views(elements@));
    copies
}

/// The elements with every instruction given a polarization.
fn polarize(elements: Vec<Spanned<Element>>, polarization: Direction) -> (result: Vec<Spanned<Element>>)
    ensures
        element_views(result@) == polarized(element_views(elements@), polarization),
{
    let ghost given = elements@;
    let mut remaining = elements;
    crate::sequence::reverse_in_place(&mut remaining);
    let mut result: Vec<Spanned<Element>> = Vec::new();
    while remaining.len() > 0
        invariant
            remaining@.len() + result@.len() == given.len(),
            forall|i: int| 0 <= i < remaining@.len() ==> #[trigger] remaining@[i] == given[given.len() - 1 - i],
            forall|i: int| 0 <= i < result@.len() ==> element_view(#[trigger] result@[i])
                == polarized(element_views(given), polarization)[i],
        decreases remaining@.len(),
    {
        let element = remaining.pop().unwrap();
        let ghost index = result@.len() as int;
        assert(element == given[index]);
        let span = element.span;
        let node = match element.node {
            Element::Instruction(instruction) => Element::Instruction(Instruction {
                direction: instruction.direction,
                polarization: Some(polarization),
                instruction: instruction.instruction,
            }),
            Element::Other(text) => Element::Other(text),
        };
        result.push(Spanned::new(node, span));
    }
    assert(element_views(result@) =~= polarized(element_views(given), polarization));
    result
}

/// Translates functions of the direct tree, keeping the sizes of the locals
/// it allocates, the variables bound so far, the locals of the expressions
/// translated so far, and the next label.
#[derive(Debug)]
pub struct Translator {
    allocation_sizes: Vec<Size>,
    identifier_table: Vec<(Identifier, usize, Span)>,
    expression_stack: Vec<usize>,
    label_index: usize,
}

impl Translator {
    /// What the translator holds.
    pub closed spec fn state(&self) -> Translation {
        (
            self.allocation_sizes@,
            self.identifier_table@.map_values(|entry: (Identifier, usize, Span)| (entry.0@, entry.1, entry.2)),
            self.expression_stack@,
            self.label_index as nat,
        )
    }

    /// Whether what the translator holds is sound.
    pub open spec fn wf(&self) -> bool {
        translation_wf(self.state())
    }

    /// The local that a bound name is bound to.
    fn local(&self, identifier: &Identifier) -> (local: usize)
        requires
            bound(self.state().1, identifier@),
        ensures
            local == local_of(self.state().1, identifier@),
    {
        let ghost entries = self.state().1;
        let mut index = self.identifier_table.len();
        while index > 0
            invariant
                index <= self.identifier_table@.len(),
                entries == self.state().1,
                find(entries, identifier@, entries.len() as int) == find(entries, identifier@, index as int),
            decreases index,
        {
            assert(entries[index - 1].0 == self.identifier_table@[index - 1].0@);
            if self.identifier_table[index - 1].0.same(identifier) {
                return self.identifier_table[index - 1].1;
            }
            index -= 1;
        }
        proof {
            assert(find(entries, identifier@, 0) is None);
        }
        0
    }

    /// The position of the entry of a name, if it has one.
    fn position(&self, identifier: &Identifier) -> (position: Option<usize>)
        ensures
            match position {
                Some(index) => find(self.state().1, identifier@, self.state().1.len() as int) == Some(index as int),
                None => find(self.state().1, identifier@, self.state().1.len() as int) is None,
            },
    {
        let ghost entries = self.state().1;
        let mut index = self.identifier_table.len();
        while index > 0
            invariant
                index <= self.identifier_table@.len(),
                entries == self.state().1,
                find(entries, identifier@, entries.len() as int) == find(entries, identifier@, index as int),
            decreases index,
        {
            assert(entries[index - 1].0 == self.identifier_table@[index - 1].0@);
            if self.identifier_table[index - 1].0.same(identifier) {
                return Some(index - 1);
            }
            index -= 1;
        }
        None
    }

    /// Binds a name to a local at a span.
    fn enter(&mut self, identifier: Identifier, local: usize, span: Span)
        requires
            old(self).wf(),
            local < old(self).state().0.len(),
        ensures
            final(self).wf(),
            final(self).state() == (
                old(self).state().0,
                entered(old(self).state().1, identifier@, local, span),
                old(self).state().2,
                old(self).state().3,
            ),
    {
        let ghost entries = self.state().1;
        let ghost name = identifier@;
        proof {
            lemma_find(entries, name, entries.len() as int);
        }
        match self.position(&identifier) {
            Some(index) => {
                self.identifier_table.set(index, (identifier, local, span));
                assert(self.state().1 =~= entries.update(index as int, (name, local, span)));
            },
            None => {
                self.identifier_table.push((identifier, local, span));
                assert(self.state().1 =~= entries.push((name, local, span)));
            },
        }
    }

    /// Takes the entry of a bound name out, giving its local.
    fn remove(&mut self, identifier: &Identifier) -> (local: usize)
        requires
            old(self).wf(),
            bound(old(self).state().1, identifier@),
        ensures
            final(self).wf(),
            local == local_of(old(self).state().1, identifier@),
            final(self).state() == (
                old(self).state().0,
                removed(old(self).state().1, identifier@),
                old(self).state().2,
                old(self).state().3,
            ),
    {
        let ghost entries = self.state().1;
        proof {
            lemma_find(entries, identifier@, entries.len() as int);
        }
        let index = self.position(identifier).unwrap();
        let entry = self.identifier_table.remove(index);
        assert(self.state().1 =~= entries.remove(index as int));
        proof {
            let after = self.state().1;
            assert forall|i: int, j: int| 0 <= i < j < after.len() implies (#[trigger] after[i]).0 != (#[trigger] after[j]).0 by {
                let (k, l) = (if i < index { i } else { i + 1 }, if j < index { j } else { j + 1 });
                assert(after[i] == entries[k] && after[j] == entries[l]);
            }
            assert forall|i: int| 0 <= i < after.len() implies (#[trigger] after[i]).1 < self.state().0.len() by {
                let k = if i < index { i } else { i + 1 };
                assert(after[i] == entries[k]);
            }
        }
        entry.1
    }

    /// Takes the local on top of the stack.
    fn pop(&mut self) -> (local: usize)
        requires
            old(self).wf(),
            old(self).state().2.len() > 0,
        ensures
            final(self).wf(),
            local == old(self).state().2.last(),
            final(self).state() == popped(old(self).state()),
            local < final(self).state().0.len(),
    {
        let local = self.expression_stack.pop().unwrap();
        assert(self.state().2 =~= old(self).state().2.drop_last());
        assert(self.state().1 == old(self).state().1);
        assert(self.state().0 == old(self).state().0);
        assert forall|i: int| 0 <= i < self.state().2.len() implies #[trigger] self.state().2[i] < self.state().0.len() by {
            assert(self.state().2[i] == old(self).state().2[i]);
        }
        assert(old(self).state().2[old(self).state().2.len() - 1] < old(self).state().0.len());
        local
    }

    /// Translates an expression, leaving the local of its value on the stack.
    pub fn expression(&mut self, expression: &Spanned<Expression>) -> (elements: Vec<Spanned<Element>>)
        requires
            old(self).wf(),
            expression_fits(*expression, old(self).state()),
        ensures
            final(self).wf(),
            final(self).state() == expression_translation(*expression, old(self).state()).1,
            element_views(elements@) == expression_translation(*expression, old(self).state()).0,
            final(self).state().1 == old(self).state().1,
            final(self).state().3 == old(self).state().3,
            final(self).state().2.len() == old(self).state().2.len() + 1,
            final(self).state().2.drop_last() == old(self).state().2,
            old(self).state().0.len() <= final(self).state().0.len(),
        decreases expression,
    {
        match &expression.node {
            Expression::Variable(identifier) => {
                let local = self.local(identifier);
                proof {
                    let entries = old(self).state().1;
                    lemma_find(entries, identifier@, entries.len() as int);
                }
                self.expression_stack.push(local);
                assert(self.state().2.drop_last() =~= old(self).state().2);
                Vec::new()
            },
            Expression::LiteralInteger(value) => {
                proof {
                    reveal_strlit("reset ");
                    reveal_strlit(" ");
                }
                let local = self.allocation_sizes.len();
                self.allocation_sizes.push(Size::Signed64);
                self.expression_stack.push(local);
                let mut text = String::from_str("reset ");
                append_number(&mut text, local);
                text.append(" ");
                let literal = integer_literal(*value);
                text.append(literal.as_str());
                assert(text@ =~= seq!['r', 'e', 's', 'e', 't', ' '] + decimal(local as nat) + seq![' ']
                    + integer_text(*value as int));
                let mut elements = Vec::new();
                elements.push(instruction(Direction::Advance, Some(Direction::Advance), text, expression.span));
                assert(self.state().2.drop_last() =~= old(self).state().2);
                assert(element_views(elements@) =~= expression_translation(*expression, old(self).state()).0);
                elements
            },
            Expression::BinaryOperation(operation) => self.binary_operation(operation, expression.span),
        }
    }

    /// Translates both operands, then the operation into a new local.
    pub fn binary_operation(&mut self, operation: &BinaryOperation, span: Span) -> (elements: Vec<Spanned<Element>>)
        requires
            old(self).wf(),
            expression_fits(
                Spanned { node: Expression::BinaryOperation(Box::new(*operation)), span },
                old(self).state(),
            ),
        ensures
            final(self).wf(),
            final(self).state() == expression_translation(
                Spanned { node: Expression::BinaryOperation(Box::new(*operation)), span },
                old(self).state(),
            ).1,
            element_views(elements@) == expression_translation(
                Spanned { node: Expression::BinaryOperation(Box::new(*operation)), span },
                old(self).state(),
            ).0,
            final(self).state().1 == old(self).state().1,
            final(self).state().3 == old(self).state().3,
            final(self).state().2.len() == old(self).state().2.len() + 1,
            final(self).state().2.drop_last() == old(self).state().2,
            old(self).state().0.len() <= final(self).state().0.len(),
        decreases *operation,
    {
        let mut elements = self.expression(&operation.left);
        let left = self.pop();
        let mut right_elements = self.expression(&operation.right);
        let right = self.pop();
        let ghost before = elements@;
        let ghost right_views = right_elements@;
        elements.append(&mut right_elements);
        proof {
            lemma_views_add(before, right_views);
            reveal_strlit("compare = ");
            reveal_strlit("clone");
            reveal_strlit("add");
            reveal_strlit("minus");
            reveal_strlit(" ");
        }
        let ghost joined = elements@;
        let ghost whole = Spanned { node: Expression::BinaryOperation(Box::new(*operation)), span };
        let ghost (left_views, after_left) = expression_translation(operation.left, old(self).state());
        let ghost (right_part, after_right) = expression_translation(operation.right, popped(after_left));
        assert(left == after_left.2.last());
        assert(right == after_right.2.last());
        assert(element_views(joined) == left_views + right_part);
        let local = self.allocation_sizes.len();
        match operation.operator.node {
            BinaryOperator::Equal => {
                self.allocation_sizes.push(Size::Boolean);
                let mut text = String::from_str("compare = ");
                append_number(&mut text, left);
                text.append(" ");
                append_number(&mut text, right);
                text.append(" ");
                append_number(&mut text, local);
                let element = instruction(Direction::Advance, None, text, span);
                elements.push(element);
                proof {
                    lemma_views_push(joined, element);
                    assert(text@ =~= seq!['c', 'o', 'm', 'p', 'a', 'r', 'e', ' ', '='] + seq![' '] + decimal(left as nat)
                        + seq![' '] + decimal(right as nat) + seq![' '] + decimal(local as nat));
                    assert(local == after_right.0.len());
                    assert(element_views(elements@) == expression_translation(whole, old(self).state()).0);
                }
            },
            BinaryOperator::Add => {
                let size = self.allocation_sizes[left];
                self.allocation_sizes.push(size);
                let clone = instruction(Direction::Advance, Some(Direction::Advance), pair("clone", local, left), span);
                let add = instruction(Direction::Advance, None, pair("add", local, right), operation.operator.span);
                elements.push(clone);
                elements.push(add);
                proof {
                    assert(element_views(elements@) =~= element_views(joined) + seq![element_view(clone), element_view(add)]);
                    assert("clone"@ =~= seq!['c', 'l', 'o', 'n', 'e']);
                    assert("add"@ =~= seq!['a', 'd', 'd']);
                    assert(local == after_right.0.len());
                    assert(element_views(elements@) == expression_translation(whole, old(self).state()).0);
                }
            },
            BinaryOperator::Minus => {
                let size = self.allocation_sizes[left];
                self.allocation_sizes.push(size);
                let clone = instruction(Direction::Advance, Some(Direction::Advance), pair("clone", local, left), span);
                let minus = instruction(Direction::Advance, None, pair("minus", local, right), operation.operator.span);
                elements.push(clone);
                elements.push(minus);
                proof {
                    assert(element_views(elements@) =~= element_views(joined) + seq![element_view(clone), element_view(minus)]);
                    assert("clone"@ =~= seq!['c', 'l', 'o', 'n', 'e']);
                    assert("minus"@ =~= seq!['m', 'i', 'n', 'u', 's']);
                    assert(local == after_right.0.len());
                    assert(element_views(elements@) == expression_translation(whole, old(self).state()).0);
                }
            },
            BinaryOperator::Multiply => {},
        }
        self.expression_stack.push(local);
        assert(self.state().2.drop_last() =~= old(self).state().2);
        proof {
            assert(operation.operator.node != BinaryOperator::Multiply);
        }
        elements
    }

    /// Translates statements in order.
    pub fn statements(&mut self, statements: &Vec<Spanned<Statement>>) -> (elements: Vec<Spanned<Element>>)
        requires
            old(self).wf(),
            statements_fit(statements@, old(self).state()),
        ensures
            final(self).wf(),
            final(self).state() == statements_translation(statements@, old(self).state()).1,
            element_views(elements@) == statements_translation(statements@, old(self).state()).0,
        decreases statements,
    {
        let ghost initial = self.state();
        let mut elements: Vec<Spanned<Element>> = Vec::new();
        let mut index: usize = 0;
        assert(statements@.subrange(0, 0).len() == 0);
        assert(element_views(elements@) =~= Seq::<ElementView>::empty());
        while index < statements.len()
            invariant
                self.wf(),
                index <= statements@.len(),
                initial == old(self).state(),
                statements_fit(statements@, initial),
                self.state() == statements_translation(statements@.subrange(0, index as int), initial).1,
                element_views(elements@) == statements_translation(statements@.subrange(0, index as int), initial).0,
            decreases statements@.len() - index,
        {
            proof {
                lemma_statements_fit(statements@, initial, index as int);
            }
            let mut more = self.statement(&statements[index]);
            let ghost before = elements@;
            let ghost added = more@;
            elements.append(&mut more);
            proof {
                lemma_views_add(before, added);
                let next = statements@.subrange(0, index + 1);
                assert(next.drop_last() =~= statements@.subrange(0, index as int));
                assert(next.last() == statements@[index as int]);
            }
            index += 1;
        }
        assert(statements@.subrange(0, statements@.len() as int) =~= statements@);
        elements
    }

    /// Translates a statement: see the method for each kind.
    pub fn statement(&mut self, statement: &Spanned<Statement>) -> (elements: Vec<Spanned<Element>>)
        requires
            old(self).wf(),
            statement_fits(*statement, old(self).state()),
        ensures
            final(self).wf(),
            final(self).state() == statement_translation(*statement, old(self).state()).1,
            element_views(elements@) == statement_translation(*statement, old(self).state()).0,
        decreases statement,
    {
        match &statement.node {
            Statement::Binding(binding) => self.binding(binding, statement.span),
            Statement::Mutation(mutation) => self.mutation(mutation, statement.span),
            Statement::ExplicitDrop(explicit_drop) => self.explicit_drop(explicit_drop, statement.span),
            Statement::ConditionalLoop(conditional_loop) => self.conditional_loop(conditional_loop, statement.span),
        }
    }

    /// Translates the expression, then binds the variable to its local.
    pub fn binding(&mut self, binding: &Binding, span: Span) -> (elements: Vec<Spanned<Element>>)
        requires
            old(self).wf(),
            statement_fits(Spanned { node: Statement::Binding(*binding), span }, old(self).state()),
        ensures
            final(self).wf(),
            final(self).state() == statement_translation(Spanned { node: Statement::Binding(*binding), span }, old(self).state()).1,
            element_views(elements@)
                == statement_translation(Spanned { node: Statement::Binding(*binding), span }, old(self).state()).0,
        decreases *binding,
    {
        let elements = self.expression(&binding.expression);
        let local = self.pop();
        self.enter(binding.variable.identifier.duplicate(), local, span);
        elements
    }

    /// Translates a swap, or an addition to a variable: the expression, the
    /// addition, then the expression again with a reverse polarization, which
    /// undoes it when advancing.
    pub fn mutation(&mut self, mutation: &Mutation, span: Span) -> (elements: Vec<Spanned<Element>>)
        requires
            old(self).wf(),
            statement_fits(Spanned { node: Statement::Mutation(*mutation), span }, old(self).state()),
        ensures
            final(self).wf(),
            final(self).state() == statement_translation(Spanned { node: Statement::Mutation(*mutation), span }, old(self).state()).1,
            element_views(elements@)
                == statement_translation(Spanned { node: Statement::Mutation(*mutation), span }, old(self).state()).0,
        decreases *mutation,
    {
        proof {
            reveal_strlit("swap");
            reveal_strlit("add");
        }
        match mutation {
            Mutation::Swap(left, right) => {
                let left = self.local(left);
                let right = self.local(right);
                let element = instruction(Direction::Advance, None, pair("swap", left, right), span);
                let mut elements = Vec::new();
                elements.push(element);
                assert("swap"@ =~= seq!['s', 'w', 'a', 'p']);
                assert(element_views(elements@) =~= seq![element_view(element)]);
                elements
            },
            Mutation::AddAssign(identifier, expression) => {
                let elements = self.expression(expression);
                let temporary = self.pop();
                let local = self.local(identifier);
                let mut result = duplicates(&elements);
                let add = instruction(Direction::Advance, None, pair("add", local, temporary), span);
                let ghost copied = result@;
                result.push(add);
                let ghost pushed = result@;
                let mut undone = polarize(elements, Direction::Reverse);
                let ghost undone_views = undone@;
                result.append(&mut undone);
                proof {
                    assert("add"@ =~= seq!['a', 'd', 'd']);
                    lemma_views_push(copied, add);
                    lemma_views_add(pushed, undone_views);
                }
                result
            },
            Mutation::MultiplyAssign(_, _) => Vec::new(),
        }
    }

    /// Translates a drop: the copy of the value back into the dropped
    /// variable when reversing, after the expression run backwards with a
    /// reverse polarization. The variable is unbound.
    pub fn explicit_drop(&mut self, explicit_drop: &ExplicitDrop, span: Span) -> (elements: Vec<Spanned<Element>>)
        requires
            old(self).wf(),
            statement_fits(Spanned { node: Statement::ExplicitDrop(*explicit_drop), span }, old(self).state()),
        ensures
            final(self).wf(),
            final(self).state()
                == statement_translation(Spanned { node: Statement::ExplicitDrop(*explicit_drop), span }, old(self).state()).1,
            element_views(elements@)
                == statement_translation(Spanned { node: Statement::ExplicitDrop(*explicit_drop), span }, old(self).state()).0,
        decreases *explicit_drop,
    {
        proof {
            reveal_strlit("clone");
        }
        let elements = self.expression(&explicit_drop.expression);
        let mut undone = polarize(elements, Direction::Reverse);
        let ghost forward = undone@;
        crate::sequence::reverse_in_place(&mut undone);
        let local = self.remove(&explicit_drop.identifier);
        let index = self.pop();
        let clone = instruction(Direction::Advance, Some(Direction::Reverse), pair("clone", local, index), span);
        let ghost backward = undone@;
        undone.insert(0, clone);
        proof {
            assert("clone"@ =~= seq!['c', 'l', 'o', 'n', 'e']);
            lemma_views_reverse(forward);
            assert(undone@ =~= seq![clone] + backward);
            lemma_views_add(seq![clone], backward);
            assert(element_views(seq![clone]) =~= seq![element_view(clone)]);
        }
        undone
    }

    /// Translates a loop: see `loop_translation`.
    pub fn conditional_loop(&mut self, conditional_loop: &ConditionalLoop, span: Span) -> (elements: Vec<Spanned<Element>>)
        requires
            old(self).wf(),
            loop_fits(*conditional_loop, old(self).state()),
        ensures
            final(self).wf(),
            final(self).state() == loop_translation(*conditional_loop, span, old(self).state()).1,
            element_views(elements@) == loop_translation(*conditional_loop, span, old(self).state()).0,
        decreases *conditional_loop,
    {
        let start_condition = match &conditional_loop.start_condition {
            Some(start_condition) => start_condition,
            None => return Vec::new(),
        };
        proof {
            reveal_strlit("");
            reveal_strlit(":");
            reveal_strlit("pass");
            reveal_strlit("jump ");
        }
        let start = self.label_index;
        let end = self.label_index + 1;
        self.label_index = self.label_index + 2;
        let mut elements: Vec<Spanned<Element>> = Vec::new();
        let first = other(numbered_text("", start, ":"), span);
        let second = instruction(Direction::Advance, None, String::from_str("pass"), span);
        let third = instruction(Direction::Advance, Some(Direction::Reverse), numbered_text("jump ", end, ""), span);
        elements.push(first);
        elements.push(second);
        elements.push(third);
        let ghost opening = elements@;
        let end_elements = self.expression(&conditional_loop.end_condition);
        let mut end_polarized = polarize(end_elements, Direction::Advance);
        let ghost end_views = end_polarized@;
        elements.append(&mut end_polarized);
        let end_index = self.pop();
        let end_branch = instruction(Direction::Advance, Some(Direction::Advance), branch(end_index, end),
            conditional_loop.end_condition.span);
        let ghost before_end_branch = elements@;
        elements.push(end_branch);
        let ghost before_body = elements@;
        let mut body = self.statements(&conditional_loop.statements);
        let ghost body_views = body@;
        elements.append(&mut body);
        let start_elements = self.expression(start_condition);
        let mut condition_elements = polarize(start_elements, Direction::Reverse);
        let ghost condition_forward = condition_elements@;
        crate::sequence::reverse_in_place(&mut condition_elements);
        let ghost condition_views = condition_elements@;
        let start_index = self.pop();
        let start_branch = instruction(Direction::Advance, Some(Direction::Reverse), branch(start_index, start),
            start_condition.span);
        let ghost before_start_branch = elements@;
        elements.push(start_branch);
        let ghost before_condition = elements@;
        elements.append(&mut condition_elements);
        let jump = instruction(Direction::Advance, Some(Direction::Advance), numbered_text("jump ", start, ""), span);
        let close = other(numbered_text("", end, ":"), span);
        let ghost before_close = elements@;
        elements.push(jump);
        elements.push(close);
        proof {
            assert(""@ =~= Seq::<char>::empty());
            assert(":"@ =~= seq![':']);
            assert("pass"@ =~= seq!['p', 'a', 's', 's']);
            assert("jump "@ =~= seq!['j', 'u', 'm', 'p', ' ']);
            assert(element_views(opening) =~= seq![element_view(first), element_view(second), element_view(third)]);
            lemma_views_add(opening, end_views);
            lemma_views_push(before_end_branch, end_branch);
            lemma_views_add(before_body, body_views);
            lemma_views_reverse(condition_forward);
            lemma_views_push(before_start_branch, start_branch);
            lemma_views_add(before_condition, condition_views);
            assert(element_views(elements@) =~= element_views(before_close)
                + seq![element_view(jump), element_view(close)]);
        }
        elements
    }

    /// Translates a function: see `function_translation`. The variables are
    /// dropped in the order they were first bound.
    pub fn function(&mut self, function: &Function) -> (elements: Vec<Spanned<Element>>)
        requires
            old(self).wf(),
            function_fits(*function, old(self).state()),
        ensures
            final(self).wf(),
            final(self).state() == function_translation(*function, old(self).state()).1,
            element_views(elements@) == function_translation(*function, old(self).state()).0,
    {
        let ghost initial = self.state();
        let parameters = &function.parameters;
        let mut index: usize = 0;
        while index < parameters.len()
            invariant
                self.wf(),
                index <= parameters@.len(),
                initial == old(self).state(),
                self.state() == parameters_translation(parameters@.subrange(0, index as int), initial),
            decreases parameters@.len() - index,
        {
            let ghost before = self.state();
            let local = self.allocation_sizes.len();
            self.allocation_sizes.push(Size::Unsigned64);
            proof {
                assert(self.state().1 == before.1);
                assert(self.state().2 == before.2);
                assert forall|i: int| 0 <= i < self.state().1.len() implies (#[trigger] self.state().1[i]).1
                    < self.state().0.len() by {
                    assert(self.state().1[i] == before.1[i]);
                }
                assert forall|i: int| 0 <= i < self.state().2.len() implies #[trigger] self.state().2[i]
                    < self.state().0.len() by {
                    assert(self.state().2[i] == before.2[i]);
                }
            }
            self.enter(parameters[index].node.identifier.duplicate(), local, parameters[index].span);
            proof {
                let next = parameters@.subrange(0, index + 1);
                assert(next.drop_last() =~= parameters@.subrange(0, index as int));
                assert(next.last() == parameters@[index as int]);
            }
            index += 1;
        }
        assert(parameters@.subrange(0, parameters@.len() as int) =~= parameters@);
        let mut central = self.statements(&function.statements);
        let mut returned = self.expression(&function.return_value);
        let ghost after_return = self.state();
        let ghost central_views = central@;
        let ghost returned_views = returned@;

        proof {
            reveal_strlit("@local ");
            reveal_strlit(" false");
            reveal_strlit(" 0");
            reveal_strlit("~");
            reveal_strlit(" {");
            reveal_strlit("return");
            reveal_strlit("restore ");
            reveal_strlit("drop ");
            reveal_strlit("");
            reveal_strlit("}");
        }
        let sizes = &self.allocation_sizes;
        let mut elements: Vec<Spanned<Element>> = Vec::new();
        let mut index: usize = 0;
        while index < sizes.len()
            invariant
                index <= sizes@.len(),
                element_views(elements@)
                    == Seq::new(index as nat, |i: int| other_view(annotation_text(sizes@[i]), function.span)),
            decreases sizes@.len() - index,
        {
            let size = sizes[index];
            proof {
                reveal_strlit("@local ");
                reveal_strlit(" false");
                reveal_strlit(" 0");
            }
            let mut text = String::from_str("@local ");
            text.append(size.text().as_str());
            match size {
                Size::Boolean => text.append(" false"),
                _ => text.append(" 0"),
            }
            assert(text@ =~= annotation_text(size));
            let element = other(text, function.span);
            let ghost before = elements@;
            elements.push(element);
            proof {
                lemma_views_push(before, element);
                assert(element_views(elements@) =~= Seq::new((index + 1) as nat,
                    |i: int| other_view(annotation_text(sizes@[i]), function.span)));
            }
            index += 1;
        }
        let ghost annotations = elements@;
        let mut header = String::from_str("~");
        header.append(function.identifier.node.0.as_str());
        header.append(" {");
        let opening = other(header, function.identifier.span);
        let back = instruction(Direction::Reverse, Some(Direction::Reverse), String::from_str("return"), function.span);
        elements.push(opening);
        elements.push(back);
        let ghost after_header = elements@;
        let mut restores: Vec<Spanned<Element>> = Vec::new();
        let mut index: usize = 0;
        while index < parameters.len()
            invariant
                index <= parameters@.len(),
                element_views(restores@) == Seq::new(index as nat, |i: int| instruction_view(
                    Direction::Advance,
                    None,
                    seq!['r', 'e', 's', 't', 'o', 'r', 'e', ' '] + decimal(i as nat),
                    parameters@[i].span,
                )),
            decreases parameters@.len() - index,
        {
            let text = numbered_text("restore ", index, "");
            let element = instruction(Direction::Advance, None, text, parameters[index].span);
            let ghost before = restores@;
            restores.push(element);
            proof {
                lemma_views_push(before, element);
                reveal_strlit("");
                reveal_strlit("restore ");
                assert(""@ =~= Seq::<char>::empty());
                assert("restore "@ =~= seq!['r', 'e', 's', 't', 'o', 'r', 'e', ' ']);
                assert(element_views(restores@) =~= Seq::new((index + 1) as nat, |i: int| instruction_view(
                    Direction::Advance,
                    None,
                    seq!['r', 'e', 's', 't', 'o', 'r', 'e', ' '] + decimal(i as nat),
                    parameters@[i].span,
                )));
            }
            index += 1;
        }
        let ghost restore_views = restores@;
        elements.append(&mut restores);
        let ghost before_central = elements@;
        elements.append(&mut central);
        let ghost before_returned = elements@;
        elements.append(&mut returned);
        let ghost before_drops = elements@;
        let return_index = self.pop();
        let table = &self.identifier_table;
        let ghost entries = self.state().1;
        let mut dropped: Vec<Spanned<Element>> = Vec::new();
        let mut index: usize = 0;
        while index < table.len()
            invariant
                index <= table@.len(),
                entries == table@.map_values(|entry: (Identifier, usize, Span)| (entry.0@, entry.1, entry.2)),
                element_views(dropped@) == drops(entries.subrange(0, index as int), return_index),
            decreases table@.len() - index,
        {
            let (local, span) = (table[index].1, table[index].2);
            let ghost before = dropped@;
            let ghost next = entries.subrange(0, index + 1);
            proof {
                assert(next.drop_last() =~= entries.subrange(0, index as int));
                assert(next.last() == entries[index as int]);
            }
            if local != return_index {
                let element = instruction(Direction::Advance, None, numbered_text("drop ", local, ""), span);
                dropped.push(element);
                proof {
                    lemma_views_push(before, element);
                    reveal_strlit("");
                    reveal_strlit("drop ");
                    assert(""@ =~= Seq::<char>::empty());
                    assert("drop "@ =~= seq!['d', 'r', 'o', 'p', ' ']);
                }
            }
            index += 1;
        }
        assert(entries.subrange(0, entries.len() as int) =~= entries);
        let ghost drop_views = dropped@;
        elements.append(&mut dropped);
        let ghost before_end = elements@;
        let last_drop = instruction(Direction::Advance, None, numbered_text("drop ", return_index, ""),
            function.return_value.span);
        let forth = instruction(Direction::Advance, Some(Direction::Advance), String::from_str("return"),
            function.return_value.span);
        let close = other(String::from_str("}"), function.span);
        elements.push(last_drop);
        elements.push(forth);
        elements.push(close);
        proof {
            assert("~"@ =~= seq!['~']);
            assert(" {"@ =~= seq![' ', '{']);
            assert("return"@ =~= seq!['r', 'e', 't', 'u', 'r', 'n']);
            assert("drop "@ =~= seq!['d', 'r', 'o', 'p', ' ']);
            assert(""@ =~= Seq::<char>::empty());
            assert("}"@ =~= seq!['}']);
            assert(element_views(after_header) =~= element_views(annotations)
                + seq![element_view(opening), element_view(back)]);
            lemma_views_add(after_header, restore_views);
            lemma_views_add(before_central, central_views);
            lemma_views_add(before_returned, returned_views);
            lemma_views_add(before_drops, drop_views);
            assert(element_views(elements@) =~= element_views(before_end)
                + seq![element_view(last_drop), element_view(forth), element_view(close)]);
        }
        elements
    }
}

impl Default for Translator {
    /// A translator with no locals, no variables, an empty stack and label zero.
    fn default() -> (translator: Translator)
        ensures
            translator.wf(),
            translator.state() == (Seq::<Size>::empty(), Seq::<Entry>::empty(), Seq::<usize>::empty(), 0nat),
    {
        let translator = Translator {
            allocation_sizes: Vec::new(),
            identifier_table: Vec::new(),
            expression_stack: Vec::new(),
            label_index: 0,
        };
        assert(translator.state().1 =~= Seq::<Entry>::empty());
        translator
    }
}

/// The text `branch.i = <local> true <label>`.
fn branch(local: usize, label: usize) -> (text: String)
    ensures
        text@ == branch_text(local as nat, label as nat),
{
    proof {
        reveal_strlit("branch.i = ");
        reveal_strlit(" true ");
    }
    let mut text = String::from_str("branch.i = ");
    append_number(&mut text, local);
    text.append(" true ");
    append_number(&mut text, label);
    assert(text@ =~= branch_text(local as nat, label as nat));
    text
}

/// `statement_fits` of each statement, from the state that the ones before
/// it leave.
proof fn lemma_statements_fit(statements: Seq<Spanned<Statement>>, state: Translation, index: int)
    requires
        statements_fit(statements, state),
        0 <= index < statements.len(),
    ensures
        statement_fits(statements[index], statements_translation(statements.subrange(0, index), state).1),
    decreases statements.len(),
{
    let shorter = statements.drop_last();
    if index == statements.len() - 1 {
        assert(statements.subrange(0, index) =~= shorter);
    } else {
        lemma_statements_fit(shorter, state, index);
        assert(shorter.subrange(0, index) =~= statements.subrange(0, index));
        assert(shorter[index] == statements[index]);
    }
}

} // verus!
