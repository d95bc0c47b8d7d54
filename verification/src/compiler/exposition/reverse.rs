use vstd::prelude::*;

use crate::node::{
    BinaryOperation, BinaryOperator, Binding, Block, ConditionalLoop, ExplicitDrop, Expression, ExpressionBlock, Function,
    FunctionCall, Identifier, Mutation, Primitive, Size, Statement, VariableTarget, WhenBranch, WhenConditional,
};
use crate::source::{Span, Spanned};

verus! {

/// Whether every conditional in an expression has an end condition on each of
/// its branches, and every loop a start condition. The conditions of a loop
/// are not looked into: the pass leaves them as they are written.
pub open spec fn reversible(expression: Expression) -> bool
    decreases expression,
{
    match expression {
        Expression::BinaryOperation(operation) => reversible(operation.left.node) && reversible(operation.right.node),
        Expression::WhenConditional(when_conditional) => branches_reversible(when_conditional.branches@),
        Expression::ExpressionBlock(expression_block) => block_reversible(expression_block.block.node)
            && reversible(expression_block.expression.node),
        Expression::FunctionCall(function_call) => all_reversible(function_call.arguments@),
        _ => true,
    }
}

/// `reversible` of each expression.
pub open spec fn all_reversible(expressions: Seq<Spanned<Expression>>) -> bool
    decreases expressions,
{
    if expressions.len() == 0 {
        true
    } else {
        all_reversible(expressions.subrange(0, expressions.len() - 1)) && reversible(expressions.last().node)
    }
}

/// `reversible` of the parts of a branch, which has an end condition.
pub open spec fn branch_reversible(branch: WhenBranch) -> bool
    decreases branch,
{
    &&& reversible(branch.condition.node)
    &&& block_reversible(branch.expression_block.node.block.node)
    &&& reversible(branch.expression_block.node.expression.node)
    &&& branch.end_condition matches Some(end_condition) && reversible(end_condition.node)
}

/// `reversible` of the parts of a branch that it has.
pub open spec fn parts_reversible(branch: WhenBranch) -> bool {
    &&& reversible(branch.condition.node)
    &&& block_reversible(branch.expression_block.node.block.node)
    &&& reversible(branch.expression_block.node.expression.node)
    &&& branch.end_condition matches Some(end_condition) ==> reversible(end_condition.node)
}

/// `branch_reversible` of each branch.
pub open spec fn branches_reversible(branches: Seq<WhenBranch>) -> bool
    decreases branches,
{
    if branches.len() == 0 {
        true
    } else {
        branches_reversible(branches.subrange(0, branches.len() - 1)) && branch_reversible(branches.last())
    }
}

/// `reversible` of each statement of a block.
pub open spec fn block_reversible(block: Block) -> bool
    decreases block,
{
    statements_reversible(block.statements@)
}

/// `reversible` of the expressions of a statement; a loop has a start condition.
pub open spec fn statement_reversible(statement: Statement) -> bool
    decreases statement,
{
    match statement {
        Statement::Binding(binding) => reversible(binding.expression.node),
        Statement::Mutation(crate::node::Mutation::Swap(_, _)) => true,
        Statement::Mutation(crate::node::Mutation::AddAssign(_, expression)) => reversible(expression.node),
        Statement::Mutation(crate::node::Mutation::MinusAssign(_, expression)) => reversible(expression.node),
        Statement::Mutation(crate::node::Mutation::MultiplyAssign(_, expression)) => reversible(expression.node),
        Statement::ExplicitDrop(explicit_drop) => reversible(explicit_drop.expression.node),
        Statement::ConditionalLoop(conditional_loop) => conditional_loop.start_condition is Some
            && block_reversible(conditional_loop.block.node),
    }
}

/// `statement_reversible` of each statement.
pub open spec fn statements_reversible(statements: Seq<Spanned<Statement>>) -> bool
    decreases statements,
{
    if statements.len() == 0 {
        true
    } else {
        statements_reversible(statements.subrange(0, statements.len() - 1))
            && statement_reversible(statements.last().node)
    }
}

/// A bound on what the pass counts in an expression: one for each conditional
/// and each of its branches, and one for each loop, outside the conditions of
/// loops. The counters it introduces, and the branches of each conditional,
/// are fewer.
pub open spec fn demand(expression: Expression) -> nat
    decreases expression,
{
    match expression {
        Expression::BinaryOperation(operation) => demand(operation.left.node) + demand(operation.right.node),
        Expression::WhenConditional(when_conditional) => 1 + when_conditional.branches@.len()
            + branches_demand(when_conditional.branches@),
        Expression::ExpressionBlock(expression_block) => block_demand(expression_block.block.node)
            + demand(expression_block.expression.node),
        Expression::FunctionCall(function_call) => all_demand(function_call.arguments@),
        _ => 0,
    }
}

/// `demand` of each expression, summed.
pub open spec fn all_demand(expressions: Seq<Spanned<Expression>>) -> nat
    decreases expressions,
{
    if expressions.len() == 0 {
        0
    } else {
        all_demand(expressions.subrange(0, expressions.len() - 1)) + demand(expressions.last().node)
    }
}

/// `demand` of the parts of a branch, summed.
pub open spec fn branch_demand(branch: WhenBranch) -> nat
    decreases branch,
{
    demand(branch.condition.node) + block_demand(branch.expression_block.node.block.node)
        + demand(branch.expression_block.node.expression.node) + match branch.end_condition {
        Some(end_condition) => demand(end_condition.node),
        None => 0,
    }
}

/// `branch_demand` of each branch, summed.
pub open spec fn branches_demand(branches: Seq<WhenBranch>) -> nat
    decreases branches,
{
    if branches.len() == 0 {
        0
    } else {
        branches_demand(branches.subrange(0, branches.len() - 1)) + branch_demand(branches.last())
    }
}

/// `demand` of the statements of a block, summed.
pub open spec fn block_demand(block: Block) -> nat
    decreases block,
{
    statements_demand(block.statements@)
}

/// `demand` of the expressions of a statement, and one more for a loop.
pub open spec fn statement_demand(statement: Statement) -> nat
    decreases statement,
{
    match statement {
        Statement::Binding(binding) => demand(binding.expression.node),
        Statement::Mutation(crate::node::Mutation::Swap(_, _)) => 0,
        Statement::Mutation(crate::node::Mutation::AddAssign(_, expression)) => demand(expression.node),
        Statement::Mutation(crate::node::Mutation::MinusAssign(_, expression)) => demand(expression.node),
        Statement::Mutation(crate::node::Mutation::MultiplyAssign(_, expression)) => demand(expression.node),
        Statement::ExplicitDrop(explicit_drop) => demand(explicit_drop.expression.node),
        Statement::ConditionalLoop(conditional_loop) => 1 + block_demand(conditional_loop.block.node),
    }
}

/// `statement_demand` of each statement, summed.
pub open spec fn statements_demand(statements: Seq<Spanned<Statement>>) -> nat
    decreases statements,
{
    if statements.len() == 0 {
        0
    } else {
        statements_demand(statements.subrange(0, statements.len() - 1)) + statement_demand(statements.last().node)
    }
}

/// `all_reversible` holds of a sequence exactly when `reversible` holds of each of its expressions.
pub proof fn lemma_all_reversible(expressions: Seq<Spanned<Expression>>)
    ensures
        all_reversible(expressions) <==> forall|i: int| 0 <= i < expressions.len()
            ==> reversible(#[trigger] expressions[i].node),
    decreases expressions.len(),
{
    if expressions.len() > 0 {
        let prefix = expressions.subrange(0, expressions.len() - 1);
        lemma_all_reversible(prefix);
        assert forall|i: int| 0 <= i < prefix.len() implies prefix[i] == expressions[i] by {}
        if forall|i: int| 0 <= i < expressions.len() ==> reversible(#[trigger] expressions[i].node) {
            assert forall|i: int| 0 <= i < prefix.len() implies reversible(#[trigger] prefix[i].node) by {
                assert(reversible(expressions[i].node));
            }
        }
    }
}

/// `branches_reversible` holds of a sequence exactly when `branch_reversible` holds of each branch.
pub proof fn lemma_branches_reversible(branches: Seq<WhenBranch>)
    ensures
        branches_reversible(branches) <==> forall|i: int| 0 <= i < branches.len()
            ==> branch_reversible(#[trigger] branches[i]),
    decreases branches.len(),
{
    if branches.len() > 0 {
        let prefix = branches.subrange(0, branches.len() - 1);
        lemma_branches_reversible(prefix);
        assert forall|i: int| 0 <= i < prefix.len() implies prefix[i] == branches[i] by {}
        if forall|i: int| 0 <= i < branches.len() ==> branch_reversible(#[trigger] branches[i]) {
            assert forall|i: int| 0 <= i < prefix.len() implies branch_reversible(#[trigger] prefix[i]) by {
                assert(branch_reversible(branches[i]));
            }
        }
    }
}

/// `statements_reversible` holds of a sequence exactly when `statement_reversible` holds of each statement.
pub proof fn lemma_statements_reversible(statements: Seq<Spanned<Statement>>)
    ensures
        statements_reversible(statements) <==> forall|i: int| 0 <= i < statements.len()
            ==> statement_reversible(#[trigger] statements[i].node),
    decreases statements.len(),
{
    if statements.len() > 0 {
        let prefix = statements.subrange(0, statements.len() - 1);
        lemma_statements_reversible(prefix);
        assert forall|i: int| 0 <= i < prefix.len() implies prefix[i] == statements[i] by {}
        if forall|i: int| 0 <= i < statements.len() ==> statement_reversible(#[trigger] statements[i].node) {
            assert forall|i: int| 0 <= i < prefix.len() implies statement_reversible(#[trigger] prefix[i].node) by {
                assert(statement_reversible(statements[i].node));
            }
        }
    }
}

proof fn lemma_all_demand_prefix(expressions: Seq<Spanned<Expression>>, count: int)
    requires
        0 <= count <= expressions.len(),
    ensures
        all_demand(expressions.subrange(0, count)) <= all_demand(expressions),
        count < expressions.len() ==> all_demand(expressions.subrange(0, count + 1))
            == all_demand(expressions.subrange(0, count)) + demand(expressions[count].node),
    decreases expressions.len(),
{
    if count < expressions.len() {
        assert(expressions.subrange(0, count + 1).subrange(0, count) =~= expressions.subrange(0, count));
        let prefix = expressions.subrange(0, expressions.len() - 1);
        assert(expressions.subrange(0, count) =~= prefix.subrange(0, count));
        lemma_all_demand_prefix(prefix, count);
    } else {
        assert(expressions.subrange(0, count) =~= expressions);
    }
}

proof fn lemma_branches_demand_prefix(branches: Seq<WhenBranch>, count: int)
    requires
        0 <= count <= branches.len(),
    ensures
        branches_demand(branches.subrange(0, count)) <= branches_demand(branches),
        count < branches.len() ==> branches_demand(branches.subrange(0, count + 1))
            == branches_demand(branches.subrange(0, count)) + branch_demand(branches[count]),
    decreases branches.len(),
{
    if count < branches.len() {
        assert(branches.subrange(0, count + 1).subrange(0, count) =~= branches.subrange(0, count));
        let prefix = branches.subrange(0, branches.len() - 1);
        assert(branches.subrange(0, count) =~= prefix.subrange(0, count));
        lemma_branches_demand_prefix(prefix, count);
    } else {
        assert(branches.subrange(0, count) =~= branches);
    }
}

proof fn lemma_statements_demand_prefix(statements: Seq<Spanned<Statement>>, count: int)
    requires
        0 <= count <= statements.len(),
    ensures
        statements_demand(statements.subrange(0, count)) <= statements_demand(statements),
        count < statements.len() ==> statements_demand(statements.subrange(0, count + 1))
            == statements_demand(statements.subrange(0, count)) + statement_demand(statements[count].node),
    decreases statements.len(),
{
    if count < statements.len() {
        assert(statements.subrange(0, count + 1).subrange(0, count) =~= statements.subrange(0, count));
        let prefix = statements.subrange(0, statements.len() - 1);
        assert(statements.subrange(0, count) =~= prefix.subrange(0, count));
        lemma_statements_demand_prefix(prefix, count);
    } else {
        assert(statements.subrange(0, count) =~= statements);
    }
}

/// The size of the counter of a conditional of `count` branches: the
/// smallest unsigned size whose largest value exceeds the count.
pub open spec fn counter_size(count: nat) -> Size {
    if count < 0xff {
        Size::Unsigned8
    } else if count < 0xffff {
        Size::Unsigned16
    } else if count < 0xffff_ffff {
        Size::Unsigned32
    } else {
        Size::Unsigned64
    }
}

/// A value of a counter of a size.
pub open spec fn counter_value(size: Size, value: nat) -> Primitive {
    match size {
        Size::Unsigned8 => Primitive::Unsigned8(value as u8),
        Size::Unsigned16 => Primitive::Unsigned16(value as u16),
        Size::Unsigned32 => Primitive::Unsigned32(value as u32),
        _ => Primitive::Unsigned64(value as u64),
    }
}

/// An unsigned integer literal, as the interpreter holds one: at 64 bits,
/// whatever the size of the variable it meets.
pub open spec fn literal(value: nat) -> Primitive {
    Primitive::Unsigned64(value as u64)
}

/// The condition that a counter holds a value.
pub open spec fn counter_condition(target: VariableTarget, value: Primitive, span: Span) -> Spanned<Expression> {
    Spanned {
        node: Expression::BinaryOperation(Box::new(BinaryOperation {
            left: Spanned { node: Expression::Variable(target), span },
            right: Spanned { node: Expression::Primitive(value), span },
            operator: Spanned { node: BinaryOperator::Equal, span },
        })),
        span,
    }
}

/// The statement that adds a value to a counter.
pub open spec fn counter_increment(target: VariableTarget, value: Primitive, span: Span) -> Spanned<Statement> {
    Spanned {
        node: Statement::Mutation(Mutation::AddAssign(
            Spanned { node: target, span },
            Spanned { node: Expression::Primitive(value), span },
        )),
        span,
    }
}

/// The binding of a new counter of a size, to zero.
pub open spec fn counter_binding(target: VariableTarget, size: Size, span: Span) -> Spanned<Binding> {
    Spanned {
        node: Binding {
            target: Spanned { node: target, span },
            size: Some(size),
            is_mutable: true,
            expression: Spanned { node: Expression::Primitive(counter_value(size, 0)), span },
        },
        span,
    }
}

/// A counter that the pass introduced: its number, its size, and the span of
/// the conditional or loop that it counts.
pub type Counter = (nat, Size, Span);

/// What the pass holds between parts: the number of counters introduced so
/// far, and the counters whose bindings wait to be placed, the latest last.
pub type Preparation = (nat, Seq<Counter>);

/// The target of the counter of a number, by its view.
pub open spec fn counter_view(number: nat) -> (Seq<char>, nat) {
    (Identifier::temporary_reverse_text(), number)
}

/// Whether an expression is the condition that counter `number` holds `value`.
pub open spec fn is_counter_condition(condition: Spanned<Expression>, number: nat, value: Primitive, span: Span) -> bool {
    &&& condition.span == span
    &&& match condition.node {
        Expression::BinaryOperation(operation) => {
            &&& operation.left.span == span
            &&& operation.left.node matches Expression::Variable(target) && target@ == counter_view(number)
            &&& operation.right == Spanned { node: Expression::Primitive(value), span }
            &&& operation.operator == Spanned { node: BinaryOperator::Equal, span }
        },
        _ => false,
    }
}

/// Whether a statement adds `value` to counter `number`.
pub open spec fn is_counter_increment(statement: Spanned<Statement>, number: nat, value: Primitive, span: Span) -> bool {
    &&& statement.span == span
    &&& match statement.node {
        Statement::Mutation(Mutation::AddAssign(target, expression)) => {
            &&& target.span == span
            &&& target.node@ == counter_view(number)
            &&& expression == Spanned { node: Expression::Primitive(value), span }
        },
        _ => false,
    }
}

/// Whether a binding binds a counter, mutable, to zero of its size.
pub open spec fn is_counter_binding(binding: Spanned<Binding>, counter: Counter) -> bool {
    &&& binding.span == counter.2
    &&& binding.node.target.span == counter.2
    &&& binding.node.target.node@ == counter_view(counter.0)
    &&& binding.node.size == Some(counter.1)
    &&& binding.node.is_mutable
    &&& binding.node.expression == Spanned { node: Expression::Primitive(counter_value(counter.1, 0)), span: counter.2 }
}

/// The counter that a binding of a counter binds.
pub open spec fn counter_of(binding: Spanned<Binding>) -> Counter {
    let size = match binding.node.size {
        Some(size) => size,
        None => Size::Unsigned64,
    };
    (binding.node.target.node.1 as nat, size, binding.span)
}

/// Whether a statement is the binding of a counter.
pub open spec fn places(statement: Spanned<Statement>, counter: Counter) -> bool {
    match statement.node {
        Statement::Binding(binding) => is_counter_binding(Spanned { node: binding, span: statement.span }, counter),
        _ => false,
    }
}

/// Whether statements bind the counters, the latest first.
pub open spec fn placed(statements: Seq<Spanned<Statement>>, counters: Seq<Counter>) -> bool {
    &&& statements.len() == counters.len()
    &&& forall|i: int| 0 <= i < statements.len() ==> places(#[trigger] statements[i], counters[counters.len() - 1 - i])
}

/// What the pass holds after an expression.
pub open spec fn expression_state(expression: Spanned<Expression>, state: Preparation) -> Preparation
    decreases expression,
{
    match expression.node {
        Expression::BinaryOperation(operation) => expression_state(operation.right, expression_state(operation.left, state)),
        Expression::WhenConditional(when_conditional) => {
            let branches = when_conditional.branches@;
            let after = branches_state(branches, state);
            if exists|i: int| 0 <= i < branches.len() && (#[trigger] branches[i]).end_condition is None {
                (after.0 + 1, after.1.push((after.0, counter_size(branches.len()), expression.span)))
            } else {
                after
            }
        },
        Expression::ExpressionBlock(expression_block) => expression_block_state(*expression_block, state),
        Expression::FunctionCall(function_call) => arguments_state(function_call.arguments@, state),
        _ => state,
    }
}

/// What the pass holds after expressions in order.
pub open spec fn arguments_state(arguments: Seq<Spanned<Expression>>, state: Preparation) -> Preparation
    decreases arguments,
{
    if arguments.len() == 0 {
        state
    } else {
        expression_state(arguments.last(), arguments_state(arguments.drop_last(), state))
    }
}

/// What the pass holds after a block and the expression of its value: no
/// counter waits, for all are placed at the end of the block.
pub open spec fn expression_block_state(expression_block: ExpressionBlock, state: Preparation) -> Preparation
    decreases expression_block,
{
    let inner = statements_state(expression_block.block.node.statements@, state);
    (expression_state(expression_block.expression, inner).0, Seq::empty())
}

/// What the pass holds after statements in order: after each, every waiting
/// counter is placed before it.
pub open spec fn statements_state(statements: Seq<Spanned<Statement>>, state: Preparation) -> Preparation
    decreases statements,
{
    if statements.len() == 0 {
        state
    } else {
        (statement_state(statements.last(), statements_state(statements.drop_last(), state)).0, Seq::empty())
    }
}

/// What the pass holds after a statement; a loop without a start condition
/// adds its counter after its block.
pub open spec fn statement_state(statement: Spanned<Statement>, state: Preparation) -> Preparation
    decreases statement,
{
    match statement.node {
        Statement::Binding(binding) => expression_state(binding.expression, state),
        Statement::Mutation(Mutation::Swap(_, _)) => state,
        Statement::Mutation(Mutation::AddAssign(_, expression)) => expression_state(expression, state),
        Statement::Mutation(Mutation::MinusAssign(_, expression)) => expression_state(expression, state),
        Statement::Mutation(Mutation::MultiplyAssign(_, expression)) => expression_state(expression, state),
        Statement::ExplicitDrop(explicit_drop) => expression_state(explicit_drop.expression, state),
        Statement::ConditionalLoop(conditional_loop) => {
            let after = statements_state(conditional_loop.block.node.statements@, state);
            if conditional_loop.start_condition is None {
                (after.0 + 1, after.1.push((after.0, Size::Unsigned64, statement.span)))
            } else {
                after
            }
        },
    }
}

/// What the pass holds after branches in order.
pub open spec fn branches_state(branches: Seq<WhenBranch>, state: Preparation) -> Preparation
    decreases branches,
{
    if branches.len() == 0 {
        state
    } else {
        branch_state(branches.last(), branches_state(branches.drop_last(), state))
    }
}

/// What the pass holds after a branch: its condition, its block, then its end
/// condition if it has one.
pub open spec fn branch_state(branch: WhenBranch, state: Preparation) -> Preparation
    decreases branch,
{
    let after_block = expression_block_state(
        branch.expression_block.node,
        expression_state(branch.condition, state),
    );
    match branch.end_condition {
        Some(end_condition) => expression_state(end_condition, after_block),
        None => after_block,
    }
}

/// Whether a conditional has a branch without an end condition, and so needs a counter.
pub open spec fn needs_counter(branches: Seq<WhenBranch>) -> bool {
    exists|i: int| 0 <= i < branches.len() && (#[trigger] branches[i]).end_condition is None
}

/// Whether `after` is the expression `before` once prepared by the pass
/// from `state`: the same tree, where each conditional and loop that lacks a
/// condition has one on a new counter, and the bindings of counters are
/// placed before the statements that introduced them.
pub open spec fn expression_prepared(before: Spanned<Expression>, after: Spanned<Expression>, state: Preparation) -> bool
    decreases before,
{
    &&& after.span == before.span
    &&& match before.node {
        Expression::BinaryOperation(operation) => match after.node {
            Expression::BinaryOperation(done) => {
                &&& done.operator == operation.operator
                &&& expression_prepared(operation.left, done.left, state)
                &&& expression_prepared(operation.right, done.right, expression_state(operation.left, state))
            },
            _ => false,
        },
        Expression::WhenConditional(when_conditional) => match after.node {
            Expression::WhenConditional(done) => {
                let branches = when_conditional.branches@;
                &&& done.branches@.len() == branches.len()
                &&& branches_prepared(
                    branches,
                    done.branches@,
                    state,
                    needs_counter(branches),
                    branches_state(branches, state).0,
                    before.span,
                )
            },
            _ => false,
        },
        Expression::ExpressionBlock(expression_block) => match after.node {
            Expression::ExpressionBlock(done) => {
                &&& done.block.span == expression_block.block.span
                &&& body_prepared(*expression_block, done.block.node.statements@, done.expression, state)
            },
            _ => false,
        },
        Expression::FunctionCall(function_call) => match after.node {
            Expression::FunctionCall(done) => {
                &&& done.function == function_call.function
                &&& arguments_prepared(function_call.arguments@, done.arguments@, state)
            },
            _ => false,
        },
        _ => after.node == before.node,
    }
}

/// `expression_prepared` of an expression that may be absent.
pub open spec fn optional_prepared(before: Option<Spanned<Expression>>, after: Option<Spanned<Expression>>, state: Preparation)
    -> bool
    decreases before,
{
    match before {
        Some(expression) => match after {
            Some(done) => expression_prepared(expression, done, state),
            None => false,
        },
        None => after is None,
    }
}

/// `expression_prepared` of each expression, from what the ones before it leave.
pub open spec fn arguments_prepared(before: Seq<Spanned<Expression>>, after: Seq<Spanned<Expression>>, state: Preparation)
    -> bool
    decreases before,
{
    if before.len() == 0 {
        after.len() == 0
    } else {
        &&& after.len() == before.len()
        &&& arguments_prepared(before.drop_last(), after.drop_last(), state)
        &&& expression_prepared(before.last(), after.last(), arguments_state(before.drop_last(), state))
    }
}

/// The statements and expression of a prepared block: the prepared
/// statements, then the bindings of every counter still waiting, the latest
/// first; and the prepared expression.
pub open spec fn body_prepared(
    before: ExpressionBlock,
    statements: Seq<Spanned<Statement>>,
    expression: Spanned<Expression>,
    state: Preparation,
) -> bool
    decreases before,
{
    let inner = statements_state(before.block.node.statements@, state);
    let waiting = expression_state(before.expression, inner).1;
    let kept = statements.len() - waiting.len();
    &&& statements.len() >= waiting.len()
    &&& statements_prepared(before.block.node.statements@, statements.subrange(0, kept), state)
    &&& placed(statements.subrange(kept, statements.len() as int), waiting)
    &&& expression_prepared(before.expression, expression, inner)
}

/// Each statement prepared, after the bindings of the counters waiting once
/// it is prepared.
pub open spec fn statements_prepared(before: Seq<Spanned<Statement>>, after: Seq<Spanned<Statement>>, state: Preparation)
    -> bool
    decreases before,
{
    if before.len() == 0 {
        after.len() == 0
    } else {
        let prior = statements_state(before.drop_last(), state);
        let waiting = statement_state(before.last(), prior).1;
        let count = after.len() - 1 - waiting.len();
        &&& after.len() >= 1 + waiting.len()
        &&& statements_prepared(before.drop_last(), after.subrange(0, count), state)
        &&& placed(after.subrange(count, after.len() - 1), waiting)
        &&& statement_prepared(before.last(), after.last(), prior)
    }
}

/// A statement with its expressions prepared; a loop as `loop_prepared`.
pub open spec fn statement_prepared(before: Spanned<Statement>, after: Spanned<Statement>, state: Preparation) -> bool
    decreases before,
{
    &&& after.span == before.span
    &&& match before.node {
        Statement::Binding(binding) => match after.node {
            Statement::Binding(done) => {
                &&& done.target == binding.target
                &&& done.size == binding.size
                &&& done.is_mutable == binding.is_mutable
                &&& expression_prepared(binding.expression, done.expression, state)
            },
            _ => false,
        },
        Statement::Mutation(Mutation::Swap(_, _)) => after.node == before.node,
        Statement::Mutation(Mutation::AddAssign(target, expression)) => match after.node {
            Statement::Mutation(Mutation::AddAssign(done_target, done_expression)) => done_target == target
                && expression_prepared(expression, done_expression, state),
            _ => false,
        },
        Statement::Mutation(Mutation::MinusAssign(target, expression)) => match after.node {
            Statement::Mutation(Mutation::MinusAssign(done_target, done_expression)) => done_target == target
                && expression_prepared(expression, done_expression, state),
            _ => false,
        },
        Statement::Mutation(Mutation::MultiplyAssign(target, expression)) => match after.node {
            Statement::Mutation(Mutation::MultiplyAssign(done_target, done_expression)) => done_target == target
                && expression_prepared(expression, done_expression, state),
            _ => false,
        },
        Statement::ExplicitDrop(explicit_drop) => match after.node {
            Statement::ExplicitDrop(done) => {
                &&& done.target == explicit_drop.target
                &&& expression_prepared(explicit_drop.expression, done.expression, state)
            },
            _ => false,
        },
        Statement::ConditionalLoop(conditional_loop) => match after.node {
            Statement::ConditionalLoop(done) => loop_prepared(conditional_loop, done, before.span, state),
            _ => false,
        },
    }
}

/// A loop with its block prepared. Without a start condition, it gets the
/// condition that its counter holds zero, and its block first adds one to
/// the counter.
pub open spec fn loop_prepared(before: ConditionalLoop, after: ConditionalLoop, span: Span, state: Preparation) -> bool
    decreases before,
{
    let statements = after.block.node.statements@;
    &&& after.end_condition == before.end_condition
    &&& after.block.span == before.block.span
    &&& match before.start_condition {
        Some(start_condition) => {
            &&& after.start_condition == Some(start_condition)
            &&& statements_prepared(before.block.node.statements@, statements, state)
        },
        None => {
            let number = statements_state(before.block.node.statements@, state).0;
            &&& after.start_condition matches Some(condition)
                && is_counter_condition(condition, number, Primitive::Unsigned64(0), span)
            &&& statements.len() >= 1
            &&& is_counter_increment(statements[0], number, Primitive::Unsigned64(1), span)
            &&& statements_prepared(before.block.node.statements@, statements.subrange(1, statements.len() as int), state)
        },
    }
}

/// `branch_prepared` of each branch, from what the ones before it leave;
/// branch `i` gets the value `i + 1`.
pub open spec fn branches_prepared(
    before: Seq<WhenBranch>,
    after: Seq<WhenBranch>,
    state: Preparation,
    countered: bool,
    number: nat,
    span: Span,
) -> bool
    decreases before,
{
    if before.len() == 0 {
        after.len() == 0
    } else {
        &&& after.len() == before.len()
        &&& branches_prepared(before.drop_last(), after.drop_last(), state, countered, number, span)
        &&& branch_prepared(
            before.last(),
            after.last(),
            branches_state(before.drop_last(), state),
            countered,
            number,
            literal(before.len()),
            span,
        )
    }
}

/// A branch with its condition and block prepared. In a conditional that
/// gets counter `number`, the block first adds `value` to the counter, and
/// the end condition becomes that the counter holds `value`; otherwise the
/// end condition is prepared.
pub open spec fn branch_prepared(
    before: WhenBranch,
    after: WhenBranch,
    state: Preparation,
    countered: bool,
    number: nat,
    value: Primitive,
    span: Span,
) -> bool
    decreases before,
{
    let after_condition = expression_state(before.condition, state);
    let after_block = expression_block_state(before.expression_block.node, after_condition);
    let statements = after.expression_block.node.block.node.statements@;
    &&& expression_prepared(before.condition, after.condition, state)
    &&& after.expression_block.span == before.expression_block.span
    &&& after.expression_block.node.block.span == before.expression_block.node.block.span
    &&& if countered {
        &&& statements.len() >= 1
        &&& is_counter_increment(statements[0], number, value, span)
        &&& body_prepared(
            before.expression_block.node,
            statements.subrange(1, statements.len() as int),
            after.expression_block.node.expression,
            after_condition,
        )
        &&& after.end_condition matches Some(condition) && is_counter_condition(condition, number, value, span)
    } else {
        &&& body_prepared(before.expression_block.node, statements, after.expression_block.node.expression, after_condition)
        &&& optional_prepared(before.end_condition, after.end_condition, after_block)
    }
}

/// What the pass holds after a conditional: a conditional that has a branch
/// without an end condition adds its counter after its branches.
pub open spec fn conditional_state(branches: Seq<WhenBranch>, span: Span, state: Preparation) -> Preparation {
    let after = branches_state(branches, state);
    if needs_counter(branches) {
        (after.0 + 1, after.1.push((after.0, counter_size(branches.len()), span)))
    } else {
        after
    }
}

/// A conditional with its branches prepared: see `branches_prepared`.
pub open spec fn conditional_prepared(before: Seq<WhenBranch>, after: Seq<WhenBranch>, span: Span, state: Preparation) -> bool {
    &&& after.len() == before.len()
    &&& branches_prepared(
        before,
        after,
        state,
        needs_counter(before),
        branches_state(before, state).0,
        span,
    )
}

/// A block of a value once prepared: see `body_prepared`.
pub open spec fn expression_block_prepared(before: ExpressionBlock, after: ExpressionBlock, state: Preparation) -> bool {
    &&& after.block.span == before.block.span
    &&& body_prepared(before, after.block.node.statements@, after.expression, state)
}

/// The value that a condition on a counter tests it against.
pub open spec fn tested_value(condition: Spanned<Expression>) -> Option<Primitive> {
    match condition.node {
        Expression::BinaryOperation(operation) => match operation.right.node {
            Expression::Primitive(value) => Some(value),
            _ => None,
        },
        _ => None,
    }
}

/// The value that an addition to a variable adds.
pub open spec fn added_value(statement: Spanned<Statement>) -> Option<Primitive> {
    match statement.node {
        Statement::Mutation(Mutation::AddAssign(_, expression)) => match expression.node {
            Expression::Primitive(value) => Some(value),
            _ => None,
        },
        _ => None,
    }
}

/// The target that a condition on a counter tests.
pub open spec fn tested_target(condition: Spanned<Expression>) -> Option<(Seq<char>, nat)> {
    match condition.node {
        Expression::BinaryOperation(operation) => match operation.left.node {
            Expression::Variable(target) => Some(target@),
            _ => None,
        },
        _ => None,
    }
}

/// The target that an addition adds to.
pub open spec fn added_target(statement: Spanned<Statement>) -> Option<(Seq<char>, nat)> {
    match statement.node {
        Statement::Mutation(Mutation::AddAssign(target, _)) => Some(target.node@),
        _ => None,
    }
}

/// `branch_prepared` of each branch, from `branches_prepared`.
proof fn lemma_branches_prepared_each(
    before: Seq<WhenBranch>,
    after: Seq<WhenBranch>,
    state: Preparation,
    countered: bool,
    number: nat,
    span: Span,
    index: int,
)
    requires
        branches_prepared(before, after, state, countered, number, span),
        0 <= index < before.len(),
    ensures
        after.len() == before.len(),
        branch_prepared(
            before[index],
            after[index],
            branches_state(before.subrange(0, index), state),
            countered,
            number,
            literal((index + 1) as nat),
            span,
        ),
    decreases before.len(),
{
    let shorter = before.drop_last();
    if index == before.len() - 1 {
        assert(before.subrange(0, index) =~= shorter);
    } else {
        lemma_branches_prepared_each(shorter, after.drop_last(), state, countered, number, span, index);
        assert(shorter.subrange(0, index) =~= before.subrange(0, index));
        assert(shorter[index] == before[index]);
        assert(after.drop_last()[index] == after[index]);
    }
}

/// In a conditional that the pass gives a counter, every branch's block
/// starts by adding a value to the counter, and the branch's end condition
/// tests the counter against that same value; the values of two branches
/// differ, so after the conditional exactly one end condition holds.
pub proof fn lemma_branch_values(
    before: Seq<WhenBranch>,
    after: Seq<WhenBranch>,
    span: Span,
    state: Preparation,
    first: int,
    second: int,
)
    requires
        conditional_prepared(before, after, span, state),
        needs_counter(before),
        before.len() < u64::MAX,
        0 <= first < before.len(),
        0 <= second < before.len(),
        first != second,
    ensures
        ({
            let increment = after[first].expression_block.node.block.node.statements@[0];
            let other = after[second].expression_block.node.block.node.statements@[0];
            &&& after[first].end_condition matches Some(condition)
                && tested_value(condition) is Some
                && tested_value(condition) == added_value(increment)
                && tested_target(condition) is Some
                && tested_target(condition) == added_target(increment)
                && tested_target(condition) == added_target(other)
            &&& added_value(increment) != added_value(other)
        }),
{
    let number = branches_state(before, state).0;
    lemma_branches_prepared_each(before, after, state, true, number, span, first);
    lemma_branches_prepared_each(before, after, state, true, number, span, second);
    assert(literal((first + 1) as nat) != literal((second + 1) as nat));
}

/// `branches_prepared` holds where `branch_prepared` holds of each branch.
proof fn lemma_branches_prepared(
    before: Seq<WhenBranch>,
    after: Seq<WhenBranch>,
    state: Preparation,
    countered: bool,
    number: nat,
    span: Span,
)
    requires
        after.len() == before.len(),
        forall|i: int| 0 <= i < before.len() ==> branch_prepared(
            before[i],
            #[trigger] after[i],
            branches_state(before.subrange(0, i), state),
            countered,
            number,
            literal((i + 1) as nat),
            span,
        ),
    ensures
        branches_prepared(before, after, state, countered, number, span),
    decreases before.len(),
{
    if before.len() > 0 {
        let shorter = before.drop_last();
        let fewer = after.drop_last();
        assert forall|i: int| 0 <= i < shorter.len() implies branch_prepared(
            shorter[i],
            #[trigger] fewer[i],
            branches_state(shorter.subrange(0, i), state),
            countered,
            number,
            literal((i + 1) as nat),
            span,
        ) by {
            assert(shorter.subrange(0, i) =~= before.subrange(0, i));
            assert(fewer[i] == after[i]);
        }
        lemma_branches_prepared(shorter, fewer, state, countered, number, span);
        let last = before.len() - 1;
        assert(before.subrange(0, last) =~= shorter);
        assert(after[last] == after.last());
    }
}

proof fn lemma_counter_condition(target: VariableTarget, value: Primitive, span: Span)
    ensures
        reversible(counter_condition(target, value, span).node),
{
    assert(reversible(Expression::Variable(target)));
    assert(reversible(Expression::Primitive(value)));
}

fn make_counter_size(count: usize) -> (size: Size)
    requires
        count < u64::MAX,
    ensures
        size == counter_size(count as nat),
{
    if count < 0xff {
        Size::Unsigned8
    } else if count < 0xffff {
        Size::Unsigned16
    } else if count < 0xffff_ffff {
        Size::Unsigned32
    } else {
        Size::Unsigned64
    }
}

fn make_counter_value(size: Size, value: u64) -> (primitive: Primitive)
    requires
        size == Size::Unsigned8 ==> value <= u8::MAX,
        size == Size::Unsigned16 ==> value <= u16::MAX,
        size == Size::Unsigned32 ==> value <= u32::MAX,
    ensures
        primitive == counter_value(size, value as nat),
{
    match size {
        Size::Unsigned8 => Primitive::Unsigned8(value as u8),
        Size::Unsigned16 => Primitive::Unsigned16(value as u16),
        Size::Unsigned32 => Primitive::Unsigned32(value as u32),
        _ => Primitive::Unsigned64(value),
    }
}

fn make_counter_condition(target: VariableTarget, value: Primitive, span: Span) -> (condition: Spanned<Expression>)
    ensures
        condition == counter_condition(target, value, span),
{
    Spanned::new(Expression::BinaryOperation(Box::new(BinaryOperation {
        left: Spanned::new(Expression::Variable(target), span),
        right: Spanned::new(Expression::Primitive(value), span),
        operator: Spanned::new(BinaryOperator::Equal, span),
    })), span)
}

fn make_counter_increment(target: VariableTarget, value: Primitive, span: Span) -> (increment: Spanned<Statement>)
    ensures
        increment == counter_increment(target, value, span),
{
    Spanned::new(Statement::Mutation(Mutation::AddAssign(
        Spanned::new(target, span),
        Spanned::new(Expression::Primitive(value), span),
    )), span)
}

fn make_counter_binding(target: VariableTarget, size: Size, span: Span) -> (binding: Spanned<Binding>)
    requires
        size == Size::Unsigned8 || size == Size::Unsigned16 || size == Size::Unsigned32 || size == Size::Unsigned64,
    ensures
        binding == counter_binding(target, size, span),
{
    let zero = make_counter_value(size, 0);
    Spanned::new(Binding {
        target: Spanned::new(target, span),
        size: Some(size),
        is_mutable: true,
        expression: Spanned::new(Expression::Primitive(zero), span),
    }, span)
}

/// Adds the conditions that reversal needs where a program leaves them out: a
/// counter for each conditional some branch of which has no end condition,
/// and for each loop without a start condition. The bindings of the counters
/// wait on a stack until the statement they belong before is done.
#[derive(Debug)]
pub struct ReverseExposition {
    binding_stack: Vec<Spanned<Binding>>,
    next_temporary: usize,
}

impl ReverseExposition {
    /// The bindings of counters not yet placed, the latest last.
    pub closed spec fn bindings(&self) -> Seq<Spanned<Binding>> {
        self.binding_stack@
    }

    /// The number of counters introduced in the current function.
    pub closed spec fn temporaries(&self) -> nat {
        self.next_temporary as nat
    }

    /// Whether every waiting binding binds a counter, with a `reversible` expression.
    pub open spec fn wf(&self) -> bool {
        &&& forall|i: int| 0 <= i < self.bindings().len() ==> reversible(#[trigger] self.bindings()[i].node.expression.node)
        &&& forall|i: int| 0 <= i < self.bindings().len()
            ==> is_counter_binding(#[trigger] self.bindings()[i], counter_of(self.bindings()[i]))
    }

    /// The counters whose bindings wait, the latest last.
    pub open spec fn pending(&self) -> Seq<Counter> {
        self.bindings().map_values(|binding: Spanned<Binding>| counter_of(binding))
    }

    /// What the pass holds: the counters introduced so far, and those waiting.
    pub open spec fn state(&self) -> Preparation {
        (self.temporaries(), self.pending())
    }

    /// The next counter: the identifier of reversal temporaries, with the
    /// number of counters so far as its generation.
    pub fn next_target(&mut self) -> (target: VariableTarget)
        requires
            old(self).temporaries() < usize::MAX,
        ensures
            target@ == (Identifier::temporary_reverse_text(), old(self).temporaries()),
            final(self).temporaries() == old(self).temporaries() + 1,
            final(self).bindings() == old(self).bindings(),
    {
        self.next_temporary += 1;
        VariableTarget(Identifier::temporary_reverse(), self.next_temporary - 1)
    }

    /// Takes every waiting binding, as statements, the latest first.
    pub fn pop_bindings(&mut self) -> (statements: Vec<Spanned<Statement>>)
        requires
            old(self).wf(),
        ensures
            statements@.len() == old(self).bindings().len(),
            forall|i: int| 0 <= i < statements@.len() ==> #[trigger] statements@[i] == ({
                let binding = old(self).bindings()[old(self).bindings().len() - 1 - i];
                Spanned { node: Statement::Binding(binding.node), span: binding.span }
            }),
            statements_reversible(statements@),
            placed(statements@, old(self).pending()),
            final(self).bindings().len() == 0,
            final(self).temporaries() == old(self).temporaries(),
            final(self).wf(),
    {
        let ghost bindings = self.binding_stack@;
        let mut statements: Vec<Spanned<Statement>> = Vec::new();
        while self.binding_stack.len() > 0
            invariant
                self.binding_stack@ == bindings.subrange(0, self.binding_stack@.len() as int),
                statements@.len() + self.binding_stack@.len() == bindings.len(),
                forall|i: int| 0 <= i < statements@.len() ==> #[trigger] statements@[i] == ({
                    let binding = bindings[bindings.len() - 1 - i];
                    Spanned { node: Statement::Binding(binding.node), span: binding.span }
                }),
                forall|i: int| 0 <= i < bindings.len() ==> reversible(#[trigger] bindings[i].node.expression.node),
                statements_reversible(statements@),
                self.next_temporary == old(self).next_temporary,
            decreases self.binding_stack@.len(),
        {
            let binding = self.binding_stack.pop().unwrap();
            let ghost before = statements@;
            assert(binding == bindings[self.binding_stack@.len() as int]);
            assert(reversible(bindings[self.binding_stack@.len() as int].node.expression.node));
            let span = binding.span;
            statements.push(Spanned::new(Statement::Binding(binding.node), span));
            assert(statements@.subrange(0, statements@.len() - 1) =~= before);
            assert(statement_reversible(statements@.last().node));
            assert(statements_reversible(before));
        }
        statements
    }

    /// Prepares the body of a function. Its counters are numbered from zero.
    pub fn function(&mut self, function: Function) -> (result: Function)
        requires
            old(self).wf(),
            block_demand(function.expression_block.node.block.node)
                + demand(function.expression_block.node.expression.node) <= usize::MAX,
        ensures
            block_reversible(function.expression_block.node.block.node)
                && reversible(function.expression_block.node.expression.node) ==> final(self).temporaries() == 0,
            final(self).wf(),
            final(self).bindings().len() == 0,
            block_reversible(result.expression_block.node.block.node),
            reversible(result.expression_block.node.expression.node),
            result.identifier == function.identifier,
            result.parameters == function.parameters,
            result.return_span == function.return_span,
            result.span == function.span,
            result.expression_block.span == function.expression_block.span,
            final(self).state() == expression_block_state(function.expression_block.node, (0nat, old(self).pending())),
            expression_block_prepared(function.expression_block.node, result.expression_block.node, (0nat, old(self).pending())),
            final(self).temporaries() <= block_demand(function.expression_block.node.block.node)
                + demand(function.expression_block.node.expression.node),
    {
        self.next_temporary = 0;
        let Function { identifier, parameters, return_span, expression_block, span } = function;
        let expression_block = self.expression_block(expression_block);
        Function { identifier, parameters, return_span, expression_block, span }
    }

    /// Prepares the parts of an expression.
    pub fn expression(&mut self, expression: Spanned<Expression>) -> (result: Spanned<Expression>)
        requires
            old(self).wf(),
            old(self).temporaries() + demand(expression.node) <= usize::MAX,
        ensures
            reversible(expression.node) ==> final(self).temporaries() == old(self).temporaries(),
            final(self).wf(),
            reversible(result.node),
            result.span == expression.span,
            final(self).state() == expression_state(expression, old(self).state()),
            expression_prepared(expression, result, old(self).state()),
            old(self).temporaries() <= final(self).temporaries() <= old(self).temporaries() + demand(expression.node),
        decreases expression.node,
    {
        let span = expression.span;
        match expression.node {
            Expression::BinaryOperation(operation) => {
                let BinaryOperation { left, right, operator } = *operation;
                let left = self.expression(left);
                let right = self.expression(right);
                Spanned::new(Expression::BinaryOperation(Box::new(BinaryOperation { left, right, operator })), span)
            },
            Expression::WhenConditional(when_conditional) => {
                let when_conditional = self.when_conditional(Spanned::new(*when_conditional, span));
                Spanned::new(Expression::WhenConditional(Box::new(when_conditional.node)), span)
            },
            Expression::ExpressionBlock(expression_block) => {
                let expression_block = self.expression_block(Spanned::new(*expression_block, span));
                Spanned::new(Expression::ExpressionBlock(Box::new(expression_block.node)), span)
            },
            Expression::FunctionCall(function_call) => {
                let function_call = self.function_call(Spanned::new(*function_call, span));
                Spanned::new(Expression::FunctionCall(Box::new(function_call.node)), span)
            },
            other => Spanned::new(other, span),
        }
    }

    /// Prepares the arguments of a call, in order.
    pub fn function_call(&mut self, function_call: Spanned<FunctionCall>) -> (result: Spanned<FunctionCall>)
        requires
            old(self).wf(),
            old(self).temporaries() + all_demand(function_call.node.arguments@) <= usize::MAX,
        ensures
            all_reversible(function_call.node.arguments@) ==> final(self).temporaries() == old(self).temporaries(),
            final(self).wf(),
            all_reversible(result.node.arguments@),
            result.span == function_call.span,
            result.node.function == function_call.node.function,
            result.node.arguments@.len() == function_call.node.arguments@.len(),
            final(self).state() == arguments_state(function_call.node.arguments@, old(self).state()),
            arguments_prepared(function_call.node.arguments@, result.node.arguments@, old(self).state()),
            old(self).temporaries() <= final(self).temporaries()
                <= old(self).temporaries() + all_demand(function_call.node.arguments@),
        decreases function_call.node,
    {
        let span = function_call.span;
        let FunctionCall { function, arguments } = function_call.node;
        let ghost given = arguments@;
        let ghost start = self.temporaries();
        let mut remaining = arguments;
        crate::sequence::reverse_in_place(&mut remaining);
        let mut processed: Vec<Spanned<Expression>> = Vec::new();
        let ghost initial = self.state();
        while remaining.len() > 0
            invariant
                initial == old(self).state(),
                self.state() == arguments_state(given.subrange(0, processed@.len() as int), initial),
                arguments_prepared(given.subrange(0, processed@.len() as int), processed@, initial),
                all_reversible(given) ==> self.temporaries() == start,
                given == function_call.node.arguments@,
                remaining@.len() + processed@.len() == given.len(),
                forall|i: int| 0 <= i < remaining@.len() ==> #[trigger] remaining@[i] == given[given.len() - 1 - i],
                all_reversible(processed@),
                self.wf(),
                start + all_demand(given) <= usize::MAX,
                start <= self.temporaries() <= start + all_demand(given.subrange(0, processed@.len() as int)),
            decreases remaining@.len(),
        {
            proof {
                lemma_all_reversible(given);
            }
            let argument = remaining.pop().unwrap();
            let ghost count = processed@.len() as int;
            assert(argument == given[count]);
            proof {
                lemma_all_demand_prefix(given, count);
                lemma_all_demand_prefix(given, count + 1);
            }
            let argument = self.expression(argument);
            let ghost before = processed@;
            processed.push(argument);
            assert(processed@.subrange(0, count) =~= before);
            proof {
                let next = given.subrange(0, count + 1);
                assert(next.drop_last() =~= given.subrange(0, count));
                assert(processed@.drop_last() =~= before);
            }
        }
        assert(given.subrange(0, given.len() as int) =~= given);
        Spanned::new(FunctionCall { function, arguments: processed }, span)
    }

    /// Prepares the conditions and blocks of the branches of a conditional. If
    /// a branch has no end condition, the conditional gets a counter of the
    /// smallest size above the number of branches: bound to zero before the
    /// conditional, raised by `i + 1` at the start of branch `i`, whose end
    /// condition becomes that the counter holds `i + 1`; the end conditions of
    /// every branch are replaced. The zero it is bound to has the counter's
    /// size; `i + 1` is an unsigned literal (see `literal`).
    pub fn when_conditional(&mut self, when_conditional: Spanned<WhenConditional>) -> (result: Spanned<WhenConditional>)
        requires
            old(self).wf(),
            old(self).temporaries() + 1 + when_conditional.node.branches@.len()
                + branches_demand(when_conditional.node.branches@) <= usize::MAX,
        ensures
            branches_reversible(when_conditional.node.branches@) ==> final(self).temporaries() == old(self).temporaries(),
            final(self).wf(),
            result.span == when_conditional.span,
            result.node.branches@.len() == when_conditional.node.branches@.len(),
            branches_reversible(result.node.branches@),
            final(self).state() == conditional_state(when_conditional.node.branches@, when_conditional.span, old(self).state()),
            conditional_prepared(when_conditional.node.branches@, result.node.branches@, when_conditional.span, old(self).state()),
            (exists|i: int| 0 <= i < when_conditional.node.branches@.len()
                && (#[trigger] when_conditional.node.branches@[i]).end_condition is None) ==> exists|target: VariableTarget| {
                let count = when_conditional.node.branches@.len();
                let size = counter_size(count);
                &&& #[trigger] target@ == (Identifier::temporary_reverse_text(), (final(self).temporaries() - 1) as nat)
                &&& forall|i: int| 0 <= i < count ==> {
                    &&& (#[trigger] result.node.branches@[i]).end_condition
                        == Some(counter_condition(target, literal((i + 1) as nat), when_conditional.span))
                    &&& result.node.branches@[i].expression_block.node.block.node.statements@[0]
                        == counter_increment(target, literal((i + 1) as nat), when_conditional.span)
                }
                &&& final(self).bindings().last() == counter_binding(target, size, when_conditional.span)
            },
            old(self).temporaries() <= final(self).temporaries()
                <= old(self).temporaries() + 1 + branches_demand(when_conditional.node.branches@),
        decreases when_conditional.node,
    {
        let span = when_conditional.span;
        let ghost given = when_conditional.node.branches@;
        let ghost start = self.temporaries();
        let mut remaining = when_conditional.node.branches;
        crate::sequence::reverse_in_place(&mut remaining);
        let mut branches: Vec<WhenBranch> = Vec::new();
        let mut irreversible = false;
        let ghost initial = self.state();
        while remaining.len() > 0
            invariant
                initial == old(self).state(),
                self.state() == branches_state(given.subrange(0, branches@.len() as int), initial),
                forall|i: int| 0 <= i < branches@.len() ==> branch_prepared(
                    given[i],
                    #[trigger] branches@[i],
                    branches_state(given.subrange(0, i), initial),
                    false,
                    0,
                    Primitive::Unsigned64(0),
                    span,
                ),
                branches_reversible(given) ==> self.temporaries() == start,
                given == when_conditional.node.branches@,
                remaining@.len() + branches@.len() == given.len(),
                forall|i: int| 0 <= i < remaining@.len() ==> #[trigger] remaining@[i] == given[given.len() - 1 - i],
                forall|i: int| 0 <= i < branches@.len() ==> parts_reversible(#[trigger] branches@[i]),
                forall|i: int| 0 <= i < branches@.len() ==>
                    ((#[trigger] branches@[i]).end_condition is None <==> given[i].end_condition is None),
                irreversible <==> exists|i: int| 0 <= i < branches@.len() && (#[trigger] given[i]).end_condition is None,
                self.wf(),
                start == old(self).temporaries(),
                start + 1 + branches_demand(given) <= usize::MAX,
                start <= self.temporaries() <= start + branches_demand(given.subrange(0, branches@.len() as int)),
            decreases remaining@.len(),
        {
            proof {
                lemma_branches_reversible(given);
            }
            let branch = remaining.pop().unwrap();
            let ghost count = branches@.len() as int;
            assert(branch == given[count]);
            proof {
                lemma_branches_demand_prefix(given, count);
                lemma_branches_demand_prefix(given, count + 1);
            }
            let ghost prior = self.state();
            let WhenBranch { condition, expression_block, end_condition } = branch;
            let condition = self.expression(condition);
            let expression_block = self.expression_block(expression_block);
            let end_condition = match end_condition {
                Some(end_condition) => Some(self.expression(end_condition)),
                None => {
                    irreversible = true;
                    None
                },
            };
            let ghost previous = branches@;
            branches.push(WhenBranch { condition, expression_block, end_condition });
            assert(branches@[count] == WhenBranch { condition, expression_block, end_condition });
            assert(parts_reversible(branches@[count]));
            proof {
                let next = given.subrange(0, count + 1);
                assert(next.drop_last() =~= given.subrange(0, count));
                assert(prior == branches_state(given.subrange(0, count), initial));
                assert(self.state() == branch_state(given[count], prior));
                assert(next.last() == given[count]);
                assert(branches_state(next, initial) == branch_state(given[count], prior));
                assert(branch_prepared(given[count], branches@[count], prior, false, 0, Primitive::Unsigned64(0), span));
                assert forall|i: int| 0 <= i < count implies #[trigger] branches@[i] == previous[i] by {}
            }
        }
        assert(given.subrange(0, given.len() as int) =~= given);
        proof {
            lemma_branches_reversible(given);
            if branches_reversible(given) && irreversible {
                let i = choose|i: int| 0 <= i < branches@.len() && (#[trigger] given[i]).end_condition is None;
                assert(branch_reversible(given[i]));
            }
        }

        if !irreversible {
            proof {
                lemma_branches_reversible(branches@);
                assert forall|i: int| 0 <= i < branches@.len() implies branch_reversible(#[trigger] branches@[i]) by {
                    assert(parts_reversible(branches@[i]));
                    if branches@[i].end_condition is None {
                        assert(given[i].end_condition is None);
                    }
                }
                let total = branches_state(given, initial).0;
                assert forall|i: int| 0 <= i < given.len() implies branch_prepared(
                    given[i],
                    #[trigger] branches@[i],
                    branches_state(given.subrange(0, i), initial),
                    false,
                    total,
                    literal((i + 1) as nat),
                    span,
                ) by {
                    assert(branch_prepared(
                        given[i],
                        branches@[i],
                        branches_state(given.subrange(0, i), initial),
                        false,
                        0,
                        Primitive::Unsigned64(0),
                        span,
                    ));
                }
                lemma_branches_prepared(given, branches@, initial, false, total, span);
                assert(!needs_counter(given));
            }
            return Spanned::new(WhenConditional { branches }, span);
        }

        let count = branches.len();
        assert(count < u64::MAX);
        let size = make_counter_size(count);
        let ghost number = self.temporaries();
        let target = self.next_target();
        let ghost prepared = branches@;
        let mut remaining = branches;
        crate::sequence::reverse_in_place(&mut remaining);
        let mut countered: Vec<WhenBranch> = Vec::new();
        let mut index: usize = 0;
        while remaining.len() > 0
            invariant
                count == prepared.len(),
                count < u64::MAX,
                size == counter_size(count as nat),
                index == countered@.len(),
                remaining@.len() + index == count,
                forall|i: int| 0 <= i < remaining@.len() ==> #[trigger] remaining@[i] == prepared[count - 1 - i],
                forall|i: int| 0 <= i < prepared.len() ==> parts_reversible(#[trigger] prepared[i]),
                given.len() == count,
                target@ == counter_view(number),
                forall|i: int| 0 <= i < count ==> branch_prepared(
                    given[i],
                    #[trigger] prepared[i],
                    branches_state(given.subrange(0, i), initial),
                    false,
                    0,
                    Primitive::Unsigned64(0),
                    span,
                ),
                forall|i: int| 0 <= i < index ==> branch_prepared(
                    given[i],
                    #[trigger] countered@[i],
                    branches_state(given.subrange(0, i), initial),
                    true,
                    number,
                    literal((i + 1) as nat),
                    span,
                ),
                forall|i: int| 0 <= i < index ==> {
                    &&& branch_reversible(#[trigger] countered@[i])
                    &&& countered@[i].end_condition
                        == Some(counter_condition(target, literal((i + 1) as nat), span))
                    &&& countered@[i].expression_block.node.block.node.statements@[0]
                        == counter_increment(target, literal((i + 1) as nat), span)
                },
            decreases remaining@.len(),
        {
            let branch = remaining.pop().unwrap();
            assert(branch == prepared[index as int]);
            assert(parts_reversible(branch));
            let WhenBranch { condition, expression_block, end_condition: _ } = branch;
            let block_span = expression_block.span;
            let ExpressionBlock { block, expression } = expression_block.node;
            let statements_span = block.span;
            let value = Primitive::Unsigned64(index as u64 + 1);
            let mut statements = block.node.statements;
            let ghost before = statements@;
            let increment = make_counter_increment(target.duplicate(), value, span);
            assert(statement_reversible(increment.node));
            statements.insert(0, increment);
            proof {
                lemma_statements_reversible(before);
                lemma_statements_reversible(statements@);
                assert forall|i: int| 0 <= i < statements@.len() implies statement_reversible(#[trigger] statements@[i].node) by {
                    if i > 0 {
                        assert(statements@[i] == before[i - 1]);
                    }
                }
            }
            let end_condition = make_counter_condition(target.duplicate(), value, span);
            proof {
                lemma_counter_condition(target, value, span);
            }
            let expression_block = Spanned::new(
                ExpressionBlock { block: Spanned::new(Block { statements }, statements_span), expression },
                block_span,
            );
            let ghost previous = countered@;
            countered.push(WhenBranch { condition, expression_block, end_condition: Some(end_condition) });
            assert(branch_reversible(countered@[index as int]));
            proof {
                let done = countered@[index as int];
                let done_statements = done.expression_block.node.block.node.statements@;
                assert(done_statements.subrange(1, done_statements.len() as int) =~= before);
                assert(is_counter_increment(done_statements[0], number, value, span));
                assert(is_counter_condition(end_condition, number, value, span));
                assert(branch_prepared(
                    given[index as int],
                    prepared[index as int],
                    branches_state(given.subrange(0, index as int), initial),
                    false,
                    0,
                    Primitive::Unsigned64(0),
                    span,
                ));
                assert(branch_prepared(
                    given[index as int],
                    done,
                    branches_state(given.subrange(0, index as int), initial),
                    true,
                    number,
                    literal((index + 1) as nat),
                    span,
                ));
                assert forall|i: int| 0 <= i < index implies #[trigger] countered@[i] == previous[i] by {}
            }
            index += 1;
        }

        let binding = make_counter_binding(target.duplicate(), size, span);
        self.binding_stack.push(binding);
        proof {
            lemma_branches_reversible(countered@);
            assert(target@ == (Identifier::temporary_reverse_text(), (self.temporaries() - 1) as nat));
            lemma_branches_prepared(given, countered@, initial, true, number, span);
            assert(needs_counter(given));
        }
        Spanned::new(WhenConditional { branches: countered }, span)
    }

    /// Prepares the block, then the expression; the bindings of all counters
    /// still waiting are placed at the end of the block.
    pub fn expression_block(&mut self, expression_block: Spanned<ExpressionBlock>) -> (result: Spanned<ExpressionBlock>)
        requires
            old(self).wf(),
            old(self).temporaries() + block_demand(expression_block.node.block.node)
                + demand(expression_block.node.expression.node) <= usize::MAX,
        ensures
            block_reversible(expression_block.node.block.node) && reversible(expression_block.node.expression.node)
                ==> final(self).temporaries() == old(self).temporaries(),
            final(self).wf(),
            final(self).bindings().len() == 0,
            block_reversible(result.node.block.node),
            reversible(result.node.expression.node),
            result.span == expression_block.span,
            result.node.block.span == expression_block.node.block.span,
            final(self).state() == expression_block_state(expression_block.node, old(self).state()),
            expression_block_prepared(expression_block.node, result.node, old(self).state()),
            old(self).temporaries() <= final(self).temporaries() <= old(self).temporaries()
                + block_demand(expression_block.node.block.node) + demand(expression_block.node.expression.node),
        decreases expression_block.node,
    {
        let span = expression_block.span;
        let ExpressionBlock { block, expression } = expression_block.node;
        let block = self.block(block);
        let expression = self.expression(expression);
        let block_span = block.span;
        let mut statements = block.node.statements;
        let ghost waiting = self.pending();
        let mut bindings = self.pop_bindings();
        let ghost before = statements@;
        let ghost popped = bindings@;
        statements.append(&mut bindings);
        proof {
            assert(self.pending() =~= Seq::<Counter>::empty());
            assert(statements@.subrange(0, before.len() as int) =~= before);
            assert(statements@.subrange(before.len() as int, statements@.len() as int) =~= popped);
            lemma_statements_reversible(before);
            lemma_statements_reversible(popped);
            lemma_statements_reversible(statements@);
            assert forall|i: int| 0 <= i < statements@.len() implies statement_reversible(#[trigger] statements@[i].node) by {
                if i < before.len() {
                    assert(statements@[i] == before[i]);
                } else {
                    assert(statements@[i] == popped[i - before.len()]);
                }
            }
        }
        Spanned::new(ExpressionBlock { block: Spanned::new(Block { statements }, block_span), expression }, span)
    }

    /// Prepares each statement; the bindings of the counters that a statement
    /// introduced are placed before it, the latest first.
    pub fn block(&mut self, block: Spanned<Block>) -> (result: Spanned<Block>)
        requires
            old(self).wf(),
            old(self).temporaries() + block_demand(block.node) <= usize::MAX,
        ensures
            block_reversible(block.node) ==> final(self).temporaries() == old(self).temporaries(),
            final(self).wf(),
            block_reversible(result.node),
            result.span == block.span,
            final(self).state() == statements_state(block.node.statements@, old(self).state()),
            statements_prepared(block.node.statements@, result.node.statements@, old(self).state()),
            block.node.statements@.len() > 0 ==> final(self).bindings().len() == 0,
            block.node.statements@.len() == 0 ==> final(self).bindings() == old(self).bindings(),
            old(self).temporaries() <= final(self).temporaries() <= old(self).temporaries() + block_demand(block.node),
        decreases block.node,
    {
        let span = block.span;
        let ghost given = block.node.statements@;
        let ghost start = self.temporaries();
        let mut remaining = block.node.statements;
        crate::sequence::reverse_in_place(&mut remaining);
        let mut statements: Vec<Spanned<Statement>> = Vec::new();
        let ghost mut count: int = 0;
        let ghost initial = self.state();
        while remaining.len() > 0
            invariant
                initial == old(self).state(),
                self.state() == statements_state(given.subrange(0, count), initial),
                statements_prepared(given.subrange(0, count), statements@, initial),
                statements_reversible(given) ==> self.temporaries() == start,
                given == block.node.statements@,
                0 <= count <= given.len(),
                remaining@.len() + count == given.len(),
                forall|i: int| 0 <= i < remaining@.len() ==> #[trigger] remaining@[i] == given[given.len() - 1 - i],
                statements_reversible(statements@),
                self.wf(),
                start == old(self).temporaries(),
                start + statements_demand(given) <= usize::MAX,
                start <= self.temporaries() <= start + statements_demand(given.subrange(0, count)),
                count > 0 ==> self.bindings().len() == 0,
                count == 0 ==> self.bindings() == old(self).bindings(),
            decreases remaining@.len(),
        {
            proof {
                lemma_statements_reversible(given);
            }
            let statement = remaining.pop().unwrap();
            assert(statement == given[count]);
            proof {
                lemma_statements_demand_prefix(given, count);
                lemma_statements_demand_prefix(given, count + 1);
            }
            let ghost prior = self.state();
            let statement = self.statement(statement);
            let ghost waiting = self.pending();
            let mut bindings = self.pop_bindings();
            let ghost before = statements@;
            let ghost popped = bindings@;
            statements.append(&mut bindings);
            statements.push(statement);
            proof {
                let next = given.subrange(0, count + 1);
                assert(next.drop_last() =~= given.subrange(0, count));
                assert(self.pending() =~= Seq::<Counter>::empty());
                assert(statements@.subrange(0, before.len() as int) =~= before);
                assert(statements@.subrange(before.len() as int, statements@.len() - 1) =~= popped);
                assert(waiting == statement_state(given[count], prior).1);
                lemma_statements_reversible(before);
                lemma_statements_reversible(popped);
                lemma_statements_reversible(statements@);
                assert forall|i: int| 0 <= i < statements@.len() implies statement_reversible(#[trigger] statements@[i].node) by {
                    if i < before.len() {
                        assert(statements@[i] == before[i]);
                    } else if i < before.len() + popped.len() {
                        assert(statements@[i] == popped[i - before.len()]);
                    }
                }
                count = count + 1;
            }
        }
        assert(given.subrange(0, given.len() as int) =~= given);
        Spanned::new(Block { statements }, span)
    }

    /// Prepares the expressions of a statement.
    pub fn statement(&mut self, statement: Spanned<Statement>) -> (result: Spanned<Statement>)
        requires
            old(self).wf(),
            old(self).temporaries() + statement_demand(statement.node) <= usize::MAX,
        ensures
            statement_reversible(statement.node) ==> final(self).temporaries() == old(self).temporaries(),
            final(self).wf(),
            statement_reversible(result.node),
            result.span == statement.span,
            final(self).state() == statement_state(statement, old(self).state()),
            statement_prepared(statement, result, old(self).state()),
            old(self).temporaries() <= final(self).temporaries() <= old(self).temporaries() + statement_demand(statement.node),
        decreases statement.node,
    {
        let span = statement.span;
        match statement.node {
            Statement::Binding(binding) => {
                let Binding { target, size, is_mutable, expression } = binding;
                let expression = self.expression(expression);
                Spanned::new(Statement::Binding(Binding { target, size, is_mutable, expression }), span)
            },
            Statement::Mutation(mutation) => {
                let mutation = match mutation {
                    Mutation::Swap(left, right) => Mutation::Swap(left, right),
                    Mutation::AddAssign(target, expression) => Mutation::AddAssign(target, self.expression(expression)),
                    Mutation::MinusAssign(target, expression) => Mutation::MinusAssign(target, self.expression(expression)),
                    Mutation::MultiplyAssign(target, expression) => Mutation::MultiplyAssign(target, self.expression(expression)),
                };
                Spanned::new(Statement::Mutation(mutation), span)
            },
            Statement::ExplicitDrop(explicit_drop) => {
                let ExplicitDrop { target, expression } = explicit_drop;
                let expression = self.expression(expression);
                Spanned::new(Statement::ExplicitDrop(ExplicitDrop { target, expression }), span)
            },
            Statement::ConditionalLoop(conditional_loop) => {
                let conditional_loop = self.conditional_loop(Spanned::new(conditional_loop, span));
                Spanned::new(Statement::ConditionalLoop(conditional_loop.node), span)
            },
        }
    }

    /// Prepares the block of a loop. A loop without a start condition gets a
    /// counter: bound to zero before the loop, raised by one at the start of
    /// each pass, and tested for zero as the start condition.
    pub fn conditional_loop(&mut self, conditional_loop: Spanned<ConditionalLoop>) -> (result: Spanned<ConditionalLoop>)
        requires
            old(self).wf(),
            old(self).temporaries() + 1 + block_demand(conditional_loop.node.block.node) <= usize::MAX,
        ensures
            statement_reversible(Statement::ConditionalLoop(conditional_loop.node))
                ==> final(self).temporaries() == old(self).temporaries(),
            final(self).wf(),
            result.span == conditional_loop.span,
            result.node.end_condition == conditional_loop.node.end_condition,
            final(self).state() == statement_state(
                Spanned { node: Statement::ConditionalLoop(conditional_loop.node), span: conditional_loop.span },
                old(self).state(),
            ),
            loop_prepared(conditional_loop.node, result.node, conditional_loop.span, old(self).state()),
            result.node.block.span == conditional_loop.node.block.span,
            result.node.start_condition is Some,
            block_reversible(result.node.block.node),
            conditional_loop.node.start_condition is Some ==> result.node.start_condition
                == conditional_loop.node.start_condition,
            conditional_loop.node.start_condition is None ==> exists|target: VariableTarget| {
                &&& #[trigger] target@ == (Identifier::temporary_reverse_text(), (final(self).temporaries() - 1) as nat)
                &&& result.node.start_condition == Some(
                    counter_condition(target, Primitive::Unsigned64(0), conditional_loop.span),
                )
                &&& result.node.block.node.statements@[0]
                    == counter_increment(target, Primitive::Unsigned64(1), conditional_loop.span)
                &&& final(self).bindings().last() == counter_binding(target, Size::Unsigned64, conditional_loop.span)
            },
            old(self).temporaries() <= final(self).temporaries()
                <= old(self).temporaries() + 1 + block_demand(conditional_loop.node.block.node),
        decreases conditional_loop.node,
    {
        let span = conditional_loop.span;
        let ConditionalLoop { start_condition, end_condition, block } = conditional_loop.node;
        let block = self.block(block);
        match start_condition {
            Some(start_condition) => Spanned::new(
                ConditionalLoop { start_condition: Some(start_condition), end_condition, block },
                span,
            ),
            None => {
                let ghost number = self.temporaries();
                let target = self.next_target();
                let block_span = block.span;
                let mut statements = block.node.statements;
                let ghost before = statements@;
                let increment = make_counter_increment(target.duplicate(), Primitive::Unsigned64(1), span);
                assert(statement_reversible(increment.node));
                statements.insert(0, increment);
                proof {
                    lemma_statements_reversible(before);
                    lemma_statements_reversible(statements@);
                    assert forall|i: int| 0 <= i < statements@.len() implies statement_reversible(#[trigger] statements@[i].node) by {
                        if i > 0 {
                            assert(statements@[i] == before[i - 1]);
                        }
                    }
                }
                let binding = make_counter_binding(target.duplicate(), Size::Unsigned64, span);
                self.binding_stack.push(binding);
                proof {
                    lemma_counter_condition(target, Primitive::Unsigned64(0), span);
                }
                let condition = make_counter_condition(target, Primitive::Unsigned64(0), span);
                proof {
                    assert(statements@.subrange(1, statements@.len() as int) =~= before);
                    assert(is_counter_increment(statements@[0], number, Primitive::Unsigned64(1), span));
                    assert(is_counter_condition(condition, number, Primitive::Unsigned64(0), span));
                }
                Spanned::new(ConditionalLoop {
                    start_condition: Some(condition),
                    end_condition,
                    block: Spanned::new(Block { statements }, block_span),
                }, span)
            },
        }
    }
}

impl Default for ReverseExposition {
    fn default() -> (exposition: ReverseExposition)
        ensures
            exposition.bindings().len() == 0,
            exposition.temporaries() == 0,
            exposition.wf(),
    {
        ReverseExposition { binding_stack: Vec::new(), next_temporary: 0 }
    }
}

} // verus!
