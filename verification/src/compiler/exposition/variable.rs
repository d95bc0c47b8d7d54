use vstd::prelude::*;

use crate::node::{
    Arithmetic, BinaryOperation, Binding, Block, ConditionalLoop, ExplicitDrop, Expression, ExpressionBlock, Function,
    FunctionCall, Mutation, Statement, VariableTarget, WhenBranch, WhenConditional,
};
use crate::source::{Span, Spanned};
use crate::table::{dropped_entries, generation_entries, DropFrame, GenerationFrame};

use super::ExpositionError;

verus! {

/// The innermost of the first `count` generation frames that binds an identifier.
pub open spec fn innermost_generation(frames: Seq<Map<Seq<char>, usize>>, identifier: Seq<char>, count: int) -> Option<int>
    decreases count,
{
    if count <= 0 {
        None
    } else if frames[count - 1].contains_key(identifier) {
        Some(count - 1)
    } else {
        innermost_generation(frames, identifier, count - 1)
    }
}

/// A variable that a scope of drops holds is not alive: using it is an error
/// that names it, at the span of the use.
pub proof fn lemma_dropped_not_alive(exposition: VariableExposition, target: VariableTarget, span: Span)
    requires
        exposition.drops().len() > 0,
        exposition.drops().last().contains(target@),
    ensures
        exposition.alive(target, span) == Err::<(), Spanned<ExpositionError>>(
            Spanned { node: ExpositionError::DroppedVariable(target), span },
        ),
{
    assert(exposition.drops()[exposition.drops().len() - 1].contains(target@));
}

/// Once the innermost scope records a generation for an identifier, resolving
/// the identifier finds that scope and that generation.
pub proof fn lemma_register_resolve(frames: Seq<Map<Seq<char>, usize>>, identifier: Seq<char>, generation: usize)
    requires
        frames.len() > 0,
    ensures
        ({
            let registered = frames.update(frames.len() - 1, frames.last().insert(identifier, generation));
            &&& innermost_generation(registered, identifier, registered.len() as int) == Some(registered.len() - 1)
            &&& registered[registered.len() - 1][identifier] == generation
        }),
{
}

/// Whether every loop in an expression has a start condition and every branch
/// of a conditional an end condition, in every part of the tree, conditions
/// of loops included.
pub open spec fn complete(expression: Expression) -> bool
    decreases expression,
{
    match expression {
        Expression::BinaryOperation(operation) => complete(operation.left.node) && complete(operation.right.node),
        Expression::WhenConditional(when_conditional) => branches_complete(when_conditional.branches@),
        Expression::ExpressionBlock(expression_block) => block_complete(expression_block.block.node)
            && complete(expression_block.expression.node),
        Expression::FunctionCall(function_call) => all_complete(function_call.arguments@),
        _ => true,
    }
}

/// `complete` of each expression.
pub open spec fn all_complete(expressions: Seq<Spanned<Expression>>) -> bool
    decreases expressions,
{
    if expressions.len() == 0 {
        true
    } else {
        all_complete(expressions.subrange(0, expressions.len() - 1)) && complete(expressions.last().node)
    }
}

/// `complete` of the parts of a branch, which has an end condition.
pub open spec fn branch_complete(branch: WhenBranch) -> bool
    decreases branch,
{
    &&& complete(branch.condition.node)
    &&& block_complete(branch.expression_block.node.block.node)
    &&& complete(branch.expression_block.node.expression.node)
    &&& branch.end_condition matches Some(end_condition) && complete(end_condition.node)
}

/// `branch_complete` of each branch.
pub open spec fn branches_complete(branches: Seq<WhenBranch>) -> bool
    decreases branches,
{
    if branches.len() == 0 {
        true
    } else {
        branches_complete(branches.subrange(0, branches.len() - 1)) && branch_complete(branches.last())
    }
}

/// `statement_complete` of each statement of a block.
pub open spec fn block_complete(block: Block) -> bool
    decreases block,
{
    statements_complete(block.statements@)
}

/// `complete` of the expressions of a statement; a loop has a start condition.
pub open spec fn statement_complete(statement: Statement) -> bool
    decreases statement,
{
    match statement {
        Statement::Binding(binding) => complete(binding.expression.node),
        Statement::Mutation(Mutation::Swap(_, _)) => true,
        Statement::Mutation(Mutation::AddAssign(_, expression)) => complete(expression.node),
        Statement::Mutation(Mutation::MinusAssign(_, expression)) => complete(expression.node),
        Statement::Mutation(Mutation::MultiplyAssign(_, expression)) => complete(expression.node),
        Statement::ExplicitDrop(explicit_drop) => complete(explicit_drop.expression.node),
        Statement::ConditionalLoop(conditional_loop) => {
            &&& conditional_loop.start_condition matches Some(start_condition) && complete(start_condition.node)
            &&& complete(conditional_loop.end_condition.node)
            &&& block_complete(conditional_loop.block.node)
        },
    }
}

/// `statement_complete` of each statement.
pub open spec fn statements_complete(statements: Seq<Spanned<Statement>>) -> bool
    decreases statements,
{
    if statements.len() == 0 {
        true
    } else {
        statements_complete(statements.subrange(0, statements.len() - 1))
            && statement_complete(statements.last().node)
    }
}

/// The number of bindings in an expression.
pub open spec fn bindings(expression: Expression) -> nat
    decreases expression,
{
    match expression {
        Expression::BinaryOperation(operation) => bindings(operation.left.node) + bindings(operation.right.node),
        Expression::WhenConditional(when_conditional) => branches_bindings(when_conditional.branches@),
        Expression::ExpressionBlock(expression_block) => block_bindings(expression_block.block.node)
            + bindings(expression_block.expression.node),
        Expression::FunctionCall(function_call) => all_bindings(function_call.arguments@),
        _ => 0,
    }
}

/// `bindings` of each expression, summed.
pub open spec fn all_bindings(expressions: Seq<Spanned<Expression>>) -> nat
    decreases expressions,
{
    if expressions.len() == 0 {
        0
    } else {
        all_bindings(expressions.subrange(0, expressions.len() - 1)) + bindings(expressions.last().node)
    }
}

/// The bindings in the parts of a branch.
pub open spec fn branch_bindings(branch: WhenBranch) -> nat
    decreases branch,
{
    bindings(branch.condition.node) + block_bindings(branch.expression_block.node.block.node)
        + bindings(branch.expression_block.node.expression.node) + match branch.end_condition {
        Some(end_condition) => bindings(end_condition.node),
        None => 0,
    }
}

/// `branch_bindings` of each branch, summed.
pub open spec fn branches_bindings(branches: Seq<WhenBranch>) -> nat
    decreases branches,
{
    if branches.len() == 0 {
        0
    } else {
        branches_bindings(branches.subrange(0, branches.len() - 1)) + branch_bindings(branches.last())
    }
}

/// The bindings in the statements of a block.
pub open spec fn block_bindings(block: Block) -> nat
    decreases block,
{
    statements_bindings(block.statements@)
}

/// The bindings in a statement: one for a binding, and those in its expressions.
pub open spec fn statement_bindings(statement: Statement) -> nat
    decreases statement,
{
    match statement {
        Statement::Binding(binding) => 1 + bindings(binding.expression.node),
        Statement::Mutation(Mutation::Swap(_, _)) => 0,
        Statement::Mutation(Mutation::AddAssign(_, expression)) => bindings(expression.node),
        Statement::Mutation(Mutation::MinusAssign(_, expression)) => bindings(expression.node),
        Statement::Mutation(Mutation::MultiplyAssign(_, expression)) => bindings(expression.node),
        Statement::ExplicitDrop(explicit_drop) => bindings(explicit_drop.expression.node),
        Statement::ConditionalLoop(conditional_loop) => {
            let start = match conditional_loop.start_condition {
                Some(start_condition) => bindings(start_condition.node),
                None => 0,
            };
            start + bindings(conditional_loop.end_condition.node) + block_bindings(conditional_loop.block.node)
        },
    }
}

/// `statement_bindings` of each statement, summed.
pub open spec fn statements_bindings(statements: Seq<Spanned<Statement>>) -> nat
    decreases statements,
{
    if statements.len() == 0 {
        0
    } else {
        statements_bindings(statements.subrange(0, statements.len() - 1)) + statement_bindings(statements.last().node)
    }
}

/// The bindings in an expression that may be absent.
pub open spec fn optional_bindings(expression: Option<Spanned<Expression>>) -> nat {
    match expression {
        Some(expression) => bindings(expression.node),
        None => 0,
    }
}

proof fn lemma_all_prefix(expressions: Seq<Spanned<Expression>>, count: int)
    requires
        0 <= count <= expressions.len(),
    ensures
        all_bindings(expressions.subrange(0, count)) <= all_bindings(expressions),
        count < expressions.len() ==> all_bindings(expressions.subrange(0, count + 1))
            == all_bindings(expressions.subrange(0, count)) + bindings(expressions[count].node),
        all_complete(expressions) && count < expressions.len() ==> complete(expressions[count].node),
    decreases expressions.len(),
{
    if count < expressions.len() {
        assert(expressions.subrange(0, count + 1).subrange(0, count) =~= expressions.subrange(0, count));
        let prefix = expressions.subrange(0, expressions.len() - 1);
        assert(expressions.subrange(0, count) =~= prefix.subrange(0, count));
        lemma_all_prefix(prefix, count);
        if count < prefix.len() {
            assert(prefix[count] == expressions[count]);
        }
    } else {
        assert(expressions.subrange(0, count) =~= expressions);
    }
}

proof fn lemma_branches_prefix(branches: Seq<WhenBranch>, count: int)
    requires
        0 <= count <= branches.len(),
    ensures
        branches_bindings(branches.subrange(0, count)) <= branches_bindings(branches),
        count < branches.len() ==> branches_bindings(branches.subrange(0, count + 1))
            == branches_bindings(branches.subrange(0, count)) + branch_bindings(branches[count]),
        branches_complete(branches) && count < branches.len() ==> branch_complete(branches[count]),
    decreases branches.len(),
{
    if count < branches.len() {
        assert(branches.subrange(0, count + 1).subrange(0, count) =~= branches.subrange(0, count));
        let prefix = branches.subrange(0, branches.len() - 1);
        assert(branches.subrange(0, count) =~= prefix.subrange(0, count));
        lemma_branches_prefix(prefix, count);
        if count < prefix.len() {
            assert(prefix[count] == branches[count]);
        }
    } else {
        assert(branches.subrange(0, count) =~= branches);
    }
}

proof fn lemma_statements_prefix(statements: Seq<Spanned<Statement>>, count: int)
    requires
        0 <= count <= statements.len(),
    ensures
        statements_bindings(statements.subrange(0, count)) <= statements_bindings(statements),
        count < statements.len() ==> statements_bindings(statements.subrange(0, count + 1))
            == statements_bindings(statements.subrange(0, count)) + statement_bindings(statements[count].node),
        statements_complete(statements) && count < statements.len() ==> statement_complete(statements[count].node),
    decreases statements.len(),
{
    if count < statements.len() {
        assert(statements.subrange(0, count + 1).subrange(0, count) =~= statements.subrange(0, count));
        let prefix = statements.subrange(0, statements.len() - 1);
        assert(statements.subrange(0, count) =~= prefix.subrange(0, count));
        lemma_statements_prefix(prefix, count);
        if count < prefix.len() {
            assert(prefix[count] == statements[count]);
        }
    } else {
        assert(statements.subrange(0, count) =~= statements);
    }
}

/// The scopes of the pass, innermost last: the latest generation of each
/// identifier bound in each scope, and the variables dropped in each scope.
pub type Scopes = (Seq<Map<Seq<char>, usize>>, Seq<Set<(Seq<char>, nat)>>);

/// What a pass over a part gives: its result, and the scopes after it.
pub type Outcome = (Result<(), Spanned<ExpositionError>>, Scopes);

/// Whether some scope of drops holds a variable.
pub open spec fn dropped_in(drops: Seq<Set<(Seq<char>, nat)>>, target: (Seq<char>, nat)) -> bool {
    exists|i: int| 0 <= i < drops.len() && (#[trigger] drops[i]).contains(target)
}

/// Checking a target: an error at `span` if some scope of drops holds it.
pub open spec fn alive_in(drops: Seq<Set<(Seq<char>, nat)>>, target: VariableTarget, span: Span)
    -> Result<(), Spanned<ExpositionError>>
{
    if dropped_in(drops, target@) {
        Err(Spanned { node: ExpositionError::DroppedVariable(target), span })
    } else {
        Ok(())
    }
}

/// The target with the generation that the innermost scope binding its
/// identifier holds; the target itself where no scope binds it.
pub open spec fn resolved_target(scopes: Scopes, target: VariableTarget) -> VariableTarget {
    match innermost_generation(scopes.0, target.0@, scopes.0.len() as int) {
        Some(frame) => VariableTarget(target.0, scopes.0[frame][target.0@]),
        None => target,
    }
}

/// Resolving a target at a span: the check of the resolved target, or an
/// error where no scope binds its identifier.
pub open spec fn resolution(scopes: Scopes, target: VariableTarget, span: Span) -> Result<(), Spanned<ExpositionError>> {
    match innermost_generation(scopes.0, target.0@, scopes.0.len() as int) {
        Some(_) => alive_in(scopes.1, resolved_target(scopes, target), span),
        None => Err(Spanned { node: ExpositionError::UndefinedVariable(target.0), span }),
    }
}

/// The scopes once the innermost one records a binding of an identifier: the
/// next generation where it already binds it, zero otherwise.
pub open spec fn registration(scopes: Scopes, identifier: Seq<char>) -> Scopes {
    let frame = scopes.0.last();
    let generation = if frame.contains_key(identifier) { (frame[identifier] + 1) as usize } else { 0usize };
    (scopes.0.update(scopes.0.len() - 1, frame.insert(identifier, generation)), scopes.1)
}

/// The scopes once the innermost scope of drops holds a target.
pub open spec fn dropping(scopes: Scopes, target: VariableTarget) -> Scopes {
    (scopes.0, scopes.1.update(scopes.1.len() - 1, scopes.1.last().insert(target@)))
}

/// The end of a conditional: what every branch dropped joins the innermost
/// scope of drops.
pub open spec fn conditional_end(branches: (Result<(), Spanned<ExpositionError>>, Scopes, Set<(Seq<char>, nat)>)) -> Outcome {
    let (result, scopes, dropped) = branches;
    if result is Err {
        (result, scopes)
    } else {
        (Ok(()), (scopes.0, scopes.1.update(scopes.1.len() - 1, scopes.1.last().union(dropped))))
    }
}

/// The pass over an expression: its variables resolved left to right, the
/// first error ending it.
pub open spec fn expression_outcome(expression: Spanned<Expression>, scopes: Scopes) -> Outcome
    decreases expression,
{
    match expression.node {
        Expression::Variable(target) => (resolution(scopes, target, expression.span), scopes),
        Expression::BinaryOperation(operation) => {
            let (result, after) = expression_outcome(operation.left, scopes);
            if result is Err {
                (result, after)
            } else {
                expression_outcome(operation.right, after)
            }
        },
        Expression::WhenConditional(when_conditional) => conditional_end(
            branches_outcome(when_conditional.branches@, scopes, Set::empty()),
        ),
        Expression::ExpressionBlock(expression_block) => expression_block_outcome(*expression_block, scopes),
        Expression::FunctionCall(function_call) => arguments_outcome(function_call.arguments@, scopes),
        _ => (Ok(()), scopes),
    }
}

/// The pass over expressions in order.
pub open spec fn arguments_outcome(arguments: Seq<Spanned<Expression>>, scopes: Scopes) -> Outcome
    decreases arguments,
{
    if arguments.len() == 0 {
        (Ok(()), scopes)
    } else {
        let (result, after) = expression_outcome(arguments[0], scopes);
        if result is Err {
            (result, after)
        } else {
            arguments_outcome(arguments.subrange(1, arguments.len() as int), after)
        }
    }
}

/// The pass over a block, then over the expression of its value.
pub open spec fn expression_block_outcome(expression_block: ExpressionBlock, scopes: Scopes) -> Outcome
    decreases expression_block,
{
    let (result, after) = statements_outcome(expression_block.block.node.statements@, scopes);
    if result is Err {
        (result, after)
    } else {
        expression_outcome(expression_block.expression, after)
    }
}

/// The pass over statements in order.
pub open spec fn statements_outcome(statements: Seq<Spanned<Statement>>, scopes: Scopes) -> Outcome
    decreases statements,
{
    if statements.len() == 0 {
        (Ok(()), scopes)
    } else {
        let (result, after) = statement_outcome(statements[0].node, scopes);
        if result is Err {
            (result, after)
        } else {
            statements_outcome(statements.subrange(1, statements.len() as int), after)
        }
    }
}

/// The pass over a statement. A binding registers its target after its
/// expression; a drop resolves its target, records it as dropped, then passes
/// over its expression; a loop passes over its conditions, then over its
/// block in a scope of bindings of its own.
pub open spec fn statement_outcome(statement: Statement, scopes: Scopes) -> Outcome
    decreases statement,
{
    match statement {
        Statement::Binding(binding) => {
            let (result, after) = expression_outcome(binding.expression, scopes);
            if result is Err {
                (result, after)
            } else {
                (Ok(()), registration(after, binding.target.node.0@))
            }
        },
        Statement::Mutation(Mutation::Swap(left, right)) => {
            let first = resolution(scopes, left.node, left.span);
            if first is Err {
                (first, scopes)
            } else {
                (resolution(scopes, right.node, right.span), scopes)
            }
        },
        Statement::Mutation(Mutation::AddAssign(target, expression)) => {
            let first = resolution(scopes, target.node, target.span);
            if first is Err { (first, scopes) } else { expression_outcome(expression, scopes) }
        },
        Statement::Mutation(Mutation::MinusAssign(target, expression)) => {
            let first = resolution(scopes, target.node, target.span);
            if first is Err { (first, scopes) } else { expression_outcome(expression, scopes) }
        },
        Statement::Mutation(Mutation::MultiplyAssign(target, expression)) => {
            let first = resolution(scopes, target.node, target.span);
            if first is Err { (first, scopes) } else { expression_outcome(expression, scopes) }
        },
        Statement::ExplicitDrop(explicit_drop) => {
            let first = resolution(scopes, explicit_drop.target.node, explicit_drop.target.span);
            if first is Err {
                (first, scopes)
            } else {
                expression_outcome(
                    explicit_drop.expression,
                    dropping(scopes, resolved_target(scopes, explicit_drop.target.node)),
                )
            }
        },
        Statement::ConditionalLoop(conditional_loop) => {
            let (first, after_start) = match conditional_loop.start_condition {
                Some(start_condition) => expression_outcome(start_condition, scopes),
                None => (Ok(()), scopes),
            };
            if first is Err {
                (first, after_start)
            } else {
                let (second, after_end) = expression_outcome(conditional_loop.end_condition, after_start);
                if second is Err {
                    (second, after_end)
                } else {
                    let (third, after_block) = statements_outcome(
                        conditional_loop.block.node.statements@,
                        (after_end.0.push(Map::empty()), after_end.1),
                    );
                    if third is Err {
                        (third, after_block)
                    } else {
                        (Ok(()), (after_block.0.drop_last(), after_block.1))
                    }
                }
            }
        },
    }
}

/// The pass over branches in order, gathering what each dropped.
pub open spec fn branches_outcome(branches: Seq<WhenBranch>, scopes: Scopes, dropped: Set<(Seq<char>, nat)>)
    -> (Result<(), Spanned<ExpositionError>>, Scopes, Set<(Seq<char>, nat)>)
    decreases branches,
{
    if branches.len() == 0 {
        (Ok(()), scopes, dropped)
    } else {
        let (result, after, dropped_here) = branch_outcome(branches[0], scopes);
        if result is Err {
            (result, after, dropped)
        } else {
            branches_outcome(branches.subrange(1, branches.len() as int), after, dropped.union(dropped_here))
        }
    }
}

/// The pass over a branch in a scope of drops of its own: its condition and
/// end condition, then its block in a scope of bindings of its own. It gives
/// what the branch dropped.
pub open spec fn branch_outcome(branch: WhenBranch, scopes: Scopes)
    -> (Result<(), Spanned<ExpositionError>>, Scopes, Set<(Seq<char>, nat)>)
    decreases branch,
{
    let pushed = (scopes.0, scopes.1.push(Set::empty()));
    let (first, after_condition) = expression_outcome(branch.condition, pushed);
    if first is Err {
        (first, after_condition, Set::empty())
    } else {
        let (second, after_end) = match branch.end_condition {
            Some(end_condition) => expression_outcome(end_condition, after_condition),
            None => (Ok(()), after_condition),
        };
        if second is Err {
            (second, after_end, Set::empty())
        } else {
            let (third, after_block) = expression_block_outcome(
                branch.expression_block.node,
                (after_end.0.push(Map::empty()), after_end.1),
            );
            if third is Err {
                (third, after_block, Set::empty())
            } else {
                (Ok(()), (after_block.0.drop_last(), after_block.1.drop_last()), after_block.1.last())
            }
        }
    }
}

/// The pass over a binary operation: its left operand, then its right.
pub open spec fn binary_outcome(operation: BinaryOperation, scopes: Scopes) -> Outcome {
    let (result, after) = expression_outcome(operation.left, scopes);
    if result is Err {
        (result, after)
    } else {
        expression_outcome(operation.right, after)
    }
}

/// The scopes once each parameter is registered, in order.
pub open spec fn parameters_outcome(parameters: Seq<Spanned<VariableTarget>>, scopes: Scopes) -> Scopes
    decreases parameters.len(),
{
    if parameters.len() == 0 {
        scopes
    } else {
        parameters_outcome(parameters.subrange(1, parameters.len() as int), registration(scopes, parameters[0].node.0@))
    }
}

/// The pass over a function: its parameters registered in order, then its body.
pub open spec fn function_outcome(function: Function, scopes: Scopes) -> Outcome {
    expression_block_outcome(function.expression_block.node, parameters_outcome(function.parameters@, scopes))
}

/// Whether no scope binds an identifier.
pub open spec fn unbound(scopes: Scopes, identifier: Seq<char>) -> bool {
    innermost_generation(scopes.0, identifier, scopes.0.len() as int) is None
}

/// Whether an expression is made of constants, variables and operations
/// only, so that no part of it binds a variable.
pub open spec fn plain(expression: Expression) -> bool
    decreases expression,
{
    match expression {
        Expression::Unit => true,
        Expression::Primitive(_) => true,
        Expression::Variable(_) => true,
        Expression::BinaryOperation(operation) => plain(operation.left.node) && plain(operation.right.node),
        _ => false,
    }
}

/// Whether a plain expression uses a variable of an identifier.
pub open spec fn uses(expression: Expression, identifier: Seq<char>) -> bool
    decreases expression,
{
    match expression {
        Expression::Variable(target) => target.0@ == identifier,
        Expression::BinaryOperation(operation) => uses(operation.left.node, identifier)
            || uses(operation.right.node, identifier),
        _ => false,
    }
}

/// A plain expression leaves the scopes as they are, and its pass fails
/// where it uses an identifier that no scope binds.
pub proof fn lemma_plain_expression(expression: Spanned<Expression>, scopes: Scopes, identifier: Seq<char>)
    requires
        plain(expression.node),
    ensures
        expression_outcome(expression, scopes).1 == scopes,
        uses(expression.node, identifier) && unbound(scopes, identifier)
            ==> expression_outcome(expression, scopes).0 is Err,
    decreases expression,
{
    if let Expression::BinaryOperation(operation) = expression.node {
        lemma_plain_expression(operation.left, scopes, identifier);
        lemma_plain_expression(operation.right, scopes, identifier);
    }
}

/// The mutation that adds, subtracts or multiplies by the value of an expression.
pub open spec fn arithmetic_assignment(kind: Arithmetic, target: Spanned<VariableTarget>, expression: Spanned<Expression>)
    -> Statement
{
    match kind {
        Arithmetic::Add => Statement::Mutation(Mutation::AddAssign(target, expression)),
        Arithmetic::Minus => Statement::Mutation(Mutation::MinusAssign(target, expression)),
        Arithmetic::Multiply => Statement::Mutation(Mutation::MultiplyAssign(target, expression)),
    }
}

/// An arithmetic mutation resolves its target and then every variable of its
/// expression. It succeeds only where both succeed; an unbound target is an
/// error at the target; once the target resolves, an error of the expression
/// is its error; a plain expression that uses an identifier that no scope
/// binds makes it fail. What it gives back has its target resolved and its
/// expression rewritten as the pass over the expression alone rewrites it.
pub proof fn lemma_arithmetic_assignment(
    kind: Arithmetic,
    target: Spanned<VariableTarget>,
    expression: Spanned<Expression>,
    scopes: Scopes,
    after: Statement,
    identifier: Seq<char>,
)
    ensures
        ({
            let statement = arithmetic_assignment(kind, target, expression);
            let target_result = resolution(scopes, target.node, target.span);
            let expression_result = expression_outcome(expression, scopes).0;
            &&& statement_outcome(statement, scopes).0 is Ok ==> target_result is Ok && expression_result is Ok
            &&& unbound(scopes, target.node.0@) ==> statement_outcome(statement, scopes).0
                == Err::<(), Spanned<ExpositionError>>(Spanned {
                    node: ExpositionError::UndefinedVariable(target.node.0),
                    span: target.span,
                })
            &&& target_result is Ok && expression_result is Err ==> statement_outcome(statement, scopes).0 == expression_result
            &&& plain(expression.node) && uses(expression.node, identifier) && unbound(scopes, identifier)
                ==> statement_outcome(statement, scopes).0 is Err
            &&& statement_rewritten(statement, after, scopes) ==> exists|done_target: Spanned<VariableTarget>, done: Spanned<Expression>| {
                &&& after == arithmetic_assignment(kind, done_target, done)
                &&& done_target == Spanned { node: resolved_target(scopes, target.node), span: target.span }
                &&& expression_rewritten(expression, done, scopes)
            }
        }),
{
    if plain(expression.node) {
        lemma_plain_expression(expression, scopes, identifier);
    }
    let statement = arithmetic_assignment(kind, target, expression);
    if statement_rewritten(statement, after, scopes) {
        match after {
            Statement::Mutation(Mutation::AddAssign(done_target, done)) => {
                assert(after == arithmetic_assignment(kind, done_target, done));
            },
            Statement::Mutation(Mutation::MinusAssign(done_target, done)) => {
                assert(after == arithmetic_assignment(kind, done_target, done));
            },
            Statement::Mutation(Mutation::MultiplyAssign(done_target, done)) => {
                assert(after == arithmetic_assignment(kind, done_target, done));
            },
            _ => {},
        }
    }
}

/// A swap resolves both of its targets. It succeeds only where both resolve;
/// once the left one resolves, a right one that no scope binds is an error at
/// the right one's span, and a right one that is dropped is an error too.
/// What it gives back has both targets resolved in the same scopes.
pub proof fn lemma_swap(
    left: Spanned<VariableTarget>,
    right: Spanned<VariableTarget>,
    scopes: Scopes,
    after: Statement,
)
    ensures
        ({
            let statement = Statement::Mutation(Mutation::Swap(left, right));
            let left_result = resolution(scopes, left.node, left.span);
            let right_result = resolution(scopes, right.node, right.span);
            &&& statement_outcome(statement, scopes).0 is Ok ==> left_result is Ok && right_result is Ok
            &&& statement_outcome(statement, scopes).1 == scopes
            &&& left_result is Ok && unbound(scopes, right.node.0@) ==> statement_outcome(statement, scopes).0
                == Err::<(), Spanned<ExpositionError>>(Spanned {
                    node: ExpositionError::UndefinedVariable(right.node.0),
                    span: right.span,
                })
            &&& left_result is Ok && !unbound(scopes, right.node.0@)
                && dropped_in(scopes.1, resolved_target(scopes, right.node)@)
                ==> statement_outcome(statement, scopes).0 is Err
            &&& statement_rewritten(statement, after, scopes) ==> after == Statement::Mutation(Mutation::Swap(
                Spanned { node: resolved_target(scopes, left.node), span: left.span },
                Spanned { node: resolved_target(scopes, right.node), span: right.span },
            ))
        }),
{
}

/// The generation that the innermost scope binding an identifier holds.
pub open spec fn generation_of(scopes: Scopes, identifier: Seq<char>) -> usize {
    scopes.0[innermost_generation(scopes.0, identifier, scopes.0.len() as int)->Some_0][identifier]
}

/// A plain expression that uses a bound identifier whose variable is dropped fails.
pub proof fn lemma_plain_dropped(expression: Spanned<Expression>, scopes: Scopes, identifier: Seq<char>)
    requires
        plain(expression.node),
        uses(expression.node, identifier),
        !unbound(scopes, identifier),
        dropped_in(scopes.1, (identifier, generation_of(scopes, identifier) as nat)),
    ensures
        expression_outcome(expression, scopes).0 is Err,
    decreases expression,
{
    lemma_plain_expression(expression, scopes, identifier);
    if let Expression::BinaryOperation(operation) = expression.node {
        lemma_plain_expression(operation.left, scopes, identifier);
        if uses(operation.left.node, identifier) {
            lemma_plain_dropped(operation.left, scopes, identifier);
        } else {
            lemma_plain_dropped(operation.right, scopes, identifier);
        }
    }
}

/// A drop resolves its target, records it as dropped, and then resolves its
/// expression, in which the dropped variable can no longer be used: it
/// succeeds only where the target resolves and the expression succeeds with
/// the target dropped; a plain expression that uses the dropped identifier
/// makes it fail. What it gives back has its target resolved and its
/// expression rewritten with the target dropped.
pub proof fn lemma_explicit_drop(explicit_drop: ExplicitDrop, scopes: Scopes, after: Statement)
    requires
        scopes.1.len() > 0,
    ensures
        ({
            let statement = Statement::ExplicitDrop(explicit_drop);
            let target = explicit_drop.target;
            let dropped = dropping(scopes, resolved_target(scopes, target.node));
            &&& statement_outcome(statement, scopes).0 is Ok ==> resolution(scopes, target.node, target.span) is Ok
                && expression_outcome(explicit_drop.expression, dropped).0 is Ok
            &&& resolution(scopes, target.node, target.span) is Ok && plain(explicit_drop.expression.node)
                && uses(explicit_drop.expression.node, target.node.0@) ==> statement_outcome(statement, scopes).0 is Err
            &&& statement_rewritten(statement, after, scopes) ==> (after matches Statement::ExplicitDrop(done)
                && done.target == Spanned { node: resolved_target(scopes, target.node), span: target.span }
                && expression_rewritten(explicit_drop.expression, done.expression, dropped))
        }),
{
    let statement = Statement::ExplicitDrop(explicit_drop);
    let target = explicit_drop.target;
    let identifier = target.node.0@;
    let dropped = dropping(scopes, resolved_target(scopes, target.node));
    if resolution(scopes, target.node, target.span) is Ok && plain(explicit_drop.expression.node)
        && uses(explicit_drop.expression.node, identifier) {
        let position = dropped.1.len() - 1;
        assert(dropped.1[position].contains(resolved_target(scopes, target.node)@));
        assert(dropped.0 == scopes.0);
        assert(generation_of(dropped, identifier) == generation_of(scopes, identifier));
        lemma_plain_dropped(explicit_drop.expression, dropped, identifier);
    }
    if statement_rewritten(statement, after, scopes) {
        if let Statement::ExplicitDrop(done) = after {
            assert(after == Statement::ExplicitDrop(done));
        }
    }
}

/// A binding resolves its expression before it registers its target: it
/// succeeds exactly when the expression does; once it succeeds, its
/// identifier resolves to the generation it was given: one above the one
/// the innermost scope held, or zero where that scope did not bind it. What it gives back has its expression rewritten and its target
/// registered.
pub proof fn lemma_binding(binding: Binding, scopes: Scopes, after: Statement)
    requires
        scopes.0.len() > 0,
    ensures
        ({
            let statement = Statement::Binding(binding);
            let (expression_result, after_expression) = expression_outcome(binding.expression, scopes);
            let identifier = binding.target.node.0@;
            &&& statement_outcome(statement, scopes).0 is Ok <==> expression_result is Ok
            &&& expression_result is Ok && after_expression.0.len() > 0 ==> {
                let registered = statement_outcome(statement, scopes).1;
                &&& !unbound(registered, identifier)
                &&& generation_of(registered, identifier) == if after_expression.0.last().contains_key(identifier) {
                    registered_target(after_expression, binding.target.node).1
                } else {
                    0usize
                }
            }
            &&& statement_rewritten(statement, after, scopes) ==> (after matches Statement::Binding(done)
                && expression_rewritten(binding.expression, done.expression, scopes)
                && done.target == Spanned {
                    node: registered_target(after_expression, binding.target.node),
                    span: binding.target.span,
                })
        }),
{
    let statement = Statement::Binding(binding);
    let (expression_result, after_expression) = expression_outcome(binding.expression, scopes);
    let identifier = binding.target.node.0@;
    if expression_result is Ok && after_expression.0.len() > 0 {
        let frame = after_expression.0.last();
        let generation = if frame.contains_key(identifier) { (frame[identifier] + 1) as usize } else { 0usize };
        lemma_register_resolve(after_expression.0, identifier, generation);
    }
    if statement_rewritten(statement, after, scopes) {
        if let Statement::Binding(done) = after {
            assert(after == Statement::Binding(done));
        }
    }
}

/// The scopes of a fresh pass: one empty scope of each kind.
pub open spec fn initial_scopes() -> Scopes {
    (seq![Map::<Seq<char>, usize>::empty()], seq![Set::<(Seq<char>, nat)>::empty()])
}

/// The number of bindings that a pass over a function registers at most.
pub open spec fn function_bindings(function: Function) -> nat {
    function.parameters@.len() + block_bindings(function.expression_block.node.block.node)
        + bindings(function.expression_block.node.expression.node)
}

/// Whether every loop and branch of a function's body has its conditions.
pub open spec fn function_complete(function: Function) -> bool {
    block_complete(function.expression_block.node.block.node) && complete(function.expression_block.node.expression.node)
}

/// The scopes that the pass over function `index` of a unit starts from: the
/// given ones for the first, fresh ones after that.
pub open spec fn unit_scopes(index: int, first: Scopes) -> Scopes {
    if index == 0 { first } else { initial_scopes() }
}

/// The errors of the passes over functions in order, one for each function
/// whose pass fails.
pub open spec fn unit_errors(functions: Seq<Function>, first: Scopes) -> Seq<Spanned<ExpositionError>>
    decreases functions.len(),
{
    if functions.len() == 0 {
        Seq::empty()
    } else {
        let rest = unit_errors(functions.drop_last(), first);
        match function_outcome(functions.last(), unit_scopes(functions.len() - 1, first)).0 {
            Err(error) => rest.push(error),
            Ok(_) => rest,
        }
    }
}

/// The target of a binding once the innermost scope records it: the next
/// generation where that scope already binds its identifier, the target
/// itself otherwise.
pub open spec fn registered_target(scopes: Scopes, target: VariableTarget) -> VariableTarget {
    let frame = scopes.0.last();
    if frame.contains_key(target.0@) {
        VariableTarget(target.0, (frame[target.0@] + 1) as usize)
    } else {
        target
    }
}

/// A spanned target once resolved in scopes.
pub open spec fn target_rewritten(before: Spanned<VariableTarget>, after: Spanned<VariableTarget>, scopes: Scopes) -> bool {
    after == Spanned { node: resolved_target(scopes, before.node), span: before.span }
}

/// Whether `after` is the expression `before` once a pass that succeeds has
/// given each of its variables a generation, starting from `scopes`: the same
/// tree, each variable resolved in the scopes that the parts before it leave.
pub open spec fn expression_rewritten(before: Spanned<Expression>, after: Spanned<Expression>, scopes: Scopes) -> bool
    decreases before,
{
    &&& after.span == before.span
    &&& match before.node {
        Expression::Variable(target) => after.node == Expression::Variable(resolved_target(scopes, target)),
        Expression::BinaryOperation(operation) => match after.node {
            Expression::BinaryOperation(done) => {
                &&& done.operator == operation.operator
                &&& expression_rewritten(operation.left, done.left, scopes)
                &&& expression_rewritten(operation.right, done.right, expression_outcome(operation.left, scopes).1)
            },
            _ => false,
        },
        Expression::WhenConditional(when_conditional) => match after.node {
            Expression::WhenConditional(done) => branches_rewritten(when_conditional.branches@, done.branches@, scopes),
            _ => false,
        },
        Expression::ExpressionBlock(expression_block) => match after.node {
            Expression::ExpressionBlock(done) => expression_block_rewritten(*expression_block, *done, scopes),
            _ => false,
        },
        Expression::FunctionCall(function_call) => match after.node {
            Expression::FunctionCall(done) => {
                &&& done.function == function_call.function
                &&& arguments_rewritten(function_call.arguments@, done.arguments@, scopes)
            },
            _ => false,
        },
        _ => after.node == before.node,
    }
}

/// `expression_rewritten` of an expression that may be absent.
pub open spec fn optional_rewritten(before: Option<Spanned<Expression>>, after: Option<Spanned<Expression>>, scopes: Scopes)
    -> bool
    decreases before,
{
    match before {
        Some(expression) => match after {
            Some(done) => expression_rewritten(expression, done, scopes),
            None => false,
        },
        None => after is None,
    }
}

/// `expression_rewritten` of each expression, in the scopes that the ones
/// before it leave.
pub open spec fn arguments_rewritten(before: Seq<Spanned<Expression>>, after: Seq<Spanned<Expression>>, scopes: Scopes)
    -> bool
    decreases before,
{
    if before.len() == 0 {
        after.len() == 0
    } else {
        &&& after.len() == before.len()
        &&& arguments_rewritten(before.drop_last(), after.drop_last(), scopes)
        &&& expression_rewritten(before.last(), after.last(), arguments_outcome(before.drop_last(), scopes).1)
    }
}

/// The block rewritten, then the expression of its value.
pub open spec fn expression_block_rewritten(before: ExpressionBlock, after: ExpressionBlock, scopes: Scopes) -> bool
    decreases before,
{
    &&& after.block.span == before.block.span
    &&& statements_rewritten(before.block.node.statements@, after.block.node.statements@, scopes)
    &&& expression_rewritten(
        before.expression,
        after.expression,
        statements_outcome(before.block.node.statements@, scopes).1,
    )
}

/// `statement_rewritten` of each statement, its span kept, in the scopes that
/// the ones before it leave.
pub open spec fn statements_rewritten(before: Seq<Spanned<Statement>>, after: Seq<Spanned<Statement>>, scopes: Scopes) -> bool
    decreases before,
{
    if before.len() == 0 {
        after.len() == 0
    } else {
        &&& after.len() == before.len()
        &&& statements_rewritten(before.drop_last(), after.drop_last(), scopes)
        &&& after.last().span == before.last().span
        &&& statement_rewritten(before.last().node, after.last().node, statements_outcome(before.drop_last(), scopes).1)
    }
}

/// A statement once its parts are rewritten in the order of
/// `statement_outcome`; the target of a binding is registered after its
/// expression.
pub open spec fn statement_rewritten(before: Statement, after: Statement, scopes: Scopes) -> bool
    decreases before,
{
    match before {
        Statement::Binding(binding) => match after {
            Statement::Binding(done) => {
                let after_expression = expression_outcome(binding.expression, scopes).1;
                &&& expression_rewritten(binding.expression, done.expression, scopes)
                &&& done.target == Spanned {
                    node: registered_target(after_expression, binding.target.node),
                    span: binding.target.span,
                }
                &&& done.size == binding.size
                &&& done.is_mutable == binding.is_mutable
            },
            _ => false,
        },
        Statement::Mutation(Mutation::Swap(left, right)) => match after {
            Statement::Mutation(Mutation::Swap(done_left, done_right)) => target_rewritten(left, done_left, scopes)
                && target_rewritten(right, done_right, scopes),
            _ => false,
        },
        Statement::Mutation(Mutation::AddAssign(target, expression)) => match after {
            Statement::Mutation(Mutation::AddAssign(done_target, done_expression)) => target_rewritten(
                target,
                done_target,
                scopes,
            ) && expression_rewritten(expression, done_expression, scopes),
            _ => false,
        },
        Statement::Mutation(Mutation::MinusAssign(target, expression)) => match after {
            Statement::Mutation(Mutation::MinusAssign(done_target, done_expression)) => target_rewritten(
                target,
                done_target,
                scopes,
            ) && expression_rewritten(expression, done_expression, scopes),
            _ => false,
        },
        Statement::Mutation(Mutation::MultiplyAssign(target, expression)) => match after {
            Statement::Mutation(Mutation::MultiplyAssign(done_target, done_expression)) => target_rewritten(
                target,
                done_target,
                scopes,
            ) && expression_rewritten(expression, done_expression, scopes),
            _ => false,
        },
        Statement::ExplicitDrop(explicit_drop) => match after {
            Statement::ExplicitDrop(done) => {
                let resolved = resolved_target(scopes, explicit_drop.target.node);
                &&& target_rewritten(explicit_drop.target, done.target, scopes)
                &&& expression_rewritten(explicit_drop.expression, done.expression, dropping(scopes, resolved))
            },
            _ => false,
        },
        Statement::ConditionalLoop(conditional_loop) => match after {
            Statement::ConditionalLoop(done) => {
                let after_start = match conditional_loop.start_condition {
                    Some(start_condition) => expression_outcome(start_condition, scopes).1,
                    None => scopes,
                };
                let after_end = expression_outcome(conditional_loop.end_condition, after_start).1;
                &&& optional_rewritten(conditional_loop.start_condition, done.start_condition, scopes)
                &&& expression_rewritten(conditional_loop.end_condition, done.end_condition, after_start)
                &&& done.block.span == conditional_loop.block.span
                &&& statements_rewritten(
                    conditional_loop.block.node.statements@,
                    done.block.node.statements@,
                    (after_end.0.push(Map::empty()), after_end.1),
                )
            },
            _ => false,
        },
    }
}

/// `branch_rewritten` of each branch, in the scopes that the ones before it leave.
pub open spec fn branches_rewritten(before: Seq<WhenBranch>, after: Seq<WhenBranch>, scopes: Scopes) -> bool
    decreases before,
{
    if before.len() == 0 {
        after.len() == 0
    } else {
        &&& after.len() == before.len()
        &&& branches_rewritten(before.drop_last(), after.drop_last(), scopes)
        &&& branch_rewritten(before.last(), after.last(), branches_outcome(before.drop_last(), scopes, Set::empty()).1)
    }
}

/// A branch once its parts are rewritten in the scopes of `branch_outcome`.
pub open spec fn branch_rewritten(before: WhenBranch, after: WhenBranch, scopes: Scopes) -> bool
    decreases before,
{
    let pushed = (scopes.0, scopes.1.push(Set::empty()));
    let after_condition = expression_outcome(before.condition, pushed).1;
    let after_end = match before.end_condition {
        Some(end_condition) => expression_outcome(end_condition, after_condition).1,
        None => after_condition,
    };
    &&& expression_rewritten(before.condition, after.condition, pushed)
    &&& optional_rewritten(before.end_condition, after.end_condition, after_condition)
    &&& after.expression_block.span == before.expression_block.span
    &&& expression_block_rewritten(
        before.expression_block.node,
        after.expression_block.node,
        (after_end.0.push(Map::empty()), after_end.1),
    )
}

/// Each parameter registered, its span kept, in the scopes that the ones
/// before it leave.
pub open spec fn parameters_rewritten(before: Seq<Spanned<VariableTarget>>, after: Seq<Spanned<VariableTarget>>, scopes: Scopes)
    -> bool
    decreases before,
{
    if before.len() == 0 {
        after.len() == 0
    } else {
        &&& after.len() == before.len()
        &&& parameters_rewritten(before.drop_last(), after.drop_last(), scopes)
        &&& after.last() == Spanned {
            node: registered_target(parameters_outcome(before.drop_last(), scopes), before.last().node),
            span: before.last().span,
        }
    }
}

/// A function once its parameters are registered and its body rewritten.
pub open spec fn function_rewritten(before: Function, after: Function, scopes: Scopes) -> bool {
    &&& after.identifier == before.identifier
    &&& after.return_span == before.return_span
    &&& after.span == before.span
    &&& after.expression_block.span == before.expression_block.span
    &&& parameters_rewritten(before.parameters@, after.parameters@, scopes)
    &&& expression_block_rewritten(
        before.expression_block.node,
        after.expression_block.node,
        parameters_outcome(before.parameters@, scopes),
    )
}

/// The pass over arguments and one more: the one more in the scopes the
/// arguments leave, if they succeed.
proof fn lemma_arguments_push(arguments: Seq<Spanned<Expression>>, argument: Spanned<Expression>, scopes: Scopes)
    ensures
        arguments_outcome(arguments.push(argument), scopes) == ({
            let (result, after) = arguments_outcome(arguments, scopes);
            if result is Err { (result, after) } else { expression_outcome(argument, after) }
        }),
    decreases arguments.len(),
{
    let pushed = arguments.push(argument);
    if arguments.len() == 0 {
        let empty = pushed.subrange(1, pushed.len() as int);
        assert(empty =~= Seq::<Spanned<Expression>>::empty());
        assert(pushed[0] == argument);
        let (result, after) = expression_outcome(argument, scopes);
        assert(arguments_outcome(empty, after) == (Ok::<(), Spanned<ExpositionError>>(()), after));
        if result is Ok {
            let unit: () = result->Ok_0;
            assert(unit == ());
        }
    } else {
        let rest = arguments.subrange(1, arguments.len() as int);
        assert(pushed[0] == arguments[0]);
        assert(pushed.subrange(1, pushed.len() as int) =~= rest.push(argument));
        lemma_arguments_push(rest, argument, expression_outcome(arguments[0], scopes).1);
    }
}

/// The pass over statements and one more.
proof fn lemma_statements_push(statements: Seq<Spanned<Statement>>, statement: Spanned<Statement>, scopes: Scopes)
    ensures
        statements_outcome(statements.push(statement), scopes) == ({
            let (result, after) = statements_outcome(statements, scopes);
            if result is Err { (result, after) } else { statement_outcome(statement.node, after) }
        }),
    decreases statements.len(),
{
    let pushed = statements.push(statement);
    if statements.len() == 0 {
        let empty = pushed.subrange(1, pushed.len() as int);
        assert(empty =~= Seq::<Spanned<Statement>>::empty());
        assert(pushed[0] == statement);
        let (result, after) = statement_outcome(statement.node, scopes);
        assert(statements_outcome(empty, after) == (Ok::<(), Spanned<ExpositionError>>(()), after));
        if result is Ok {
            let unit: () = result->Ok_0;
            assert(unit == ());
        }
    } else {
        let rest = statements.subrange(1, statements.len() as int);
        assert(pushed[0] == statements[0]);
        assert(pushed.subrange(1, pushed.len() as int) =~= rest.push(statement));
        lemma_statements_push(rest, statement, statement_outcome(statements[0].node, scopes).1);
    }
}

/// The pass over branches and one more.
proof fn lemma_branches_push(branches: Seq<WhenBranch>, branch: WhenBranch, scopes: Scopes, dropped: Set<(Seq<char>, nat)>)
    ensures
        branches_outcome(branches.push(branch), scopes, dropped) == ({
            let (result, after, gathered) = branches_outcome(branches, scopes, dropped);
            if result is Err {
                (result, after, gathered)
            } else {
                let (last, after_last, dropped_last) = branch_outcome(branch, after);
                if last is Err { (last, after_last, gathered) } else { (last, after_last, gathered.union(dropped_last)) }
            }
        }),
    decreases branches.len(),
{
    let pushed = branches.push(branch);
    if branches.len() == 0 {
        let empty = pushed.subrange(1, pushed.len() as int);
        assert(empty =~= Seq::<WhenBranch>::empty());
        assert(pushed[0] == branch);
        let (result, after, dropped_here) = branch_outcome(branch, scopes);
        assert(branches_outcome(empty, after, dropped.union(dropped_here))
            == (Ok::<(), Spanned<ExpositionError>>(()), after, dropped.union(dropped_here)));
        if result is Ok {
            let unit: () = result->Ok_0;
            assert(unit == ());
        }
    } else {
        let rest = branches.subrange(1, branches.len() as int);
        assert(pushed[0] == branches[0]);
        assert(pushed.subrange(1, pushed.len() as int) =~= rest.push(branch));
        let (_, after, dropped_here) = branch_outcome(branches[0], scopes);
        lemma_branches_push(rest, branch, after, dropped.union(dropped_here));
    }
}

/// The registration of parameters and one more.
proof fn lemma_parameters_push(parameters: Seq<Spanned<VariableTarget>>, parameter: Spanned<VariableTarget>, scopes: Scopes)
    ensures
        parameters_outcome(parameters.push(parameter), scopes)
            == registration(parameters_outcome(parameters, scopes), parameter.node.0@),
    decreases parameters.len(),
{
    let pushed = parameters.push(parameter);
    if parameters.len() == 0 {
        assert(pushed.subrange(1, pushed.len() as int) =~= Seq::<Spanned<VariableTarget>>::empty());
        assert(pushed[0] == parameter);
        assert(parameters_outcome(parameters, scopes) == scopes);
        assert(parameters_outcome(pushed, scopes) == parameters_outcome(pushed.subrange(1, pushed.len() as int), registration(scopes, parameter.node.0@)));
        assert(parameters_outcome(pushed, scopes) == registration(scopes, parameter.node.0@));
    } else {
        let rest = parameters.subrange(1, parameters.len() as int);
        assert(pushed[0] == parameters[0]);
        assert(pushed.subrange(1, pushed.len() as int) =~= rest.push(parameter));
        lemma_parameters_push(rest, parameter, registration(scopes, parameters[0].node.0@));
    }
}

/// Whether no frame holds a generation above a bound.
pub open spec fn frames_bounded(frames: Seq<Map<Seq<char>, usize>>, bound: nat) -> bool {
    forall|i: int, identifier: Seq<char>| 0 <= i < frames.len() && #[trigger] frames[i].contains_key(identifier)
        ==> frames[i][identifier] <= bound
}

proof fn lemma_kept_same(exposition: VariableExposition)
    ensures
        exposition.kept(exposition, 0),
{
    assert(exposition.drops().last().subset_of(exposition.drops().last()));
}

/// A registration keeps the scopes but for one rise of a generation.
proof fn lemma_kept_step(before: VariableExposition, after: VariableExposition)
    requires
        after.generations().len() == before.generations().len(),
        after.drops() == before.drops(),
        forall|bound: nat| #[trigger] before.bounded(bound) ==> after.bounded(bound + 1),
    ensures
        after.kept(before, 1),
{
    assert(before.drops().last().subset_of(after.drops().last()));
}

/// Scopes of drops left as they were keep what a pass over `count` bindings keeps.
proof fn lemma_kept_step_many(before: VariableExposition, after: VariableExposition, count: nat)
    requires
        after.generations().len() == before.generations().len(),
        after.drops() == before.drops(),
        forall|bound: nat| #[trigger] before.bounded(bound) ==> after.bounded(bound + count),
    ensures
        after.kept(before, count),
{
    assert(before.drops().last().subset_of(after.drops().last()));
}

/// Adding drops to the innermost scope keeps everything else.
proof fn lemma_kept_unions(before: VariableExposition, after: VariableExposition)
    requires
        after.generations() == before.generations(),
        after.drops().len() == before.drops().len(),
        before.drops().len() > 0,
        forall|i: int| 0 <= i < before.drops().len() - 1 ==> #[trigger] after.drops()[i] == before.drops()[i],
        before.drops().last().subset_of(after.drops().last()),
    ensures
        after.kept(before, 0),
{
}

proof fn lemma_kept_chain(
    first: VariableExposition,
    second: VariableExposition,
    third: VariableExposition,
    count: nat,
    more: nat,
)
    requires
        second.kept(first, count),
        third.kept(second, more),
    ensures
        third.kept(first, count + more),
{
    assert forall|bound: nat| #[trigger] first.bounded(bound) implies third.bounded(bound + count + more) by {
        assert(second.bounded(bound + count));
    }
    assert forall|i: int| 0 <= i < first.drops().len() - 1 implies #[trigger] third.drops()[i] == first.drops()[i] by {
        assert(second.drops()[i] == first.drops()[i]);
    }
}

proof fn lemma_frames_monotone(frames: Seq<Map<Seq<char>, usize>>, bound: nat, larger: nat)
    requires
        frames_bounded(frames, bound),
        bound <= larger,
    ensures
        frames_bounded(frames, larger),
{
}

proof fn lemma_frames_push(frames: Seq<Map<Seq<char>, usize>>, frame: Map<Seq<char>, usize>, bound: nat)
    requires
        frames_bounded(frames, bound),
        frame.dom().is_empty(),
    ensures
        frames_bounded(frames.push(frame), bound),
{
    let pushed = frames.push(frame);
    assert forall|i: int, identifier: Seq<char>| 0 <= i < pushed.len() && #[trigger] pushed[i].contains_key(identifier)
        implies pushed[i][identifier] <= bound by {
        if i < frames.len() {
            assert(pushed[i] == frames[i]);
        } else {
            assert(frame.dom().contains(identifier));
        }
    }
}

proof fn lemma_frames_pop(frames: Seq<Map<Seq<char>, usize>>, bound: nat)
    requires
        frames_bounded(frames, bound),
        frames.len() > 0,
    ensures
        frames_bounded(frames.drop_last(), bound),
{
    let popped = frames.drop_last();
    assert forall|i: int, identifier: Seq<char>| 0 <= i < popped.len() && #[trigger] popped[i].contains_key(identifier)
        implies popped[i][identifier] <= bound by {
        assert(popped[i] == frames[i]);
    }
}

proof fn lemma_frames_register(frames: Seq<Map<Seq<char>, usize>>, identifier: Seq<char>, generation: usize, bound: nat)
    requires
        frames_bounded(frames, bound),
        frames.len() > 0,
        generation <= bound + 1,
    ensures
        frames_bounded(frames.update(frames.len() - 1, frames.last().insert(identifier, generation)), bound + 1),
{
    let registered = frames.update(frames.len() - 1, frames.last().insert(identifier, generation));
    assert forall|i: int, key: Seq<char>| 0 <= i < registered.len() && #[trigger] registered[i].contains_key(key)
        implies registered[i][key] <= bound + 1 by {
        if i < frames.len() - 1 {
            assert(registered[i] == frames[i]);
        } else if key != identifier {
            assert(frames[i].contains_key(key));
        }
    }
}

/// Gives each variable target the generation of the binding it refers to,
/// and checks that every variable is bound and not yet dropped where it is
/// used. A later binding of an identifier in the same scope shadows the
/// earlier one by taking the next generation.
#[derive(Debug)]
pub struct VariableExposition {
    generation_frames: Vec<GenerationFrame>,
    drop_frames: Vec<DropFrame>,
}

impl VariableExposition {
    /// The scopes, innermost last: the latest generation of each identifier bound in each.
    pub closed spec fn generations(&self) -> Seq<Map<Seq<char>, usize>> {
        self.generation_frames@.map_values(|frame: GenerationFrame| generation_entries(frame))
    }

    /// The scopes of drops, innermost last: the variables dropped in each.
    pub closed spec fn drops(&self) -> Seq<Set<(Seq<char>, nat)>> {
        self.drop_frames@.map_values(|frame: DropFrame| dropped_entries(frame))
    }

    /// Whether some scope of drops holds a variable.
    pub open spec fn is_dropped(&self, target: (Seq<char>, nat)) -> bool {
        dropped_in(self.drops(), target)
    }

    /// The scopes of bindings and of drops.
    pub open spec fn scopes(&self) -> Scopes {
        (self.generations(), self.drops())
    }

    /// The innermost generation frame.
    pub fn generation_frame(&mut self) -> (frame: &mut GenerationFrame)
        requires
            old(self).generations().len() > 0,
        ensures
            generation_entries(*frame) == old(self).generations().last(),
            final(self).generations() == old(self).generations().update(
                old(self).generations().len() - 1,
                generation_entries(*final(frame)),
            ),
            final(self).drops() == old(self).drops(),
    {
        let last = self.generation_frames.len() - 1;
        &mut self.generation_frames[last]
    }

    /// The innermost frame of drops.
    pub fn drop_frame(&mut self) -> (frame: &mut DropFrame)
        requires
            old(self).drops().len() > 0,
        ensures
            dropped_entries(*frame) == old(self).drops().last(),
            final(self).drops() == old(self).drops().update(old(self).drops().len() - 1, dropped_entries(*final(frame))),
            final(self).generations() == old(self).generations(),
    {
        let last = self.drop_frames.len() - 1;
        &mut self.drop_frames[last]
    }

    /// Records the binding of a target in the innermost scope. If the scope
    /// already binds its identifier, the target takes the next generation;
    /// otherwise the identifier is recorded with generation zero and the
    /// target is left as it is.
    pub fn register_target(&mut self, target: &mut VariableTarget)
        requires
            old(self).generations().len() > 0,
            old(self).generations().last().contains_key(old(target).0@)
                ==> old(self).generations().last()[old(target).0@] < usize::MAX,
        ensures
            ({
                let frame = old(self).generations().last();
                let identifier = old(target).0@;
                if frame.contains_key(identifier) {
                    &&& final(target).0 == old(target).0
                    &&& final(target).1 == frame[identifier] + 1
                    &&& final(self).generations() == old(self).generations().update(
                        old(self).generations().len() - 1,
                        frame.insert(identifier, (frame[identifier] + 1) as usize),
                    )
                } else {
                    &&& *final(target) == *old(target)
                    &&& final(self).generations() == old(self).generations().update(
                        old(self).generations().len() - 1,
                        frame.insert(identifier, 0),
                    )
                }
            }),
            final(self).drops() == old(self).drops(),
            forall|bound: nat| #[trigger] old(self).bounded(bound) ==> final(self).bounded(bound + 1),
    {
        let ghost before = old(self).generations();
        let frame = self.generation_frame();
        match frame.get(&target.0) {
            Some(current_generation) => {
                frame.insert(target.0.duplicate(), current_generation + 1);
                target.1 = current_generation + 1;
            },
            None => {
                frame.insert(target.0.duplicate(), 0);
            },
        }
        proof {
            assert forall|bound: nat| #[trigger] old(self).bounded(bound) implies self.bounded(bound + 1) by {
                let identifier = old(target).0@;
                let frame = before.last();
                let generation = if frame.contains_key(identifier) { (frame[identifier] + 1) as usize } else { 0usize };
                if frame.contains_key(identifier) {
                    assert(before[before.len() - 1].contains_key(identifier));
                }
                lemma_frames_register(before, identifier, generation, bound);
            }
        }
    }

    /// Resolves a spanned target at its own span: see `resolve_target_span`.
    pub fn resolve_target(&self, target: &mut Spanned<VariableTarget>) -> (result: Result<(), Spanned<ExpositionError>>)
        ensures
            final(target).span == old(target).span,
            ({
                let identifier = old(target).node.0@;
                match innermost_generation(self.generations(), identifier, self.generations().len() as int) {
                    Some(frame) => {
                        &&& final(target).node == VariableTarget(old(target).node.0, self.generations()[frame][identifier])
                        &&& result == self.alive(final(target).node, old(target).span)
                    },
                    None => {
                        &&& final(target).node == old(target).node
                        &&& result == Err::<(), Spanned<ExpositionError>>(Spanned {
                            node: ExpositionError::UndefinedVariable(old(target).node.0),
                            span: old(target).span,
                        })
                    },
                }
            }),
    {
        let span = target.span;
        self.resolve_target_span(&mut target.node, span)
    }

    /// Gives a target the generation that the innermost scope binding its
    /// identifier holds for it, and checks that the variable is not dropped
    /// (see `alive`). An identifier that no scope binds is an error at `span`,
    /// and the target is left as it is.
    pub fn resolve_target_span(&self, target: &mut VariableTarget, span: Span) -> (result: Result<(), Spanned<ExpositionError>>)
        ensures
            ({
                let identifier = old(target).0@;
                match innermost_generation(self.generations(), identifier, self.generations().len() as int) {
                    Some(frame) => {
                        &&& *final(target) == VariableTarget(old(target).0, self.generations()[frame][identifier])
                        &&& result == self.alive(*final(target), span)
                    },
                    None => {
                        &&& *final(target) == *old(target)
                        &&& result == Err::<(), Spanned<ExpositionError>>(Spanned {
                            node: ExpositionError::UndefinedVariable(old(target).0),
                            span,
                        })
                    },
                }
            }),
    {
        let mut index = self.generation_frames.len();
        while index > 0
            invariant
                index <= self.generation_frames@.len(),
                *target == *old(target),
                innermost_generation(self.generations(), target.0@, self.generations().len() as int)
                    == innermost_generation(self.generations(), target.0@, index as int),
            decreases index,
        {
            assert(self.generations()[index - 1] == generation_entries(self.generation_frames@[index - 1]));
            match self.generation_frames[index - 1].get(&target.0) {
                Some(target_generation) => {
                    target.1 = target_generation;
                    return self.check_alive(target, span);
                },
                None => {
                    index -= 1;
                },
            }
        }
        Err(Spanned::new(ExpositionError::UndefinedVariable(target.0.duplicate()), span))
    }

    /// What checking a target gives: an error at `span` if some scope of
    /// drops holds it.
    pub open spec fn alive(&self, target: VariableTarget, span: Span) -> Result<(), Spanned<ExpositionError>> {
        alive_in(self.drops(), target, span)
    }

    /// Checks that no scope of drops holds a target: see `alive`.
    pub fn check_alive(&self, target: &VariableTarget, span: Span) -> (result: Result<(), Spanned<ExpositionError>>)
        ensures
            result == self.alive(*target, span),
    {
        let mut index = self.drop_frames.len();
        while index > 0
            invariant
                index <= self.drop_frames@.len(),
                forall|i: int| index <= i < self.drops().len() ==> !(#[trigger] self.drops()[i]).contains(target@),
            decreases index,
        {
            assert(self.drops()[index - 1] == dropped_entries(self.drop_frames@[index - 1]));
            if self.drop_frames[index - 1].contains(target) {
                return Err(Spanned::new(ExpositionError::DroppedVariable(target.duplicate()), span));
            }
            index -= 1;
        }
        Ok(())
    }

    /// Whether no scope holds a generation above a bound.
    pub open spec fn bounded(&self, bound: nat) -> bool {
        frames_bounded(self.generations(), bound)
    }

    /// What a pass over a part holding `count` bindings keeps when it succeeds:
    /// as many scopes of each kind; generations that rose by at most one for
    /// each binding; the outer scopes of drops as they were, and every drop of
    /// the innermost one.
    pub open spec fn kept(&self, previous: VariableExposition, count: nat) -> bool {
        &&& self.generations().len() == previous.generations().len()
        &&& self.drops().len() == previous.drops().len()
        &&& forall|bound: nat| #[trigger] previous.bounded(bound) ==> self.bounded(bound + count)
        &&& forall|i: int| 0 <= i < previous.drops().len() - 1 ==> #[trigger] self.drops()[i] == previous.drops()[i]
        &&& previous.drops().last().subset_of(self.drops().last())
    }

    /// What a pass over a part holding `count` bindings needs: a scope of each
    /// kind, and room for the generations to rise.
    pub open spec fn ready(&self, count: nat) -> bool {
        &&& self.generations().len() > 0
        &&& self.drops().len() > 0
        &&& count < usize::MAX
        &&& self.bounded((usize::MAX - 1 - count) as nat)
    }

    /// Registers the parameters of a function, in order, then resolves its body.
    pub fn function(&mut self, function: &mut Function) -> (result: Result<(), Spanned<ExpositionError>>)
        requires
            old(self).ready(old(function).parameters@.len() + block_bindings(old(function).expression_block.node.block.node)
                + bindings(old(function).expression_block.node.expression.node)),
            block_complete(old(function).expression_block.node.block.node),
            complete(old(function).expression_block.node.expression.node),
        ensures
            result == function_outcome(*old(function), old(self).scopes()).0,
            result is Ok ==> final(self).scopes() == function_outcome(*old(function), old(self).scopes()).1,
            result is Ok ==> function_rewritten(*old(function), *final(function), old(self).scopes()),
            result is Ok ==> final(self).kept(*old(self), old(function).parameters@.len()
                + block_bindings(old(function).expression_block.node.block.node)
                + bindings(old(function).expression_block.node.expression.node)),
    {
        let ghost start = *self;
        let ghost body = block_bindings(function.expression_block.node.block.node)
            + bindings(function.expression_block.node.expression.node);
        let ghost total = function.parameters@.len() + body;
        proof {
            lemma_kept_same(start);
        }
        let count = function.parameters.len();
        assert(old(function).parameters@.subrange(0, count as int) =~= old(function).parameters@);
        let mut index: usize = 0;
        while index < count
            invariant
                start == *old(self),
                count == function.parameters@.len(),
                index <= count,
                self.kept(start, index as nat),
                function.parameters@.len() == old(function).parameters@.len(),
                forall|j: int| index <= j < count ==> #[trigger] function.parameters@[j] == old(function).parameters@[j],
                parameters_outcome(old(function).parameters@, start.scopes())
                    == parameters_outcome(old(function).parameters@.subrange(index as int, count as int), self.scopes()),
                start.ready(total),
                function.expression_block == old(function).expression_block,
                total == count + body,
                function.identifier == old(function).identifier,
                function.return_span == old(function).return_span,
                function.span == old(function).span,
                parameters_outcome(old(function).parameters@.subrange(0, index as int), start.scopes()) == self.scopes(),
                parameters_rewritten(
                    old(function).parameters@.subrange(0, index as int),
                    function.parameters@.subrange(0, index as int),
                    start.scopes(),
                ),
            decreases count - index,
        {
            let ghost previous = function.parameters@;
            let ghost before = *self;
            proof {
                let rest = old(function).parameters@.subrange(index as int, count as int);
                assert(rest[0] == old(function).parameters@[index as int]);
                assert(rest.subrange(1, rest.len() as int) =~= old(function).parameters@.subrange(index + 1, count as int));
                assert(start.bounded((usize::MAX - 1 - total) as nat));
                assert(self.bounded((usize::MAX - 1 - total + index) as nat));
                let frame = self.generations().last();
                let identifier = function.parameters@[index as int].node.0@;
                if frame.contains_key(identifier) {
                    assert(self.generations()[self.generations().len() - 1].contains_key(identifier));
                }
            }
            self.register_target(&mut function.parameters[index].node);
            proof {
                let given = old(function).parameters@;
                let prefix = given.subrange(0, index as int);
                let next = given.subrange(0, index + 1);
                assert(next =~= prefix.push(given[index as int]));
                assert(next.drop_last() =~= prefix);
                lemma_parameters_push(prefix, given[index as int], start.scopes());
                let current = function.parameters@;
                assert(current.subrange(0, index + 1).drop_last() =~= previous.subrange(0, index as int));
                assert(self.drops() == before.drops());
                lemma_kept_step(before, *self);
                lemma_kept_chain(start, before, *self, index as nat, 1);
            }
            index += 1;
        }
        let ghost middle = *self;
        proof {
            assert(function.parameters@.subrange(0, count as int) =~= function.parameters@);
            assert(old(function).parameters@.subrange(count as int, count as int) =~= Seq::<Spanned<VariableTarget>>::empty());
            assert(start.bounded((usize::MAX - 1 - total) as nat));
            lemma_frames_monotone(self.generations(), (usize::MAX - 1 - total + count) as nat, (usize::MAX - 1 - body) as nat);
        }
        let result = self.expression_block(&mut function.expression_block.node);
        proof {
            if result is Ok {
                lemma_kept_chain(start, middle, *self, count as nat, body);
            }
        }
        result
    }

    /// Resolves the parts of an expression, left to right.
    pub fn expression(&mut self, expression: &mut Spanned<Expression>) -> (result: Result<(), Spanned<ExpositionError>>)
        requires
            old(self).ready(bindings(old(expression).node)),
            complete(old(expression).node),
        ensures
            result == expression_outcome(*old(expression), old(self).scopes()).0,
            result is Ok ==> final(self).scopes() == expression_outcome(*old(expression), old(self).scopes()).1,
            result is Ok ==> expression_rewritten(*old(expression), *final(expression), old(self).scopes()),
            result is Ok ==> final(self).kept(*old(self), bindings(old(expression).node)),
        decreases old(expression).node,
    {
        let span = expression.span;
        match &mut expression.node {
            Expression::Unit => Ok(()),
            Expression::Primitive(_) => Ok(()),
            Expression::Variable(target) => {
                let result = self.resolve_target_span(target, span);
                proof {
                    assert forall|bound: nat| #[trigger] old(self).bounded(bound) implies self.bounded(bound + 0) by {}
                }
                result
            },
            Expression::BinaryOperation(operation) => self.binary_operation(operation),
            Expression::WhenConditional(when_conditional) => self.when_conditional(when_conditional),
            Expression::ExpressionBlock(expression_block) => self.expression_block(expression_block),
            Expression::FunctionCall(function_call) => self.function_call(function_call),
        }
    }

    /// Resolves the left operand, then the right.
    pub fn binary_operation(&mut self, operation: &mut BinaryOperation) -> (result: Result<(), Spanned<ExpositionError>>)
        requires
            old(self).ready(bindings(old(operation).left.node) + bindings(old(operation).right.node)),
            complete(old(operation).left.node),
            complete(old(operation).right.node),
        ensures
            result == binary_outcome(*old(operation), old(self).scopes()).0,
            result is Ok ==> final(self).scopes() == binary_outcome(*old(operation), old(self).scopes()).1,
            result is Ok ==> final(operation).operator == old(operation).operator,
            result is Ok ==> expression_rewritten(old(operation).left, final(operation).left, old(self).scopes()),
            result is Ok ==> expression_rewritten(
                old(operation).right,
                final(operation).right,
                expression_outcome(old(operation).left, old(self).scopes()).1,
            ),
            result is Ok ==> final(self).kept(*old(self), bindings(old(operation).left.node) + bindings(old(operation).right.node)),
        decreases *old(operation),
    {
        let ghost start = *self;
        let ghost (left, right) = (bindings(operation.left.node), bindings(operation.right.node));
        assert(self.bounded((usize::MAX - 1 - left - right) as nat));
        let result = self.expression(&mut operation.left);
        if result.is_err() {
            return result;
        }
        let ghost middle = *self;
        assert(self.bounded((usize::MAX - 1 - left - right + left) as nat));
        let result = self.expression(&mut operation.right);
        proof {
            if result is Ok {
                assert forall|bound: nat| #[trigger] start.bounded(bound) implies self.bounded(bound + left + right) by {
                    assert(middle.bounded(bound + left));
                }
            }
        }
        result
    }

    /// Resolves the block, then the expression.
    pub fn expression_block(&mut self, expression_block: &mut ExpressionBlock) -> (result: Result<(), Spanned<ExpositionError>>)
        requires
            old(self).ready(block_bindings(old(expression_block).block.node) + bindings(old(expression_block).expression.node)),
            block_complete(old(expression_block).block.node),
            complete(old(expression_block).expression.node),
        ensures
            result == expression_block_outcome(*old(expression_block), old(self).scopes()).0,
            result is Ok ==> final(self).scopes() == expression_block_outcome(*old(expression_block), old(self).scopes()).1,
            result is Ok ==> expression_block_rewritten(*old(expression_block), *final(expression_block), old(self).scopes()),
            result is Ok ==> final(self).kept(
                *old(self),
                block_bindings(old(expression_block).block.node) + bindings(old(expression_block).expression.node),
            ),
        decreases *old(expression_block),
    {
        let ghost start = *self;
        let ghost (first, second) = (block_bindings(expression_block.block.node), bindings(expression_block.expression.node));
        assert(self.bounded((usize::MAX - 1 - first - second) as nat));
        let result = self.block(&mut expression_block.block.node);
        if result.is_err() {
            return result;
        }
        let ghost middle = *self;
        assert(self.bounded((usize::MAX - 1 - first - second + first) as nat));
        let result = self.expression(&mut expression_block.expression);
        proof {
            if result is Ok {
                assert forall|bound: nat| #[trigger] start.bounded(bound) implies self.bounded(bound + first + second) by {
                    assert(middle.bounded(bound + first));
                }
            }
        }
        result
    }

    /// Resolves each statement in order, stopping at the first error.
    pub fn block(&mut self, block: &mut Block) -> (result: Result<(), Spanned<ExpositionError>>)
        requires
            old(self).ready(block_bindings(*old(block))),
            block_complete(*old(block)),
        ensures
            result == statements_outcome(old(block).statements@, old(self).scopes()).0,
            result is Ok ==> final(self).scopes() == statements_outcome(old(block).statements@, old(self).scopes()).1,
            result is Ok ==> statements_rewritten(old(block).statements@, final(block).statements@, old(self).scopes()),
            result is Ok ==> final(self).kept(*old(self), block_bindings(*old(block))),
        decreases *old(block),
    {
        let ghost start = *self;
        let ghost given = block.statements@;
        let ghost total = statements_bindings(given);
        proof {
            lemma_kept_same(start);
        }
        let count = block.statements.len();
        assert(given.subrange(0, count as int) =~= given);
        let mut index: usize = 0;
        while index < count
            invariant
                start == *old(self),
                count == given.len(),
                index <= count,
                given == old(block).statements@,
                block.statements@.len() == count,
                forall|j: int| index <= j < count ==> #[trigger] block.statements@[j] == given[j],
                statements_complete(given),
                total == statements_bindings(given),
                start.ready(total),
                self.kept(start, statements_bindings(given.subrange(0, index as int))),
                statements_outcome(given, start.scopes())
                    == statements_outcome(given.subrange(index as int, count as int), self.scopes()),
                statements_outcome(given.subrange(0, index as int), start.scopes()).0 is Ok,
                statements_outcome(given.subrange(0, index as int), start.scopes()).1 == self.scopes(),
                statements_rewritten(
                    given.subrange(0, index as int),
                    block.statements@.subrange(0, index as int),
                    start.scopes(),
                ),
            decreases count - index,
        {
            let ghost previous = block.statements@;
            let ghost before = *self;
            let ghost done = statements_bindings(given.subrange(0, index as int));
            let ghost next = statement_bindings(given[index as int].node);
            proof {
                let rest = given.subrange(index as int, count as int);
                assert(rest[0] == given[index as int]);
                assert(rest.subrange(1, rest.len() as int) =~= given.subrange(index + 1, count as int));
                lemma_statements_prefix(given, index as int);
                lemma_statements_prefix(given, index as int + 1);
                assert(start.bounded((usize::MAX - 1 - total) as nat));
                assert(self.bounded((usize::MAX - 1 - total + done) as nat));
                lemma_frames_monotone(self.generations(), (usize::MAX - 1 - total + done) as nat, (usize::MAX - 1 - next) as nat);
            }
            let result = self.statement(&mut block.statements[index]);
            if result.is_err() {
                proof {
                    let rest = given.subrange(index as int, count as int);
                    assert(statements_outcome(rest, before.scopes()).0 == result);
                }
                return result;
            }
            proof {
                let rest = given.subrange(index as int, count as int);
                assert(statements_outcome(rest, before.scopes())
                    == statements_outcome(given.subrange(index + 1, count as int), self.scopes()));
                let prefix = given.subrange(0, index as int);
                let next = given.subrange(0, index + 1);
                assert(next =~= prefix.push(given[index as int]));
                assert(next.drop_last() =~= prefix);
                lemma_statements_push(prefix, given[index as int], start.scopes());
                let current = block.statements@;
                assert(current.subrange(0, index + 1).drop_last() =~= previous.subrange(0, index as int));
            }
            proof {
                lemma_kept_chain(start, before, *self, done, next);
            }
            index += 1;
        }
        assert(given.subrange(0, count as int) =~= given);
        assert(given.subrange(count as int, count as int) =~= Seq::<Spanned<Statement>>::empty());
        assert(block.statements@.subrange(0, count as int) =~= block.statements@);
        Ok(())
    }

    /// Resolves a statement: see the method for each kind.
    pub fn statement(&mut self, statement: &mut Spanned<Statement>) -> (result: Result<(), Spanned<ExpositionError>>)
        requires
            old(self).ready(statement_bindings(old(statement).node)),
            statement_complete(old(statement).node),
        ensures
            result == statement_outcome(old(statement).node, old(self).scopes()).0,
            result is Ok ==> final(self).scopes() == statement_outcome(old(statement).node, old(self).scopes()).1,
            result is Ok ==> final(statement).span == old(statement).span,
            result is Ok ==> statement_rewritten(old(statement).node, final(statement).node, old(self).scopes()),
            result is Ok ==> final(self).kept(*old(self), statement_bindings(old(statement).node)),
        decreases old(statement).node,
    {
        match &mut statement.node {
            Statement::Binding(binding) => self.binding(binding),
            Statement::Mutation(mutation) => self.mutation(mutation),
            Statement::ExplicitDrop(explicit_drop) => self.explicit_drop(explicit_drop),
            Statement::ConditionalLoop(conditional_loop) => self.conditional_loop(conditional_loop),
        }
    }

    /// Resolves the expression, then registers the target it binds.
    pub fn binding(&mut self, binding: &mut Binding) -> (result: Result<(), Spanned<ExpositionError>>)
        requires
            old(self).ready(1 + bindings(old(binding).expression.node)),
            complete(old(binding).expression.node),
        ensures
            result == statement_outcome(Statement::Binding(*old(binding)), old(self).scopes()).0,
            result is Ok ==> statement_rewritten(
                Statement::Binding(*old(binding)),
                Statement::Binding(*final(binding)),
                old(self).scopes(),
            ),
            result is Ok ==> final(self).scopes() == statement_outcome(Statement::Binding(*old(binding)), old(self).scopes()).1,
            result is Ok ==> final(self).kept(*old(self), 1 + bindings(old(binding).expression.node)),
        decreases *old(binding),
    {
        let ghost start = *self;
        let ghost inner = bindings(binding.expression.node);
        assert(self.bounded((usize::MAX - 1 - inner - 1) as nat));
        let result = self.expression(&mut binding.expression);
        if result.is_err() {
            return result;
        }
        let ghost middle = *self;
        proof {
            assert(self.bounded((usize::MAX - 2) as nat));
            let frame = self.generations().last();
            let identifier = binding.target.node.0@;
            if frame.contains_key(identifier) {
                assert(self.generations()[self.generations().len() - 1].contains_key(identifier));
            }
        }
        self.register_target(&mut binding.target.node);
        proof {
            assert forall|bound: nat| #[trigger] start.bounded(bound) implies self.bounded(bound + 1 + inner) by {
                assert(middle.bounded(bound + inner));
                assert(self.bounded(bound + inner + 1));
            }
        }
        Ok(())
    }

    /// Resolves the conditions of a loop, then its block in a scope of its own.
    pub fn conditional_loop(&mut self, conditional_loop: &mut ConditionalLoop) -> (result: Result<(), Spanned<ExpositionError>>)
        requires
            old(self).ready(statement_bindings(Statement::ConditionalLoop(*old(conditional_loop)))),
            statement_complete(Statement::ConditionalLoop(*old(conditional_loop))),
        ensures
            result == statement_outcome(Statement::ConditionalLoop(*old(conditional_loop)), old(self).scopes()).0,
            result is Ok ==> statement_rewritten(
                Statement::ConditionalLoop(*old(conditional_loop)),
                Statement::ConditionalLoop(*final(conditional_loop)),
                old(self).scopes(),
            ),
            result is Ok ==> final(self).scopes()
                == statement_outcome(Statement::ConditionalLoop(*old(conditional_loop)), old(self).scopes()).1,
            result is Ok ==> final(self).kept(*old(self), statement_bindings(Statement::ConditionalLoop(*old(conditional_loop)))),
        decreases *old(conditional_loop),
    {
        let ghost start = *self;
        let ghost first = optional_bindings(conditional_loop.start_condition);
        let ghost second = bindings(conditional_loop.end_condition.node);
        let ghost third = block_bindings(conditional_loop.block.node);
        assert(self.bounded((usize::MAX - 1 - first - second - third) as nat));
        let result = match &mut conditional_loop.start_condition {
            Some(start_condition) => self.expression(start_condition),
            None => Ok(()),
        };
        if result.is_err() {
            return result;
        }
        let ghost after_start = *self;
        assert(self.bounded((usize::MAX - 1 - first - second - third + first) as nat));
        let result = self.expression(&mut conditional_loop.end_condition);
        if result.is_err() {
            return result;
        }
        let ghost after_end = *self;
        assert(self.bounded((usize::MAX - 1 - first - second - third + first + second) as nat));
        let generations = GenerationFrame::new();
        assert(generation_entries(generations) =~= Map::<Seq<char>, usize>::empty());
        self.generation_frames.push(generations);
        assert(self.generations() =~= after_end.generations().push(generation_entries(generations)));
        let ghost pushed = *self;
        proof {
            assert forall|bound: nat| #[trigger] after_end.bounded(bound) implies pushed.bounded(bound) by {
                lemma_frames_push(after_end.generations(), generation_entries(generations), bound);
            }
        }
        let result = self.block(&mut conditional_loop.block.node);
        if result.is_err() {
            return result;
        }
        let ghost after_block = *self;
        self.generation_frames.pop();
        assert(self.generations() =~= after_block.generations().drop_last());
        proof {
            assert forall|bound: nat| #[trigger] start.bounded(bound) implies self.bounded(bound + first + second + third) by {
                assert(after_start.bounded(bound + first));
                assert(after_end.bounded(bound + first + second));
                assert(pushed.bounded(bound + first + second));
                assert(after_block.bounded(bound + first + second + third));
                lemma_frames_pop(after_block.generations(), bound + first + second + third);
            }
        }
        Ok(())
    }

    /// Resolves the dropped target, records it as dropped in the innermost
    /// scope, then resolves the expression of its value.
    pub fn explicit_drop(&mut self, explicit_drop: &mut ExplicitDrop) -> (result: Result<(), Spanned<ExpositionError>>)
        requires
            old(self).ready(bindings(old(explicit_drop).expression.node)),
            complete(old(explicit_drop).expression.node),
        ensures
            result == statement_outcome(Statement::ExplicitDrop(*old(explicit_drop)), old(self).scopes()).0,
            result is Ok ==> statement_rewritten(
                Statement::ExplicitDrop(*old(explicit_drop)),
                Statement::ExplicitDrop(*final(explicit_drop)),
                old(self).scopes(),
            ),
            result is Ok ==> final(self).scopes()
                == statement_outcome(Statement::ExplicitDrop(*old(explicit_drop)), old(self).scopes()).1,
            result is Ok ==> final(self).kept(*old(self), bindings(old(explicit_drop).expression.node)),
            result is Ok ==> final(self).drops().last().contains(final(explicit_drop).target.node@),
        decreases *old(explicit_drop),
    {
        let ghost start = *self;
        let result = self.resolve_target(&mut explicit_drop.target);
        if result.is_err() {
            return result;
        }
        let target = explicit_drop.target.node.duplicate();
        self.drop_frame().insert(target);
        let ghost middle = *self;
        proof {
            assert forall|bound: nat| #[trigger] start.bounded(bound) implies middle.bounded(bound) by {
                assert forall|i: int, identifier: Seq<char>| 0 <= i < middle.generations().len()
                    && #[trigger] middle.generations()[i].contains_key(identifier)
                    implies middle.generations()[i][identifier] <= bound by {
                    assert(start.generations()[i].contains_key(identifier));
                }
            }
            assert(middle.bounded((usize::MAX - 1 - bindings(explicit_drop.expression.node)) as nat));
        }
        let result = self.expression(&mut explicit_drop.expression);
        proof {
            if result is Ok {
                assert forall|bound: nat| #[trigger] start.bounded(bound)
                    implies self.bounded(bound + bindings(old(explicit_drop).expression.node)) by {
                    assert(middle.bounded(bound));
                }
            }
        }
        result
    }

    /// Resolves each argument in order, stopping at the first error.
    pub fn function_call(&mut self, function_call: &mut FunctionCall) -> (result: Result<(), Spanned<ExpositionError>>)
        requires
            old(self).ready(all_bindings(old(function_call).arguments@)),
            all_complete(old(function_call).arguments@),
        ensures
            result == arguments_outcome(old(function_call).arguments@, old(self).scopes()).0,
            result is Ok ==> final(self).scopes() == arguments_outcome(old(function_call).arguments@, old(self).scopes()).1,
            result is Ok ==> final(function_call).function == old(function_call).function,
            result is Ok ==> arguments_rewritten(old(function_call).arguments@, final(function_call).arguments@, old(self).scopes()),
            result is Ok ==> final(self).kept(*old(self), all_bindings(old(function_call).arguments@)),
        decreases *old(function_call),
    {
        let ghost start = *self;
        let ghost given = function_call.arguments@;
        let ghost total = all_bindings(given);
        proof {
            lemma_kept_same(start);
        }
        let count = function_call.arguments.len();
        assert(given.subrange(0, count as int) =~= given);
        let mut index: usize = 0;
        while index < count
            invariant
                start == *old(self),
                count == given.len(),
                index <= count,
                given == old(function_call).arguments@,
                function_call.arguments@.len() == count,
                forall|j: int| index <= j < count ==> #[trigger] function_call.arguments@[j] == given[j],
                all_complete(given),
                total == all_bindings(given),
                start.ready(total),
                self.kept(start, all_bindings(given.subrange(0, index as int))),
                arguments_outcome(given, start.scopes())
                    == arguments_outcome(given.subrange(index as int, count as int), self.scopes()),
                function_call.function == old(function_call).function,
                arguments_outcome(given.subrange(0, index as int), start.scopes()).0 is Ok,
                arguments_outcome(given.subrange(0, index as int), start.scopes()).1 == self.scopes(),
                arguments_rewritten(
                    given.subrange(0, index as int),
                    function_call.arguments@.subrange(0, index as int),
                    start.scopes(),
                ),
            decreases count - index,
        {
            let ghost previous = function_call.arguments@;
            let ghost before = *self;
            let ghost done = all_bindings(given.subrange(0, index as int));
            let ghost next = bindings(given[index as int].node);
            proof {
                let rest = given.subrange(index as int, count as int);
                assert(rest[0] == given[index as int]);
                assert(rest.subrange(1, rest.len() as int) =~= given.subrange(index + 1, count as int));
                lemma_all_prefix(given, index as int);
                lemma_all_prefix(given, index as int + 1);
                assert(start.bounded((usize::MAX - 1 - total) as nat));
                assert(self.bounded((usize::MAX - 1 - total + done) as nat));
                lemma_frames_monotone(self.generations(), (usize::MAX - 1 - total + done) as nat, (usize::MAX - 1 - next) as nat);
            }
            let result = self.expression(&mut function_call.arguments[index]);
            if result.is_err() {
                proof {
                    let rest = given.subrange(index as int, count as int);
                    assert(arguments_outcome(rest, before.scopes()).0 == result);
                }
                return result;
            }
            proof {
                let rest = given.subrange(index as int, count as int);
                assert(arguments_outcome(rest, before.scopes())
                    == arguments_outcome(given.subrange(index + 1, count as int), self.scopes()));
                let prefix = given.subrange(0, index as int);
                let next = given.subrange(0, index + 1);
                assert(next =~= prefix.push(given[index as int]));
                assert(next.drop_last() =~= prefix);
                lemma_arguments_push(prefix, given[index as int], start.scopes());
                let current = function_call.arguments@;
                assert(current.subrange(0, index + 1).drop_last() =~= previous.subrange(0, index as int));
            }
            proof {
                lemma_kept_chain(start, before, *self, done, next);
            }
            index += 1;
        }
        assert(given.subrange(0, count as int) =~= given);
        assert(given.subrange(count as int, count as int) =~= Seq::<Spanned<Expression>>::empty());
        assert(function_call.arguments@.subrange(0, count as int) =~= function_call.arguments@);
        Ok(())
    }

    /// Resolves the targets of a mutation, then its expression.
    pub fn mutation(&mut self, mutation: &mut Mutation) -> (result: Result<(), Spanned<ExpositionError>>)
        requires
            old(self).ready(statement_bindings(Statement::Mutation(*old(mutation)))),
            statement_complete(Statement::Mutation(*old(mutation))),
        ensures
            result == statement_outcome(Statement::Mutation(*old(mutation)), old(self).scopes()).0,
            result is Ok ==> statement_rewritten(
                Statement::Mutation(*old(mutation)),
                Statement::Mutation(*final(mutation)),
                old(self).scopes(),
            ),
            result is Ok ==> final(self).scopes() == statement_outcome(Statement::Mutation(*old(mutation)), old(self).scopes()).1,
            result is Ok ==> final(self).kept(*old(self), statement_bindings(Statement::Mutation(*old(mutation)))),
        decreases *old(mutation),
    {
        let ghost start = *self;
        match mutation {
            Mutation::Swap(left, right) => {
                let result = self.resolve_target(left);
                if result.is_err() {
                    return result;
                }
                let result = self.resolve_target(right);
                proof {
                    assert forall|bound: nat| #[trigger] start.bounded(bound) implies self.bounded(bound + 0) by {}
                }
                result
            },
            Mutation::AddAssign(target, expression) => {
                let result = self.resolve_target(target);
                if result.is_err() {
                    return result;
                }
                self.expression(expression)
            },
            Mutation::MinusAssign(target, expression) => {
                let result = self.resolve_target(target);
                if result.is_err() {
                    return result;
                }
                self.expression(expression)
            },
            Mutation::MultiplyAssign(target, expression) => {
                let result = self.resolve_target(target);
                if result.is_err() {
                    return result;
                }
                self.expression(expression)
            },
        }
    }

    /// Resolves each branch in its own scopes: one of drops around its
    /// conditions and block, and one of generations around its block. What any
    /// branch dropped is then recorded as dropped in the enclosing scope.
    pub fn when_conditional(&mut self, when_conditional: &mut WhenConditional) -> (result: Result<(), Spanned<ExpositionError>>)
        requires
            old(self).ready(branches_bindings(old(when_conditional).branches@)),
            branches_complete(old(when_conditional).branches@),
        ensures
            result == conditional_end(branches_outcome(old(when_conditional).branches@, old(self).scopes(), Set::empty())).0,
            result is Ok ==> branches_rewritten(old(when_conditional).branches@, final(when_conditional).branches@, old(self).scopes()),
            result is Ok ==> final(self).scopes()
                == conditional_end(branches_outcome(old(when_conditional).branches@, old(self).scopes(), Set::empty())).1,
            result is Ok ==> final(self).kept(*old(self), branches_bindings(old(when_conditional).branches@)),
        decreases *old(when_conditional),
    {
        let ghost start = *self;
        let ghost given = when_conditional.branches@;
        let ghost total = branches_bindings(given);
        proof {
            lemma_kept_same(start);
        }
        let mut drop_union = DropFrame::new();
        let count = when_conditional.branches.len();
        assert(given.subrange(0, count as int) =~= given);
        let mut index: usize = 0;
        while index < count
            invariant
                start == *old(self),
                count == given.len(),
                index <= count,
                given == old(when_conditional).branches@,
                when_conditional.branches@.len() == count,
                forall|j: int| index <= j < count ==> #[trigger] when_conditional.branches@[j] == given[j],
                branches_complete(given),
                total == branches_bindings(given),
                start.ready(total),
                self.kept(start, branches_bindings(given.subrange(0, index as int))),
                self.drops() == start.drops(),
                branches_outcome(given, start.scopes(), Set::empty())
                    == branches_outcome(given.subrange(index as int, count as int), self.scopes(), dropped_entries(drop_union)),
                branches_outcome(given.subrange(0, index as int), start.scopes(), Set::empty()).0 is Ok,
                branches_outcome(given.subrange(0, index as int), start.scopes(), Set::empty()).1 == self.scopes(),
                branches_rewritten(
                    given.subrange(0, index as int),
                    when_conditional.branches@.subrange(0, index as int),
                    start.scopes(),
                ),
            decreases count - index,
        {
            let ghost previous = when_conditional.branches@;
            let ghost before = *self;
            let ghost done = branches_bindings(given.subrange(0, index as int));
            proof {
                lemma_branches_prefix(given, index as int);
                lemma_branches_prefix(given, index as int + 1);
            }
            let ghost branch_value = given[index as int];
            let ghost expected = branch_outcome(branch_value, before.scopes());
            let ghost union_before = dropped_entries(drop_union);
            proof {
                let rest = given.subrange(index as int, count as int);
                assert(rest[0] == branch_value);
                assert(rest.subrange(1, rest.len() as int) =~= given.subrange(index + 1, count as int));
            }
            let ghost first = bindings(branch_value.condition.node);
            let ghost second = optional_bindings(branch_value.end_condition);
            let ghost third = block_bindings(branch_value.expression_block.node.block.node)
                + bindings(branch_value.expression_block.node.expression.node);
            assert(start.bounded((usize::MAX - 1 - total) as nat));
            assert(self.bounded((usize::MAX - 1 - total + done) as nat));

            let drops = DropFrame::new();
            self.drop_frames.push(drops);
            assert(self.drops() =~= before.drops().push(dropped_entries(drops)));
            assert(self.generations() =~= before.generations());
            let ghost pushed_drops = *self;
            assert(self.scopes() == (before.generations(), before.drops().push(Set::empty())));
            proof {
                lemma_frames_monotone(self.generations(), (usize::MAX - 1 - total + done) as nat, (usize::MAX - 1 - first) as nat);
            }
            let branch = &mut when_conditional.branches[index];
            let result = self.expression(&mut branch.condition);
            if result.is_err() {
                assert(result == expected.0);
                return result;
            }
            let ghost after_condition = *self;
            proof {
                assert(pushed_drops.bounded((usize::MAX - 1 - total + done) as nat));
                assert(self.bounded((usize::MAX - 1 - total + done + first) as nat));
                lemma_frames_monotone(
                    self.generations(),
                    (usize::MAX - 1 - total + done + first) as nat,
                    (usize::MAX - 1 - second) as nat,
                );
            }
            let result = match &mut branch.end_condition {
                Some(end_condition) => self.expression(end_condition),
                None => Ok(()),
            };
            if result.is_err() {
                assert(result == expected.0);
                return result;
            }
            let ghost after_end = *self;
            proof {
                if branch_value.end_condition is None {
                    lemma_kept_same(after_condition);
                }
                lemma_kept_chain(pushed_drops, after_condition, after_end, first, second);
                assert(pushed_drops.bounded((usize::MAX - 1 - total + done) as nat));
                assert(after_end.bounded((usize::MAX - 1 - total + done + first + second) as nat));
            }
            let generations = GenerationFrame::new();
            assert(generation_entries(generations) =~= Map::<Seq<char>, usize>::empty());
            self.generation_frames.push(generations);
            assert(self.generations() =~= after_end.generations().push(generation_entries(generations)));
            let ghost pushed = *self;
            proof {
                lemma_frames_push(
                    after_end.generations(),
                    generation_entries(generations),
                    (usize::MAX - 1 - total + done + first + second) as nat,
                );
                lemma_frames_monotone(
                    self.generations(),
                    (usize::MAX - 1 - total + done + first + second) as nat,
                    (usize::MAX - 1 - third) as nat,
                );
            }
            let result = self.expression_block(&mut branch.expression_block.node);
            if result.is_err() {
                assert(result == expected.0);
                return result;
            }
            let ghost after_block = *self;
            self.generation_frames.pop();
            assert(self.generations() =~= after_block.generations().drop_last());
            let ghost last_drops = self.drops().last();
            let frame = self.drop_frames.pop().unwrap();
            assert(dropped_entries(frame) == last_drops);
            proof {
                assert forall|i: int| 0 <= i < before.drops().len() implies self.drops()[i] == before.drops()[i] by {
                    assert(after_block.drops()[i] == pushed.drops()[i]);
                    assert(after_end.drops()[i] == pushed_drops.drops()[i]);
                    assert(pushed_drops.drops()[i] == before.drops()[i]);
                }
                assert(self.drops() =~= before.drops());
                assert forall|bound: nat| #[trigger] before.bounded(bound) implies self.bounded(bound + first + second + third) by {
                    assert(pushed_drops.bounded(bound));
                    assert(after_end.bounded(bound + first + second));
                    lemma_frames_push(after_end.generations(), generation_entries(generations), bound + first + second);
                    assert(pushed.bounded(bound + first + second));
                    assert(after_block.bounded(bound + first + second + third));
                    lemma_frames_pop(after_block.generations(), bound + first + second + third);
                }
                lemma_kept_step_many(before, *self, first + second + third);
                lemma_kept_chain(start, before, *self, done, first + second + third);
            }
            drop_union.extend(frame);
            proof {
                assert(expected == (
                    Ok::<(), Spanned<ExpositionError>>(()),
                    (after_block.generations().drop_last(), after_block.drops().drop_last()),
                    after_block.drops().last(),
                ));
                assert(self.scopes() == expected.1);
                assert(dropped_entries(drop_union) == union_before.union(expected.2));
                let prefix = given.subrange(0, index as int);
                let next = given.subrange(0, index + 1);
                assert(next =~= prefix.push(branch_value));
                assert(next.drop_last() =~= prefix);
                lemma_branches_push(prefix, branch_value, start.scopes(), Set::empty());
                let current = when_conditional.branches@;
                assert(current.subrange(0, index + 1).drop_last() =~= previous.subrange(0, index as int));
                assert(branch_rewritten(branch_value, current[index as int], before.scopes()));
            }
            index += 1;
        }
        assert(given.subrange(0, count as int) =~= given);
        let ghost after = *self;
        assert(given.subrange(count as int, count as int) =~= Seq::<WhenBranch>::empty());
        assert(when_conditional.branches@.subrange(0, count as int) =~= when_conditional.branches@);
        self.drop_frame().extend(drop_union);
        proof {
            assert(self.generations() == after.generations());
            assert(after.drops().last().subset_of(self.drops().last()));
            lemma_kept_unions(after, *self);
            lemma_kept_chain(start, after, *self, total, 0);
        }
        Ok(())
    }

    /// Passes over each function of a unit in order, starting afresh after
    /// each, and gathers the error of every function whose pass fails.
    pub fn syntax_unit(&mut self, functions: &mut Vec<Function>) -> (result: Result<(), Vec<Spanned<ExpositionError>>>)
        requires
            old(functions)@.len() > 0 ==> old(self).ready(function_bindings(old(functions)@[0])),
            forall|i: int| 0 <= i < old(functions)@.len() ==> function_bindings(#[trigger] old(functions)@[i])
                < usize::MAX,
            forall|i: int| 0 <= i < old(functions)@.len() ==> function_complete(#[trigger] old(functions)@[i]),
        ensures
            match result {
                Ok(()) => unit_errors(old(functions)@, old(self).scopes()).len() == 0,
                Err(errors) => errors@ == unit_errors(old(functions)@, old(self).scopes())
                    && errors@.len() > 0,
            },
            final(functions)@.len() == old(functions)@.len(),
            forall|i: int| 0 <= i < old(functions)@.len()
                && (#[trigger] function_outcome(old(functions)@[i], unit_scopes(i, old(self).scopes()))).0 is Ok
                ==> function_rewritten(old(functions)@[i], final(functions)@[i], unit_scopes(i, old(self).scopes())),
            old(functions)@.len() > 0 ==> final(self).scopes() == initial_scopes(),
            old(functions)@.len() == 0 ==> final(self).scopes() == old(self).scopes(),
    {
        let ghost first = self.scopes();
        let ghost given = functions@;
        let mut errors: Vec<Spanned<ExpositionError>> = Vec::new();
        let count = functions.len();
        let mut index: usize = 0;
        while index < count
            invariant
                count == given.len(),
                given == old(functions)@,
                first == old(self).scopes(),
                index <= count,
                functions@.len() == count,
                forall|j: int| index <= j < count ==> #[trigger] functions@[j] == given[j],
                forall|i: int| 0 <= i < given.len() ==> function_bindings(#[trigger] given[i]) < usize::MAX,
                forall|i: int| 0 <= i < given.len() ==> function_complete(#[trigger] given[i]),
                index == 0 ==> *self == *old(self),
                index == 0 && count > 0 ==> self.ready(function_bindings(given[0])),
                index > 0 ==> self.scopes() == initial_scopes(),
                errors@ == unit_errors(given.subrange(0, index as int), first),
                forall|i: int| 0 <= i < index
                    && (#[trigger] function_outcome(given[i], unit_scopes(i, first))).0 is Ok
                    ==> function_rewritten(given[i], functions@[i], unit_scopes(i, first)),
            decreases count - index,
        {
            let ghost previous = functions@;
            let ghost scopes = self.scopes();
            proof {
                assert(scopes == unit_scopes(index as int, first));
                if index > 0 {
                    let fresh = self.generations();
                    assert(fresh.len() == 1 && fresh[0] == Map::<Seq<char>, usize>::empty());
                    assert forall|i: int, identifier: Seq<char>| 0 <= i < fresh.len()
                        && #[trigger] fresh[i].contains_key(identifier)
                        implies fresh[i][identifier] <= (usize::MAX - 1 - function_bindings(given[index as int])) as nat by {
                        assert(fresh[0].dom().contains(identifier));
                    }
                }
            }
            let result = self.function(&mut functions[index]);
            proof {
                let next = given.subrange(0, index + 1);
                assert(next.drop_last() =~= given.subrange(0, index as int));
                assert(next.last() == given[index as int]);
                assert forall|j: int| index < j < count implies #[trigger] functions@[j] == given[j] by {
                    assert(functions@[j] == previous[j]);
                }
                assert forall|i: int| 0 <= i < index implies #[trigger] functions@[i] == previous[i] by {}
            }
            match result {
                Ok(()) => {},
                Err(error) => {
                    errors.push(error);
                },
            }
            *self = VariableExposition::default();
            proof {
                assert(self.generations()[0] =~= Map::<Seq<char>, usize>::empty());
                assert(self.generations() =~= initial_scopes().0);
                assert(self.drops()[0] =~= Set::<(Seq<char>, nat)>::empty());
                assert(self.drops() =~= initial_scopes().1);
            }
            index += 1;
        }
        assert(given.subrange(0, count as int) =~= given);
        if errors.len() == 0 {
            Ok(())
        } else {
            Err(errors)
        }
    }
}

impl Default for VariableExposition {
    /// One empty scope of generations and one of drops.
    fn default() -> (exposition: VariableExposition)
        ensures
            exposition.generations().len() == 1,
            exposition.generations()[0].dom().is_empty(),
            exposition.drops().len() == 1,
            exposition.drops()[0].is_empty(),
    {
        let mut generation_frames = Vec::new();
        let frame = GenerationFrame::new();
        assert(generation_entries(frame) =~= Map::<Seq<char>, usize>::empty());
        generation_frames.push(frame);
        let mut drop_frames = Vec::new();
        drop_frames.push(DropFrame::new());
        let exposition = VariableExposition { generation_frames, drop_frames };
        exposition
    }
}

} // verus!
