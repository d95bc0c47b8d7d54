use lexica::basic::Direction;
use lexica::compiler::element;
use lexica::compiler::exposition::{ExpositionError, ReverseExposition, VariableExposition};
use lexica::node::{
    BinaryOperation, BinaryOperator, Binding, Block, ConditionalLoop, ExplicitDrop, Expression, ExpressionBlock,
    Function, FunctionCall, Identifier, Mutation, Primitive, Size, Statement, VariableTarget, WhenBranch,
    WhenConditional,
};
use lexica::source::{Span, Spanned};

fn range(start: usize, end: usize) -> Span {
    Span::new(start, end)
}

fn named(name: &str, generation: usize) -> VariableTarget {
    VariableTarget(Identifier(name.to_string()), generation)
}

fn reverse_target(generation: usize) -> VariableTarget {
    named("'reverse", generation)
}

fn truth(at: usize) -> Spanned<Expression> {
    Spanned::new(Expression::Primitive(Primitive::Boolean(true)), range(at, at + 1))
}

fn variable(name: &str, at: usize) -> Spanned<Expression> {
    Spanned::new(Expression::Variable(named(name, 0)), range(at, at + 1))
}

fn block(statements: Vec<Spanned<Statement>>, at: usize) -> Spanned<Block> {
    Spanned::new(Block { statements }, range(at, at + 10))
}

fn expression_block(statements: Vec<Spanned<Statement>>, expression: Spanned<Expression>, at: usize) -> Spanned<ExpressionBlock> {
    Spanned::new(ExpressionBlock { block: block(statements, at), expression }, range(at, at + 10))
}

fn binding(name: &str, value: Spanned<Expression>, at: usize) -> Spanned<Statement> {
    Spanned::new(
        Statement::Binding(Binding {
            target: Spanned::new(named(name, 0), range(at, at + 1)),
            size: None,
            is_mutable: true,
            expression: value,
        }),
        range(at, at + 5),
    )
}

/// Whether an expression tests that a variable holds a value.
fn is_counter_condition(expression: &Expression, counter: &VariableTarget, value: Primitive) -> bool {
    match expression {
        Expression::BinaryOperation(operation) => {
            matches!(&operation.left.node, Expression::Variable(left) if left == counter)
                && matches!(operation.right.node, Expression::Primitive(right) if right == value)
                && operation.operator.node == BinaryOperator::Equal
        }
        _ => false,
    }
}

/// Whether a statement adds a value to a variable.
fn is_counter_increment(statement: &Statement, counter: &VariableTarget, value: Primitive) -> bool {
    match statement {
        Statement::Mutation(Mutation::AddAssign(left, right)) => {
            &left.node == counter && matches!(right.node, Expression::Primitive(right) if right == value)
        }
        _ => false,
    }
}

/// Whether a statement binds a variable of a size to a value.
fn is_counter_binding(statement: &Statement, counter: &VariableTarget, size: Size, value: Primitive) -> bool {
    match statement {
        Statement::Binding(binding) => {
            &binding.target.node == counter
                && binding.size == Some(size)
                && binding.is_mutable
                && matches!(binding.expression.node, Expression::Primitive(initial) if initial == value)
        }
        _ => false,
    }
}

fn branch(end_condition: Option<Spanned<Expression>>, at: usize) -> WhenBranch {
    WhenBranch {
        condition: truth(at),
        expression_block: expression_block(Vec::new(), Spanned::new(Expression::Unit, range(at, at)), at),
        end_condition,
    }
}

#[test]
fn reversal_counters_are_numbered_in_order() {
    let mut exposition = ReverseExposition::default();
    assert_eq!(exposition.next_target(), reverse_target(0));
    assert_eq!(exposition.next_target(), reverse_target(1));
    assert!(exposition.pop_bindings().is_empty());
}

#[test]
fn conditional_without_end_conditions_gets_a_counter() {
    let mut exposition = ReverseExposition::default();
    let conditional = Spanned::new(
        WhenConditional { branches: vec![branch(Some(truth(50)), 10), branch(None, 30)] },
        range(0, 60),
    );
    let conditional = exposition.when_conditional(conditional);
    let counter = reverse_target(0);
    assert_eq!(conditional.node.branches.len(), 2);
    for (index, branch) in conditional.node.branches.iter().enumerate() {
        let value = Primitive::Unsigned64(index as u64 + 1);
        let end_condition = branch.end_condition.as_ref().unwrap();
        assert!(is_counter_condition(&end_condition.node, &counter, value));
        assert_eq!(end_condition.span, range(0, 60));
        let statements = &branch.expression_block.node.block.node.statements;
        assert_eq!(statements.len(), 1);
        assert!(is_counter_increment(&statements[0].node, &counter, value));
    }
    let bindings = exposition.pop_bindings();
    assert_eq!(bindings.len(), 1);
    assert!(is_counter_binding(&bindings[0].node, &counter, Size::Unsigned8, Primitive::Unsigned8(0)));
    assert_eq!(bindings[0].span, range(0, 60));
}

#[test]
fn conditional_with_every_end_condition_is_left_alone() {
    let mut exposition = ReverseExposition::default();
    let conditional = Spanned::new(
        WhenConditional { branches: vec![branch(Some(variable("a", 5)), 10), branch(Some(variable("b", 6)), 30)] },
        range(0, 60),
    );
    let conditional = exposition.when_conditional(conditional);
    let ends: Vec<_> = conditional.node.branches.iter()
        .map(|branch| match &branch.end_condition.as_ref().unwrap().node {
            Expression::Variable(variable) => variable.0 .0.clone(),
            _ => String::new(),
        })
        .collect();
    assert_eq!(ends, vec!["a", "b"]);
    assert!(conditional.node.branches[0].expression_block.node.block.node.statements.is_empty());
    assert!(exposition.pop_bindings().is_empty());
    assert_eq!(exposition.next_target(), reverse_target(0));
}

#[test]
fn conditional_of_many_branches_counts_in_a_wider_size() {
    let mut exposition = ReverseExposition::default();
    let branches = (0..300).map(|index| branch(None, index)).collect();
    let conditional = exposition.when_conditional(Spanned::new(WhenConditional { branches }, range(0, 1)));
    let counter = reverse_target(0);
    let last = conditional.node.branches[299].end_condition.as_ref().unwrap();
    assert!(is_counter_condition(&last.node, &counter, Primitive::Unsigned64(300)));
    let bindings = exposition.pop_bindings();
    assert!(is_counter_binding(&bindings[0].node, &counter, Size::Unsigned16, Primitive::Unsigned16(0)));
}

#[test]
fn loop_without_start_condition_gets_a_counter() {
    let mut exposition = ReverseExposition::default();
    exposition.next_target();
    let conditional_loop = Spanned::new(
        ConditionalLoop { start_condition: None, end_condition: variable("done", 3), block: block(Vec::new(), 20) },
        range(0, 40),
    );
    let conditional_loop = exposition.conditional_loop(conditional_loop);
    let counter = reverse_target(1);
    let start = conditional_loop.node.start_condition.as_ref().unwrap();
    assert!(is_counter_condition(&start.node, &counter, Primitive::Unsigned64(0)));
    let statements = &conditional_loop.node.block.node.statements;
    assert_eq!(statements.len(), 1);
    assert!(is_counter_increment(&statements[0].node, &counter, Primitive::Unsigned64(1)));
    assert!(matches!(&conditional_loop.node.end_condition.node, Expression::Variable(v) if v.0 .0 == "done"));
    let bindings = exposition.pop_bindings();
    assert!(is_counter_binding(&bindings[0].node, &counter, Size::Unsigned64, Primitive::Unsigned64(0)));
}

#[test]
fn loop_with_start_condition_is_left_alone() {
    let mut exposition = ReverseExposition::default();
    let conditional_loop = Spanned::new(
        ConditionalLoop {
            start_condition: Some(variable("start", 1)),
            end_condition: variable("done", 3),
            block: block(Vec::new(), 20),
        },
        range(0, 40),
    );
    let conditional_loop = exposition.conditional_loop(conditional_loop);
    assert!(matches!(&conditional_loop.node.start_condition.as_ref().unwrap().node,
        Expression::Variable(v) if v.0 .0 == "start"));
    assert!(conditional_loop.node.block.node.statements.is_empty());
    assert!(exposition.pop_bindings().is_empty());
}

#[test]
fn counters_are_bound_before_the_statement_that_needs_them() {
    let mut exposition = ReverseExposition::default();
    exposition.next_target();
    let conditional_loop = Spanned::new(
        Statement::ConditionalLoop(ConditionalLoop {
            start_condition: None,
            end_condition: variable("done", 3),
            block: block(Vec::new(), 20),
        }),
        range(0, 40),
    );
    let body = expression_block(vec![binding("x", truth(1), 0), conditional_loop], variable("x", 45), 0);
    let function = Function {
        identifier: Spanned::new(Identifier("f".to_string()), range(0, 1)),
        parameters: Vec::new(),
        return_span: range(45, 46),
        expression_block: body,
        span: range(0, 50),
    };
    let function = exposition.function(function);
    let statements = &function.expression_block.node.block.node.statements;
    assert_eq!(statements.len(), 3);
    assert!(matches!(&statements[0].node, Statement::Binding(binding) if binding.target.node == named("x", 0)));
    assert!(is_counter_binding(&statements[1].node, &reverse_target(0), Size::Unsigned64, Primitive::Unsigned64(0)));
    assert!(matches!(&statements[2].node, Statement::ConditionalLoop(conditional_loop)
        if conditional_loop.start_condition.is_some()));
    assert!(exposition.pop_bindings().is_empty());
}

#[test]
fn conditionals_inside_calls_are_prepared() {
    let mut exposition = ReverseExposition::default();
    let conditional = Expression::WhenConditional(Box::new(WhenConditional { branches: vec![branch(None, 2)] }));
    let call = FunctionCall {
        function: Spanned::new(Identifier("g".to_string()), range(0, 1)),
        arguments: vec![truth(1), Spanned::new(conditional, range(2, 9))],
    };
    let call = exposition.function_call(Spanned::new(call, range(0, 10)));
    assert_eq!(call.node.arguments.len(), 2);
    match &call.node.arguments[1].node {
        Expression::WhenConditional(conditional) => {
            let end_condition = conditional.branches[0].end_condition.as_ref().unwrap();
            assert!(is_counter_condition(&end_condition.node, &reverse_target(0), Primitive::Unsigned64(1)));
        }
        _ => panic!("the argument is no longer a conditional"),
    }
}

#[test]
fn registering_an_identifier_again_shadows_it() {
    let mut exposition = VariableExposition::default();
    let mut first = named("x", 7);
    exposition.register_target(&mut first);
    assert_eq!(first, named("x", 7));
    let mut second = named("x", 0);
    exposition.register_target(&mut second);
    assert_eq!(second, named("x", 1));
    let mut third = named("x", 0);
    exposition.register_target(&mut third);
    assert_eq!(third, named("x", 2));
    let mut used = named("x", 0);
    assert!(exposition.resolve_target_span(&mut used, range(3, 4)).is_ok());
    assert_eq!(used, named("x", 2));
}

#[test]
fn undefined_variables_are_errors() {
    let exposition = VariableExposition::default();
    let mut used = Spanned::new(named("y", 0), range(8, 9));
    let error = exposition.resolve_target(&mut used).unwrap_err();
    assert_eq!(error.span, range(8, 9));
    assert!(matches!(&error.node, ExpositionError::UndefinedVariable(identifier) if identifier.0 == "y"));
    assert_eq!(error.node.message(), "Variable: y, is not defined");
}

#[test]
fn dropped_variables_are_errors() {
    let mut exposition = VariableExposition::default();
    let mut function = Function {
        identifier: Spanned::new(Identifier("f".to_string()), range(0, 1)),
        parameters: vec![Spanned::new(named("n", 0), range(2, 3))],
        return_span: range(20, 21),
        expression_block: expression_block(
            vec![Spanned::new(
                Statement::ExplicitDrop(ExplicitDrop {
                    target: Spanned::new(named("n", 0), range(5, 6)),
                    expression: truth(7),
                }),
                range(5, 8),
            )],
            variable("n", 20),
            0,
        ),
        span: range(0, 30),
    };
    let error = exposition.function(&mut function).unwrap_err();
    assert_eq!(error.span, range(20, 21));
    assert!(matches!(&error.node, ExpositionError::DroppedVariable(dropped) if *dropped == named("n", 0)));
    assert_eq!(error.node.message(), "Variable: n, has been dropped");
    assert!(exposition.check_alive(&named("n", 0), range(0, 1)).is_err());
    assert!(exposition.check_alive(&named("n", 1), range(0, 1)).is_ok());
}

#[test]
fn resolving_a_function_gives_each_use_its_binding() {
    let mut exposition = VariableExposition::default();
    let addition = BinaryOperation {
        left: variable("x", 10),
        right: variable("n", 12),
        operator: Spanned::new(BinaryOperator::Add, range(11, 12)),
    };
    let mut function = Function {
        identifier: Spanned::new(Identifier("f".to_string()), range(0, 1)),
        parameters: vec![Spanned::new(named("n", 0), range(2, 3))],
        return_span: range(20, 21),
        expression_block: expression_block(
            vec![binding("x", truth(4), 4), binding("x", variable("x", 6), 6)],
            Spanned::new(Expression::BinaryOperation(Box::new(addition)), range(10, 13)),
            0,
        ),
        span: range(0, 30),
    };
    assert!(exposition.function(&mut function).is_ok());
    let statements = &function.expression_block.node.block.node.statements;
    let second = match &statements[1].node {
        Statement::Binding(binding) => binding,
        _ => panic!("expected a binding"),
    };
    assert_eq!(second.target.node, named("x", 1));
    assert!(matches!(&second.expression.node, Expression::Variable(used) if *used == named("x", 0)));
    match &function.expression_block.node.expression.node {
        Expression::BinaryOperation(operation) => {
            assert!(matches!(&operation.left.node, Expression::Variable(used) if *used == named("x", 1)));
            assert!(matches!(&operation.right.node, Expression::Variable(used) if *used == named("n", 0)));
        }
        _ => panic!("expected an operation"),
    }
}

#[test]
fn drops_in_a_branch_reach_the_enclosing_scope() {
    let mut exposition = VariableExposition::default();
    let mut bound = named("z", 0);
    exposition.register_target(&mut bound);
    let dropping = WhenBranch {
        condition: truth(1),
        expression_block: expression_block(
            vec![Spanned::new(
                Statement::ExplicitDrop(ExplicitDrop { target: Spanned::new(named("z", 0), range(3, 4)), expression: truth(5) }),
                range(3, 6),
            )],
            Spanned::new(Expression::Unit, range(7, 7)),
            2,
        ),
        end_condition: Some(truth(8)),
    };
    let mut conditional = WhenConditional { branches: vec![dropping] };
    assert!(exposition.when_conditional(&mut conditional).is_ok());
    assert!(exposition.check_alive(&named("z", 0), range(0, 1)).is_err());
}

#[test]
fn loop_bodies_bind_in_a_scope_of_their_own() {
    let mut exposition = VariableExposition::default();
    let mut outer = named("i", 0);
    exposition.register_target(&mut outer);
    let mut conditional_loop = ConditionalLoop {
        start_condition: Some(variable("i", 1)),
        end_condition: variable("i", 2),
        block: block(vec![binding("i", truth(4), 4)], 3),
    };
    assert!(exposition.conditional_loop(&mut conditional_loop).is_ok());
    match &conditional_loop.block.node.statements[0].node {
        Statement::Binding(binding) => assert_eq!(binding.target.node, named("i", 0)),
        _ => panic!("expected a binding"),
    }
    let mut after = named("i", 5);
    assert!(exposition.resolve_target_span(&mut after, range(0, 1)).is_ok());
    assert_eq!(after, named("i", 0));
}

#[test]
fn swaps_resolve_both_targets() {
    let mut exposition = VariableExposition::default();
    let mut mutation = Mutation::Swap(Spanned::new(named("a", 0), range(0, 1)), Spanned::new(named("b", 0), range(2, 3)));
    let error = exposition.mutation(&mut mutation).unwrap_err();
    assert!(matches!(&error.node, ExpositionError::UndefinedVariable(identifier) if identifier.0 == "a"));
}

#[test]
fn first_translator_writes_the_direction_last() {
    let instruction = element::Instruction {
        direction: Direction::Reverse,
        polarization: Some(Direction::Advance),
        instruction: "add 1 2".to_string(),
    };
    assert_eq!(instruction.text(), "+add 1 2'");
    let plain = element::Element::Instruction(element::Instruction {
        direction: Direction::Advance,
        polarization: None,
        instruction: "pass".to_string(),
    });
    assert_eq!(plain.text(), "pass");
    assert_eq!(element::Element::Other("1: pass".to_string()).text(), "1: pass");
}

#[test]
fn preparing_a_prepared_function_adds_nothing() {
    let mut exposition = ReverseExposition::default();
    let conditional = Expression::WhenConditional(Box::new(WhenConditional { branches: vec![branch(None, 2), branch(None, 4)] }));
    let loop_statement = Spanned::new(
        Statement::ConditionalLoop(ConditionalLoop { start_condition: None, end_condition: variable("done", 3), block: block(Vec::new(), 20) }),
        range(0, 40),
    );
    let function = Function {
        identifier: Spanned::new(Identifier("f".to_string()), range(0, 1)),
        parameters: Vec::new(),
        return_span: range(45, 46),
        expression_block: expression_block(vec![loop_statement], Spanned::new(conditional, range(41, 50)), 0),
        span: range(0, 50),
    };
    let once = exposition.function(function);
    assert_eq!(exposition.next_target(), reverse_target(2));
    let mut again = ReverseExposition::default();
    let twice = again.function(once);
    assert_eq!(again.next_target(), reverse_target(0));
    assert!(again.pop_bindings().is_empty());
    let statements = &twice.expression_block.node.block.node.statements;
    assert_eq!(statements.len(), 3);
    assert!(is_counter_binding(&statements[0].node, &reverse_target(0), Size::Unsigned64, Primitive::Unsigned64(0)));
    assert!(is_counter_binding(&statements[2].node, &reverse_target(1), Size::Unsigned8, Primitive::Unsigned8(0)));
}

#[test]
fn waiting_counters_are_placed_in_the_next_block_entered() {
    let mut exposition = ReverseExposition::default();
    let conditional = Expression::WhenConditional(Box::new(WhenConditional { branches: vec![branch(None, 2)] }));
    let right = Expression::ExpressionBlock(Box::new(ExpressionBlock {
        block: block(vec![binding("y", truth(21), 20)], 20),
        expression: variable("y", 29),
    }));
    let operation = BinaryOperation {
        left: Spanned::new(conditional, range(2, 9)),
        right: Spanned::new(right, range(20, 30)),
        operator: Spanned::new(BinaryOperator::Add, range(10, 11)),
    };
    let expression = Spanned::new(Expression::BinaryOperation(Box::new(operation)), range(0, 30));
    let expression = exposition.expression(expression);
    match &expression.node {
        Expression::BinaryOperation(operation) => {
            assert_eq!(operation.operator.node, BinaryOperator::Add);
            match &operation.right.node {
                Expression::ExpressionBlock(right) => {
                    let statements = &right.block.node.statements;
                    assert_eq!(statements.len(), 2);
                    assert!(is_counter_binding(&statements[0].node, &reverse_target(0), Size::Unsigned8,
                        Primitive::Unsigned8(0)));
                    assert_eq!(statements[0].span, range(2, 9));
                    assert!(matches!(&statements[1].node, Statement::Binding(binding)
                        if binding.target.node == named("y", 0)));
                }
                _ => panic!("the right operand is no longer a block"),
            }
        }
        _ => panic!("the expression is no longer an operation"),
    }
    assert!(exposition.pop_bindings().is_empty());
}

fn unit_function(name: &str, statements: Vec<Spanned<Statement>>, value: Spanned<Expression>) -> Function {
    Function {
        identifier: Spanned::new(Identifier(name.to_string()), range(0, 1)),
        parameters: Vec::new(),
        return_span: range(90, 91),
        expression_block: expression_block(statements, value, 0),
        span: range(0, 100),
    }
}

#[test]
fn a_unit_gathers_the_error_of_each_failing_function() {
    let mut exposition = VariableExposition::default();
    let mut functions = vec![
        unit_function("f", Vec::new(), variable("x", 5)),
        unit_function("g", vec![binding("x", truth(1), 0)], variable("x", 6)),
        unit_function("h", Vec::new(), variable("y", 7)),
    ];
    match exposition.syntax_unit(&mut functions) {
        Err(errors) => {
            assert_eq!(errors.len(), 2);
            assert!(matches!(&errors[0].node, ExpositionError::UndefinedVariable(identifier) if identifier.0 == "x"));
            assert_eq!(errors[0].span, range(5, 6));
            assert!(matches!(&errors[1].node, ExpositionError::UndefinedVariable(identifier) if identifier.0 == "y"));
            assert_eq!(errors[1].span, range(7, 8));
        }
        Ok(()) => panic!("the unit has undefined variables"),
    }
}

#[test]
fn a_unit_starts_each_function_afresh() {
    let mut exposition = VariableExposition::default();
    let mut functions = vec![
        unit_function("f", vec![binding("x", truth(1), 0)], variable("x", 5)),
        unit_function("g", vec![binding("x", truth(1), 0), binding("x", truth(2), 10)], variable("x", 6)),
    ];
    assert!(exposition.syntax_unit(&mut functions).is_ok());
    let statements = &functions[1].expression_block.node.block.node.statements;
    assert!(matches!(&statements[1].node, Statement::Binding(binding) if binding.target.node == named("x", 1)));
    assert!(matches!(&functions[1].expression_block.node.expression.node,
        Expression::Variable(target) if *target == named("x", 1)));
}
