use lexica::compiler::direct::tree::{
    BinaryOperation, Binding, ConditionalLoop, ExplicitDrop, Expression, Function, Mutation, Parameter, Statement,
    Variable,
};
use lexica::compiler::direct::Translator;
use lexica::node::{BinaryOperator, Identifier};
use lexica::source::{Span, Spanned};

fn at(start: usize) -> Span {
    Span::new(start, start + 1)
}

fn name(text: &str) -> Identifier {
    Identifier(text.to_string())
}

fn variable(text: &str, start: usize) -> Spanned<Expression> {
    Spanned::new(Expression::Variable(name(text)), at(start))
}

fn literal(value: i64, start: usize) -> Spanned<Expression> {
    Spanned::new(Expression::LiteralInteger(value), at(start))
}

fn operation(left: Spanned<Expression>, operator: BinaryOperator, right: Spanned<Expression>, start: usize)
    -> Spanned<Expression> {
    Spanned::new(
        Expression::BinaryOperation(Box::new(BinaryOperation { left, right, operator: Spanned::new(operator, at(start)) })),
        at(start),
    )
}

fn function(identifier: &str, parameters: &[&str], statements: Vec<Spanned<Statement>>, return_value: Spanned<Expression>)
    -> Function {
    Function {
        identifier: Spanned::new(name(identifier), at(0)),
        parameters: parameters.iter().map(|parameter| Spanned::new(Parameter { identifier: name(parameter) }, at(1))).collect(),
        statements,
        return_value,
        span: Span::new(0, 100),
    }
}

fn texts(translator: &mut Translator, function: &Function) -> Vec<String> {
    translator.function(function).iter().map(|element| element.node.text()).collect()
}

#[test]
fn a_function_binds_its_parameters_and_drops_what_it_does_not_return() {
    let sum = operation(variable("a", 10), BinaryOperator::Add, literal(5, 12), 11);
    let binding = Statement::Binding(Binding { variable: Variable { identifier: name("x") }, expression: sum });
    let function = function("f", &["a"], vec![Spanned::new(binding, at(9))], variable("x", 20));
    let mut translator = Translator::default();
    assert_eq!(texts(&mut translator, &function), vec![
        "@local u64 0", "@local i64 0", "@local u64 0", "~f {", "-return'", "restore 0",
        "+reset 1 5", "+clone 2 0", "add 2 1", "drop 0", "drop 2", "+return", "}",
    ]);
}

#[test]
fn a_loop_runs_its_start_condition_backwards_when_reversing() {
    let increment = Statement::Mutation(Mutation::AddAssign(name("n"), literal(1, 30)));
    let conditional_loop = ConditionalLoop {
        start_condition: Some(operation(variable("n", 40), BinaryOperator::Equal, literal(0, 42), 41)),
        end_condition: operation(variable("n", 20), BinaryOperator::Equal, literal(3, 22), 21),
        statements: vec![Spanned::new(increment, at(29))],
    };
    let statement = Spanned::new(Statement::ConditionalLoop(conditional_loop), at(15));
    let function = function("g", &["n"], vec![statement], variable("n", 50));
    let mut translator = Translator::default();
    assert_eq!(texts(&mut translator, &function), vec![
        "@local u64 0", "@local i64 0", "@local bool false", "@local i64 0", "@local i64 0", "@local bool false",
        "~g {", "-return'", "restore 0",
        "0:", "pass", "-jump 1", "+reset 1 3", "+compare = 0 1 2", "+branch.i = 2 true 1",
        "+reset 3 1", "add 0 3", "-reset 3 1",
        "-branch.i = 5 true 0", "-compare = 0 4 5", "-reset 4 0", "+jump 0", "1:",
        "drop 0", "+return", "}",
    ]);
}

#[test]
fn a_drop_restores_the_variable_when_reversing_and_unbinds_it() {
    let binding = Statement::Binding(Binding { variable: Variable { identifier: name("x") }, expression: literal(-7, 5) });
    let drop = Statement::ExplicitDrop(ExplicitDrop {
        identifier: name("x"),
        expression: operation(variable("a", 10), BinaryOperator::Minus, literal(2, 12), 11),
    });
    let swap = Statement::Mutation(Mutation::Swap(name("a"), name("b")));
    let statements = vec![Spanned::new(binding, at(4)), Spanned::new(drop, at(9)), Spanned::new(swap, at(14))];
    let function = function("h", &["a", "b"], statements, variable("a", 20));
    let mut translator = Translator::default();
    assert_eq!(texts(&mut translator, &function), vec![
        "@local u64 0", "@local u64 0", "@local i64 0", "@local i64 0", "@local u64 0",
        "~h {", "-return'", "restore 0", "restore 1",
        "+reset 2 -7", "-clone 2 4", "-minus 4 3", "-clone 4 0", "-reset 3 2", "swap 0 1",
        "drop 1", "drop 0", "+return", "}",
    ]);
}
