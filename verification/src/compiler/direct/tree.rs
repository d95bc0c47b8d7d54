use vstd::prelude::*;

use crate::node::{BinaryOperator, Identifier};
use crate::source::{Span, Spanned};

verus! {

/// An expression that the direct translator reads.
#[derive(Debug)]
pub enum Expression {
    Variable(Identifier),
    LiteralInteger(i64),
    BinaryOperation(Box<BinaryOperation>),
}

/// A binary operation on two expressions.
#[derive(Debug)]
pub struct BinaryOperation {
    pub left: Spanned<Expression>,
    pub right: Spanned<Expression>,
    pub operator: Spanned<BinaryOperator>,
}

/// The variable that a binding introduces.
#[derive(Debug)]
pub struct Variable {
    pub identifier: Identifier,
}

/// The binding of a variable to the value of an expression.
#[derive(Debug)]
pub struct Binding {
    pub variable: Variable,
    pub expression: Spanned<Expression>,
}

/// A change of a variable.
#[derive(Debug)]
pub enum Mutation {
    Swap(Identifier, Identifier),
    AddAssign(Identifier, Spanned<Expression>),
    MultiplyAssign(Identifier, Spanned<Expression>),
}

/// The end of a variable, with the expression of the value it holds then.
#[derive(Debug)]
pub struct ExplicitDrop {
    pub identifier: Identifier,
    pub expression: Spanned<Expression>,
}

/// A loop that runs its statements until its end condition holds; its start
/// condition holds on entry only.
#[derive(Debug)]
pub struct ConditionalLoop {
    pub start_condition: Option<Spanned<Expression>>,
    pub end_condition: Spanned<Expression>,
    pub statements: Vec<Spanned<Statement>>,
}

/// A statement that the direct translator reads.
#[derive(Debug)]
pub enum Statement {
    Binding(Binding),
    Mutation(Mutation),
    ExplicitDrop(ExplicitDrop),
    ConditionalLoop(ConditionalLoop),
}

/// A parameter of a function.
#[derive(Debug)]
pub struct Parameter {
    pub identifier: Identifier,
}

/// A function: its name, its parameters, its statements and the expression
/// of the value it returns.
#[derive(Debug)]
pub struct Function {
    pub identifier: Spanned<Identifier>,
    pub parameters: Vec<Spanned<Parameter>>,
    pub statements: Vec<Spanned<Statement>>,
    pub return_value: Spanned<Expression>,
    pub span: Span,
}

} // verus!
