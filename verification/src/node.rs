//! The names, operators and types that the intermediate representations refer to.
use vstd::prelude::*;
use vstd::string::StringExecFns;

use crate::source::{Span, Spanned};

verus! {

/// A variable of a function body: one that the program names, or a temporary
/// that the compiler introduced, identified by its index.
#[derive(Debug, Clone)]
pub enum Variable {
    Named(String),
    Temporary(usize),
}

impl View for Variable {
    /// A temporary is identified by its index; a named variable by its text
    /// (and the index -1, which no temporary has).
    type V = (int, Seq<char>);

    open spec fn view(&self) -> (int, Seq<char>) {
        match self {
            Variable::Named(name) => (-1, name@),
            Variable::Temporary(index) => (*index as int, Seq::empty()),
        }
    }
}

impl Variable {
    pub fn new_temporary(index: usize) -> (variable: Variable)
        ensures
            variable == Variable::Temporary(index),
            variable@ == (index as int, Seq::<char>::empty()),
    {
        Variable::Temporary(index)
    }

    /// A copy of the variable.
    pub fn duplicate(&self) -> (copy: Variable)
        ensures
            copy@ == self@,
    {
        match self {
            Variable::Named(name) => Variable::Named(name.clone()),
            Variable::Temporary(index) => Variable::Temporary(*index),
        }
    }

    /// Whether two variables denote the same variable.
    pub fn same(&self, other: &Variable) -> (same: bool)
        ensures
            same == (self@ == other@),
    {
        match (self, other) {
            (Variable::Named(left), Variable::Named(right)) => left.eq(right),
            (Variable::Temporary(left), Variable::Temporary(right)) => *left == *right,
            (Variable::Named(_), Variable::Temporary(index)) => {
                assert(self@.0 != other@.0);
                false
            },
            (Variable::Temporary(index), Variable::Named(_)) => {
                assert(self@.0 != other@.0);
                false
            },
        }
    }
}

/// An identifier written in a program.
#[derive(Debug, Clone, PartialEq, Eq, Hash)]
pub struct Identifier(pub String);

impl View for Identifier {
    type V = Seq<char>;

    open spec fn view(&self) -> Seq<char> {
        self.0@
    }
}

impl Identifier {
    /// The text of the identifier that temporaries introduced for reversal share.
    pub open spec fn temporary_reverse_text() -> Seq<char> {
        seq!['\'', 'r', 'e', 'v', 'e', 'r', 's', 'e']
    }

    /// The identifier of temporaries introduced for reversal.
    pub fn temporary_reverse() -> (identifier: Identifier)
        ensures
            identifier@ == Identifier::temporary_reverse_text(),
    {
        let text = "'reverse";
        proof {
            reveal_strlit("'reverse");
        }
        Identifier(String::from_str(text))
    }

    /// A copy of the identifier.
    pub fn duplicate(&self) -> (copy: Identifier)
        ensures
            copy == *self,
    {
        Identifier(self.0.clone())
    }

    pub fn same(&self, other: &Identifier) -> (same: bool)
        ensures
            same == (self@ == other@),
    {
        self.0.eq(&other.0)
    }
}

/// A variable identifier together with its generation; a later binding of the
/// same identifier shadows an earlier one by taking a higher generation.
#[derive(Debug, Clone, PartialEq, Eq, Hash)]
pub struct VariableTarget(pub Identifier, pub usize);

impl View for VariableTarget {
    type V = (Seq<char>, nat);

    open spec fn view(&self) -> (Seq<char>, nat) {
        (self.0@, self.1 as nat)
    }
}

impl VariableTarget {
    /// A copy of the target.
    pub fn duplicate(&self) -> (copy: VariableTarget)
        ensures
            copy == *self,
    {
        VariableTarget(self.0.duplicate(), self.1)
    }

    pub fn same(&self, other: &VariableTarget) -> (same: bool)
        ensures
            same == (self@ == other@),
    {
        self.0.same(&other.0) && self.1 == other.1
    }
}

/// A binary operator of an expression.
#[derive(Debug, Copy, Clone, PartialEq, Eq, Structural)]
pub enum BinaryOperator {
    Add,
    Minus,
    Multiply,
    Equal,
}

/// An arithmetic mutation of a location.
#[derive(Debug, Copy, Clone, PartialEq, Eq, Structural)]
pub enum Arithmetic {
    Add,
    Minus,
    Multiply,
}

/// The kind of a mutation of a location.
#[derive(Debug, Copy, Clone, PartialEq, Eq, Structural)]
pub enum MutationKind {
    Assign,
    Swap,
    Arithmetic(Arithmetic),
}

/// The storage size of a primitive local.
#[derive(Debug, Copy, Clone, PartialEq, Eq, Structural)]
pub enum Size {
    Boolean,
    Signed8,
    Signed16,
    Signed32,
    Signed64,
    Unsigned8,
    Unsigned16,
    Unsigned32,
    Unsigned64,
}

impl Size {
    /// The name of the size as the target instructions write it.
    pub open spec fn spec_text(self) -> Seq<char> {
        match self {
            Size::Boolean => seq!['b', 'o', 'o', 'l'],
            Size::Signed8 => seq!['i', '8'],
            Size::Signed16 => seq!['i', '1', '6'],
            Size::Signed32 => seq!['i', '3', '2'],
            Size::Signed64 => seq!['i', '6', '4'],
            Size::Unsigned8 => seq!['u', '8'],
            Size::Unsigned16 => seq!['u', '1', '6'],
            Size::Unsigned32 => seq!['u', '3', '2'],
            Size::Unsigned64 => seq!['u', '6', '4'],
        }
    }

    pub fn text(&self) -> (text: String)
        ensures
            text@ == self.spec_text(),
    {
        let text = match self {
            Size::Boolean => "bool",
            Size::Signed8 => "i8",
            Size::Signed16 => "i16",
            Size::Signed32 => "i32",
            Size::Signed64 => "i64",
            Size::Unsigned8 => "u8",
            Size::Unsigned16 => "u16",
            Size::Unsigned32 => "u32",
            Size::Unsigned64 => "u64",
        };
        proof {
            reveal_strlit("bool");
            reveal_strlit("i8");
            reveal_strlit("i16");
            reveal_strlit("i32");
            reveal_strlit("i64");
            reveal_strlit("u8");
            reveal_strlit("u16");
            reveal_strlit("u32");
            reveal_strlit("u64");
        }
        String::from_str(text)
    }
}

/// An immediate value of the target instructions.
#[derive(Debug, Copy, Clone, PartialEq, Eq, Structural)]
pub enum Primitive {
    Boolean(bool),
    Unsigned8(u8),
    Unsigned16(u16),
    Unsigned32(u32),
    Unsigned64(u64),
}

impl Primitive {
    pub open spec fn spec_size(&self) -> Size {
        match self {
            Primitive::Boolean(_) => Size::Boolean,
            Primitive::Unsigned8(_) => Size::Unsigned8,
            Primitive::Unsigned16(_) => Size::Unsigned16,
            Primitive::Unsigned32(_) => Size::Unsigned32,
            Primitive::Unsigned64(_) => Size::Unsigned64,
        }
    }

    #[verifier::when_used_as_spec(spec_size)]
    pub fn size(&self) -> (size: Size)
        ensures
            size == self.spec_size(),
    {
        match self {
            Primitive::Boolean(_) => Size::Boolean,
            Primitive::Unsigned8(_) => Size::Unsigned8,
            Primitive::Unsigned16(_) => Size::Unsigned16,
            Primitive::Unsigned32(_) => Size::Unsigned32,
            Primitive::Unsigned64(_) => Size::Unsigned64,
        }
    }

    /// The value as the target instructions write it.
    pub open spec fn spec_text(self) -> Seq<char> {
        match self {
            Primitive::Boolean(truth) => if truth {
                seq!['t', 'r', 'u', 'e']
            } else {
                seq!['f', 'a', 'l', 's', 'e']
            },
            Primitive::Unsigned8(value) => crate::source::decimal(value as nat),
            Primitive::Unsigned16(value) => crate::source::decimal(value as nat),
            Primitive::Unsigned32(value) => crate::source::decimal(value as nat),
            Primitive::Unsigned64(value) => crate::source::decimal(value as nat),
        }
    }

    pub fn text(&self) -> (text: String)
        ensures
            text@ == self.spec_text(),
    {
        match self {
            Primitive::Boolean(truth) => {
                proof {
                    reveal_strlit("true");
                    reveal_strlit("false");
                }
                if *truth {
                    String::from_str("true")
                } else {
                    String::from_str("false")
                }
            },
            Primitive::Unsigned8(value) => crate::source::decimal_text(*value as u64),
            Primitive::Unsigned16(value) => crate::source::decimal_text(*value as u64),
            Primitive::Unsigned32(value) => crate::source::decimal_text(*value as u64),
            Primitive::Unsigned64(value) => crate::source::decimal_text(*value),
        }
    }
}

} // verus!

verus! {

/// A type that the language provides.
#[derive(Debug, Copy, Clone, PartialEq, Eq, Structural)]
pub enum Intrinsic {
    Truth,
    Signed8,
    Signed16,
    Signed32,
    Signed64,
    Unsigned8,
    Unsigned16,
    Unsigned32,
    Unsigned64,
    Unit,
    Tuple,
}

impl Intrinsic {
    /// The structure that declares the intrinsic type.
    pub fn structure(&self) -> (path: StructurePath)
        ensures
            path == StructurePath::Intrinsic(*self),
    {
        StructurePath::Intrinsic(*self)
    }
}

/// The path of a structure: an intrinsic type, or the index of a declared structure.
#[derive(Debug, Copy, Clone, PartialEq, Eq, Structural)]
pub enum StructurePath {
    Intrinsic(Intrinsic),
    Declared(usize),
}

/// A resolved type: a structure applied to its type parameters.
#[derive(Debug)]
pub struct TypeResolution(pub StructurePath, pub Vec<TypeResolution>);

/// Whether two resolutions name the same structure applied to the same parameters.
pub open spec fn same_resolution(first: TypeResolution, second: TypeResolution) -> bool
    decreases first,
{
    first.0 == second.0 && same_parameters(first.1@, second.1@)
}

/// Whether two sequences of resolutions agree one by one.
pub open spec fn same_parameters(first: Seq<TypeResolution>, second: Seq<TypeResolution>) -> bool
    decreases first,
{
    if first.len() != second.len() {
        false
    } else if first.len() == 0 {
        true
    } else {
        same_parameters(first.subrange(0, first.len() - 1), second.subrange(0, second.len() - 1))
            && same_resolution(first.last(), second.last())
    }
}

impl TypeResolution {
    /// A copy of the resolution: the same structure applied to copies of the
    /// same parameters.
    pub fn duplicate(&self) -> (copy: TypeResolution)
        ensures
            same_resolution(copy, *self),
            copy.0 == self.0,
            copy.1@.len() == self.1@.len(),
        decreases self,
    {
        let mut parameters = Vec::new();
        let mut index: usize = 0;
        while index < self.1.len()
            invariant
                index <= self.1@.len(),
                parameters@.len() == index,
                same_parameters(parameters@, self.1@.subrange(0, index as int)),
            decreases self.1@.len() - index,
        {
            assert(decreases_to!(self => self.1@[index as int]));
            let parameter = self.1[index].duplicate();
            let ghost before = parameters@;
            parameters.push(parameter);
            assert(parameters@.subrange(0, index as int) =~= before);
            assert(self.1@.subrange(0, index + 1).subrange(0, index as int) =~= self.1@.subrange(0, index as int));
            index += 1;
        }
        assert(self.1@.subrange(0, index as int) =~= self.1@);
        TypeResolution(self.0, parameters)
    }
}

} // verus!

verus! {

/// An expression of the syntax tree.
#[derive(Debug)]
pub enum Expression {
    Unit,
    Primitive(Primitive),
    Variable(VariableTarget),
    BinaryOperation(Box<BinaryOperation>),
    WhenConditional(Box<WhenConditional>),
    ExpressionBlock(Box<ExpressionBlock>),
    FunctionCall(Box<FunctionCall>),
}

/// A binary operation on two expressions.
#[derive(Debug)]
pub struct BinaryOperation {
    pub left: Spanned<Expression>,
    pub right: Spanned<Expression>,
    pub operator: Spanned<BinaryOperator>,
}

/// A call of a function with the expressions of its arguments.
#[derive(Debug)]
pub struct FunctionCall {
    pub function: Spanned<Identifier>,
    pub arguments: Vec<Spanned<Expression>>,
}

/// A block of statements followed by the expression whose value it takes.
#[derive(Debug)]
pub struct ExpressionBlock {
    pub block: Spanned<Block>,
    pub expression: Spanned<Expression>,
}

/// Statements, in the order they run when advancing.
#[derive(Debug)]
pub struct Block {
    pub statements: Vec<Spanned<Statement>>,
}

/// A statement of the syntax tree.
#[derive(Debug)]
pub enum Statement {
    Binding(Binding),
    Mutation(Mutation),
    ExplicitDrop(ExplicitDrop),
    ConditionalLoop(ConditionalLoop),
}

/// The binding of a new variable to the value of an expression. The size of
/// the variable is absent until its type is known.
#[derive(Debug)]
pub struct Binding {
    pub target: Spanned<VariableTarget>,
    pub size: Option<Size>,
    pub is_mutable: bool,
    pub expression: Spanned<Expression>,
}

/// A change of a variable that can be undone.
#[derive(Debug)]
pub enum Mutation {
    Swap(Spanned<VariableTarget>, Spanned<VariableTarget>),
    AddAssign(Spanned<VariableTarget>, Spanned<Expression>),
    MinusAssign(Spanned<VariableTarget>, Spanned<Expression>),
    MultiplyAssign(Spanned<VariableTarget>, Spanned<Expression>),
}

/// The end of a variable's life, with the expression of the value it holds
/// then, from which reversal restores it.
#[derive(Debug)]
pub struct ExplicitDrop {
    pub target: Spanned<VariableTarget>,
    pub expression: Spanned<Expression>,
}

/// A loop that runs its block until its end condition holds. The start
/// condition holds on entry only; reversing runs the loop back until it holds.
#[derive(Debug)]
pub struct ConditionalLoop {
    pub start_condition: Option<Spanned<Expression>>,
    pub end_condition: Spanned<Expression>,
    pub block: Spanned<Block>,
}

/// One branch of a conditional: its condition, its block, and the condition
/// that holds after the block if and only if the branch was taken, which
/// reversal needs and which may not be written yet.
#[derive(Debug)]
pub struct WhenBranch {
    pub condition: Spanned<Expression>,
    pub expression_block: Spanned<ExpressionBlock>,
    pub end_condition: Option<Spanned<Expression>>,
}

/// A conditional of several branches, of which the first whose condition
/// holds is taken.
#[derive(Debug)]
pub struct WhenConditional {
    pub branches: Vec<WhenBranch>,
}

/// A function: its name, its parameters in order, the span of its return
/// value, and its body.
#[derive(Debug)]
pub struct Function {
    pub identifier: Spanned<Identifier>,
    pub parameters: Vec<Spanned<VariableTarget>>,
    pub return_span: Span,
    pub expression_block: Spanned<ExpressionBlock>,
    pub span: Span,
}

/// The text of the name of the function that a program starts at.
pub open spec fn entry_point() -> Seq<char> {
    seq!['m', 'a', 'i', 'n']
}

impl Function {
    /// Whether the function is the one that a program starts at.
    pub fn is_entry_point(&self) -> (entry: bool)
        ensures
            entry == (self.identifier.node@ == entry_point()),
    {
        proof {
            reveal_strlit("main");
        }
        let main = Identifier(String::from_str("main"));
        assert(main@ =~= entry_point());
        self.identifier.node.same(&main)
    }
}

} // verus!
