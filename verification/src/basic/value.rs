//! Operands of the first lowering's statements.
use vstd::prelude::*;

use crate::node::{BinaryOperator, Variable};

verus! {

/// The right-hand side of a binding.
#[derive(Debug)]
pub enum Compound {
    Value(Value),
    Binary(BinaryOperator, Value, Value),
}

/// An operand: a variable to read or an object given in place.
#[derive(Debug)]
pub enum Value {
    Variable(Variable),
    Object(Object),
}

/// A value at run time.
#[derive(Debug)]
pub enum Object {
    Truth(bool),
    Unsigned64(u64),
    Instance(Instance),
    Uninitialised,
}

/// An instance of a structure: the object of each field, by name.
#[derive(Debug)]
pub struct Instance {
    fields: Vec<(String, Object)>,
}

} // verus!
