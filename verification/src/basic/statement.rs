use vstd::prelude::*;
use vstd::string::StringExecFns;

use crate::node::{BinaryOperator, MutationKind, Variable};

use super::Item;

verus! {

/// A statement of a node.
#[derive(Debug)]
pub enum Statement {
    Binding(Variable, Compound),
    Mutation(MutationKind, Location, Value),
    /// Releases a variable whose value is no longer needed.
    ImplicitDrop(Location),
}

/// A place in memory: a variable followed by the fields that project into it.
#[derive(Debug)]
pub struct Location {
    pub variable: Variable,
    pub projections: Vec<Projection>,
}

impl Location {
    pub fn new(variable: Variable) -> (location: Location)
        ensures
            location.variable == variable,
            location.projections@.len() == 0,
    {
        Location { variable, projections: Vec::new() }
    }

    /// The location with one more projection at its end.
    pub fn push(self, projection: Projection) -> (location: Location)
        ensures
            location.variable == self.variable,
            location.projections@ == self.projections@.push(projection),
    {
        let mut location = self;
        location.projections.push(projection);
        location
    }
}

/// A step from a location into one of its parts.
#[derive(Debug)]
pub enum Projection {
    Field(String),
}

impl Projection {
    /// The projection as written after a location: `.<field>`.
    pub fn text(&self) -> (text: String)
        ensures
            text@ == match self {
                Projection::Field(field) => seq!['.'] + field@,
            },
    {
        proof {
            reveal_strlit(".");
        }
        match self {
            Projection::Field(field) => {
                let mut text = String::from_str(".");
                text.append(field.as_str());
                text
            },
        }
    }
}

/// The right-hand side of a binding.
#[derive(Debug)]
pub enum Compound {
    Value(Value),
    Binary(BinaryOperator, Value, Value),
}

/// An operand: a location to read or an item given in place.
#[derive(Debug)]
pub enum Value {
    Location(Location),
    Item(Item),
}

} // verus!
