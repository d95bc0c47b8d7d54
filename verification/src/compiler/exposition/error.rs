use vstd::prelude::*;
use vstd::string::StringExecFns;

use crate::node::{Identifier, VariableTarget};

verus! {

/// A variable that is used where it cannot be.
#[derive(Debug)]
pub enum ExpositionError {
    /// No binding in scope introduces the identifier.
    UndefinedVariable(Identifier),
    /// The variable was dropped before this use.
    DroppedVariable(VariableTarget),
}

impl ExpositionError {
    /// The message of the error: `Variable: <name>, is not defined` or
    /// `Variable: <name>, has been dropped`.
    pub open spec fn spec_message(self) -> Seq<char> {
        match self {
            ExpositionError::UndefinedVariable(identifier) => seq!['V', 'a', 'r', 'i', 'a', 'b', 'l', 'e', ':', ' ']
                + identifier@ + seq![',', ' ', 'i', 's', ' ', 'n', 'o', 't', ' ', 'd', 'e', 'f', 'i', 'n', 'e', 'd'],
            ExpositionError::DroppedVariable(target) => seq!['V', 'a', 'r', 'i', 'a', 'b', 'l', 'e', ':', ' ']
                + target.0@ + seq![',', ' ', 'h', 'a', 's', ' ', 'b', 'e', 'e', 'n', ' ', 'd', 'r', 'o', 'p', 'p', 'e', 'd'],
        }
    }

    pub fn message(&self) -> (message: String)
        ensures
            message@ == self.spec_message(),
    {
        proof {
            reveal_strlit("Variable: ");
            reveal_strlit(", is not defined");
            reveal_strlit(", has been dropped");
        }
        let mut message = String::from_str("Variable: ");
        match self {
            ExpositionError::UndefinedVariable(identifier) => {
                message.append(identifier.0.as_str());
                message.append(", is not defined");
            },
            ExpositionError::DroppedVariable(target) => {
                message.append(target.0.0.as_str());
                message.append(", has been dropped");
            },
        }
        message
    }
}

} // verus!
