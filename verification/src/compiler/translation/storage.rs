use vstd::prelude::*;

use crate::node::{Identifier, VariableTarget};

verus! {

/// A primitive part of a variable: its identifier, its generation, and the
/// path of fields that leads to the part, empty for the whole variable.
#[derive(Debug, PartialEq, Eq, Hash)]
pub struct StorageTarget(pub Identifier, pub usize, pub String);

impl View for StorageTarget {
    type V = (Seq<char>, nat, Seq<char>);

    open spec fn view(&self) -> (Seq<char>, nat, Seq<char>) {
        (self.0@, self.1 as nat, self.2@)
    }
}

impl From<VariableTarget> for StorageTarget {
    /// The storage of a whole variable: no path of fields.
    fn from(target: VariableTarget) -> (storage: StorageTarget)
        ensures
            storage@ == (target.0@, target.1 as nat, Seq::<char>::empty()),
    {
        let VariableTarget(identifier, generation) = target;
        StorageTarget(identifier, generation, String::new())
    }
}

impl vstd::std_specs::convert::FromSpecImpl<VariableTarget> for StorageTarget {
    /// Contracts speak of the view that `from` gives, not of the value:
    /// two strings with the same text need not be the same value.
    open spec fn obeys_from_spec() -> bool {
        false
    }

    open spec fn from_spec(target: VariableTarget) -> StorageTarget {
        StorageTarget(target.0, target.1, vstd::pervasive::arbitrary())
    }
}

} // verus!
