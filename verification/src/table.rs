//! The hash tables of the passes, kept in `hashbrown` maps and sets.
//!
//! Each table holds its `hashbrown` collection in a private field; Verus sees
//! the contents only through the name given to them below, and each operation
//! that the passes use is a call into `hashbrown` whose contract states what
//! that call does to the contents.
use vstd::prelude::*;

use crate::node::{Identifier, VariableTarget};
use crate::source::Span;

verus! {

/// The named variables of one scope of a function being translated: each
/// variable with its local and the span of its binding.
#[verifier::external_body]
#[derive(Debug)]
pub struct VariableFrame {
    table: hashbrown::HashMap<VariableTarget, (usize, Span)>,
}

/// What a variable frame holds, by the view of each variable.
pub uninterp spec fn variable_entries(frame: VariableFrame) -> Map<(Seq<char>, nat), (usize, Span)>;

impl VariableFrame {
    /// `hashbrown::HashMap::new`: a map that holds nothing.
    #[verifier::external_body]
    pub(crate) fn new() -> (frame: VariableFrame)
        ensures
            variable_entries(frame).dom().is_empty(),
    {
        VariableFrame { table: hashbrown::HashMap::new() }
    }

    /// `hashbrown::HashMap::insert`: the key now maps to the value, and the
    /// value it mapped to before, if any, is returned.
    #[verifier::external_body]
    pub(crate) fn insert(&mut self, target: VariableTarget, entry: (usize, Span)) -> (previous: Option<(usize, Span)>)
        ensures
            variable_entries(*final(self)) == variable_entries(*old(self)).insert(target@, entry),
            previous == (if variable_entries(*old(self)).contains_key(target@) {
                Some(variable_entries(*old(self))[target@])
            } else {
                None
            }),
    {
        self.table.insert(target, entry)
    }

    /// `hashbrown::HashMap::get`: the value that the key maps to, if any.
    #[verifier::external_body]
    pub(crate) fn get(&self, target: &VariableTarget) -> (entry: Option<(usize, Span)>)
        ensures
            entry == (if variable_entries(*self).contains_key(target@) {
                Some(variable_entries(*self)[target@])
            } else {
                None
            }),
    {
        self.table.get(target).copied()
    }

    /// `hashbrown::HashMap::remove`: the key no longer maps to anything, and
    /// the value it mapped to, if any, is returned.
    #[verifier::external_body]
    pub(crate) fn remove(&mut self, target: &VariableTarget) -> (entry: Option<(usize, Span)>)
        ensures
            variable_entries(*final(self)) == variable_entries(*old(self)).remove(target@),
            entry == (if variable_entries(*old(self)).contains_key(target@) {
                Some(variable_entries(*old(self))[target@])
            } else {
                None
            }),
    {
        self.table.remove(target)
    }
}

/// The unnamed locals of one scope that must be released: each with the span
/// of the expression that produced it.
#[verifier::external_body]
#[derive(Debug)]
pub struct IntermediateFrame {
    table: hashbrown::HashMap<usize, Span>,
}

/// What an intermediate frame holds.
pub uninterp spec fn intermediate_entries(frame: IntermediateFrame) -> Map<usize, Span>;

impl IntermediateFrame {
    /// `hashbrown::HashMap::new`: a map that holds nothing.
    #[verifier::external_body]
    pub(crate) fn new() -> (frame: IntermediateFrame)
        ensures
            intermediate_entries(frame).dom().is_empty(),
    {
        IntermediateFrame { table: hashbrown::HashMap::new() }
    }

    /// `hashbrown::HashMap::insert`: the key now maps to the value, and the
    /// value it mapped to before, if any, is returned.
    #[verifier::external_body]
    pub(crate) fn insert(&mut self, local: usize, span: Span) -> (previous: Option<Span>)
        ensures
            intermediate_entries(*final(self)) == intermediate_entries(*old(self)).insert(local, span),
            previous == (if intermediate_entries(*old(self)).contains_key(local) {
                Some(intermediate_entries(*old(self))[local])
            } else {
                None
            }),
    {
        self.table.insert(local, span)
    }

    /// `hashbrown::HashMap::remove`: the key no longer maps to anything, and
    /// the value it mapped to, if any, is returned.
    #[verifier::external_body]
    pub(crate) fn remove(&mut self, local: &usize) -> (span: Option<Span>)
        ensures
            intermediate_entries(*final(self)) == intermediate_entries(*old(self)).remove(*local),
            span == (if intermediate_entries(*old(self)).contains_key(*local) {
                Some(intermediate_entries(*old(self))[*local])
            } else {
                None
            }),
    {
        self.table.remove(local)
    }
}

/// The generations of the identifiers bound in one scope: the latest
/// generation of each.
#[verifier::external_body]
#[derive(Debug)]
pub struct GenerationFrame {
    table: hashbrown::HashMap<Identifier, usize>,
}

/// What a generation frame holds, by the text of each identifier.
pub uninterp spec fn generation_entries(frame: GenerationFrame) -> Map<Seq<char>, usize>;

impl GenerationFrame {
    /// `hashbrown::HashMap::new`: a map that holds nothing.
    #[verifier::external_body]
    pub(crate) fn new() -> (frame: GenerationFrame)
        ensures
            generation_entries(frame).dom().is_empty(),
    {
        GenerationFrame { table: hashbrown::HashMap::new() }
    }

    /// `hashbrown::HashMap::insert`: the key now maps to the value, and the
    /// value it mapped to before, if any, is returned.
    #[verifier::external_body]
    pub(crate) fn insert(&mut self, identifier: Identifier, generation: usize) -> (previous: Option<usize>)
        ensures
            generation_entries(*final(self)) == generation_entries(*old(self)).insert(identifier@, generation),
            previous == (if generation_entries(*old(self)).contains_key(identifier@) {
                Some(generation_entries(*old(self))[identifier@])
            } else {
                None
            }),
    {
        self.table.insert(identifier, generation)
    }

    /// `hashbrown::HashMap::get`: the value that the key maps to, if any.
    #[verifier::external_body]
    pub(crate) fn get(&self, identifier: &Identifier) -> (generation: Option<usize>)
        ensures
            generation == (if generation_entries(*self).contains_key(identifier@) {
                Some(generation_entries(*self)[identifier@])
            } else {
                None
            }),
    {
        self.table.get(identifier).copied()
    }
}

/// The variables dropped in one scope.
#[verifier::external_body]
#[derive(Debug)]
pub struct DropFrame {
    table: hashbrown::HashSet<VariableTarget>,
}

/// What a drop frame holds, by the view of each variable.
pub uninterp spec fn dropped_entries(frame: DropFrame) -> Set<(Seq<char>, nat)>;

impl DropFrame {
    /// `hashbrown::HashSet::new`: a set that holds nothing.
    #[verifier::external_body]
    pub(crate) fn new() -> (frame: DropFrame)
        ensures
            dropped_entries(frame) == Set::<(Seq<char>, nat)>::empty(),
    {
        DropFrame { table: hashbrown::HashSet::new() }
    }

    /// `hashbrown::HashSet::insert`: the set now holds the value; the result
    /// says whether it was new.
    #[verifier::external_body]
    pub(crate) fn insert(&mut self, target: VariableTarget) -> (added: bool)
        ensures
            dropped_entries(*final(self)) == dropped_entries(*old(self)).insert(target@),
            added == !dropped_entries(*old(self)).contains(target@),
    {
        self.table.insert(target)
    }

    /// `hashbrown::HashSet::contains`: whether the set holds the value.
    #[verifier::external_body]
    pub(crate) fn contains(&self, target: &VariableTarget) -> (held: bool)
        ensures
            held == dropped_entries(*self).contains(target@),
    {
        self.table.contains(target)
    }

    /// `hashbrown::HashSet::extend` with the values of another set: the set
    /// now holds the values of both.
    #[verifier::external_body]
    pub(crate) fn extend(&mut self, other: DropFrame)
        ensures
            dropped_entries(*final(self)) == dropped_entries(*old(self)).union(dropped_entries(other)),
    {
        self.table.extend(other.table)
    }
}

} // verus!
