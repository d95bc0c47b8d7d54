use vstd::prelude::*;

use crate::node::{Size, VariableTarget};
use crate::source::{Span, Spanned};
use crate::table::{IntermediateFrame, VariableFrame};

use super::Evaluation;

verus! {

/// The state of translating one function: its labels, its locals, the
/// evaluations of the expressions translated so far, and its scopes.
#[derive(Debug)]
pub struct FunctionContext {
    label_index: usize,
    local_sizes: Vec<Size>,
    evaluation_stack: Vec<Evaluation>,
    variable_stack: Vec<VariableFrame>,
    intermediate_stack: Vec<IntermediateFrame>,
}

/// The innermost variable frame among the first `count` that binds a target.
pub open spec fn innermost_variable(frames: Seq<Map<(Seq<char>, nat), (usize, Span)>>, target: (Seq<char>, nat), count: int)
    -> Option<int>
    decreases count,
{
    if count <= 0 {
        None
    } else if frames[count - 1].contains_key(target) {
        Some(count - 1)
    } else {
        innermost_variable(frames, target, count - 1)
    }
}

/// Once the innermost frame binds a target to a local, finding the target
/// gives that local.
pub proof fn lemma_register_get(
    frames: Seq<Map<(Seq<char>, nat), (usize, Span)>>,
    target: (Seq<char>, nat),
    binding: (usize, Span),
)
    requires
        frames.len() > 0,
    ensures
        ({
            let registered = frames.drop_last().push(frames.last().insert(target, binding));
            &&& innermost_variable(registered, target, registered.len() as int) == Some(registered.len() - 1)
            &&& registered[registered.len() - 1][target] == binding
        }),
{
}

/// Opening a frame and closing it again leaves the frames as they were.
pub proof fn lemma_push_pop_frame(
    variables: Seq<Map<(Seq<char>, nat), (usize, Span)>>,
    intermediates: Seq<Map<usize, Span>>,
)
    ensures
        variables.push(Map::empty()).drop_last() == variables,
        intermediates.push(Map::empty()).drop_last() == intermediates,
{
    assert(variables.push(Map::empty()).drop_last() =~= variables);
    assert(intermediates.push(Map::empty()).drop_last() =~= intermediates);
}

impl FunctionContext {
    /// The next label to hand out.
    pub closed spec fn labels(&self) -> nat {
        self.label_index as nat
    }

    /// The size of each local, by index.
    pub closed spec fn sizes(&self) -> Seq<Size> {
        self.local_sizes@
    }

    /// The stack of evaluations, latest last.
    pub closed spec fn evaluations(&self) -> Seq<Evaluation> {
        self.evaluation_stack@
    }

    /// The variable frames, innermost last.
    pub closed spec fn variables(&self) -> Seq<Map<(Seq<char>, nat), (usize, Span)>> {
        self.variable_stack@.map_values(|frame: VariableFrame| crate::table::variable_entries(frame))
    }

    /// The intermediate frames, innermost last.
    pub closed spec fn intermediates(&self) -> Seq<Map<usize, Span>> {
        self.intermediate_stack@.map_values(|frame: IntermediateFrame| crate::table::intermediate_entries(frame))
    }

    /// The local that a variable is bound to in the innermost frame that binds it.
    pub open spec fn spec_variable(&self, target: (Seq<char>, nat)) -> usize {
        let frame = innermost_variable(self.variables(), target, self.variables().len() as int).unwrap();
        self.variables()[frame][target].0
    }

    /// Whether some frame binds a variable.
    pub open spec fn binds(&self, target: (Seq<char>, nat)) -> bool {
        innermost_variable(self.variables(), target, self.variables().len() as int) is Some
    }

    /// A context with no labels, locals, evaluations or frames.
    pub fn new() -> (context: FunctionContext)
        ensures
            context.labels() == 0,
            context.sizes().len() == 0,
            context.evaluations().len() == 0,
            context.variables().len() == 0,
            context.intermediates().len() == 0,
    {
        FunctionContext {
            label_index: 0,
            local_sizes: Vec::new(),
            evaluation_stack: Vec::new(),
            variable_stack: Vec::new(),
            intermediate_stack: Vec::new(),
        }
    }

    /// Adds a local of a size; its index is returned.
    pub fn register_local(&mut self, size: Size) -> (local: usize)
        ensures
            local == old(self).sizes().len(),
            final(self).sizes() == old(self).sizes().push(size),
            final(self).labels() == old(self).labels(),
            final(self).evaluations() == old(self).evaluations(),
            final(self).variables() == old(self).variables(),
            final(self).intermediates() == old(self).intermediates(),
    {
        self.local_sizes.push(size);
        self.local_sizes.len() - 1
    }

    /// Adds a local of the size of an existing one.
    pub fn clone_local(&mut self, local_index: usize) -> (local: usize)
        requires
            local_index < old(self).sizes().len(),
        ensures
            local == old(self).sizes().len(),
            final(self).sizes() == old(self).sizes().push(old(self).sizes()[local_index as int]),
            final(self).labels() == old(self).labels(),
            final(self).evaluations() == old(self).evaluations(),
            final(self).variables() == old(self).variables(),
            final(self).intermediates() == old(self).intermediates(),
    {
        let size = self.local_sizes[local_index];
        self.register_local(size)
    }

    /// Removes a local from the innermost intermediate frame, if it is there.
    pub fn drop_intermediate(&mut self, local_index: &usize)
        requires
            old(self).intermediates().len() > 0,
        ensures
            final(self).intermediates() == old(self).intermediates().drop_last().push(
                old(self).intermediates().last().remove(*local_index),
            ),
            final(self).labels() == old(self).labels(),
            final(self).sizes() == old(self).sizes(),
            final(self).evaluations() == old(self).evaluations(),
            final(self).variables() == old(self).variables(),
    {
        let mut frame = self.intermediate_stack.pop().unwrap();
        frame.remove(local_index);
        self.intermediate_stack.push(frame);
        assert(self.intermediates() =~= old(self).intermediates().drop_last().push(
            old(self).intermediates().last().remove(*local_index),
        ));
    }

    /// Records an unnamed local that must be released, in the innermost frame.
    pub fn register_intermediate(&mut self, local_index: usize, span: Span)
        requires
            old(self).intermediates().len() > 0,
        ensures
            final(self).intermediates() == old(self).intermediates().drop_last().push(
                old(self).intermediates().last().insert(local_index, span),
            ),
            final(self).labels() == old(self).labels(),
            final(self).sizes() == old(self).sizes(),
            final(self).evaluations() == old(self).evaluations(),
            final(self).variables() == old(self).variables(),
    {
        let mut frame = self.intermediate_stack.pop().unwrap();
        frame.insert(local_index, span);
        self.intermediate_stack.push(frame);
        assert(self.intermediates() =~= old(self).intermediates().drop_last().push(
            old(self).intermediates().last().insert(local_index, span),
        ));
    }

    /// Associates a variable with a local in the innermost frame. A local that
    /// was an intermediate stops being one.
    pub fn annotate_local(&mut self, local_index: usize, target: Spanned<VariableTarget>)
        requires
            old(self).variables().len() > 0,
            old(self).intermediates().len() > 0,
        ensures
            final(self).variables() == old(self).variables().drop_last().push(
                old(self).variables().last().insert(target.node@, (local_index, target.span)),
            ),
            final(self).intermediates() == old(self).intermediates().drop_last().push(
                old(self).intermediates().last().remove(local_index),
            ),
            final(self).labels() == old(self).labels(),
            final(self).sizes() == old(self).sizes(),
            final(self).evaluations() == old(self).evaluations(),
    {
        let mut frame = self.variable_stack.pop().unwrap();
        frame.insert(target.node, (local_index, target.span));
        self.variable_stack.push(frame);
        assert(self.variables() =~= old(self).variables().drop_last().push(
            old(self).variables().last().insert(target.node@, (local_index, target.span)),
        ));
        self.drop_intermediate(&local_index);
    }

    /// Adds a local of a size for a variable in the innermost frame; the index
    /// of the local is returned.
    pub fn register_variable(&mut self, target: Spanned<VariableTarget>, size: Size) -> (local: usize)
        requires
            old(self).variables().len() > 0,
            old(self).intermediates().len() > 0,
        ensures
            local == old(self).sizes().len(),
            final(self).sizes() == old(self).sizes().push(size),
            final(self).variables() == old(self).variables().drop_last().push(
                old(self).variables().last().insert(target.node@, (local, target.span)),
            ),
            final(self).intermediates() == old(self).intermediates().drop_last().push(
                old(self).intermediates().last().remove(local),
            ),
            final(self).labels() == old(self).labels(),
            final(self).evaluations() == old(self).evaluations(),
    {
        let local_index = self.register_local(size);
        self.annotate_local(local_index, target);
        local_index
    }

    /// The local of a variable in the innermost frame that binds it.
    pub fn get_variable(&self, target: &VariableTarget) -> (local: usize)
        requires
            self.binds(target@),
        ensures
            local == self.spec_variable(target@),
    {
        let mut index = self.variable_stack.len();
        while index > 0
            invariant
                index <= self.variable_stack@.len(),
                innermost_variable(self.variables(), target@, self.variables().len() as int)
                    == innermost_variable(self.variables(), target@, index as int),
                self.binds(target@),
            decreases index,
        {
            match self.variable_stack[index - 1].get(target) {
                Some((local_index, _)) => {
                    assert(self.variables()[index - 1] == crate::table::variable_entries(self.variable_stack@[index - 1]));
                    return local_index;
                },
                None => {
                    assert(self.variables()[index - 1] == crate::table::variable_entries(self.variable_stack@[index - 1]));
                    index -= 1;
                },
            }
        }
        0
    }

    /// Removes a variable from the innermost frame, which must bind it, and
    /// gives back its local.
    pub fn drop_variable(&mut self, target: &VariableTarget) -> (local: usize)
        requires
            old(self).variables().len() > 0,
            old(self).variables().last().contains_key(target@),
        ensures
            local == old(self).variables().last()[target@].0,
            final(self).variables() == old(self).variables().drop_last().push(
                old(self).variables().last().remove(target@),
            ),
            final(self).labels() == old(self).labels(),
            final(self).sizes() == old(self).sizes(),
            final(self).evaluations() == old(self).evaluations(),
            final(self).intermediates() == old(self).intermediates(),
    {
        let mut frame = self.variable_stack.pop().unwrap();
        let (local_index, _) = frame.remove(target).unwrap();
        frame.remove(target);
        assert(crate::table::variable_entries(frame) =~= old(self).variables().last().remove(target@));
        self.variable_stack.push(frame);
        assert(self.variables() =~= old(self).variables().drop_last().push(
            old(self).variables().last().remove(target@),
        ));
        local_index
    }

    pub fn push_evaluation(&mut self, evaluation: Evaluation)
        ensures
            final(self).evaluations() == old(self).evaluations().push(evaluation),
            final(self).labels() == old(self).labels(),
            final(self).sizes() == old(self).sizes(),
            final(self).variables() == old(self).variables(),
            final(self).intermediates() == old(self).intermediates(),
    {
        self.evaluation_stack.push(evaluation);
    }

    /// Takes the latest evaluation.
    pub fn pop_evaluation(&mut self) -> (evaluation: Evaluation)
        requires
            old(self).evaluations().len() > 0,
        ensures
            evaluation == old(self).evaluations().last(),
            final(self).evaluations() == old(self).evaluations().drop_last(),
            final(self).labels() == old(self).labels(),
            final(self).sizes() == old(self).sizes(),
            final(self).variables() == old(self).variables(),
            final(self).intermediates() == old(self).intermediates(),
    {
        self.evaluation_stack.pop().unwrap()
    }

    /// A fresh label: each call gives the next number.
    pub fn label(&mut self) -> (label: usize)
        requires
            old(self).labels() < usize::MAX,
        ensures
            label == old(self).labels(),
            final(self).labels() == old(self).labels() + 1,
            final(self).sizes() == old(self).sizes(),
            final(self).evaluations() == old(self).evaluations(),
            final(self).variables() == old(self).variables(),
            final(self).intermediates() == old(self).intermediates(),
    {
        self.label_index += 1;
        self.label_index - 1
    }

    /// Two fresh labels, one after the other.
    pub fn pair_labels(&mut self) -> (labels: (usize, usize))
        requires
            old(self).labels() + 1 < usize::MAX,
        ensures
            labels == (old(self).labels() as usize, (old(self).labels() + 1) as usize),
            final(self).labels() == old(self).labels() + 2,
            final(self).sizes() == old(self).sizes(),
            final(self).evaluations() == old(self).evaluations(),
            final(self).variables() == old(self).variables(),
            final(self).intermediates() == old(self).intermediates(),
    {
        (self.label(), self.label())
    }

    /// The sizes of the locals, by index.
    pub fn local_sizes(&self) -> (sizes: &[Size])
        ensures
            sizes@ == self.sizes(),
    {
        self.local_sizes.as_slice()
    }

    /// Opens a new variable frame and a new intermediate frame.
    pub fn push_frame(&mut self)
        ensures
            final(self).variables() == old(self).variables().push(Map::empty()),
            final(self).intermediates() == old(self).intermediates().push(Map::empty()),
            final(self).labels() == old(self).labels(),
            final(self).sizes() == old(self).sizes(),
            final(self).evaluations() == old(self).evaluations(),
    {
        let variables = VariableFrame::new();
        let intermediates = IntermediateFrame::new();
        assert(crate::table::variable_entries(variables) =~= Map::empty());
        assert(crate::table::intermediate_entries(intermediates) =~= Map::empty());
        self.variable_stack.push(variables);
        self.intermediate_stack.push(intermediates);
        assert(self.variables() =~= old(self).variables().push(Map::empty()));
        assert(self.intermediates() =~= old(self).intermediates().push(Map::empty()));
    }

    /// Closes the innermost frames and gives them back.
    pub fn pop_frame(&mut self) -> (frames: (VariableFrame, IntermediateFrame))
        requires
            old(self).variables().len() > 0,
            old(self).intermediates().len() > 0,
        ensures
            crate::table::variable_entries(frames.0) == old(self).variables().last(),
            crate::table::intermediate_entries(frames.1) == old(self).intermediates().last(),
            final(self).variables() == old(self).variables().drop_last(),
            final(self).intermediates() == old(self).intermediates().drop_last(),
            final(self).labels() == old(self).labels(),
            final(self).sizes() == old(self).sizes(),
            final(self).evaluations() == old(self).evaluations(),
    {
        let variable_frame = self.variable_stack.pop().unwrap();
        let intermediate_frame = self.intermediate_stack.pop().unwrap();
        assert(self.variables() =~= old(self).variables().drop_last());
        assert(self.intermediates() =~= old(self).intermediates().drop_last());
        (variable_frame, intermediate_frame)
    }
}

} // verus!
