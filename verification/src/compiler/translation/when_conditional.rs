use vstd::prelude::*;

use crate::basic::Direction;
use crate::node::WhenConditional;
use crate::source::{Span, Spanned};

use super::conditional_loop::{jump, label_marker};
use super::element::{instruction, other};
use super::{Element, FunctionContext};

verus! {

/// The labels of the branches of a conditional: branch `i` is entered at label
/// `first + i` and left at label `first + i + 1`, so that each branch is left
/// where the next one is entered.
pub open spec fn branch_label_pairs(first: nat, count: nat) -> Seq<(usize, usize)> {
    Seq::new(count, |i: int| ((first + i) as usize, (first + i + 1) as usize))
}

/// Each branch is left at the label where the next one is entered, and no
/// two branches share an entry label.
pub proof fn lemma_branch_labels_chain(first: nat, count: nat, index: int, other: int)
    requires
        first + count + 1 <= usize::MAX,
        0 <= index < count,
        0 <= other < count,
    ensures
        index + 1 < count ==> branch_label_pairs(first, count)[index].1 == branch_label_pairs(first, count)[index + 1].0,
        index != other ==> branch_label_pairs(first, count)[index].0 != branch_label_pairs(first, count)[other].0,
        branch_label_pairs(first, count)[index].0 < branch_label_pairs(first, count)[index].1,
{
}

/// Allocates the labels of the branches of a conditional: two fresh labels
/// for the first branch, one more for each further branch.
pub fn when_branch_labels(when_conditional: &Spanned<WhenConditional>, context: &mut FunctionContext)
    -> (labels: Vec<(usize, usize)>)
    requires
        old(context).labels() + when_conditional.node.branches@.len() + 1 < usize::MAX,
    ensures
        labels@ == branch_label_pairs(old(context).labels(), when_conditional.node.branches@.len()),
        final(context).labels() == old(context).labels() + if when_conditional.node.branches@.len() == 0 {
            0
        } else {
            when_conditional.node.branches@.len() + 1
        },
        final(context).sizes() == old(context).sizes(),
        final(context).evaluations() == old(context).evaluations(),
        final(context).variables() == old(context).variables(),
        final(context).intermediates() == old(context).intermediates(),
{
    let ghost first = context.labels();
    let count = when_conditional.node.branches.len();
    let mut labels: Vec<(usize, usize)> = Vec::new();
    let mut split_label: Option<usize> = None;
    let mut index: usize = 0;
    while index < count
        invariant
            count == when_conditional.node.branches@.len(),
            first + count + 1 < usize::MAX,
            index <= count,
            labels@ == branch_label_pairs(first, index as nat),
            index == 0 ==> split_label is None && context.labels() == first,
            index > 0 ==> split_label == Some((first + index) as usize) && context.labels() == first + index + 1,
            context.sizes() == old(context).sizes(),
            context.evaluations() == old(context).evaluations(),
            context.variables() == old(context).variables(),
            context.intermediates() == old(context).intermediates(),
        decreases count - index,
    {
        let (entry, exit) = match split_label {
            None => context.pair_labels(),
            Some(entry) => (entry, context.label()),
        };
        split_label = Some(exit);
        labels.push((entry, exit));
        index += 1;
        assert(labels@ =~= branch_label_pairs(first, index as nat));
    }
    labels
}

/// The elements of one branch of a conditional, after its expression has been
/// translated: the entry label of the first branch, a jump back to the start
/// when reversing, the expression, a jump to the end when advancing, and the
/// branch's exit label.
pub open spec fn branch_view(
    index: int,
    span: Span,
    labels: (usize, usize),
    expression: Seq<(super::element::ElementView, Span)>,
    start_label: usize,
    end_label: usize,
) -> Seq<(super::element::ElementView, Span)> {
    let entry = if index == 0 {
        seq![super::element::other_view(super::conditional_loop::label_text(labels.0), span)]
    } else {
        Seq::empty()
    };
    entry
        + seq![super::element::instruction_view(
            Direction::Advance,
            Some(Direction::Reverse),
            super::conditional_loop::jump_text(start_label),
            span,
        )]
        + expression
        + seq![
            super::element::instruction_view(
                Direction::Advance,
                Some(Direction::Advance),
                super::conditional_loop::jump_text(end_label),
                span,
            ),
            super::element::other_view(super::conditional_loop::label_text(labels.1), span),
        ]
}

/// The elements of the first `count` branches of a conditional, one after the other.
pub open spec fn branches_view(
    spans: Seq<Span>,
    labels: Seq<(usize, usize)>,
    expressions: Seq<Seq<(super::element::ElementView, Span)>>,
    start_label: usize,
    end_label: usize,
    count: int,
) -> Seq<(super::element::ElementView, Span)>
    decreases count,
{
    if count <= 0 {
        Seq::empty()
    } else {
        branches_view(spans, labels, expressions, start_label, end_label, count - 1)
            + branch_view(count - 1, spans[count - 1], labels[count - 1], expressions[count - 1], start_label, end_label)
    }
}

/// The spans of the blocks of the branches of a conditional.
pub open spec fn block_spans(when_conditional: WhenConditional) -> Seq<Span> {
    when_conditional.branches@.map_values(|branch: crate::node::WhenBranch| branch.expression_block.span)
}

/// Joins the translated expressions of the branches of a conditional: see
/// `branch_view` for what each branch contributes.
pub fn when_expressions(
    when_conditional: &Spanned<WhenConditional>,
    branch_labels: &Vec<(usize, usize)>,
    expressions: Vec<Vec<Spanned<Element>>>,
    start_label: usize,
    end_label: usize,
) -> (elements: Vec<Spanned<Element>>)
    requires
        expressions@.len() <= when_conditional.node.branches@.len(),
        expressions@.len() <= branch_labels@.len(),
    ensures
        super::element::element_views(elements@) == branches_view(
            block_spans(when_conditional.node),
            branch_labels@,
            expressions@.map_values(|expression: Vec<Spanned<Element>>| super::element::element_views(expression@)),
            start_label,
            end_label,
            expressions@.len() as int,
        ),
{
    let ghost views = expressions@.map_values(|expression: Vec<Spanned<Element>>| super::element::element_views(expression@));
    let ghost spans = block_spans(when_conditional.node);
    let count = expressions.len();
    let mut remaining = expressions;
    crate::sequence::reverse_in_place(&mut remaining);
    let mut elements: Vec<Spanned<Element>> = Vec::new();
    let mut branch_index: usize = 0;
    while branch_index < count
        invariant
            count == views.len(),
            count <= when_conditional.node.branches@.len(),
            count <= branch_labels@.len(),
            spans == block_spans(when_conditional.node),
            branch_index <= count,
            remaining@.len() == count - branch_index,
            forall|i: int| 0 <= i < remaining@.len() ==>
                super::element::element_views(#[trigger] remaining@[i]@) == views[count - 1 - i],
            super::element::element_views(elements@)
                == branches_view(spans, branch_labels@, views, start_label, end_label, branch_index as int),
        decreases count - branch_index,
    {
        let mut expression_elements = remaining.pop().unwrap();
        assert(super::element::element_views(expression_elements@) == views[branch_index as int]);
        let span = when_conditional.node.branches[branch_index].expression_block.span;
        assert(span == spans[branch_index as int]);
        let (branch_entry, branch_exit) = branch_labels[branch_index];
        let ghost before = super::element::element_views(elements@);

        if branch_index == 0 {
            elements.push(other(label_marker(branch_entry), span));
        }
        elements.push(instruction(Direction::Advance, Some(Direction::Reverse), jump(start_label), span));
        elements.append(&mut expression_elements);
        elements.push(instruction(Direction::Advance, Some(Direction::Advance), jump(end_label), span));
        elements.push(other(label_marker(branch_exit), span));

        assert(super::element::element_views(elements@) =~= before + branch_view(
            branch_index as int,
            span,
            branch_labels@[branch_index as int],
            views[branch_index as int],
            start_label,
            end_label,
        ));
        branch_index += 1;
    }
    elements
}

} // verus!
