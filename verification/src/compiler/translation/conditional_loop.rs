use vstd::prelude::*;
use vstd::string::StringExecFns;

use crate::basic::Direction;
use crate::source::{numbered_text, Span, Spanned};

use super::element::{instruction, other};
use super::Element;

verus! {

/// The text `jump <label>`.
pub open spec fn jump_text(label: usize) -> Seq<char> {
    seq!['j', 'u', 'm', 'p', ' '] + crate::source::decimal(label as nat)
}

/// The text `<label>: pass` that marks a label.
pub open spec fn label_text(label: usize) -> Seq<char> {
    crate::source::decimal(label as nat) + seq![':', ' ', 'p', 'a', 's', 's']
}

/// A jump instruction.
pub fn jump(label: usize) -> (text: String)
    ensures
        text@ == jump_text(label),
{
    proof {
        reveal_strlit("jump ");
        reveal_strlit("");
    }
    let text = numbered_text("jump ", label, "");
    assert(text@ =~= jump_text(label));
    text
}

/// The marker of a label.
pub fn label_marker(label: usize) -> (text: String)
    ensures
        text@ == label_text(label),
{
    proof {
        reveal_strlit("");
        reveal_strlit(": pass");
    }
    let text = numbered_text("", label, ": pass");
    assert(text@ =~= label_text(label));
    text
}

/// The start of a loop: its start label, then, when reversing, a jump to its end.
pub fn loop_header(loop_span: Span, start_label: usize, end_label: usize) -> (elements: Vec<Spanned<Element>>)
    ensures
        super::element::element_views(elements@) == seq![
            super::element::other_view(label_text(start_label), loop_span),
            super::element::instruction_view(Direction::Advance, Some(Direction::Reverse), jump_text(end_label), loop_span),
        ],
{
    let mut elements = Vec::new();
    elements.push(other(label_marker(start_label), loop_span));
    elements.push(instruction(Direction::Advance, Some(Direction::Reverse), jump(end_label), loop_span));
    assert(super::element::element_views(elements@) =~= seq![
        super::element::other_view(label_text(start_label), loop_span),
        super::element::instruction_view(Direction::Advance, Some(Direction::Reverse), jump_text(end_label), loop_span),
    ]);
    elements
}

/// The end of a loop: when advancing, a jump back to its start, then its end label.
pub fn loop_suffix(loop_span: Span, start_label: usize, end_label: usize) -> (elements: Vec<Spanned<Element>>)
    ensures
        super::element::element_views(elements@) == seq![
            super::element::instruction_view(Direction::Advance, Some(Direction::Advance), jump_text(start_label), loop_span),
            super::element::other_view(label_text(end_label), loop_span),
        ],
{
    let mut elements = Vec::new();
    elements.push(instruction(Direction::Advance, Some(Direction::Advance), jump(start_label), loop_span));
    elements.push(other(label_marker(end_label), loop_span));
    assert(super::element::element_views(elements@) =~= seq![
        super::element::instruction_view(Direction::Advance, Some(Direction::Advance), jump_text(start_label), loop_span),
        super::element::other_view(label_text(end_label), loop_span),
    ]);
    elements
}

} // verus!
