use vstd::prelude::*;
use vstd::string::{StrSliceExecFns, StringExecFns};

use crate::basic::Direction;
use crate::source::{Span, Spanned};

verus! {

/// A line of the translated program: an instruction, or other text such as a
/// label or an annotation.
#[derive(Debug, Clone)]
pub enum Element {
    Instruction(Instruction),
    Other(String),
}

/// An instruction of the target machine. Its direction says whether it runs
/// as written or inverted; a polarization confines it to run in one direction
/// of execution only.
#[derive(Debug, Clone)]
pub struct Instruction {
    pub direction: Direction,
    pub polarization: Option<Direction>,
    pub instruction: String,
}

/// What an element says: the direction and polarization of an instruction
/// (none for other text), and its text.
pub type ElementView = (Option<(Direction, Option<Direction>)>, Seq<char>);

impl View for Element {
    type V = ElementView;

    open spec fn view(&self) -> ElementView {
        match self {
            Element::Instruction(instruction) => (
                Some((instruction.direction, instruction.polarization)),
                instruction.instruction@,
            ),
            Element::Other(other) => (None, other@),
        }
    }
}

/// What a sequence of spanned elements says, element by element.
pub open spec fn element_views(elements: Seq<Spanned<Element>>) -> Seq<(ElementView, Span)> {
    elements.map_values(|element: Spanned<Element>| (element.node@, element.span))
}

/// The view of an instruction element.
pub open spec fn instruction_view(
    direction: Direction,
    polarization: Option<Direction>,
    text: Seq<char>,
    span: Span,
) -> (ElementView, Span) {
    ((Some((direction, polarization)), text), span)
}

/// The view of an element of other text.
pub open spec fn other_view(text: Seq<char>, span: Span) -> (ElementView, Span) {
    ((None, text), span)
}

/// The view of an element once inverted: a polarized instruction takes the
/// other polarization, an unpolarized one the other direction, and other text
/// stays as it is.
pub open spec fn inverted_view(view: ElementView) -> ElementView {
    match view.0 {
        Some((direction, Some(polarization))) => (Some((direction, Some(polarization.flip()))), view.1),
        Some((direction, None)) => (Some((direction.flip(), None)), view.1),
        None => view,
    }
}

/// Inverting an element twice gives it back.
pub proof fn lemma_invert_twice(view: ElementView)
    ensures
        inverted_view(inverted_view(view)) == view,
{
}

/// An instruction element.
pub fn instruction(direction: Direction, polarization: Option<Direction>, text: String, span: Span)
    -> (element: Spanned<Element>)
    ensures
        (element.node@, element.span) == instruction_view(direction, polarization, text@, span),
{
    Spanned::new(Element::Instruction(Instruction { direction, polarization, instruction: text }), span)
}

/// An element of other text.
pub fn other(text: String, span: Span) -> (element: Spanned<Element>)
    ensures
        (element.node@, element.span) == other_view(text@, span),
{
    Spanned::new(Element::Other(text), span)
}

/// Whether a character is white space, as Unicode's `White_Space` property says.
pub open spec fn is_whitespace(c: char) -> bool {
    ||| ('\t' <= c && c <= '\r')
    ||| c == ' '
    ||| c == '\u{85}'
    ||| c == '\u{a0}'
    ||| c == '\u{1680}'
    ||| ('\u{2000}' <= c && c <= '\u{200a}')
    ||| c == '\u{2028}'
    ||| c == '\u{2029}'
    ||| c == '\u{202f}'
    ||| c == '\u{205f}'
    ||| c == '\u{3000}'
}

fn whitespace(c: char) -> (result: bool)
    ensures
        result == is_whitespace(c),
{
    ('\t' <= c && c <= '\r') || c == ' ' || c == '\u{85}' || c == '\u{a0}' || c == '\u{1680}'
        || ('\u{2000}' <= c && c <= '\u{200a}') || c == '\u{2028}' || c == '\u{2029}'
        || c == '\u{202f}' || c == '\u{205f}' || c == '\u{3000}'
}

/// The place of the first white space character of a text; its length where
/// it has none.
pub open spec fn operation_end(text: Seq<char>) -> int
    decreases text.len(),
{
    if text.len() == 0 {
        0
    } else if is_whitespace(text[0]) {
        0
    } else {
        1 + operation_end(text.drop_first())
    }
}

proof fn lemma_operation_end(text: Seq<char>, index: int)
    requires
        0 <= index <= text.len(),
        forall|i: int| 0 <= i < index ==> !is_whitespace(text[i]),
        index == text.len() || is_whitespace(text[index]),
    ensures
        operation_end(text) == index,
    decreases text.len(),
{
    if text.len() > 0 && index > 0 {
        lemma_operation_end(text.drop_first(), index - 1);
    }
}

impl Element {
    /// Inverts the element: see `inverted_view`.
    pub fn invert(&mut self)
        ensures
            final(self)@ == inverted_view(old(self)@),
    {
        if let Element::Instruction(instruction) = self {
            match &mut instruction.polarization {
                Some(polarization) => *polarization = polarization.invert(),
                None => instruction.direction = instruction.direction.invert(),
            }
        }
    }

    /// The text of the element as the translated program writes it. An
    /// instruction is indented by a tab and marked: `+` or `-` before it for
    /// a polarization, and `'` after its operation (the text before the first
    /// white space) when it runs inverted.
    pub open spec fn spec_text(self) -> Seq<char> {
        match self {
            Element::Instruction(instruction) => {
                let text = instruction.instruction@;
                let end = operation_end(text);
                let polarization = match instruction.polarization {
                    Some(Direction::Advance) => seq!['+'],
                    Some(Direction::Reverse) => seq!['-'],
                    None => Seq::empty(),
                };
                let direction = match instruction.direction {
                    Direction::Advance => Seq::empty(),
                    Direction::Reverse => seq!['\''],
                };
                seq!['\t'] + polarization + text.subrange(0, end) + direction + text.subrange(end, text.len() as int)
            },
            Element::Other(other) => other@,
        }
    }

    pub fn text(&self) -> (text: String)
        ensures
            text@ == self.spec_text(),
    {
        match self {
            Element::Other(other) => other.clone(),
            Element::Instruction(instruction) => {
                let source = instruction.instruction.as_str();
                let length = source.unicode_len();
                let mut end: usize = 0;
                while end < length && !whitespace(source.get_char(end))
                    invariant
                        length == source@.len(),
                        end <= length,
                        forall|i: int| 0 <= i < end ==> !is_whitespace(source@[i]),
                    decreases length - end,
                {
                    end += 1;
                }
                proof {
                    lemma_operation_end(source@, end as int);
                }
                proof {
                    reveal_strlit("\t");
                    reveal_strlit("+");
                    reveal_strlit("-");
                    reveal_strlit("'");
                }
                let mut text = String::from_str("\t");
                match instruction.polarization {
                    Some(Direction::Advance) => text.append("+"),
                    Some(Direction::Reverse) => text.append("-"),
                    None => (),
                }
                text.append(source.substring_char(0, end));
                match instruction.direction {
                    Direction::Advance => (),
                    Direction::Reverse => text.append("'"),
                }
                text.append(source.substring_char(end, length));
                proof {
                    let polarization: Seq<char> = match instruction.polarization {
                        Some(Direction::Advance) => seq!['+'],
                        Some(Direction::Reverse) => seq!['-'],
                        None => Seq::empty(),
                    };
                    let direction: Seq<char> = match instruction.direction {
                        Direction::Advance => Seq::empty(),
                        Direction::Reverse => seq!['\''],
                    };
                    assert(text@ =~= seq!['\t'] + polarization + source@.subrange(0, end as int) + direction
                        + source@.subrange(end as int, length as int));
                }
                text
            },
        }
    }
}

} // verus!
