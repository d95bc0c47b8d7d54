//! Instructions as the first translator wrote them: the direction mark at the
//! end of the whole instruction.
use vstd::prelude::*;
use vstd::string::StringExecFns;

use crate::basic::Direction;

verus! {

/// A line of translated output: an instruction or other text.
#[derive(Debug, Clone)]
pub enum Element {
    Instruction(Instruction),
    Other(String),
}

/// An instruction with its direction and its polarization, if it has one.
#[derive(Debug, Clone)]
pub struct Instruction {
    pub direction: Direction,
    pub polarization: Option<Direction>,
    pub instruction: String,
}

impl Instruction {
    /// The instruction as written: `+` or `-` before it for a polarization,
    /// and `'` after it when it runs inverted.
    pub open spec fn spec_text(self) -> Seq<char> {
        let polarization = match self.polarization {
            Some(Direction::Advance) => seq!['+'],
            Some(Direction::Reverse) => seq!['-'],
            None => Seq::empty(),
        };
        let direction = match self.direction {
            Direction::Advance => Seq::empty(),
            Direction::Reverse => seq!['\''],
        };
        polarization + self.instruction@ + direction
    }

    pub fn text(&self) -> (text: String)
        ensures
            text@ == self.spec_text(),
    {
        proof {
            reveal_strlit("+");
            reveal_strlit("-");
            reveal_strlit("'");
            reveal_strlit("");
        }
        let polarization = match self.polarization {
            Some(Direction::Advance) => "+",
            Some(Direction::Reverse) => "-",
            None => "",
        };
        let direction = match self.direction {
            Direction::Advance => "",
            Direction::Reverse => "'",
        };
        let mut text = String::from_str(polarization);
        text.append(self.instruction.as_str());
        text.append(direction);
        text
    }
}

impl Element {
    /// The element as written: an instruction's text, or the other text itself.
    pub open spec fn spec_text(self) -> Seq<char> {
        match self {
            Element::Instruction(instruction) => instruction.spec_text(),
            Element::Other(other) => other@,
        }
    }

    pub fn text(&self) -> (text: String)
        ensures
            text@ == self.spec_text(),
    {
        match self {
            Element::Instruction(instruction) => instruction.text(),
            Element::Other(other) => other.clone(),
        }
    }
}

} // verus!
