//! Basic blocks of the first lowering: straight runs of statements joined by
//! a branch at each end, one taken when advancing and one when reversing.
use vstd::prelude::*;
use vstd::string::StringExecFns;

use crate::source::{Span, Spanned};

use super::{Direction, Statement};

verus! {

/// The index of a block; `usize::MAX` marks a target not yet assigned.
#[derive(Debug, Copy, Clone, PartialEq, Eq, Hash, Structural)]
pub struct BlockTarget(pub usize);

impl BlockTarget {
    pub open spec fn spec_sentinel() -> BlockTarget {
        BlockTarget(usize::MAX)
    }

    /// The index of the block in decimal; `<?>` for the target not yet assigned.
    pub open spec fn spec_text(self) -> Seq<char> {
        if self == BlockTarget::spec_sentinel() {
            seq!['<', '?', '>']
        } else {
            crate::source::decimal(self.0 as nat)
        }
    }

    pub fn text(&self) -> (text: String)
        ensures
            text@ == self.spec_text(),
    {
        proof {
            reveal_strlit("<?>");
            reveal_strlit("");
        }
        if self.0 == usize::MAX {
            String::from_str("<?>")
        } else {
            let text = crate::source::numbered_text("", self.0, "");
            assert(text@ =~= crate::source::decimal(self.0 as nat));
            text
        }
    }

    /// The target not yet assigned.
    #[verifier::when_used_as_spec(spec_sentinel)]
    pub fn sentinel() -> (target: BlockTarget)
        ensures
            target == BlockTarget::spec_sentinel(),
    {
        BlockTarget(usize::MAX)
    }
}

/// Where a block goes at one of its ends: to another block, or nowhere yet.
#[derive(Debug, Copy, Clone, PartialEq, Eq, Structural)]
pub enum BlockBranch {
    Jump(BlockTarget),
    Unreachable,
}

/// A run of statements with a branch at each end, the direction it runs in,
/// and the blocks that branch into it at each end.
#[derive(Debug)]
pub struct BasicBlock {
    pub advance: Spanned<BlockBranch>,
    pub reverse: Spanned<BlockBranch>,
    pub statements: Vec<Spanned<Statement>>,
    /// Whether the block has been inverted.
    pub direction: Direction,
    pub in_advance: Vec<BlockTarget>,
    pub in_reverse: Vec<BlockTarget>,
}

impl BasicBlock {
    /// Whether a block is as `default` makes it, but for its statements.
    pub open spec fn is_bare(&self) -> bool {
        &&& self.advance == Spanned { node: BlockBranch::Unreachable, span: Span::spec_sentinel() }
        &&& self.reverse == Spanned { node: BlockBranch::Unreachable, span: Span::spec_sentinel() }
        &&& self.direction == Direction::Advance
        &&& self.in_advance@.len() == 0
        &&& self.in_reverse@.len() == 0
    }

    /// `self` is `other` run the other way: branches and in-edges trade ends,
    /// the statements run in the opposite order, and the direction flips.
    pub open spec fn is_inversion_of(&self, other: BasicBlock) -> bool {
        &&& self.advance == other.reverse
        &&& self.reverse == other.advance
        &&& self.in_advance@ == other.in_reverse@
        &&& self.in_reverse@ == other.in_advance@
        &&& self.direction == other.direction.flip()
        &&& self.statements@ == other.statements@.reverse()
    }

    /// Inverting a block twice gives it back.
    pub proof fn lemma_invert_twice(first: BasicBlock, second: BasicBlock, third: BasicBlock)
        requires
            second.is_inversion_of(first),
            third.is_inversion_of(second),
        ensures
            third.advance == first.advance,
            third.reverse == first.reverse,
            third.in_advance@ == first.in_advance@,
            third.in_reverse@ == first.in_reverse@,
            third.direction == first.direction,
            third.statements@ == first.statements@,
    {
        assert(first.statements@.reverse().reverse() =~= first.statements@);
    }

    /// A block of one statement.
    pub fn new_single(statement: Spanned<Statement>) -> (block: BasicBlock)
        ensures
            block.is_bare(),
            block.statements@ == seq![statement],
    {
        let mut block = BasicBlock::default();
        block.statements.push(statement);
        assert(block.statements@ =~= seq![statement]);
        block
    }

    /// The block run the other way: its branches and its in-edges trade
    /// ends, its statements run in the opposite order, and its direction flips.
    pub fn invert(&mut self)
        ensures
            final(self).is_inversion_of(*old(self)),
    {
        std::mem::swap(&mut self.advance, &mut self.reverse);
        std::mem::swap(&mut self.in_advance, &mut self.in_reverse);
        self.direction = self.direction.invert();
        crate::sequence::reverse_in_place(&mut self.statements);
    }
}

impl Default for BasicBlock {
    /// A block with no statements, no edges, and branches to nowhere.
    fn default() -> (block: BasicBlock)
        ensures
            block.is_bare(),
            block.statements@.len() == 0,
    {
        BasicBlock {
            advance: Spanned::new(BlockBranch::Unreachable, Span::sentinel()),
            reverse: Spanned::new(BlockBranch::Unreachable, Span::sentinel()),
            statements: Vec::new(),
            direction: Direction::Advance,
            in_advance: Vec::new(),
            in_reverse: Vec::new(),
        }
    }
}

} // verus!
