//! Compiler passes of a reversible language: the passes that prepare the
//! syntax tree, the basic-node graph that functions are lowered to, and the
//! translation to the instructions of the target machine.

pub mod source;
pub mod node;
pub mod sequence;
pub mod table;
pub mod basic;
pub mod compiler;
