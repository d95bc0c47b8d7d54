//! The direct translator: a syntax tree of statements translated straight to
//! instructions, without the basic-node graph.

pub use self::translator::Translator;

pub mod tree;
pub mod translator;
