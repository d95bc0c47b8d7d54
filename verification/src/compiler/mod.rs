//! Passes over the syntax tree, and the translation of functions to the
//! instructions of the target machine.

pub use self::exposition::{ExpositionError, ReverseExposition, VariableExposition};
pub use self::translation::TranslationMap;

pub mod direct;
pub mod element;
pub mod exposition;
pub mod translation;
