//! Passes over the syntax tree that prepare it for lowering.

pub use error::ExpositionError;
pub use reverse::ReverseExposition;
pub use variable::VariableExposition;

pub mod error;
pub mod reverse;
pub mod variable;
