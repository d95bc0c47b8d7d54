pub use basic::{BasicFunction, Component, Direction, Reversibility};
pub use block::{BasicBlock, BlockBranch, BlockTarget};
pub use branch::{Branch, Discriminant, Divergence};
pub use context::BasicContext;
pub use item::{Instance, Item};
pub use node::{BasicNode, NodeTarget};
pub use statement::{Compound, Location, Projection, Statement, Value};

pub mod basic;
pub mod block;
pub mod branch;
pub mod context;
pub mod item;
pub mod node;
pub mod statement;
pub mod value;
