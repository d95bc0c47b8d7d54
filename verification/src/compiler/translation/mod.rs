pub use binary_operation::{binary_equality, binary_operation, binary_operator};
pub use conditional_loop::{loop_header, loop_suffix};
pub use element::{Element, Instruction};
pub use evaluation::Evaluation;
pub use function_call::{function_call_argument, function_call_arguments};
pub use function::{function_arguments, function_header, function_locals, function_return};
pub use function_context::FunctionContext;
pub use mutation::swap;
pub use storage::StorageTarget;
pub use translation_map::TranslationMap;
pub use when_conditional::{when_branch_labels, when_expressions};

pub mod binary_operation;
pub mod conditional_loop;
pub mod element;
pub mod evaluation;
pub mod function;
pub mod function_call;
pub mod mutation;
pub mod function_context;
pub mod storage;
pub mod translation_map;
pub mod when_conditional;
