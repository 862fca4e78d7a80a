//! Infix-to-postfix (Reverse Polish Notation) conversion by the
//! shunting-yard algorithm, with bracket matching and structured errors.
//!
//! `processor` holds the converter and the state machine that states what
//! it returns; `laws` and `syntax` prove what that output is: when it is
//! produced, which characters it keeps, and that it is the postfix form of
//! the expression's syntax tree. `service`, `args`, `arith` and `dims` hold
//! the logic of the remote endpoint and of the image tool.

pub mod args;
pub mod arith;
pub mod dims;
pub mod laws;
pub mod priority;
pub mod processor;
pub mod service;
pub mod syntax;
mod text;

pub use args::Args;
pub use dims::{get_smallest_dimension, FloatImage};
pub use arith::calculate;
pub use service::GrpcExpressionProcessorService;
pub use processor::{ExpressionProcessor, PostfixError, PostfixReversePolishNotation};
