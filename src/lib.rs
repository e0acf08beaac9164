//! A small stack-language interpreter: whitespace-separated tokens are resolved
//! against a dictionary of words (or read as `i32` literals) and evaluated
//! against a single data stack. `:` ... `;` defines a procedure, whose tokens are
//! resolved again each time it runs; `if` ... `else` ... `then` chooses a branch.
//!
//! Evaluation is described step by step in `model`; `Runtime::eval` is proved to
//! give exactly the result and the state that `model::evaluation` describes.
pub mod text;
pub mod model;
pub mod runtime;
pub mod stdlib;
pub mod laws;

pub use model::{Builtin, STEP_LIMIT};
pub use runtime::{ForthError, Runtime, Word};
pub use stdlib::register_stdlib;
