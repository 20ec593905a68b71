//! Compiled kernels: tape subexpressions compiled to straight-line WGSL.
//!
//! By default, every GPU stage evaluates shapes with a tape interpreter: a loop
//! around a `switch` on the opcode, with values stored in a register array.  A
//! **kernel** is a subexpression which is instead compiled into a WGSL function,
//! with one `let` binding per operation.
//!
//! Kernels are declared by wrapping a tree with [`Kernels::compile`], which
//! returns a *placeholder* tree to use in its place, or by splitting a tree with
//! [`Kernels::compile_leaves`].  [`KernelProgram::build`] then turns the kernels
//! that a shape uses into WGSL source.
//!
//! - A kernel is a pure function of the evaluation point.  It is evaluated with
//!   exactly the same operation definitions as the interpreter, so compiled and
//!   interpreted evaluation agree: see [`tape`] and [`machine`].
//! - The source of a kernel, read back, is the code of its tape, and a program
//!   hands out for each placeholder what its kernel gives: see [`meaning`] and
//!   [`dispatch`].
//! - In the enclosing tape, a kernel behaves like an input variable.
//! - Splitting a tree does not change the function, and takes all that can be
//!   compiled: see [`split`] and [`selection`].
//! - Kernels may only use the `X`, `Y`, and `Z` axes (not other variables).
//! - Register spills are resolved at compile time.

pub mod context;
pub mod dispatch;
pub mod error;
pub mod expr;
pub mod faithful;
pub mod files;
pub mod gallery;
pub mod kernels;
pub mod leaves;
pub mod machine;
pub mod meaning;
pub mod model;
pub mod notation;
pub mod opcode;
pub mod outside;
pub mod pipeline;
pub mod program;
pub mod reading;
pub mod rebuild;
pub mod selection;
pub mod signature;
pub mod split;
pub mod tape;
pub mod text;
pub mod trace;
pub mod wgsl;

pub use error::{KernelError, RenderShapeError, Variable};
pub use kernels::Kernels;
pub use program::{kernel_source, KernelProgram, KERNEL_STUB};
pub use wgsl::compile_function;
