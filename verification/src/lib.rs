//! Lowering of a monomorphized Noir program: expressions to SSA form, program inputs to
//! ABI order, function calls of the tree-walking interpreter, and the drivers around them.

pub mod abi_helpers;
pub mod api;
pub mod ast;
pub mod ast_interpreter;
pub mod field;
pub mod lowering;
pub mod lowlevel_replacement;
pub mod ssa;
pub mod text;
pub mod text_map;
