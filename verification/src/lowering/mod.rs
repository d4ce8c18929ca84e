//! From expressions to SSA form.

pub mod admission;
pub mod correctness;
pub mod execution;
pub mod expression_converter;
pub mod fate;
pub mod forms;
pub mod frame;
pub mod growth;
pub mod laws;
pub mod meaning;
pub mod model;
pub mod replacement;
pub mod soundness;
pub mod stability;
pub mod travel;
pub mod type_converter;
