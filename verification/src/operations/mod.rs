//! Operations on whole arrays, built on the elementwise loops.

pub mod arithmetic;
pub mod comparison;

pub use arithmetic::{add, multiply, subtract};
pub use comparison::{equal, greater, greater_equal, less, less_equal, not_equal};
