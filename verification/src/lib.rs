//! An n-dimensional, typed array engine: shape algebra, broadcasting,
//! strided element access, elementwise and reduction operations, indexing.

pub mod array;
pub mod axes;
pub mod broadcasting;
pub mod concatenation;
pub mod indexing;
pub mod layout;
pub mod masked;
pub mod memory;
pub mod operations;
pub mod scalar;
pub mod shape;
pub mod structured;
pub mod types;
pub mod ufunc;

pub use array::{empty, ones, zeros};
