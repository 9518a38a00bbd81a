//! Elementwise and reducing operations over arrays.

pub mod kernels;
pub mod loop_exec;
pub mod reduction;
