//! Square-matrix multiplication under four execution strategies, with the
//! scheduling model of the worker pool that the parallel strategies use.

pub mod benchmark;
pub mod cli;
pub mod matrix_multiplication;
pub mod thread_pool;
