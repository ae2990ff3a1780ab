//! Asynchronous block-I/O core of a virtual-machine monitor.
//!
//! The crate holds the decisions of the engine: request validation, alignment
//! fix-up through a bounce buffer, write-zeroes promotion, queueing, batching
//! and completion routing. It performs no system call itself. Every operation
//! that needs the host (a positional read, a backend submission, a completion
//! callback) is handed out as a value, and its outcome is handed back in.

pub mod bounce;
pub mod engine;
pub mod error;
pub mod file;
pub mod ideal;
pub mod iov;
pub mod mem;
pub mod misaligned;
pub mod names;
pub mod num_ops;
pub mod request;
pub mod stream;
pub mod sync;
pub mod trace;
