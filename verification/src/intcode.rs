//! The Intcode virtual machine: a small stored-program computer with sparse,
//! zero-extending memory, three parameter modes, FIFO input and output queues,
//! and suspension on input starvation; and the feedback ring that chains
//! several machines.
//!
//! Every executable function carries a contract stated over the mathematical
//! model in [`model`]; the laws that relate several operations are proved in
//! [`laws`].

pub mod word;
pub mod memory;
pub mod decode;
pub mod model;
pub mod machine;
pub mod laws;
pub mod pipeline;
pub mod permute;
pub mod amplifier;
pub mod image;
