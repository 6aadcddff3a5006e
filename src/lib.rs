//! A batched implementation of the ICE (Information Concealment Engine)
//! block cipher, with a dispatcher that picks a batch width from the buffer
//! length and runs batches serially or on a worker pool.
//!
//! ICE is a dated 64-bit block cipher and is not secure by modern standards.
pub mod block;
pub mod cipher;
pub mod dispatch;
pub mod engine;
pub mod field;
pub mod keysched;
pub mod laws;
pub mod sbox;

pub use cipher::Ice;
pub use cipher::IceKeyStruct;
pub use keysched::IceSubkey;
