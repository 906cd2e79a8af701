//! The RC4 stream cipher: key scheduling and keystream generation over a
//! 256-byte permutation, with contracts stated over a mathematical model.
pub mod laws;
pub mod model;
pub mod rc4;

pub use rc4::{MAX_KEY_LEN, MIN_KEY_LEN, Rc4, Rc4Error};
