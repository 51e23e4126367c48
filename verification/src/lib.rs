//! SM2 public-key suite over a verified 256-bit modular-arithmetic engine.
//!
//! The crate is layered bottom-up: fixed-width 256-bit integers (`u256`),
//! modular arithmetic over an arbitrary modulus (`modular`), bit sequences
//! (`bytes`), the SM3 digest (`sm_3`), the short-Weierstrass curve group
//! (`ecc`), the SM2 protocols (`sm_2`), and the algebraic laws the whole
//! stack answers for (`laws`).

pub mod u256;
pub mod modular;
pub mod bytes;
pub mod sm_3;
pub mod ecc;
pub mod sm_2;
pub mod laws;

pub use u256::U256;
