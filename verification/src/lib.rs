//! Proof-of-work solver for Friendly Captcha puzzles, built on a Blake2b
//! compression function whose behaviour is stated and proved.

pub mod blake2b_simd;
pub mod solver;

pub use blake2b_simd::Blake2bSimdContext;
pub use solver::Solver;
