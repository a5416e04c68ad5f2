//! Exhaustive candidate enumeration over a fixed alphabet, plus the weak
//! rotate-and-xor hash the candidates are scored against.
//!
//! The heart of the crate is [`bruteforce_generator::BruteForceGenerator`], a
//! mixed-radix counter with carry propagation that walks every finite sequence
//! over a non-empty alphabet exactly once, in order of increasing length and,
//! within one length, in counting order with the rightmost position least
//! significant.

pub mod bruteforce_generator;
pub mod office_hash;
