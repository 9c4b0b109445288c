//! Graph-based format-preserving encryption.
//!
//! Symbols drawn from a finite domain `[0, n)` are encrypted into the same
//! domain by keyed random walks over a d-regular graph.  The graph is
//! described by permutations sampled with an inverse riffle shuffle driven
//! by a block-cipher keystream.

pub mod crypt;
pub mod fpe;
pub mod graph;
pub mod irs;
pub mod perm;
pub mod prng;
