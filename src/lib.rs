//! An unbalanced binary search tree with three traversal protocols, and a few
//! small routines beside it: a sum, deduplication, filtering, a prime sieve
//! and the moves of the Tower of Hanoi.
pub mod hanoi;
pub mod order;
pub mod primes;
pub mod seq_utils;
pub mod tree;

pub use hanoi::{hanoi, Move, Peg};
pub use primes::sieve;
pub use seq_utils::{dedup, filter, sum};
pub use tree::{IntoIter, Iter, IterMut, Node, BST};
