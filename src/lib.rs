//! A software transactional memory engine after the TL2 algorithm: a fixed
//! striped memory with one versioned lock word per stripe, a global version
//! clock, and speculative write and read transactions.

pub mod memory;
pub mod transaction;
pub mod stm;
