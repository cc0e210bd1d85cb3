//! What the library promises as a whole, said of inputs and results.

pub mod clock;
pub mod commands;
pub mod evaluation;
pub mod exchange;
pub mod hashes;
pub mod memory;
pub mod nodes;
pub mod openings;
pub mod ordering;
pub mod protocol;
pub mod pruning;
pub mod quiescence;
pub mod root;
pub mod runs;
pub mod search;
pub mod training;
