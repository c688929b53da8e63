//! Retrieval of the transactions that a range of blocks sends to one contract:
//! the filter that picks and normalizes them, the scheduler that bounds and
//! orders the fetches of the blocks, and the encodings of what was found.

pub mod numeric;
pub mod records;
pub mod filter;
pub mod range;
pub mod encode;
