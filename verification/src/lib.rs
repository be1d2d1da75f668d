//! A fixed-capacity, single-writer/multi-reader ring buffer.
//!
//! Writers push values into a circular store of fixed capacity, overwriting
//! the oldest value once the store is full.  Each reader holds its own
//! [`storage::ReaderId`] cursor and consumes the shared stream at its own
//! pace; a reader that falls more than a full buffer behind is told how much
//! data it lost instead of silently receiving stale values.

pub mod laws;
pub mod storage;
