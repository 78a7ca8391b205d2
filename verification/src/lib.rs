//! Counting line terminators in byte buffers.
//!
//! The count of a buffer is the number of its bytes that equal the line feed.
//! Every strategy offered here, whether it scans a whole view at once, block by
//! block, or chunk by chunk, is proved to return exactly that number.

pub mod chunk;
pub mod error;
pub mod lines;
pub mod parallel;
pub mod scan;
pub mod strategy;
pub mod stream;
