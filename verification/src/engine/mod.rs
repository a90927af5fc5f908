//! The copy engine's pure parts: hash algorithms and values, and what a read-back
//! verification concludes.

pub mod hasher;
pub mod stream;
pub mod verify;
pub mod pipeline;
