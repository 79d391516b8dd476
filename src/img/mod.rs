//! Frames and the clock that stamps them.
pub mod clock;
pub mod frame;
