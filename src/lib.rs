//! A fixed-capacity block buffer cache.
//!
//! Each registered device owns a small pool of equally sized slots, each one
//! mirroring an aligned window of the device. Reads and writes over arbitrary
//! byte ranges are served from those slots, window after window. When no slot
//! holds a window, the access stops and says so; the caller then asks the pool
//! for a slot to reuse (the one with the smallest rank counter), writes back
//! what that slot holds if it is dirty, loads the window into it, and carries
//! on from where the access stopped. The device transport itself stays with
//! the caller.

pub mod buffer;
pub mod cache;
pub mod laws;
pub mod require;

pub use buffer::{Buffer, CopyResult, Flush};
pub use cache::{Access, Cache, Device, Refill, Transfer};
pub use require::CacheBuffer;
