//! A fixed-capacity circular buffer.
//!
//! The buffer stores up to `N` elements in one contiguous allocation, with a
//! logical start offset and length tracked separately from physical storage.
//! Elements can be pushed and popped at both ends; when the buffer is full, a
//! push evicts the element at the opposite end, so the newest data always
//! survives.  The occupied region may wrap around the physical end of
//! storage, and `as_slices` exposes it as at most two contiguous views.

pub mod laws;
pub mod model;
pub mod ring;
pub mod stream;
