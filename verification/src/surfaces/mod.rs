//! Sampling of implicit surfaces with particles: the slot allocator of the
//! particle buffers, the front of the first covering, and the live system.

pub mod buffer_allocator;
pub mod initial_sampling;
pub mod live_sampling;
