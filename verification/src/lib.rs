//! Bookkeeping core of an adaptive particle sampler for implicit surfaces.
//!
//! The crate keeps a cloud of oriented particles in two buffers of fixed
//! size, hands out and takes back the slots of those buffers, answers radius
//! queries over the particle positions through a kd-tree, grows the first
//! covering of a surface from a seed, and decides by the rules of relaxation
//! which particles die, split or move on. Positions are points of an integer
//! lattice, so every geometric predicate is exact; the arithmetic of the
//! surface itself is the caller's, and enters as functions that the caller
//! hands in.
//!
//! - [`geometry`]: points and vectors on the lattice.
//! - [`slots`], [`pool`], [`buffer_allocator`], [`surfaces::buffer_allocator`]:
//!   allocators of slot indices.
//! - [`spatial_indexer`]: the kd-tree and the interface of a spatial index.
//! - [`relaxation`]: the rules for death, fission and motion.
//! - [`surfaces::initial_sampling`]: the front that covers a surface.
//! - [`surfaces::live_sampling`], [`particle_system`]: the particle systems.
//! - [`sequences`]: facts about lists that the proofs share.

pub mod buffer_allocator;
pub mod geometry;
pub mod particle_system;
pub mod pool;
pub mod relaxation;
pub mod sequences;
pub mod slots;
pub mod spatial_indexer;
pub mod surfaces;
